//! Verified core of a ring-buffered fan-out pipeline: one producer fills a
//! fixed ring of block-aligned buffers from a source stream, and K consumers
//! each drain every buffer, in ring order, to their own destination.
//!
//! The modules hold the data model (`buf4k`), the per-slot reuse barrier that
//! gates producer and consumers (`barrier`), and a step-by-step model of the
//! whole pipeline with its safety and progress laws (`pipeline`).

pub mod barrier;
pub mod buf4k;
pub mod pipeline;
