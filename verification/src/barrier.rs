//! The reuse barrier of one ring slot: a countdown of the consumers that have
//! not yet drained the slot's latest fill.
//!
//! `pending() == 0` means the slot is fully drained and the producer may
//! overwrite it; `pending() == consumers()` means a fresh fill that no
//! consumer has taken yet. The surrounding program holds one such barrier per
//! slot under a mutex, blocks on a condition variable while the tested side
//! is not ready, wakes every consumer after [`ReuseBarrier::publish`], and
//! wakes the single producer when [`ReuseBarrier::take`] reports the last
//! drain.

use vstd::prelude::*;

verus! {

/// Countdown gate between one producer and a fixed number of consumers.
pub struct ReuseBarrier {
    pending_writes: usize,
    num_consumers: usize,
}

impl ReuseBarrier {
    /// Consumers that still have to drain the latest fill.
    pub closed spec fn pending(&self) -> int {
        self.pending_writes as int
    }

    /// The fixed number of consumers sharing the barrier.
    pub closed spec fn consumers(&self) -> int {
        self.num_consumers as int
    }

    /// The count never exceeds the number of consumers.
    pub open spec fn wf(&self) -> bool {
        &&& 1 <= self.consumers()
        &&& 0 <= self.pending() <= self.consumers()
    }

    /// A fresh barrier for `consumers` consumers, with nothing pending: the
    /// slot starts out writable by the producer.
    pub fn new(consumers: usize) -> (r: Self)
        requires
            consumers >= 1,
        ensures
            r.wf(),
            r.consumers() == consumers,
            r.pending() == 0,
    {
        ReuseBarrier { pending_writes: 0, num_consumers: consumers }
    }

    /// Producer acquire test: the slot may be overwritten only once every
    /// consumer has drained it.
    pub fn ready_for_fill(&self) -> (r: bool)
        ensures
            r == (self.pending() == 0),
    {
        self.pending_writes == 0
    }

    /// Consumer acquire test: fresh data is present while some consumer has
    /// not yet drained it.
    pub fn ready_for_drain(&self) -> (r: bool)
        ensures
            r == (self.pending() > 0),
    {
        self.pending_writes > 0
    }

    /// Producer release after a fill: every consumer now owes one drain. The
    /// caller must wake all waiters, since every consumer may be blocked
    /// waiting for fresh data.
    pub fn publish(&mut self)
        requires
            old(self).wf(),
            old(self).pending() == 0,
        ensures
            final(self).wf(),
            final(self).consumers() == old(self).consumers(),
            final(self).pending() == final(self).consumers(),
    {
        self.pending_writes = self.num_consumers;
    }

    /// Consumer acquire: records one drain and reports whether it was the
    /// last one, in which case the caller wakes one waiter — only the single
    /// producer can be blocked waiting for the count to reach zero.
    pub fn take(&mut self) -> (last: bool)
        requires
            old(self).wf(),
            old(self).pending() > 0,
        ensures
            final(self).wf(),
            final(self).consumers() == old(self).consumers(),
            final(self).pending() == old(self).pending() - 1,
            last == (final(self).pending() == 0),
    {
        self.pending_writes = self.pending_writes - 1;
        self.pending_writes == 0
    }

    /// Executable view of the pending count, for callers outside the proof.
    pub fn pending_count(&self) -> (r: usize)
        ensures
            r as int == self.pending(),
    {
        self.pending_writes
    }

    /// Executable view of the consumer count.
    pub fn consumer_count(&self) -> (r: usize)
        ensures
            r as int == self.consumers(),
    {
        self.num_consumers
    }
}

} // verus!
