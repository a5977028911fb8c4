//! Step-by-step model of the ring-buffered fan-out pipeline.
//!
//! One producer fills a ring of `n` slots from a chunked source, in ring
//! order; `k` consumers each drain every slot, in the same order, to their
//! own output. A per-slot pending count gates reuse: a slot is refilled only
//! once every consumer has drained its latest fill, and drained only while a
//! fill is outstanding. The laws at the end of the module state the safety,
//! backpressure and progress guarantees of the protocol.

use vstd::arithmetic::div_mod::{
    lemma_fundamental_div_mod, lemma_mod_division_less_than_divisor,
    lemma_mod_multiples_basic, lemma_mod_sub_multiples_vanish, lemma_small_mod,
};
use vstd::prelude::*;

use crate::buf4k::{Buf4K, BLOCK_SIZE};

verus! {

/// The contents of a chunked byte stream, chunk by chunk.
pub open spec fn chunk_views(source: Seq<Vec<u8>>) -> Seq<Seq<u8>> {
    source.map_values(|c: Vec<u8>| c@)
}

/// Concatenation of the first `count` chunks of a stream, in order.
pub open spec fn stream_prefix(chunks: Seq<Seq<u8>>, count: int) -> Seq<u8>
    decreases count,
{
    if count <= 0 {
        Seq::empty()
    } else {
        stream_prefix(chunks, count - 1) + chunks[count - 1]
    }
}

/// How many cursors have not yet moved past fill number `t`.
pub open spec fn count_le(cursors: Seq<usize>, t: int) -> int
    decreases cursors.len(),
{
    if cursors.len() == 0 {
        0
    } else {
        count_le(cursors.drop_last(), t) + if cursors.last() <= t {
            1int
        } else {
            0int
        }
    }
}

proof fn lemma_count_le_bounds(cursors: Seq<usize>, t: int)
    ensures
        0 <= count_le(cursors, t) <= cursors.len(),
    decreases cursors.len(),
{
    if cursors.len() > 0 {
        lemma_count_le_bounds(cursors.drop_last(), t);
    }
}

proof fn lemma_count_le_all(cursors: Seq<usize>, t: int)
    requires
        forall|j: int| 0 <= j < cursors.len() ==> #[trigger] cursors[j] <= t,
    ensures
        count_le(cursors, t) == cursors.len(),
    decreases cursors.len(),
{
    if cursors.len() > 0 {
        lemma_count_le_all(cursors.drop_last(), t);
    }
}

proof fn lemma_count_le_none(cursors: Seq<usize>, t: int)
    requires
        forall|j: int| 0 <= j < cursors.len() ==> #[trigger] cursors[j] > t,
    ensures
        count_le(cursors, t) == 0,
    decreases cursors.len(),
{
    if cursors.len() > 0 {
        lemma_count_le_none(cursors.drop_last(), t);
    }
}

proof fn lemma_count_le_pos(cursors: Seq<usize>, t: int, j: int)
    requires
        0 <= j < cursors.len(),
        cursors[j] <= t,
    ensures
        count_le(cursors, t) >= 1,
    decreases cursors.len(),
{
    lemma_count_le_bounds(cursors.drop_last(), t);
    if j < cursors.len() - 1 {
        lemma_count_le_pos(cursors.drop_last(), t, j);
    }
}

proof fn lemma_count_le_update(cursors: Seq<usize>, t: int, j: int, w: usize)
    requires
        0 <= j < cursors.len(),
    ensures
        count_le(cursors.update(j, w), t) == count_le(cursors, t) - (if cursors[j] <= t {
            1int
        } else {
            0int
        }) + (if w <= t {
            1int
        } else {
            0int
        }),
    decreases cursors.len(),
{
    let updated = cursors.update(j, w);
    if j == cursors.len() - 1 {
        assert(updated.drop_last() =~= cursors.drop_last());
        assert(updated.last() == w);
    } else {
        assert(updated.drop_last() =~= cursors.drop_last().update(j, w));
        lemma_count_le_update(cursors.drop_last(), t, j, w);
        assert(updated.last() == cursors.last());
    }
}

/// Step-by-step model of the pipeline: the producer and each consumer
/// advance one chunk at a time, gated exactly as the reuse barrier gates the
/// running threads. Any interleaving of [`Pipeline::producer_step`] and
/// [`Pipeline::consumer_step`] calls preserves [`Pipeline::wf`], whose
/// consequences are the module's laws.
pub struct Pipeline {
    /// Source stream, one fixed-size chunk per element.
    source: Vec<Vec<u8>>,
    /// Bytes per chunk: a whole number of blocks.
    chunk_size: usize,
    /// The ring slots' buffers.
    bufs: Vec<Buf4K>,
    /// Per-slot pending count: consumers that still must drain the latest
    /// fill of the slot.
    pending: Vec<usize>,
    /// Fill number each slot currently holds, or -1 before its first fill.
    fills: Ghost<Seq<int>>,
    /// Chunks the producer has filled so far.
    filled: usize,
    /// Per-consumer count of chunks drained so far.
    cursors: Vec<usize>,
    /// Per-consumer drained bytes, in drain order.
    outputs: Vec<Vec<u8>>,
}

impl Pipeline {
    /// Number of ring slots.
    pub closed spec fn ring_size(&self) -> int {
        self.bufs@.len() as int
    }

    /// Number of consumers.
    pub closed spec fn consumers(&self) -> int {
        self.cursors@.len() as int
    }

    /// The source stream, chunk by chunk.
    pub closed spec fn source_stream(&self) -> Seq<Seq<u8>> {
        chunk_views(self.source@)
    }

    /// Number of chunks in the source.
    pub open spec fn source_len(&self) -> int {
        self.source_stream().len() as int
    }

    /// Bytes per chunk.
    pub closed spec fn chunk_len(&self) -> int {
        self.chunk_size as int
    }

    /// Chunks the producer has filled so far.
    pub closed spec fn produced(&self) -> int {
        self.filled as int
    }

    /// Chunks consumer `j` has drained so far.
    pub closed spec fn drained(&self, j: int) -> int {
        self.cursors@[j] as int
    }

    /// Everything consumer `j` has written to its destination, in order.
    pub closed spec fn output(&self, j: int) -> Seq<u8> {
        self.outputs@[j]@
    }

    /// Consumers that still must drain the latest fill of slot `s`.
    pub closed spec fn pending_at(&self, s: int) -> int {
        self.pending@[s] as int
    }

    /// Fill number slot `s` currently holds, or -1 before its first fill.
    pub closed spec fn fill_at(&self, s: int) -> int {
        self.fills@[s]
    }

    /// The bytes slot `s` currently holds.
    pub closed spec fn slot_content(&self, s: int) -> Seq<u8> {
        self.bufs@[s]@
    }

    /// The producer may fill the next chunk: source not exhausted, and every
    /// consumer has drained the latest fill of the slot that is next in ring
    /// order.
    pub open spec fn producer_enabled(&self) -> bool {
        &&& self.produced() < self.source_len()
        &&& self.pending_at(self.produced() % self.ring_size()) == 0
    }

    /// Consumer `j` may drain the next chunk: the producer has filled it.
    pub open spec fn consumer_enabled(&self, j: int) -> bool {
        self.drained(j) < self.produced()
    }

    /// The run is complete: the source is exhausted and every consumer has
    /// drained the final chunk.
    pub open spec fn done(&self) -> bool {
        &&& self.produced() == self.source_len()
        &&& forall|j: int| 0 <= j < self.consumers() ==> self.drained(j) == self.source_len()
    }

    /// The pipeline invariant, established by [`Pipeline::new`] and preserved
    /// by every step.
    pub closed spec fn wf(&self) -> bool {
        let n = self.bufs@.len() as int;
        let k = self.cursors@.len() as int;
        let f = self.filled as int;
        let l = self.source@.len() as int;
        &&& 1 <= n
        &&& 1 <= k
        &&& self.pending@.len() == n
        &&& self.fills@.len() == n
        &&& self.outputs@.len() == k
        &&& self.chunk_size as int % (BLOCK_SIZE as int) == 0
        &&& f <= l
        &&& forall|i: int|
            0 <= i < l ==> (#[trigger] self.source@[i])@.len() == self.chunk_size as int
        &&& forall|s: int|
            0 <= s < n ==> (#[trigger] self.bufs@[s])@.len() == self.chunk_size as int
        &&& forall|j: int| 0 <= j < k ==> #[trigger] self.cursors@[j] as int <= f
        &&& forall|j: int| 0 <= j < k ==> f <= #[trigger] self.cursors@[j] as int + n
        &&& forall|s: int| 0 <= s < n ==> -1 <= #[trigger] self.fills@[s] < f
        &&& forall|s: int| 0 <= s < n ==> ((#[trigger] self.fills@[s]) >= 0 <==> s < f)
        &&& forall|s: int|
            0 <= s < n && #[trigger] self.fills@[s] >= 0 ==> {
                let t = self.fills@[s];
                &&& t % n == s
                &&& f <= t + n
                &&& self.bufs@[s]@ == (self.source@[t])@
            }
        &&& forall|s: int|
            0 <= s < n ==> #[trigger] self.pending@[s] as int == (if self.fills@[s] >= 0 {
                count_le(self.cursors@, self.fills@[s])
            } else {
                0int
            })
        &&& forall|j: int|
            0 <= j < k ==> (#[trigger] self.outputs@[j])@ == stream_prefix(
                chunk_views(self.source@),
                self.cursors@[j] as int,
            )
    }

    /// A fresh pipeline: nothing filled, nothing drained, the ring zeroed.
    pub fn new(source: Vec<Vec<u8>>, ring_slots: usize, consumers: usize, blocks_per_chunk: usize) -> (r: Self)
        requires
            ring_slots >= 1,
            consumers >= 1,
            blocks_per_chunk * (BLOCK_SIZE as int) <= usize::MAX,
            forall|i: int|
                0 <= i < source@.len() ==> (#[trigger] source@[i])@.len() == blocks_per_chunk * (
                BLOCK_SIZE as int),
        ensures
            r.wf(),
            r.ring_size() == ring_slots,
            r.consumers() == consumers,
            r.source_stream() == chunk_views(source@),
            r.chunk_len() == blocks_per_chunk * (BLOCK_SIZE as int),
            r.produced() == 0,
            forall|j: int| 0 <= j < consumers ==> r.drained(j) == 0,
            forall|j: int| 0 <= j < consumers ==> r.output(j) == Seq::<u8>::empty(),
            forall|s: int| 0 <= s < ring_slots ==> r.pending_at(s) == 0,
            forall|s: int| 0 <= s < ring_slots ==> r.fill_at(s) == -1,
    {
        let chunk_size = blocks_per_chunk * BLOCK_SIZE;
        let mut bufs: Vec<Buf4K> = Vec::new();
        let mut pending: Vec<usize> = Vec::new();
        while bufs.len() < ring_slots
            invariant
                bufs@.len() == pending@.len() <= ring_slots,
                blocks_per_chunk * (BLOCK_SIZE as int) <= usize::MAX,
                chunk_size == blocks_per_chunk * (BLOCK_SIZE as int),
                forall|s: int|
                    0 <= s < bufs@.len() ==> (#[trigger] bufs@[s])@.len() == chunk_size as int,
                forall|s: int| 0 <= s < pending@.len() ==> #[trigger] pending@[s] == 0usize,
            decreases ring_slots - bufs@.len(),
        {
            bufs.push(Buf4K::new(blocks_per_chunk));
            pending.push(0);
        }
        let mut cursors: Vec<usize> = Vec::new();
        let mut outputs: Vec<Vec<u8>> = Vec::new();
        while cursors.len() < consumers
            invariant
                cursors@.len() == outputs@.len() <= consumers,
                forall|j: int| 0 <= j < cursors@.len() ==> #[trigger] cursors@[j] == 0usize,
                forall|j: int| 0 <= j < outputs@.len() ==> (#[trigger] outputs@[j])@.len() == 0,
            decreases consumers - cursors@.len(),
        {
            cursors.push(0);
            outputs.push(Vec::new());
        }
        let fills: Ghost<Seq<int>> = Ghost(Seq::new(ring_slots as nat, |s: int| -1));
        let r = Pipeline { source, chunk_size, bufs, pending, fills, filled: 0, cursors, outputs };
        proof {
            lemma_mod_multiples_basic(blocks_per_chunk as int, BLOCK_SIZE as int);
            assert forall|j: int| 0 <= j < consumers implies (#[trigger] r.outputs@[j])@
                == stream_prefix(chunk_views(r.source@), r.cursors@[j] as int) by {
                assert(r.outputs@[j]@ =~= Seq::<u8>::empty());
            }
        }
        r
    }

    /// Number of chunks the producer has filled so far.
    pub fn produced_count(&self) -> (r: usize)
        ensures
            r as int == self.produced(),
    {
        self.filled
    }

    /// Number of chunks consumer `j` has drained so far.
    pub fn drained_count(&self, j: usize) -> (r: usize)
        requires
            (j as int) < self.consumers(),
        ensures
            r as int == self.drained(j as int),
    {
        self.cursors[j]
    }

    /// Everything consumer `j` has written to its destination so far.
    pub fn output_bytes(&self, j: usize) -> (r: &Vec<u8>)
        requires
            self.wf(),
            (j as int) < self.consumers(),
        ensures
            r@ == self.output(j as int),
    {
        &self.outputs[j]
    }

    /// Whether the run is complete: source exhausted and every consumer done.
    pub fn is_done(&self) -> (r: bool)
        requires
            self.wf(),
        ensures
            r == self.done(),
    {
        if self.filled != self.source.len() {
            return false;
        }
        let k = self.cursors.len();
        let mut j: usize = 0;
        while j < k
            invariant
                j <= k,
                k as int == self.consumers(),
                self.produced() == self.source_len(),
                forall|i: int| 0 <= i < j ==> self.drained(i) == self.source_len(),
            decreases k - j,
        {
            if self.cursors[j] != self.filled {
                proof {
                    assert(self.drained(j as int) != self.produced());
                }
                return false;
            }
            j = j + 1;
        }
        true
    }

    /// One producer step: the producer's acquire-fill-release protocol without the blocking. If the
    /// slot next in ring order is fully drained and the source is not
    /// exhausted, fill the slot with the next source chunk and hand it to all
    /// consumers; otherwise report that the producer would stall. The fill
    /// happens only while no consumer is pending on the slot, and it replaces
    /// exactly the one fill every consumer has already drained.
    pub fn producer_step(&mut self) -> (progressed: bool)
        requires
            old(self).wf(),
        ensures
            final(self).wf(),
            final(self).ring_size() == old(self).ring_size(),
            final(self).consumers() == old(self).consumers(),
            final(self).source_stream() == old(self).source_stream(),
            final(self).chunk_len() == old(self).chunk_len(),
            forall|j: int|
                0 <= j < old(self).consumers() ==> final(self).drained(j) == old(self).drained(j),
            forall|j: int|
                0 <= j < old(self).consumers() ==> final(self).output(j) == old(self).output(j),
            progressed == old(self).producer_enabled(),
            progressed ==> {
                let slot = old(self).produced() % old(self).ring_size();
                &&& final(self).produced() == old(self).produced() + 1
                &&& final(self).slot_content(slot) == old(self).source_stream()[old(
                    self,
                ).produced()]
                &&& final(self).pending_at(slot) == old(self).consumers()
                &&& final(self).fill_at(slot) == old(self).produced()
                &&& forall|j: int|
                    0 <= j < old(self).consumers() ==> old(self).drained(j) + old(
                        self,
                    ).ring_size() > old(self).produced()
                &&& forall|s: int|
                    0 <= s < old(self).ring_size() && s != slot ==> final(self).pending_at(s)
                        == old(self).pending_at(s) && final(self).slot_content(s) == old(
                        self,
                    ).slot_content(s) && final(self).fill_at(s) == old(self).fill_at(s)
            },
            !progressed ==> *final(self) == *old(self),
    {
        let n = self.bufs.len();
        if self.filled == self.source.len() {
            return false;
        }
        let slot = self.filled % n;
        proof {
            lemma_mod_division_less_than_divisor(self.filled as int, n as int);
        }
        if self.pending[slot] != 0 {
            return false;
        }
        let ghost f = self.filled as int;
        let ghost ni = n as int;
        let ghost sloti = slot as int;
        let ghost prev = self.fills@[sloti];
        proof {
            // Every consumer has drained the fill this slot last held, so the
            // producer is at most a full ring ahead of each of them.
            if prev >= 0 {
                assert forall|j: int| 0 <= j < self.cursors@.len() implies f + 1
                    <= #[trigger] self.cursors@[j] as int + ni by {
                    if self.cursors@[j] as int <= prev {
                        lemma_count_le_pos(self.cursors@, prev, j);
                    }
                }
            } else {
                // The slot was never filled, so fewer than `n` chunks exist.
                assert(f <= sloti < ni);
            }
        }
        let b = Buf4K::from_bytes(&self.source[self.filled]);
        self.bufs.set(slot, b);
        let consumers = self.cursors.len();
        self.pending.set(slot, consumers);
        self.fills = Ghost(self.fills@.update(sloti, f));
        self.filled = self.filled + 1;
        proof {
            lemma_count_le_all(self.cursors@, f);
            if f < ni {
                lemma_small_mod(f as nat, n as nat);
            }
            assert(sloti <= f);
            // A slot other than `sloti` cannot hold fill `f - n`: that fill
            // number is congruent to `sloti`.
            lemma_mod_sub_multiples_vanish(f, ni);
            assert forall|s: int|
                0 <= s < ni && s != sloti && #[trigger] self.fills@[s] >= 0 implies f + 1
                <= self.fills@[s] + ni by {
                if self.fills@[s] == f - ni {
                    assert(self.fills@[s] % ni == (f - ni) % ni == f % ni);
                }
            }
            assert(self.wf());
        }
        true
    }

    /// One step of consumer `j`: the consumer's acquire-drain protocol without the blocking.
    /// If a fill this consumer has not yet drained is outstanding, drain the
    /// slot next in its ring order — append the slot's bytes to the
    /// consumer's output and release the slot once — and otherwise report
    /// that the consumer would stall. The bytes taken are exactly the fill
    /// the consumer was due: never a later fill, never an overwritten one.
    pub fn consumer_step(&mut self, j: usize) -> (progressed: bool)
        requires
            old(self).wf(),
            (j as int) < old(self).consumers(),
        ensures
            final(self).wf(),
            final(self).ring_size() == old(self).ring_size(),
            final(self).consumers() == old(self).consumers(),
            final(self).source_stream() == old(self).source_stream(),
            final(self).chunk_len() == old(self).chunk_len(),
            final(self).produced() == old(self).produced(),
            forall|i: int|
                0 <= i < old(self).consumers() && i != j ==> final(self).drained(i) == old(
                    self,
                ).drained(i) && final(self).output(i) == old(self).output(i),
            forall|s: int|
                0 <= s < old(self).ring_size() ==> final(self).slot_content(s) == old(
                    self,
                ).slot_content(s) && final(self).fill_at(s) == old(self).fill_at(s),
            progressed == old(self).consumer_enabled(j as int),
            progressed ==> {
                let c = old(self).drained(j as int);
                let slot = c % old(self).ring_size();
                &&& final(self).drained(j as int) == c + 1
                &&& old(self).pending_at(slot) > 0
                &&& old(self).fill_at(slot) == c
                &&& old(self).slot_content(slot) == old(self).source_stream()[c]
                &&& final(self).output(j as int) == old(self).output(j as int) + old(
                    self,
                ).source_stream()[c]
                &&& final(self).pending_at(slot) == old(self).pending_at(slot) - 1
                &&& forall|s: int|
                    0 <= s < old(self).ring_size() && s != slot ==> final(self).pending_at(s)
                        == old(self).pending_at(s)
            },
            !progressed ==> *final(self) == *old(self),
    {
        let n = self.bufs.len();
        let c = self.cursors[j];
        if c == self.filled {
            return false;
        }
        let slot = c % n;
        let ghost ci = c as int;
        let ghost ni = n as int;
        let ghost sloti = slot as int;
        proof {
            lemma_mod_division_less_than_divisor(ci, ni);
            if ci < ni {
                lemma_small_mod(c as nat, n as nat);
            }
            assert(sloti <= ci);
            // The slot next in this consumer's order holds exactly the fill
            // it is due: fill numbers in the slot agree with `c` modulo `n`
            // and lie within one ring length of it.
            assert(self.fills@[sloti] >= 0);
            lemma_mod_window(self.fills@[sloti], ci, ni);
            assert(self.fills@[sloti] == ci);
            lemma_count_le_pos(self.cursors@, ci, j as int);
        }
        let p = self.pending[slot];
        self.pending.set(slot, p - 1);
        let newout = append_chunk(&self.outputs[j], &self.bufs[slot]);
        self.outputs.set(j, newout);
        self.cursors.set(j, c + 1);
        proof {
            lemma_count_le_update(old(self).cursors@, ci, j as int, (c + 1) as usize);
            assert forall|s: int|
                0 <= s < ni && s != sloti && #[trigger] self.fills@[s] >= 0 implies count_le(
                self.cursors@,
                self.fills@[s],
            ) == count_le(old(self).cursors@, self.fills@[s]) by {
                assert(self.fills@[s] % ni == s);
                assert(self.fills@[s] != ci);
                lemma_count_le_update(old(self).cursors@, self.fills@[s], j as int, (c + 1) as usize);
            }
            assert(self.outputs@[j as int]@ =~= stream_prefix(
                chunk_views(self.source@),
                ci + 1,
            ));
            assert(self.wf());
        }
        true
    }

    /// Drives a fresh pipeline to completion, one fill then one drain per
    /// consumer at a time, proving that neither side ever stalls under that
    /// schedule: an error-free run terminates, and only after every consumer
    /// has drained the final chunk.
    pub fn run(&mut self)
        requires
            old(self).wf(),
            old(self).produced() == 0,
            forall|j: int| 0 <= j < old(self).consumers() ==> old(self).drained(j) == 0,
        ensures
            final(self).wf(),
            final(self).done(),
            final(self).ring_size() == old(self).ring_size(),
            final(self).consumers() == old(self).consumers(),
            final(self).source_stream() == old(self).source_stream(),
            forall|j: int|
                0 <= j < final(self).consumers() ==> final(self).output(j) == stream_prefix(
                    final(self).source_stream(),
                    final(self).source_len(),
                ),
    {
        let l = self.source.len();
        let k = self.cursors.len();
        let mut t: usize = 0;
        while t < l
            invariant
                self.wf(),
                t <= l,
                l as int == self.source_len(),
                k as int == self.consumers(),
                self.produced() == t as int,
                forall|j: int| 0 <= j < k ==> self.drained(j) == t as int,
                self.source_stream() == old(self).source_stream(),
                self.ring_size() == old(self).ring_size(),
                self.consumers() == old(self).consumers(),
            decreases l - t,
        {
            proof {
                let ni = self.ring_size();
                let sloti = (t as int) % ni;
                lemma_mod_division_less_than_divisor(t as int, ni);
                if self.fills@[sloti] >= 0 {
                    assert forall|i: int|
                        0 <= i < self.cursors@.len() implies #[trigger] self.cursors@[i]
                        > self.fills@[sloti] by {
                        assert(self.drained(i) == t as int);
                    }
                    lemma_count_le_none(self.cursors@, self.fills@[sloti]);
                }
                assert(self.producer_enabled());
            }
            let filled_now = self.producer_step();
            assert(filled_now);
            let mut j: usize = 0;
            while j < k
                invariant
                    self.wf(),
                    j <= k,
                    t < l,
                    l as int == self.source_len(),
                    k as int == self.consumers(),
                    self.produced() == t + 1,
                    forall|i: int| 0 <= i < j ==> self.drained(i) == t + 1,
                    forall|i: int| j <= i < k ==> self.drained(i) == t as int,
                    self.source_stream() == old(self).source_stream(),
                    self.ring_size() == old(self).ring_size(),
                    self.consumers() == old(self).consumers(),
                decreases k - j,
            {
                let drained_now = self.consumer_step(j);
                assert(drained_now);
                j = j + 1;
            }
            t = t + 1;
        }
        proof {
            assert forall|j: int| 0 <= j < self.consumers() implies self.output(j)
                == stream_prefix(self.source_stream(), self.source_len()) by {
                assert(self.drained(j) == l as int);
                assert(self.outputs@[j]@ == stream_prefix(
                    chunk_views(self.source@),
                    self.cursors@[j] as int,
                ));
            }
        }
    }
}

/// Safety of reuse: whenever the producer is enabled to overwrite the slot
/// next in ring order, no consumer is still pending on it — every consumer
/// has already drained the fill the slot currently holds.
pub proof fn lemma_fill_only_when_drained(p: &Pipeline)
    requires
        p.wf(),
        p.producer_enabled(),
        p.fill_at(p.produced() % p.ring_size()) >= 0,
    ensures
        forall|j: int|
            0 <= j < p.consumers() ==> p.fill_at(p.produced() % p.ring_size()) < p.drained(j),
{
    let sloti = p.produced() % p.ring_size();
    lemma_mod_division_less_than_divisor(p.produced(), p.ring_size());
    assert forall|j: int| 0 <= j < p.consumers() implies p.fill_at(sloti) < p.drained(j) by {
        if p.drained(j) <= p.fill_at(sloti) {
            lemma_count_le_pos(p.cursors@, p.fill_at(sloti), j);
        }
    }
}

/// Fan-out agreement: two consumers that have drained equally many chunks
/// have received exactly the same byte sequence, whatever the interleaving.
pub proof fn lemma_fanout_agreement(p: &Pipeline, i: int, j: int)
    requires
        p.wf(),
        0 <= i < p.consumers(),
        0 <= j < p.consumers(),
        p.drained(i) == p.drained(j),
    ensures
        p.output(i) == p.output(j),
{
}

/// Lossless, order-preserving fan-out: in every reachable state, what a
/// consumer has written so far is exactly the first `drained(j)` chunks of
/// the source, concatenated in order — no gap, no duplicate, no reorder,
/// whatever the interleaving of steps that led here.
pub proof fn lemma_output_is_source_prefix(p: &Pipeline, j: int)
    requires
        p.wf(),
        0 <= j < p.consumers(),
    ensures
        p.output(j) == stream_prefix(p.source_stream(), p.drained(j)),
{
}

/// Round trip: a consumer that has drained the whole source has written out
/// exactly the source bytes, in order, with no gaps and no duplication.
pub proof fn lemma_round_trip(p: &Pipeline, j: int)
    requires
        p.wf(),
        0 <= j < p.consumers(),
        p.drained(j) == p.source_len(),
    ensures
        p.output(j) == stream_prefix(p.source_stream(), p.source_len()),
{
}

/// Backpressure: the producer is never more than one ring length ahead of
/// any consumer, and never behind one; a consumer that stops draining caps
/// production after at most `ring_size` further chunks.
pub proof fn lemma_backpressure(p: &Pipeline, j: int)
    requires
        p.wf(),
        0 <= j < p.consumers(),
    ensures
        p.drained(j) <= p.produced() <= p.drained(j) + p.ring_size(),
{
}

/// Degenerate boundary: with a single slot and a single consumer the system
/// is a strict alternation of one fill and one drain — the two sides are
/// never enabled at once, so there is no concurrency between them.
pub proof fn lemma_strict_alternation(p: &Pipeline)
    requires
        p.wf(),
        p.ring_size() == 1,
        p.consumers() == 1,
    ensures
        p.drained(0) <= p.produced() <= p.drained(0) + 1,
        !(p.producer_enabled() && p.consumer_enabled(0)),
{
    if p.producer_enabled() && p.consumer_enabled(0) {
        lemma_mod_division_less_than_divisor(p.produced(), 1);
        assert(p.fill_at(0) >= 0);
        lemma_fill_only_when_drained(p);
        assert(p.fill_at(0) < p.drained(0));
        assert(p.produced() <= p.fill_at(0) + 1);
        assert(false);
    }
}

/// Progress: a well-formed pipeline that is not done always has an enabled
/// step — the producer and the consumers cannot all be stalled at once, so
/// no thread waits forever on a chunk that will never come.
pub proof fn lemma_progress(p: &Pipeline)
    requires
        p.wf(),
        !p.done(),
    ensures
        p.producer_enabled() || exists|j: int| 0 <= j < p.consumers() && p.consumer_enabled(j),
{
    if !(exists|j: int| 0 <= j < p.consumers() && p.consumer_enabled(j)) {
        assert forall|j: int| 0 <= j < p.consumers() implies p.drained(j) == p.produced() by {
            if p.drained(j) < p.produced() {
                assert(p.consumer_enabled(j));
            }
        }
        assert(p.produced() < p.source_len());
        let ni = p.ring_size();
        let sloti = p.produced() % ni;
        lemma_mod_division_less_than_divisor(p.produced(), ni);
        if p.fill_at(sloti) >= 0 {
            assert forall|i: int|
                0 <= i < p.cursors@.len() implies #[trigger] p.cursors@[i] > p.fills@[sloti] by {
                assert(p.drained(i) == p.produced());
            }
            lemma_count_le_none(p.cursors@, p.fills@[sloti]);
        }
        assert(p.producer_enabled());
    }
}

/// A fresh vector holding `a`'s bytes followed by the buffer's bytes: what
/// a consumer's destination holds after one more chunk is written to it.
fn append_chunk(a: &Vec<u8>, b: &Buf4K) -> (r: Vec<u8>)
    ensures
        r@ == a@ + b@,
{
    let mut r: Vec<u8> = Vec::new();
    let mut i: usize = 0;
    while i < a.len()
        invariant
            i <= a@.len(),
            r@ == a@.take(i as int),
        decreases a@.len() - i,
    {
        r.push(a[i]);
        assert(r@ =~= a@.take(i + 1 as int));
        i = i + 1;
    }
    assert(r@ =~= a@);
    b.append_to(&mut r);
    r
}

/// Two numbers that agree modulo `n` and lie within one window of length `n`
/// of each other are equal.
proof fn lemma_mod_window(a: int, b: int, n: int)
    requires
        n > 0,
        a % n == b % n,
        b - n < a < b + n,
    ensures
        a == b,
{
    lemma_fundamental_div_mod(a, n);
    lemma_fundamental_div_mod(b, n);
    assert(a - b == n * (a / n - b / n)) by (nonlinear_arith)
        requires
            a == n * (a / n) + a % n,
            b == n * (b / n) + b % n,
            a % n == b % n,
    ;
    assert(a / n - b / n == 0) by (nonlinear_arith)
        requires
            n > 0,
            -n < n * (a / n - b / n) < n,
    ;
}

} // verus!
