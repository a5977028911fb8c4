//! Fixed-size byte buffers whose length is always a whole number of device
//! blocks, as direct device I/O requires.

use vstd::prelude::*;

verus! {

/// Number of bytes in one device block; every buffer holds a whole number of
/// blocks.
pub const BLOCK_SIZE: usize = 4096;

/// A byte buffer standing for one direct-I/O transfer region.
///
/// Invariant: the length is an exact multiple of [`BLOCK_SIZE`] and never
/// changes after creation.
pub struct Buf4K {
    data: Vec<u8>,
}

impl View for Buf4K {
    type V = Seq<u8>;

    closed spec fn view(&self) -> Seq<u8> {
        self.data@
    }
}

impl Buf4K {
    /// The buffer length is a whole number of blocks.
    pub open spec fn wf(&self) -> bool {
        self@.len() % (BLOCK_SIZE as nat) == 0
    }

    /// A zero-filled buffer of `blocks` whole blocks.
    pub fn new(blocks: usize) -> (r: Self)
        requires
            blocks * (BLOCK_SIZE as int) <= usize::MAX,
        ensures
            r.wf(),
            r@.len() == blocks * (BLOCK_SIZE as int),
            forall|i: int| 0 <= i < r@.len() ==> r@[i] == 0u8,
    {
        let len = blocks * BLOCK_SIZE;
        let mut data: Vec<u8> = Vec::new();
        while data.len() < len
            invariant
                data@.len() <= len,
                forall|i: int| 0 <= i < data@.len() ==> data@[i] == 0u8,
            decreases len - data@.len(),
        {
            data.push(0u8);
        }
        proof {
            vstd::arithmetic::div_mod::lemma_mod_multiples_basic(
                blocks as int,
                BLOCK_SIZE as int,
            );
        }
        Buf4K { data }
    }

    /// A buffer holding exactly the given bytes, whose count must be a whole
    /// number of blocks.
    pub fn from_bytes(src: &Vec<u8>) -> (r: Self)
        requires
            src@.len() % (BLOCK_SIZE as nat) == 0,
        ensures
            r.wf(),
            r@ == src@,
    {
        let mut data: Vec<u8> = Vec::new();
        let mut i: usize = 0;
        while i < src.len()
            invariant
                i <= src@.len(),
                data@ == src@.take(i as int),
            decreases src@.len() - i,
        {
            data.push(src[i]);
            assert(data@ =~= src@.take(i + 1 as int));
            i = i + 1;
        }
        assert(data@ =~= src@);
        Buf4K { data }
    }

    /// Number of bytes in the buffer.
    pub fn len(&self) -> (r: usize)
        ensures
            r == self@.len(),
    {
        self.data.len()
    }

    /// The byte at position `i`.
    pub fn get(&self, i: usize) -> (r: u8)
        requires
            i < self@.len(),
        ensures
            r == self@[i as int],
    {
        self.data[i]
    }

    /// Appends the whole buffer content to `out`, in order.
    pub fn append_to(&self, out: &mut Vec<u8>)
        ensures
            final(out)@ == old(out)@ + self@,
    {
        let mut i: usize = 0;
        while i < self.data.len()
            invariant
                i <= self@.len(),
                out@ == old(out)@ + self@.take(i as int),
            decreases self@.len() - i,
        {
            out.push(self.data[i]);
            assert(out@ =~= old(out)@ + self@.take(i + 1 as int));
            i = i + 1;
        }
        assert(out@ =~= old(out)@ + self@);
    }
}

} // verus!
