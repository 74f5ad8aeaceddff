//! An owned span of bytes, placed at a range of addresses.
use vstd::prelude::*;

verus! {

/// The address at which `Memory::new` places a region.
pub const BASE_ADDRESS: usize = 0x1000;

/// An owned, mutable chunk of memory: the bytes of the addresses from
/// `start` (inclusive) to `end` (exclusive). Address 0 is the null address
/// and belongs to no span.
pub struct Memory {
    start: usize,
    bytes: Vec<u8>,
}

impl View for Memory {
    type V = Seq<u8>;

    closed spec fn view(&self) -> Seq<u8> {
        self.bytes@
    }
}

impl Memory {
    /// The address of the first byte.
    pub closed spec fn spec_start(&self) -> int {
        self.start as int
    }

    /// The address just past the last byte.
    pub open spec fn spec_end(&self) -> int {
        self.spec_start() + self@.len()
    }

    /// A span starts above the null address and ends within the address space.
    pub open spec fn wf(&self) -> bool {
        0 < self.spec_start() && self.spec_end() <= usize::MAX
    }

    /// Wrap a chunk of bytes, placing it at `BASE_ADDRESS`.
    pub fn new(m: Vec<u8>) -> (r: Memory)
        requires
            BASE_ADDRESS + m.len() <= usize::MAX,
        ensures
            r.wf(),
            r.spec_start() == BASE_ADDRESS,
            r@ == m@,
    {
        Memory { start: BASE_ADDRESS, bytes: m }
    }

    /// A zero-filled span covering the addresses from `start` (inclusive) to
    /// `end` (exclusive).
    pub fn from_addresses(start: usize, end: usize) -> (r: Memory)
        requires
            0 < start <= end,
        ensures
            r.wf(),
            r.spec_start() == start,
            r.spec_end() == end,
            r@ == Seq::new((end - start) as nat, |i: int| 0u8),
    {
        let n: usize = end - start;
        let bytes: Vec<u8> = vec![0u8; n];
        assert(bytes@ =~= Seq::new((end - start) as nat, |i: int| 0u8));
        Memory { start, bytes }
    }

    /// Split the span at byte `n`: the first `n` bytes, then the rest.
    pub fn split_at(self, n: usize) -> (r: (Memory, Memory))
        requires
            self.wf(),
            n <= self@.len(),
        ensures
            r.0.wf(),
            r.1.wf(),
            r.0.spec_start() == self.spec_start(),
            r.1.spec_start() == self.spec_start() + n,
            r.0@ == self@.subrange(0, n as int),
            r.1@ == self@.subrange(n as int, self@.len() as int),
    {
        let mut head: Vec<u8> = self.bytes;
        let tail: Vec<u8> = head.split_off(n);
        (Memory { start: self.start, bytes: head }, Memory { start: self.start + n, bytes: tail })
    }

    /// Zero out this memory.
    pub fn clear(&mut self)
        ensures
            final(self).spec_start() == old(self).spec_start(),
            final(self)@ == Seq::new(old(self)@.len(), |i: int| 0u8),
    {
        let n: usize = self.bytes.len();
        let mut i: usize = 0;
        while i < n
            invariant
                i <= n,
                self.bytes@.len() == n,
                self.start == old(self).start,
                forall|j: int| 0 <= j < i ==> self.bytes@[j] == 0u8,
            decreases n - i,
        {
            self.bytes.set(i, 0u8);
            i += 1;
        }
        assert(self.bytes@ =~= Seq::new(old(self)@.len(), |i: int| 0u8));
    }

    /// Convert back into the bytes, consuming this span.
    pub fn inner(self) -> (r: Vec<u8>)
        ensures
            r@ == self@,
    {
        self.bytes
    }

    /// Size (in bytes).
    pub fn len(&self) -> (n: usize)
        ensures
            n == self@.len(),
    {
        self.bytes.len()
    }

    /// Starting address (inclusive).
    pub fn start(&self) -> (a: usize)
        ensures
            a == self.spec_start(),
    {
        self.start
    }

    /// Ending address (exclusive).
    pub fn end(&self) -> (a: usize)
        requires
            self.wf(),
        ensures
            a == self.spec_end(),
    {
        self.start + self.bytes.len()
    }

    /// Address of the byte at offset `n` in this span.
    pub fn offset(&self, n: usize) -> (a: usize)
        requires
            self.spec_start() + n <= usize::MAX,
        ensures
            a == self.spec_start() + n,
    {
        self.start + n
    }
}

} // verus!
