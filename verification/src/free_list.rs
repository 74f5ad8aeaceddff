//! The free list: the free regions of a pool, sorted by address and always
//! coalesced, with first-fit allocation and retiring in address order.
use crate::memory::Memory;
use vstd::prelude::*;

verus! {

/// The size of the header of a free region: two machine words, a link to
/// the next free region and a size. No free region is smaller than this.
pub const FREE_BLOCK_SIZE: usize = 16;

/// A free region: `size` bytes from the address `start`.
#[derive(Clone, Copy, Debug, PartialEq, Eq, Structural)]
pub struct FreeBlock {
    pub start: usize,
    pub size: usize,
}

/// A link of the chain of free regions, by its place in the chain: link 0
/// is the head of the list, link `i + 1` is the link that follows region
/// `i`. Link `i` points to region `i`, or to nothing if there is none.
#[derive(Clone, Copy, Debug, PartialEq, Eq, Structural)]
pub struct FreeBlockPtr {
    pub index: usize,
}

impl FreeBlock {
    /// The address just past the region.
    pub open spec fn spec_end(self) -> int {
        self.start + self.size
    }

    /// The region can hold a header, starts above the null address and ends
    /// within the address space.
    pub open spec fn wf(self) -> bool {
        0 < self.start && self.size >= FREE_BLOCK_SIZE && self.spec_end() <= usize::MAX
    }

    /// The region after `check_merge_next`: grown by `next` if that one
    /// starts where this one ends.
    pub open spec fn spec_merge_next(self, next: Option<FreeBlock>) -> FreeBlock {
        match next {
            Some(n) if self.spec_end() == n.start => FreeBlock {
                start: self.start,
                size: (self.size + n.size) as usize,
            },
            _ => self,
        }
    }

    /// The free region that covers the span `m`.
    pub fn from_memory(m: Memory) -> (b: FreeBlock)
        ensures
            b.start == m.spec_start(),
            b.size == m@.len(),
    {
        FreeBlock { start: m.start(), size: m.len() }
    }

    /// The span that this region covers.
    pub fn as_memory(&self) -> (m: Memory)
        requires
            0 < self.start,
            self.spec_end() <= usize::MAX,
        ensures
            m.wf(),
            m.spec_start() == self.start,
            m@ == Seq::new(self.size as nat, |i: int| 0u8),
    {
        Memory::from_addresses(self.start, self.start + self.size)
    }

    /// Starting address (inclusive).
    pub fn start(&self) -> (a: usize)
        ensures
            a == self.start,
    {
        self.start
    }

    /// Ending address (exclusive).
    pub fn end(&self) -> (a: usize)
        requires
            self.spec_end() <= usize::MAX,
        ensures
            a == self.spec_end(),
    {
        self.start + self.size
    }

    /// Split this region, keeping `amount` bytes in this one. Returns the
    /// region that the rest makes.
    pub fn split(&mut self, amount: usize) -> (rest: FreeBlock)
        requires
            amount <= old(self).size,
            old(self).spec_end() <= usize::MAX,
        ensures
            *final(self) == (FreeBlock { start: old(self).start, size: amount }),
            rest == (FreeBlock {
                start: (old(self).start + amount) as usize,
                size: (old(self).size - amount) as usize,
            }),
    {
        let rest = FreeBlock { start: self.start + amount, size: self.size - amount };
        self.size = amount;
        rest
    }

    /// If the span `memory` follows this region in the address order
    /// without a gap, merge it in and return true.
    pub fn merge(&mut self, memory: &Memory) -> (merged: bool)
        requires
            old(self).spec_end() <= usize::MAX,
            memory.wf(),
        ensures
            merged == (old(self).spec_end() == memory.spec_start()),
            *final(self) == if merged {
                FreeBlock { start: old(self).start,
                    size: (old(self).size + memory@.len()) as usize }
            } else {
                *old(self)
            },
    {
        if self.start + self.size == memory.start() {
            self.size = self.size + memory.len();
            true
        } else {
            false
        }
    }

    /// Check if this region and the next can be merged, and if so, merge
    /// them: this region then covers both. Returns whether it did.
    pub fn check_merge_next(&mut self, next: Option<FreeBlock>) -> (merged: bool)
        requires
            old(self).spec_end() <= usize::MAX,
            next matches Some(n) ==> old(self).spec_end() <= n.start && n.spec_end() <= usize::MAX,
        ensures
            *final(self) == old(self).spec_merge_next(next),
            merged == (next matches Some(n) && old(self).spec_end() == n.start),
    {
        match next {
            Some(n) => {
                if self.start + self.size == n.start {
                    self.size = self.size + n.size;
                    true
                } else {
                    false
                }
            },
            None => false,
        }
    }
}

/// Every region is well formed, and each ends strictly before the next
/// begins: the chain is sorted by address and no two regions touch.
pub open spec fn chain_wf(s: Seq<FreeBlock>) -> bool {
    &&& forall|i: int| 0 <= i < s.len() ==> (#[trigger] s[i]).wf()
    &&& forall|i: int, j: int| 0 <= i < j < s.len()
        ==> (#[trigger] s[i]).spec_end() < (#[trigger] s[j]).start
}

/// The span `start..end` shares no byte with any region of the chain.
pub open spec fn apart_from(s: Seq<FreeBlock>, start: int, end: int) -> bool {
    forall|i: int| 0 <= i < s.len() ==> end <= (#[trigger] s[i]).start || s[i].spec_end() <= start
}

/// The sum of the sizes of the regions.
pub open spec fn total_bytes(s: Seq<FreeBlock>) -> int
    decreases s.len(),
{
    if s.len() == 0 {
        0
    } else {
        total_bytes(s.drop_last()) + s.last().size
    }
}

/// The first region at or after index `i` that holds `amount` bytes, or the
/// length of the chain if there is none.
pub open spec fn first_fit_from(s: Seq<FreeBlock>, amount: int, i: int) -> int
    decreases s.len() - i,
{
    if 0 <= i < s.len() && s[i].size < amount {
        first_fit_from(s, amount, i + 1)
    } else {
        i
    }
}

/// The first region that holds `amount` bytes, or the length of the chain
/// if there is none.
pub open spec fn first_fit(s: Seq<FreeBlock>, amount: int) -> int {
    first_fit_from(s, amount, 0)
}

/// Whether `amount` bytes are split off region `b`, leaving a remainder
/// that can hold a header. Otherwise the whole region is handed out.
pub open spec fn splits(b: FreeBlock, amount: int) -> bool {
    b.size - amount >= FREE_BLOCK_SIZE
}

/// How many bytes an allocation of `amount` takes from region `b`.
pub open spec fn taken(b: FreeBlock, amount: int) -> int {
    if splits(b, amount) {
        amount
    } else {
        b.size as int
    }
}

/// The chain after `amount` bytes were allocated from region `k`.
pub open spec fn after_allocate(s: Seq<FreeBlock>, k: int, amount: int) -> Seq<FreeBlock> {
    if splits(s[k], amount) {
        s.update(
            k,
            FreeBlock { start: (s[k].start + amount) as usize,
                size: (s[k].size - amount) as usize },
        )
    } else {
        s.remove(k)
    }
}

/// The first region at or after index `i` that starts at or above `start`,
/// or the length of the chain if there is none.
pub open spec fn position_from(s: Seq<FreeBlock>, start: int, i: int) -> int
    decreases s.len() - i,
{
    if 0 <= i < s.len() && s[i].start < start {
        position_from(s, start, i + 1)
    } else {
        i
    }
}

/// The chain after the span of `size` bytes at `start` was returned to it:
/// the span joins the region that ends where it starts, and the region that
/// starts where it ends, where there are such; else it becomes a region of
/// its own, at its place in the address order.
pub open spec fn after_retire(s: Seq<FreeBlock>, start: int, size: int) -> Seq<FreeBlock> {
    let k = position_from(s, start, 0);
    let joins_prev = k > 0 && s[k - 1].spec_end() == start;
    let joins_next = k < s.len() && start + size == s[k].start;
    if joins_prev && joins_next {
        s.update(
            k - 1,
            FreeBlock { start: s[k - 1].start, size: (s[k - 1].size + size + s[k].size) as usize },
        ).remove(k)
    } else if joins_prev {
        s.update(k - 1, FreeBlock { start: s[k - 1].start, size: (s[k - 1].size + size) as usize })
    } else if joins_next {
        s.update(k, FreeBlock { start: start as usize, size: (size + s[k].size) as usize })
    } else {
        s.insert(k, FreeBlock { start: start as usize, size: size as usize })
    }
}

/// No region before the first fit holds `amount` bytes, and the first fit
/// does, if there is one.
pub proof fn lemma_first_fit(s: Seq<FreeBlock>, amount: int, i: int)
    requires
        0 <= i <= s.len(),
    ensures
        i <= first_fit_from(s, amount, i) <= s.len(),
        forall|j: int| i <= j < first_fit_from(s, amount, i) ==> s[j].size < amount,
        first_fit_from(s, amount, i) < s.len() ==> s[first_fit_from(s, amount, i)].size >= amount,
    decreases s.len() - i,
{
    if i < s.len() && s[i].size < amount {
        lemma_first_fit(s, amount, i + 1);
    }
}

/// Every region before the position of `start` begins below `start`, and
/// the region at the position does not.
pub proof fn lemma_position(s: Seq<FreeBlock>, start: int, i: int)
    requires
        0 <= i <= s.len(),
    ensures
        i <= position_from(s, start, i) <= s.len(),
        forall|j: int| i <= j < position_from(s, start, i) ==> s[j].start < start,
        position_from(s, start, i) < s.len() ==> s[position_from(s, start, i)].start >= start,
    decreases s.len() - i,
{
    if i < s.len() && s[i].start < start {
        lemma_position(s, start, i + 1);
    }
}

/// In a sorted chain the position of `start` is the one index that has only
/// lower starts before it and only higher or equal starts from it on.
pub proof fn lemma_position_is(s: Seq<FreeBlock>, start: int, k: int)
    requires
        0 <= k <= s.len(),
        forall|j: int| 0 <= j < k ==> s[j].start < start,
        k < s.len() ==> s[k].start >= start,
    ensures
        position_from(s, start, 0) == k,
{
    lemma_position_from_is(s, start, k, 0);
}

proof fn lemma_position_from_is(s: Seq<FreeBlock>, start: int, k: int, i: int)
    requires
        0 <= i <= k <= s.len(),
        forall|j: int| 0 <= j < k ==> s[j].start < start,
        k < s.len() ==> s[k].start >= start,
    ensures
        position_from(s, start, i) == k,
    decreases k - i,
{
    if i < k {
        lemma_position_from_is(s, start, k, i + 1);
    }
}

/// The first fit is the one index that has only smaller regions before it
/// and a region that is large enough at it.
pub proof fn lemma_first_fit_is(s: Seq<FreeBlock>, amount: int, k: int)
    requires
        0 <= k <= s.len(),
        forall|j: int| 0 <= j < k ==> s[j].size < amount,
        k < s.len() ==> s[k].size >= amount,
    ensures
        first_fit(s, amount) == k,
{
    lemma_first_fit_from_is(s, amount, k, 0);
}

proof fn lemma_first_fit_from_is(s: Seq<FreeBlock>, amount: int, k: int, i: int)
    requires
        0 <= i <= k <= s.len(),
        forall|j: int| 0 <= j < k ==> s[j].size < amount,
        k < s.len() ==> s[k].size >= amount,
    ensures
        first_fit_from(s, amount, i) == k,
    decreases k - i,
{
    if i < k {
        lemma_first_fit_from_is(s, amount, k, i + 1);
    }
}

/// The free regions of a pool, as a chain sorted by address in which no two
/// regions touch.
pub struct FreeList {
    blocks: Vec<FreeBlock>,
}

impl View for FreeList {
    type V = Seq<FreeBlock>;

    closed spec fn view(&self) -> Seq<FreeBlock> {
        self.blocks@
    }
}

/// A span that may be returned to a free list: it is well formed and can
/// hold the header of a free region.
pub open spec fn retirable(m: Memory) -> bool {
    m.wf() && m@.len() >= FREE_BLOCK_SIZE
}

impl FreeBlockPtr {
    /// Every region in front of this link ends below `start`.
    pub open spec fn follows(self, s: Seq<FreeBlock>, start: int) -> bool {
        &&& self.index <= s.len()
        &&& forall|j: int| 0 <= j < self.index ==> (#[trigger] s[j]).spec_end() < start
    }

    /// Whether `try_insert_before` links a span that starts at `start` here:
    /// the link points to a region that starts above it.
    pub open spec fn accepts_before(self, s: Seq<FreeBlock>, start: int) -> bool {
        self.index < s.len() && s[self.index as int].start > start
    }

    /// Whether `try_insert_after` takes a span that starts at `start` here:
    /// the link points to nothing, or to a region that ends where the span
    /// starts.
    pub open spec fn accepts_after(self, s: Seq<FreeBlock>, start: int) -> bool {
        self.index == s.len() || (self.index < s.len() && s[self.index as int].spec_end() == start)
    }

    /// Whether an allocation of `amount` bytes is served from the region
    /// that this link points to.
    pub open spec fn serves(self, s: Seq<FreeBlock>, amount: int) -> bool {
        self.index < s.len() && s[self.index as int].size >= amount
    }

    /// The region that this link points to, if there is one.
    pub fn block(&self, list: &FreeList) -> (r: Option<FreeBlock>)
        ensures
            r == if self.index < list@.len() {
                Some(list@[self.index as int])
            } else {
                None
            },
            self.index < list@.len() ==> self.index < usize::MAX,
    {
        if self.index < list.blocks.len() {
            Some(list.blocks[self.index])
        } else {
            None
        }
    }

    /// Make a free region of the span `m` and link it in front of the
    /// region that `next` points to. Returns the link to the new region.
    pub fn new(list: &mut FreeList, m: Memory, next: FreeBlockPtr) -> (r: FreeBlockPtr)
        requires
            old(list).wf(),
            retirable(m),
            next.follows(old(list)@, m.spec_start()),
            forall|j: int| next.index <= j < old(list)@.len()
                ==> m.spec_end() < (#[trigger] old(list)@[j]).start,
        ensures
            final(list).wf(),
            r == next,
            final(list)@ == old(list)@.insert(
                next.index as int,
                FreeBlock { start: m.spec_start() as usize, size: m@.len() as usize },
            ),
    {
        let block = FreeBlock::from_memory(m);
        list.blocks.insert(next.index, block);
        proof {
            let s = old(list)@;
            let t = list@;
            let k = next.index as int;
            assert forall|i: int| 0 <= i < t.len() implies (#[trigger] t[i]).wf() by {
                if i < k {
                    assert(t[i] == s[i]);
                } else if i > k {
                    assert(t[i] == s[i - 1]);
                }
            }
            assert forall|i: int, j: int| 0 <= i < j < t.len()
                implies (#[trigger] t[i]).spec_end() < (
            #[trigger] t[j]).start by {
                let a = if i < k { s[i] } else { s[i - 1] };
                let b = if j < k { s[j] } else { s[j - 1] };
                if i != k {
                    assert(t[i] == a);
                }
                if j != k {
                    assert(t[j] == b);
                }
            }
        }
        next
    }

    /// Attempt to allocate `amount` bytes out of the region that this link
    /// points to. If the region is large enough, its first `amount` bytes
    /// are handed out and the rest stays in the chain; if the rest could not
    /// hold a header, the whole region is handed out and leaves the chain.
    pub fn allocate(&self, list: &mut FreeList, amount: usize) -> (r: Option<Memory>)
        requires
            old(list).wf(),
            self.index <= old(list)@.len(),
        ensures
            final(list).wf(),
            self.serves(old(list)@, amount as int) ==> r.is_some()
                && final(list)@ == after_allocate(
                old(list)@,
                self.index as int,
                amount as int,
            ) && r.unwrap().wf() && r.unwrap().spec_start() == old(list)@[self.index as int].start
                && r.unwrap()@ == Seq::new(
                taken(old(list)@[self.index as int], amount as int) as nat,
                |i: int| 0u8,
            ),
            !self.serves(old(list)@, amount as int) ==> r.is_none() && final(list)@ == old(list)@,
    {
        if self.index >= list.blocks.len() {
            return None;
        }
        let block: FreeBlock = list.blocks[self.index];
        assert(block.wf());
        if amount > block.size {
            None
        } else if block.size - amount < FREE_BLOCK_SIZE {
            // if there isn't enough left in this region for a new one, just use it all.
            list.blocks.remove(self.index);
            proof {
                lemma_remove_keeps_chain(old(list)@, self.index as int);
            }
            Some(block.as_memory())
        } else {
            // split off a new span
            let mut head: FreeBlock = block;
            let rest = head.split(amount);
            list.blocks.set(self.index, rest);
            proof {
                let s = old(list)@;
                let t = list@;
                let k = self.index as int;
                assert forall|i: int| 0 <= i < t.len() implies (#[trigger] t[i]).wf() by {
                    if i != k {
                        assert(t[i] == s[i]);
                    }
                }
                assert forall|i: int, j: int| 0 <= i < j < t.len()
                    implies (#[trigger] t[i]).spec_end()
                    < (#[trigger] t[j]).start by {
                    assert(s[i].spec_end() < s[j].start);
                }
            }
            Some(head.as_memory())
        }
    }

    /// Link the span `m` in front of the region that this link points to,
    /// if that region starts above the span; the two merge if they touch.
    /// Returns the span if this is not the place for it.
    pub fn try_insert_before(&self, list: &mut FreeList, m: Memory) -> (r: Option<Memory>)
        requires
            old(list).wf(),
            retirable(m),
            apart_from(old(list)@, m.spec_start(), m.spec_end()),
            self.follows(old(list)@, m.spec_start()),
        ensures
            final(list).wf(),
            self.accepts_before(old(list)@, m.spec_start()) ==> r.is_none() && final(list)@
                == after_retire(old(list)@, m.spec_start(), m@.len() as int),
            !self.accepts_before(old(list)@, m.spec_start()) ==> r == Some(m)
                && final(list)@ == old(
                list,
            )@,
    {
        let i: usize = self.index;
        if i < list.blocks.len() {
            let block: FreeBlock = list.blocks[i];
            if block.start > m.start() {
                proof {
                    lemma_retire_before(old(list)@, i as int, m.spec_start(), m@.len() as int);
                }
                assert(block.wf());
                let mut new_block = FreeBlock::from_memory(m);
                if new_block.check_merge_next(Some(block)) {
                    list.blocks.set(i, new_block);
                } else {
                    list.blocks.insert(i, new_block);
                }
                return None;
            }
        }
        Some(m)
    }

    /// Take the span `m` at this link: if the link points to nothing, the
    /// span becomes the last region; if it points to a region that ends
    /// where the span starts, the region grows by the span, and by the
    /// region after it if they then touch. Returns the span if this is not
    /// the place for it.
    pub fn try_insert_after(&self, list: &mut FreeList, m: Memory) -> (r: Option<Memory>)
        requires
            old(list).wf(),
            retirable(m),
            apart_from(old(list)@, m.spec_start(), m.spec_end()),
            self.follows(old(list)@, m.spec_start()),
        ensures
            final(list).wf(),
            self.accepts_after(old(list)@, m.spec_start()) ==> r.is_none() && final(list)@
                == after_retire(old(list)@, m.spec_start(), m@.len() as int),
            !self.accepts_after(old(list)@, m.spec_start()) ==> r == Some(m) && final(list)@ == old(
                list,
            )@,
    {
        let i: usize = self.index;
        let len: usize = list.blocks.len();
        if i == len {
            // if this is the end, append.
            proof {
                lemma_retire_last(old(list)@, m.spec_start(), m@.len() as int);
            }
            list.blocks.push(FreeBlock::from_memory(m));
            None
        } else {
            let mut block: FreeBlock = list.blocks[i];
            assert(block.wf());
            proof {
                if block.spec_end() == m.spec_start() {
                    lemma_retire_after(old(list)@, i as int, m.spec_start(), m@.len() as int);
                }
            }
            if block.merge(&m) {
                // merged to the end of this region.
                let next: Option<FreeBlock> = if i + 1 < len {
                    assert(list.blocks@[i + 1].wf());
                    Some(list.blocks[i + 1])
                } else {
                    None
                };
                if block.check_merge_next(next) {
                    list.blocks.remove(i + 1);
                }
                list.blocks.set(i, block);
                None
            } else {
                Some(m)
            }
        }
    }

    /// Find a place for the span `m` at this link: in front of the region
    /// that the link points to, at the end of that region, or as the last
    /// region. Returns the span if this is not the place for it.
    pub fn try_insert(&self, list: &mut FreeList, m: Memory) -> (r: Option<Memory>)
        requires
            old(list).wf(),
            retirable(m),
            apart_from(old(list)@, m.spec_start(), m.spec_end()),
            self.follows(old(list)@, m.spec_start()),
        ensures
            final(list).wf(),
            self.accepts_before(old(list)@, m.spec_start()) || self.accepts_after(
                old(list)@,
                m.spec_start(),
            ) ==> r.is_none() && final(list)@ == after_retire(
                old(list)@,
                m.spec_start(),
                m@.len() as int,
            ),
            !self.accepts_before(old(list)@, m.spec_start()) && !self.accepts_after(
                old(list)@,
                m.spec_start(),
            ) ==> r == Some(m) && final(list)@ == old(list)@,
    {
        match self.try_insert_before(list, m) {
            Some(m) => self.try_insert_after(list, m),
            None => None,
        }
    }
}

/// A well-formed chain stays one when a region leaves it.
pub proof fn lemma_remove_keeps_chain(s: Seq<FreeBlock>, k: int)
    requires
        chain_wf(s),
        0 <= k < s.len(),
    ensures
        chain_wf(s.remove(k)),
{
    let t = s.remove(k);
    assert forall|i: int| 0 <= i < t.len() implies (#[trigger] t[i]).wf() by {
        if i < k {
            assert(t[i] == s[i]);
        } else {
            assert(t[i] == s[i + 1]);
        }
    }
    assert forall|i: int, j: int| 0 <= i < j < t.len() implies (#[trigger] t[i]).spec_end() < (
    #[trigger] t[j]).start by {
        let a = if i < k { i } else { i + 1 };
        let b = if j < k { j } else { j + 1 };
        assert(t[i] == s[a] && t[j] == s[b]);
        assert(s[a].spec_end() < s[b].start);
    }
}

/// Retiring a span that lies in front of region `i`, and after the regions
/// before it without touching them.
proof fn lemma_retire_before(s: Seq<FreeBlock>, i: int, start: int, size: int)
    requires
        chain_wf(s),
        0 <= i < s.len(),
        0 < start,
        size >= FREE_BLOCK_SIZE,
        start + size <= usize::MAX,
        apart_from(s, start, start + size),
        forall|j: int| 0 <= j < i ==> (#[trigger] s[j]).spec_end() < start,
        s[i].start > start,
    ensures
        start + size <= s[i].start,
        after_retire(s, start, size) == if start + size == s[i].start {
            s.update(i, FreeBlock { start: start as usize, size: (size + s[i].size) as usize })
        } else {
            s.insert(i, FreeBlock { start: start as usize, size: size as usize })
        },
        chain_wf(after_retire(s, start, size)),
{
    assert(s[i].wf());
    assert forall|j: int| 0 <= j < i implies s[j].start < start by {
        assert(s[j].wf());
        assert(s[j].spec_end() < start);
    }
    lemma_position_is(s, start, i);
    if i > 0 {
        assert(s[i - 1].spec_end() < start);
    }
    let t = after_retire(s, start, size);
    if start + size == s[i].start {
        assert forall|a: int| 0 <= a < t.len() implies (#[trigger] t[a]).wf() by {
            assert(s[a].wf());
        }
        assert forall|a: int, b: int| 0 <= a < b < t.len() implies (#[trigger] t[a]).spec_end() < (
        #[trigger] t[b]).start by {
            assert(s[a].spec_end() < s[b].start);
            if b == i {
                assert(s[a].spec_end() < start);
            }
        }
    } else {
        assert forall|a: int| 0 <= a < t.len() implies (#[trigger] t[a]).wf() by {
            if a < i {
                assert(t[a] == s[a]);
            } else if a > i {
                assert(t[a] == s[a - 1]);
            }
        }
        assert forall|a: int, b: int| 0 <= a < b < t.len() implies (#[trigger] t[a]).spec_end() < (
        #[trigger] t[b]).start by {
            let x = if a < i { a } else { a - 1 };
            let y = if b < i { b } else { b - 1 };
            if a != i && b != i {
                assert(t[a] == s[x] && t[b] == s[y]);
                assert(s[x].spec_end() < s[y].start);
            } else if a == i {
                assert(t[b] == s[y]);
                assert(s[i].wf());
                if y > i {
                    assert(s[i].spec_end() < s[y].start);
                }
            } else {
                assert(t[a] == s[x]);
                assert(s[x].spec_end() < start);
            }
        }
    }
}

/// Retiring a span that lies after every region and touches none.
proof fn lemma_retire_last(s: Seq<FreeBlock>, start: int, size: int)
    requires
        chain_wf(s),
        0 < start,
        size >= FREE_BLOCK_SIZE,
        start + size <= usize::MAX,
        forall|j: int| 0 <= j < s.len() ==> (#[trigger] s[j]).spec_end() < start,
    ensures
        after_retire(s, start, size)
            == s.push(FreeBlock { start: start as usize, size: size as usize }),
        chain_wf(after_retire(s, start, size)),
{
    assert forall|j: int| 0 <= j < s.len() implies s[j].start < start by {
        assert(s[j].wf());
        assert(s[j].spec_end() < start);
    }
    lemma_position_is(s, start, s.len() as int);
    if s.len() > 0 {
        assert(s[s.len() - 1].spec_end() < start);
    }
    let b = FreeBlock { start: start as usize, size: size as usize };
    assert(s.insert(s.len() as int, b) =~= s.push(b));
    let t = s.push(b);
    assert forall|a: int| 0 <= a < t.len() implies (#[trigger] t[a]).wf() by {
        if a < s.len() {
            assert(t[a] == s[a]);
        }
    }
    assert forall|a: int, c: int| 0 <= a < c < t.len() implies (#[trigger] t[a]).spec_end() < (
    #[trigger] t[c]).start by {
        assert(t[a] == s[a]);
        if c < s.len() {
            assert(t[c] == s[c]);
        } else {
            assert(s[a].spec_end() < start);
        }
    }
}

/// Retiring a span that starts where region `i` ends.
proof fn lemma_retire_after(s: Seq<FreeBlock>, i: int, start: int, size: int)
    requires
        chain_wf(s),
        0 <= i < s.len(),
        size >= FREE_BLOCK_SIZE,
        start + size <= usize::MAX,
        apart_from(s, start, start + size),
        s[i].spec_end() == start,
    ensures
        i + 1 < s.len() ==> start + size <= s[i + 1].start,
        s[i].size + size <= usize::MAX,
        i + 1 < s.len() && start + size == s[i + 1].start ==> s[i].size + size + s[i + 1].size
            <= usize::MAX,
        after_retire(s, start, size) == if i + 1 < s.len() && start + size == s[i + 1].start {
            s.remove(i + 1).update(
                i,
                FreeBlock { start: s[i].start, size: (s[i].size + size + s[i + 1].size) as usize },
            )
        } else {
            s.update(i, FreeBlock { start: s[i].start, size: (s[i].size + size) as usize })
        },
        chain_wf(after_retire(s, start, size)),
{
    assert(s[i].wf());
    assert forall|j: int| 0 <= j < i + 1 implies s[j].start < start by {
        assert(s[j].wf());
        if j < i {
            assert(s[j].spec_end() < s[i].start);
        }
    }
    if i + 1 < s.len() {
        assert(s[i + 1].wf());
        assert(s[i].spec_end() < s[i + 1].start);
    }
    lemma_position_is(s, start, i + 1);
    let t = after_retire(s, start, size);
    if i + 1 < s.len() && start + size == s[i + 1].start {
        let grown = FreeBlock { start: s[i].start,
            size: (s[i].size + size + s[i + 1].size) as usize };
        assert(s.update(i, grown).remove(i + 1) =~= s.remove(i + 1).update(i, grown));
        assert forall|a: int| 0 <= a < t.len() implies (#[trigger] t[a]).wf() by {
            if a < i {
                assert(t[a] == s[a]);
                assert(s[a].wf());
            } else if a > i {
                assert(t[a] == s[a + 1]);
                assert(s[a + 1].wf());
            }
        }
        assert forall|a: int, b: int| 0 <= a < b < t.len() implies (#[trigger] t[a]).spec_end() < (
        #[trigger] t[b]).start by {
            let x = if a <= i { a } else { a + 1 };
            let y = if b <= i { b } else { b + 1 };
            assert(s[x].spec_end() < s[y].start);
            if a == i {
                assert(s[i + 1].spec_end() < s[y].start);
            }
        }
    } else {
        assert forall|a: int| 0 <= a < t.len() implies (#[trigger] t[a]).wf() by {
            assert(s[a].wf());
        }
        assert forall|a: int, b: int| 0 <= a < b < t.len() implies (#[trigger] t[a]).spec_end() < (
        #[trigger] t[b]).start by {
            assert(s[a].spec_end() < s[b].start);
            if a == i {
                assert(s[i + 1].spec_end() <= s[b].start || b == i + 1);
                assert(s[i].spec_end() < s[i + 1].start);
                if b > i + 1 {
                    assert(s[i + 1].spec_end() < s[b].start);
                    assert(s[i + 1].wf());
                }
                assert(start + size <= s[i + 1].start);
            }
        }
    }
}

impl FreeList {
    /// The chain is sorted by address, no two regions touch, and every
    /// region can hold a header.
    pub open spec fn wf(&self) -> bool {
        chain_wf(self@)
    }

    /// A free list with the span `m` as its only region. A span too small
    /// to hold a header gives the empty list.
    pub fn new(m: Memory) -> (r: FreeList)
        requires
            m.wf(),
        ensures
            r.wf(),
            r@ == if m@.len() >= FREE_BLOCK_SIZE {
                seq![FreeBlock { start: m.spec_start() as usize, size: m@.len() as usize }]
            } else {
                Seq::<FreeBlock>::empty()
            },
    {
        let mut list = FreeList { blocks: Vec::new() };
        if m.len() >= FREE_BLOCK_SIZE {
            let ghost b = FreeBlock { start: m.spec_start() as usize, size: m@.len() as usize };
            FreeBlockPtr::new(&mut list, m, FreeBlockPtr { index: 0 });
            assert(list@ =~= seq![b]);
        } else {
            assert(list@ =~= Seq::<FreeBlock>::empty());
        }
        list
    }

    /// A walk over the regions, from the lowest address up.
    pub fn iter(&self) -> (r: FreeListIterator)
        ensures
            r.next.index == 0,
    {
        FreeListIterator { next: FreeBlockPtr { index: 0 } }
    }

    /// A walk over the links of the chain, each with the link before it.
    /// The last link points to nothing, so at least one is always yielded,
    /// even for an empty list.
    pub fn iter_span(&self) -> (r: FreeListSpanIterator)
        ensures
            r.next == Some(FreeListSpan::spec_first()),
    {
        FreeListSpanIterator::new(FreeBlockPtr { index: 0 })
    }

    /// The address of the first free region, or the null address if there
    /// is none.
    pub fn first_available(&self) -> (a: usize)
        ensures
            a == if self@.len() > 0 {
                self@[0].start
            } else {
                0
            },
    {
        if self.blocks.len() > 0 {
            self.blocks[0].start
        } else {
            0
        }
    }

    /// The sizes of the free regions, in address order.
    pub fn debug_chain(&self) -> (r: Vec<usize>)
        ensures
            r@ == self@.map_values(|b: FreeBlock| b.size),
    {
        let mut r: Vec<usize> = Vec::new();
        let len: usize = self.blocks.len();
        let mut i: usize = 0;
        while i < len
            invariant
                i <= len,
                len == self@.len(),
                r@ == self@.take(i as int).map_values(|b: FreeBlock| b.size),
            decreases len - i,
        {
            r.push(self.blocks[i].size);
            i += 1;
            assert(r@ =~= self@.take(i as int).map_values(|b: FreeBlock| b.size));
        }
        assert(self@.take(len as int) =~= self@);
        r
    }

    /// Allocate `amount` bytes from the first region that holds them.
    /// Returns `None` if no region is large enough.
    pub fn allocate(&mut self, amount: usize) -> (r: Option<Memory>)
        requires
            old(self).wf(),
        ensures
            final(self).wf(),
            0 <= first_fit(old(self)@, amount as int) <= old(self)@.len(),
            first_fit(old(self)@, amount as int) == old(self)@.len() ==> r.is_none() && final(self)@
                == old(self)@,
            first_fit(old(self)@, amount as int) < old(self)@.len() ==> r.is_some() && final(self)@
                == after_allocate(old(self)@, first_fit(old(self)@, amount as int), amount as int)
                && r.unwrap().wf() && r.unwrap().spec_start() == old(self)@[first_fit(
                old(self)@,
                amount as int,
            )].start && r.unwrap()@ == Seq::new(
                taken(old(self)@[first_fit(old(self)@, amount as int)], amount as int) as nat,
                |i: int| 0u8,
            ),
    {
        let len: usize = self.blocks.len();
        let mut i: usize = 0;
        proof {
            lemma_first_fit(self@, amount as int, 0);
        }
        while i < len
            invariant
                i <= len,
                len == self@.len(),
                self@ == old(self)@,
                self.wf(),
                forall|j: int| 0 <= j < i ==> (#[trigger] self@[j]).size < amount,
            decreases len - i,
        {
            let link = FreeBlockPtr { index: i };
            proof {
                if link.serves(self@, amount as int) {
                    lemma_first_fit_is(self@, amount as int, i as int);
                }
            }
            match link.allocate(self, amount) {
                Some(m) => {
                    return Some(m);
                },
                None => {},
            }
            i += 1;
        }
        proof {
            lemma_first_fit_is(self@, amount as int, len as int);
        }
        None
    }

    /// Return the span `m` to the list: it joins the regions that it
    /// touches, or becomes a region of its own at its place in the address
    /// order.
    pub fn retire(&mut self, m: Memory)
        requires
            old(self).wf(),
            retirable(m),
            apart_from(old(self)@, m.spec_start(), m.spec_end()),
        ensures
            final(self).wf(),
            final(self)@ == after_retire(old(self)@, m.spec_start(), m@.len() as int),
    {
        let ghost start = m.spec_start();
        let ghost size = m@.len() as int;
        let len: usize = self.blocks.len();
        let mut i: usize = 0;
        let mut mm: Memory = m;
        loop
            invariant_except_break
                i <= len,
                len == self@.len(),
                self@ == old(self)@,
                mm == m,
                (FreeBlockPtr { index: i }).follows(self@, start),
            invariant
                self.wf(),
                retirable(m),
                start == m.spec_start(),
                size == m@.len(),
                apart_from(old(self)@, start, start + size),
            ensures
                self@ == after_retire(old(self)@, start, size),
            decreases len - i,
        {
            let link = FreeBlockPtr { index: i };
            match link.try_insert(self, mm) {
                None => {
                    break ;
                },
                Some(back) => {
                    mm = back;
                },
            }
            proof {
                let s = self@;
                assert(i < len);
                assert(s[i as int].wf());
                assert(s[i as int].spec_end() <= start);
                assert forall|j: int|
                    0 <= j < i + 1
                implies
                    (#[trigger] s[j]).spec_end() < start
                by {
                    if j < i {
                        assert(s[j].spec_end() < start);
                    }
                }
            }
            i += 1;
        }
    }

    /// The number of free bytes: the sum of the sizes of the regions.
    pub fn bytes(&self) -> (n: usize)
        requires
            self.wf(),
        ensures
            n == total_bytes(self@),
    {
        let len: usize = self.blocks.len();
        let mut n: usize = 0;
        let mut i: usize = 0;
        while i < len
            invariant
                i <= len,
                len == self@.len(),
                self.wf(),
                n == total_bytes(self@.take(i as int)),
                i > 0 ==> n <= self@[i - 1].spec_end(),
            decreases len - i,
        {
            proof {
                let t = self@.take(i + 1);
                assert(t.drop_last() =~= self@.take(i as int));
                assert(t.last() == self@[i as int]);
                assert(self@[i as int].wf());
                if i > 0 {
                    assert(self@[i - 1].spec_end() < self@[i as int].start);
                }
            }
            n = n + self.blocks[i].size;
            i += 1;
        }
        assert(self@.take(len as int) =~= self@);
        n
    }
}

/// A walk over the regions of a free list, from the lowest address up.
pub struct FreeListIterator {
    pub next: FreeBlockPtr,
}

impl FreeListIterator {
    /// The region that the walk has come to, if there is one; the walk then
    /// moves on to the next.
    pub fn next(&mut self, list: &FreeList) -> (r: Option<FreeBlock>)
        ensures
            old(self).next.index < list@.len() ==> r == Some(list@[old(self).next.index as int])
                && final(self).next.index == old(self).next.index + 1,
            old(self).next.index >= list@.len() ==> r.is_none() && *final(self) == *old(self),
    {
        if self.next.index < list.blocks.len() {
            let block: FreeBlock = list.blocks[self.next.index];
            self.next = FreeBlockPtr { index: self.next.index + 1 };
            Some(block)
        } else {
            None
        }
    }
}

/// A place in the chain together with the link before it. When traversing
/// the free list, the right place to take a span may be the region behind
/// the cursor, so the walk remembers the previous link as it goes.
#[derive(Clone, Copy, Debug, PartialEq, Eq, Structural)]
pub struct FreeListSpan {
    pub insert_point: FreeBlockPtr,
    pub ptr: FreeBlockPtr,
}

impl FreeListSpan {
    /// The first place of a walk: both links are the head of the list.
    pub open spec fn spec_first() -> FreeListSpan {
        FreeListSpan { insert_point: FreeBlockPtr { index: 0 }, ptr: FreeBlockPtr { index: 0 } }
    }

    /// The place after this one.
    pub open spec fn spec_next(self) -> FreeListSpan {
        FreeListSpan { insert_point: self.ptr,
            ptr: FreeBlockPtr { index: (self.ptr.index + 1) as usize } }
    }

    /// The place is one of the chain `s`: `ptr` is a link of the chain, and
    /// `insert_point` is the link before it, or the same link at the head.
    pub open spec fn wf(self, s: Seq<FreeBlock>) -> bool {
        &&& self.ptr.index <= s.len()
        &&& (self.insert_point.index + 1 == self.ptr.index || (self.insert_point.index == 0
            && self.ptr.index == 0))
    }

    /// The span `start..end` lies between the regions in front of `ptr`
    /// and the regions from `ptr` on.
    pub open spec fn holds(self, s: Seq<FreeBlock>, start: int, end: int) -> bool {
        &&& forall|j: int| 0 <= j < self.ptr.index
            && j < s.len() ==> (#[trigger] s[j]).spec_end() <= start
        &&& forall|j: int| self.ptr.index <= j < s.len() ==> end <= (#[trigger] s[j]).start
    }

    fn new(p: FreeBlockPtr) -> (r: FreeListSpan)
        ensures
            r == (FreeListSpan { insert_point: p, ptr: p }),
    {
        FreeListSpan { insert_point: p, ptr: p }
    }

    /// Return the span `m` to the list at this place, without a search: it
    /// is known to lie between the regions in front of `ptr` and those from
    /// `ptr` on. The list ends up as `retire` would leave it.
    pub fn insert(&self, list: &mut FreeList, m: Memory)
        requires
            old(list).wf(),
            retirable(m),
            self.wf(old(list)@),
            self.holds(old(list)@, m.spec_start(), m.spec_end()),
        ensures
            final(list).wf(),
            final(list)@ == after_retire(old(list)@, m.spec_start(), m@.len() as int),
    {
        proof {
            let s = list@;
            let a = self.insert_point.index as int;
            let b = self.ptr.index as int;
            assert forall|j: int| 0 <= j < s.len() implies m.spec_end() <= (#[trigger] s[j]).start
                || s[j].spec_end() <= m.spec_start() by {}
            assert forall|j: int|
                0 <= j < a
            implies
                (#[trigger] s[j]).spec_end() < m.spec_start()
            by {
                assert(s[a].wf());
                assert(s[j].spec_end() < s[a].start);
                assert(s[a].spec_end() <= m.spec_start());
            }
            if a < s.len() && a == b {
                assert(s[a].wf());
                assert(m.spec_end() <= s[a].start);
            }
        }
        match self.insert_point.try_insert_after(list, m) {
            None => {},
            Some(m) => {
                proof {
                    let s = list@;
                    let a = self.insert_point.index as int;
                    let b = self.ptr.index as int;
                    assert forall|j: int| 0 <= j < b implies (#[trigger] s[j]).spec_end()
                        < m.spec_start() by {
                        assert(s[j].spec_end() <= m.spec_start());
                        if j < a {
                            assert(s[a].wf());
                            assert(s[j].spec_end() < s[a].start);
                            assert(s[a].spec_end() <= m.spec_start());
                        }
                    }
                    if b < s.len() {
                        assert(s[b].wf());
                        assert(m.spec_end() <= s[b].start);
                    }
                }
                let rest = self.ptr.try_insert(list, m);
                assert(rest.is_none());
            },
        }
    }

    /// The place after this one, if `ptr` points to a region.
    pub fn next(&self, list: &FreeList) -> (r: Option<FreeListSpan>)
        requires
            self.ptr.index <= list@.len(),
        ensures
            r == if self.ptr.index < list@.len() {
                Some(self.spec_next())
            } else {
                None
            },
    {
        if self.ptr.index < list.blocks.len() {
            Some(
                FreeListSpan {
                    insert_point: self.ptr,
                    ptr: FreeBlockPtr { index: self.ptr.index + 1 },
                },
            )
        } else {
            None
        }
    }
}

/// A walk over the places of a free list.
pub struct FreeListSpanIterator {
    pub next: Option<FreeListSpan>,
}

impl FreeListSpanIterator {
    fn new(p: FreeBlockPtr) -> (r: FreeListSpanIterator)
        ensures
            r.next == Some(FreeListSpan { insert_point: p, ptr: p }),
    {
        FreeListSpanIterator { next: Some(FreeListSpan::new(p)) }
    }

    /// The place that the walk has come to, if it has not ended; the walk
    /// then moves on to the next.
    pub fn next(&mut self, list: &FreeList) -> (r: Option<FreeListSpan>)
        requires
            old(self).next matches Some(span) ==> span.ptr.index <= list@.len(),
        ensures
            r == old(self).next,
            final(self).next == match old(self).next {
                Some(span) if span.ptr.index < list@.len() => Some(span.spec_next()),
                _ => None,
            },
    {
        let rv = self.next;
        self.next = match rv {
            Some(span) => span.next(list),
            None => None,
        };
        rv
    }
}

/// Whether some region of the chain holds the byte at address `a`.
pub open spec fn covers(s: Seq<FreeBlock>, a: int) -> bool {
    exists|i: int| 0 <= i < s.len() && (#[trigger] s[i]).start <= a < s[i].spec_end()
}

/// Every region lies in `base..limit`, starts a whole number of `unit`s
/// after `base` and is a whole number of `unit`s long.
pub open spec fn chain_aligned(s: Seq<FreeBlock>, base: int, limit: int, unit: int) -> bool {
    forall|i: int|
        0 <= i < s.len() ==> base <= (#[trigger] s[i]).start && s[i].spec_end() <= limit
            && (s[i].start
            - base) % unit == 0 && (s[i].size as int) % unit == 0
}

/// Allocating from region `k` keeps a well-formed chain well formed.
pub proof fn lemma_allocate_keeps_chain(s: Seq<FreeBlock>, k: int, amount: int)
    requires
        chain_wf(s),
        0 <= k < s.len(),
        0 <= amount <= s[k].size,
    ensures
        chain_wf(after_allocate(s, k, amount)),
{
    let t = after_allocate(s, k, amount);
    assert(s[k].wf());
    if splits(s[k], amount) {
        assert forall|i: int| 0 <= i < t.len() implies (#[trigger] t[i]).wf() by {
            if i != k {
                assert(t[i] == s[i]);
            }
        }
        assert forall|i: int, j: int| 0 <= i < j < t.len() implies (#[trigger] t[i]).spec_end() < (
        #[trigger] t[j]).start by {
            assert(s[i].spec_end() < s[j].start);
        }
    } else {
        lemma_remove_keeps_chain(s, k);
    }
}

/// After an allocation from region `k` the chain holds the bytes that it
/// held, but for those handed out.
pub proof fn lemma_allocate_covers(s: Seq<FreeBlock>, k: int, amount: int, a: int)
    requires
        chain_wf(s),
        0 <= k < s.len(),
        0 <= amount <= s[k].size,
    ensures
        covers(after_allocate(s, k, amount), a) <==> covers(s, a) && !(s[k].start <= a < s[k].start
            + taken(s[k], amount)),
{
    let t = after_allocate(s, k, amount);
    assert(s[k].wf());
    if covers(t, a) {
        let i = choose|i: int| 0 <= i < t.len() && (#[trigger] t[i]).start <= a < t[i].spec_end();
        let j = if splits(s[k], amount) || i < k { i } else { i + 1 };
        assert(s[j].start <= a < s[j].spec_end());
        if j < k {
            assert(s[j].spec_end() < s[k].start);
        } else if j > k {
            assert(s[k].spec_end() < s[j].start);
        }
    }
    if covers(s, a) && !(s[k].start <= a < s[k].start + taken(s[k], amount)) {
        let j = choose|j: int| 0 <= j < s.len() && (#[trigger] s[j]).start <= a < s[j].spec_end();
        let i = if splits(s[k], amount) || j < k { j } else { j - 1 };
        assert(t[i].start <= a < t[i].spec_end());
    }
}

/// An allocation of a whole number of units keeps an aligned chain aligned.
pub proof fn lemma_allocate_keeps_aligned(
    s: Seq<FreeBlock>,
    k: int,
    amount: int,
    base: int,
    limit: int,
    unit: int,
)
    requires
        chain_wf(s),
        0 <= k < s.len(),
        0 <= amount <= s[k].size,
        unit > 0,
        amount % unit == 0,
        chain_aligned(s, base, limit, unit),
    ensures
        chain_aligned(after_allocate(s, k, amount), base, limit, unit),
{
    let t = after_allocate(s, k, amount);
    assert(s[k].wf());
    assert forall|i: int| 0 <= i < t.len() implies base <= (#[trigger] t[i]).start
        && t[i].spec_end()
        <= limit && (t[i].start - base) % unit == 0 && (t[i].size as int) % unit == 0 by {
        let j = if splits(s[k], amount) || i < k { i } else { i + 1 };
        assert(base <= s[j].start && s[j].spec_end() <= limit);
        if splits(s[k], amount) && i == k {
            lemma_mod_sum(s[k].start - base, amount, unit);
            lemma_mod_diff(s[k].size as int, amount, unit);
        } else {
            assert(t[i] == s[j]);
        }
    }
}

/// The sum of two multiples of `unit` is a multiple of `unit`.
pub proof fn lemma_mod_sum(a: int, b: int, unit: int)
    requires
        unit > 0,
        a % unit == 0,
        b % unit == 0,
    ensures
        (a + b) % unit == 0,
{
    vstd::arithmetic::div_mod::lemma_mod_adds(a, b, unit);
}

/// The difference of two multiples of `unit` is a multiple of `unit`.
pub proof fn lemma_mod_diff(a: int, b: int, unit: int)
    requires
        unit > 0,
        a % unit == 0,
        b % unit == 0,
    ensures
        (a - b) % unit == 0,
{
    vstd::arithmetic::div_mod::lemma_fundamental_div_mod(a, unit);
    vstd::arithmetic::div_mod::lemma_fundamental_div_mod(b, unit);
    let qa = a / unit;
    let qb = b / unit;
    assert(a - b == (qa - qb) * unit) by (nonlinear_arith)
        requires
            a == unit * qa,
            b == unit * qb,
    ;
    vstd::arithmetic::div_mod::lemma_mod_multiples_basic(qa - qb, unit);
}

/// The four shapes of the chain after a span was retired at position `k`.
pub proof fn lemma_retire_shape(s: Seq<FreeBlock>, start: int, size: int)
    requires
        chain_wf(s),
        0 < start,
        size >= FREE_BLOCK_SIZE,
        start + size <= usize::MAX,
        apart_from(s, start, start + size),
    ensures
        chain_wf(after_retire(s, start, size)),
        0 <= position_from(s, start, 0) <= s.len(),
        forall|j: int| 0 <= j < position_from(s, start, 0)
            ==> (#[trigger] s[j]).spec_end() <= start,
        forall|j: int|
            position_from(s, start, 0) <= j < s.len() ==> start + size <= (#[trigger] s[j]).start,
        position_from(s, start, 0) > 0 && s[position_from(s, start, 0) - 1].spec_end() == start
            ==> s[position_from(s, start, 0) - 1].size + size <= usize::MAX,
        position_from(s, start, 0) < s.len() && s[position_from(s, start, 0) as int].start == start
            + size ==> size + s[position_from(s, start, 0) as int].size <= usize::MAX,
        position_from(s, start, 0) > 0 && s[position_from(s, start, 0) - 1].spec_end() == start
            && position_from(s, start, 0) < s.len() && s[position_from(s, start, 0) as int].start
            == start + size ==> s[position_from(s, start, 0) - 1].size + size + s[position_from(
            s,
            start,
            0,
        ) as int].size <= usize::MAX,
{
    let k = position_from(s, start, 0);
    lemma_position(s, start, 0);
    assert forall|j: int| 0 <= j < k implies (#[trigger] s[j]).spec_end() <= start by {
        assert(s[j].wf());
    }
    assert forall|j: int| k <= j < s.len() implies start + size <= (#[trigger] s[j]).start by {
        assert(s[j].wf());
        assert(s[k].start >= start);
        assert(s[k].wf());
        if j > k {
            assert(s[k].spec_end() < s[j].start);
        }
    }
    if k < s.len() {
        assert(s[k].wf());
    }
    if k > 0 {
        assert(s[k - 1].wf());
    }
    if k > 0 && s[k - 1].spec_end() == start {
        lemma_retire_after(s, k - 1, start, size);
    } else if k < s.len() {
        assert forall|j: int| 0 <= j < k implies (#[trigger] s[j]).spec_end() < start by {
            if j < k - 1 {
                assert(s[j].spec_end() < s[k - 1].start);
            }
        }
        lemma_retire_before(s, k, start, size);
    } else {
        assert forall|j: int| 0 <= j < s.len() implies (#[trigger] s[j]).spec_end() < start by {
            if j < k - 1 {
                assert(s[j].spec_end() < s[k - 1].start);
            }
        }
        lemma_retire_last(s, start, size);
    }
}

/// Whether region `b` holds the byte at address `a`.
pub open spec fn holds_byte(b: FreeBlock, a: int) -> bool {
    b.start <= a < b.spec_end()
}

/// A chain holds the bytes of each of its regions and of the others.
pub proof fn lemma_covers_remove(s: Seq<FreeBlock>, k: int, a: int)
    requires
        0 <= k < s.len(),
    ensures
        covers(s, a) <==> covers(s.remove(k), a) || holds_byte(s[k], a),
{
    let t = s.remove(k);
    if covers(s, a) {
        let j = choose|j: int| 0 <= j < s.len() && (#[trigger] s[j]).start <= a < s[j].spec_end();
        if j != k {
            let i = if j < k { j } else { j - 1 };
            assert(t[i] == s[j]);
            assert(t[i].start <= a < t[i].spec_end());
        }
    }
    if covers(t, a) {
        let i = choose|i: int| 0 <= i < t.len() && (#[trigger] t[i]).start <= a < t[i].spec_end();
        let j = if i < k { i } else { i + 1 };
        assert(t[i] == s[j]);
        assert(s[j].start <= a < s[j].spec_end());
    }
    if holds_byte(s[k], a) {
        assert(s[k].start <= a < s[k].spec_end());
    }
}

/// A chain with a region put in holds the bytes that it held and those of
/// the region.
pub proof fn lemma_covers_insert(s: Seq<FreeBlock>, k: int, b: FreeBlock, a: int)
    requires
        0 <= k <= s.len(),
    ensures
        covers(s.insert(k, b), a) <==> covers(s, a) || holds_byte(b, a),
{
    let t = s.insert(k, b);
    assert(t.remove(k) =~= s);
    assert(t[k] == b);
    lemma_covers_remove(t, k, a);
}

/// A chain with a region replaced holds the bytes of the other regions and
/// those of the new one.
pub proof fn lemma_covers_update(s: Seq<FreeBlock>, k: int, b: FreeBlock, a: int)
    requires
        0 <= k < s.len(),
    ensures
        covers(s.update(k, b), a) <==> covers(s.remove(k), a) || holds_byte(b, a),
{
    let t = s.update(k, b);
    assert(t.remove(k) =~= s.remove(k));
    assert(t[k] == b);
    lemma_covers_remove(t, k, a);
}

/// After a span was retired the chain holds the bytes that it held and
/// those of the span.
pub proof fn lemma_retire_covers(s: Seq<FreeBlock>, start: int, size: int, a: int)
    requires
        chain_wf(s),
        0 < start,
        size >= FREE_BLOCK_SIZE,
        start + size <= usize::MAX,
        apart_from(s, start, start + size),
    ensures
        covers(after_retire(s, start, size), a) <==> covers(s, a) || start <= a < start + size,
{
    let k = position_from(s, start, 0);
    lemma_retire_shape(s, start, size);
    let joins_prev = k > 0 && s[k - 1].spec_end() == start;
    let joins_next = k < s.len() && start + size == s[k].start;
    if joins_prev && joins_next {
        let grown = FreeBlock { start: s[k - 1].start,
            size: (s[k - 1].size + size + s[k].size) as usize };
        let u = s.update(k - 1, grown);
        lemma_covers_update(s, k - 1, grown, a);
        lemma_covers_remove(s, k - 1, a);
        lemma_covers_remove(u, k, a);
        assert(u[k] == s[k]);
        let t = u.remove(k);
        assert(t[k - 1] == grown);
        if holds_byte(grown, a) {
            assert(t[k - 1].start <= a < t[k - 1].spec_end());
        }
        // the region that joined from behind is one of the regions that stay when `k - 1` leaves
        let r = s.remove(k - 1);
        assert(r[k - 1] == s[k]);
        if holds_byte(s[k], a) {
            assert(r[k - 1].start <= a < r[k - 1].spec_end());
        }
        assert(after_retire(s, start, size) == t);
    } else if joins_prev {
        let grown = FreeBlock { start: s[k - 1].start, size: (s[k - 1].size + size) as usize };
        lemma_covers_update(s, k - 1, grown, a);
        lemma_covers_remove(s, k - 1, a);
        assert(after_retire(s, start, size) == s.update(k - 1, grown));
    } else if joins_next {
        let grown = FreeBlock { start: start as usize, size: (size + s[k].size) as usize };
        lemma_covers_update(s, k, grown, a);
        lemma_covers_remove(s, k, a);
        assert(after_retire(s, start, size) == s.update(k, grown));
    } else {
        let b = FreeBlock { start: start as usize, size: size as usize };
        lemma_covers_insert(s, k, b, a);
        assert(after_retire(s, start, size) == s.insert(k, b));
    }
}

/// Retiring an aligned span keeps an aligned chain aligned.
pub proof fn lemma_retire_keeps_aligned(
    s: Seq<FreeBlock>,
    start: int,
    size: int,
    base: int,
    limit: int,
    unit: int,
)
    requires
        chain_wf(s),
        0 < start,
        size >= FREE_BLOCK_SIZE,
        start + size <= usize::MAX,
        apart_from(s, start, start + size),
        unit > 0,
        size % unit == 0,
        (start - base) % unit == 0,
        base <= start,
        start + size <= limit,
        chain_aligned(s, base, limit, unit),
    ensures
        chain_aligned(after_retire(s, start, size), base, limit, unit),
{
    let k = position_from(s, start, 0);
    lemma_retire_shape(s, start, size);
    let t = after_retire(s, start, size);
    let joins_prev = k > 0 && s[k - 1].spec_end() == start;
    let joins_next = k < s.len() && start + size == s[k].start;
    assert forall|i: int| 0 <= i < t.len() implies base <= (#[trigger] t[i]).start
        && t[i].spec_end()
        <= limit && (t[i].start - base) % unit == 0 && (t[i].size as int) % unit == 0 by {
        if joins_prev && joins_next {
            if i < k - 1 {
                assert(t[i] == s[i]);
            } else if i == k - 1 {
                assert(base <= s[k - 1].start && s[k].spec_end() <= limit);
                lemma_mod_sum(s[k - 1].size as int, size, unit);
                lemma_mod_sum(s[k - 1].size + size, s[k].size as int, unit);
            } else {
                assert(t[i] == s[i + 1]);
            }
        } else if joins_prev {
            if i == k - 1 {
                assert(base <= s[k - 1].start);
                lemma_mod_sum(s[k - 1].size as int, size, unit);
            } else {
                assert(t[i] == s[i]);
            }
        } else if joins_next {
            if i == k {
                assert(s[k].spec_end() <= limit);
                lemma_mod_sum(size, s[k].size as int, unit);
            } else {
                assert(t[i] == s[i]);
            }
        } else {
            if i < k {
                assert(t[i] == s[i]);
            } else if i > k {
                assert(t[i] == s[i - 1]);
            }
        }
    }
}

/// The regions of a well-formed chain lie apart in the address space, so
/// there cannot be more of them than addresses.
pub proof fn lemma_chain_len(s: Seq<FreeBlock>)
    requires
        chain_wf(s),
    ensures
        16 * s.len() <= usize::MAX,
{
    if s.len() > 0 {
        lemma_chain_ends(s, s.len() - 1);
        assert(s[s.len() - 1].wf());
    }
}

proof fn lemma_chain_ends(s: Seq<FreeBlock>, i: int)
    requires
        chain_wf(s),
        0 <= i < s.len(),
    ensures
        s[i].spec_end() >= 16 * (i + 1),
    decreases i,
{
    assert(s[i].wf());
    if i > 0 {
        lemma_chain_ends(s, i - 1);
        assert(s[i - 1].spec_end() < s[i].start);
    }
}

/// Returning the span of an allocation to the chain gives back the chain
/// from before the allocation: what `retire` does undoes what `allocate`
/// did.
pub proof fn lemma_retire_undoes_allocate(s: Seq<FreeBlock>, amount: int)
    requires
        chain_wf(s),
        0 <= amount,
        first_fit(s, amount) < s.len(),
    ensures
        after_retire(
            after_allocate(s, first_fit(s, amount), amount),
            s[first_fit(s, amount)].start as int,
            taken(s[first_fit(s, amount)], amount),
        ) == s,
{
    let k = first_fit(s, amount);
    lemma_first_fit(s, amount, 0);
    let block = s[k];
    let start = block.start as int;
    let t = after_allocate(s, k, amount);
    assert(block.wf());
    assert forall|j: int| 0 <= j < k implies (#[trigger] t[j]).start < start by {
        assert(t[j] == s[j]);
        assert(s[j].wf());
        assert(s[j].spec_end() < s[k].start);
    }
    if k > 0 {
        assert(t[k - 1] == s[k - 1]);
        assert(s[k - 1].spec_end() < s[k].start);
    }
    if splits(block, amount) {
        lemma_position_is(t, start, k);
        assert(t[k].start == start + amount);
        assert(after_retire(t, start, amount) =~= s);
    } else {
        if k < t.len() {
            assert(t[k] == s[k + 1]);
            assert(s[k].spec_end() < s[k + 1].start);
        }
        lemma_position_is(t, start, k);
        assert(after_retire(t, start, block.size as int) =~= s);
    }
}

/// What stays of a chain around the place of a retired span: the regions in
/// front of the place keep their starts, and the regions behind the place
/// start at or behind the end of the span.
pub proof fn lemma_retire_around(s: Seq<FreeBlock>, start: int, size: int)
    requires
        chain_wf(s),
        0 < start,
        size >= FREE_BLOCK_SIZE,
        start + size <= usize::MAX,
        apart_from(s, start, start + size),
    ensures
        position_from(s, start, 0) <= after_retire(s, start, size).len(),
        forall|j: int|
            0 <= j < position_from(s, start, 0)
                ==> (#[trigger] after_retire(s, start, size)[j]).start
                == s[j].start,
        forall|j: int|
            position_from(s, start, 0) < j < after_retire(s, start, size).len()
                ==> start + size <= (
            #[trigger] after_retire(s, start, size)[j]).start,
{
    let k = position_from(s, start, 0);
    lemma_retire_shape(s, start, size);
    let t = after_retire(s, start, size);
    let joins_prev = k > 0 && s[k - 1].spec_end() == start;
    let joins_next = k < s.len() && start + size == s[k].start;
    if joins_prev && joins_next {
        let grown = FreeBlock { start: s[k - 1].start,
            size: (s[k - 1].size + size + s[k].size) as usize };
        assert(t == s.update(k - 1, grown).remove(k));
        assert forall|j: int| k < j < t.len() implies start + size <= (#[trigger] t[j]).start by {
            assert(t[j] == s[j + 1]);
        }
    } else if joins_prev {
        assert forall|j: int| k < j < t.len() implies start + size <= (#[trigger] t[j]).start by {
            assert(t[j] == s[j]);
        }
    } else if joins_next {
        assert forall|j: int| k < j < t.len() implies start + size <= (#[trigger] t[j]).start by {
            assert(t[j] == s[j]);
        }
    } else {
        let b = FreeBlock { start: start as usize, size: size as usize };
        assert(t == s.insert(k, b));
        assert forall|j: int| k < j < t.len() implies start + size <= (#[trigger] t[j]).start by {
            assert(t[j] == s[j - 1]);
        }
        assert forall|j: int| 0 <= j < k implies (#[trigger] t[j]).start == s[j].start by {
            assert(t[j] == s[j]);
        }
    }
}

} // verus!
