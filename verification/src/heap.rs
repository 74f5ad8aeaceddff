//! The heap: a pool of blocks with a color map and a free list, and the
//! incremental mark and sweep collector that works on the two in step.
use crate::{BLOCK_SIZE_BYTES, ceil_to, div_ceil, floor_to, WORD_SIZE_BYTES};
use crate::color_map::{BlockRange, Color, ColorMap, lemma_run_start, run_start};
use crate::free_list::{FreeBlock, FreeBlockPtr, FreeList, FreeListSpan};
use crate::memory::Memory;
use crate::model::{
    HeapView, kind_name, lemma_allocated_wf, lemma_behind_region, lemma_block_of, lemma_checked,
    lemma_count_bounds, lemma_count_update, lemma_first_block, lemma_free_region_blocks,
    lemma_object_apart, lemma_object_end, lemma_painted, lemma_region_found, lemma_retired_wf,
    lemma_same_spans, lemma_span_end, Phase, rounded, separator, span_text, SpanType, with_word,
    word_at, zeroed,
};
use crate::phases::{lemma_same_spans_trans, lemma_swept_spans, lemma_swept_from, 
    lemma_allocated, lemma_mark_checked, lemma_mark_started, lemma_retired, lemma_round,
    lemma_swept, lemma_written,
};
use crate::reach::{collected, collection_keeps_what_is_reachable, lemma_marked, reachable};
use crate::text::{push_decimal, push_str};
use vstd::bytes::{u64_from_le_bytes, u64_to_le_bytes};
use vstd::prelude::*;
use vstd::slice::slice_subrange;

verus! {

/// Stats returned from `Heap::get_stats`.
#[derive(Clone, Copy, Debug, PartialEq, Eq)]
pub struct HeapStats {
    /// total bytes available in the heap: provided memory minus overhead
    pub total_bytes: usize,
    /// bytes free for future allocations right now
    pub free_bytes: usize,
    /// for testing & debugging: the extent of the pool
    pub start: usize,
    /// for testing & debugging: the extent of the pool
    pub end: usize,
}

/// A span of the pool, free or allocated, as the walk over the heap
/// yields it: its addresses, its kind, and the place in the free list at
/// which the span would be returned to it.
#[derive(Clone, Copy, Debug, PartialEq, Eq)]
pub struct HeapSpan {
    pub start: usize,
    pub end: usize,
    pub span_type: SpanType,
    pub free_list_span: FreeListSpan,
}

impl HeapSpan {
    /// The span of a free region.
    pub fn from_free_block(block: &FreeBlock, free_list_span: FreeListSpan) -> (r: HeapSpan)
        requires
            block.spec_end() <= usize::MAX,
        ensures
            r == (HeapSpan {
                start: block.start,
                end: block.spec_end() as usize,
                span_type: SpanType::Free,
                free_list_span,
            }),
    {
        HeapSpan { start: block.start(), end: block.end(), span_type: SpanType::Free,
            free_list_span }
    }

    /// The span of a run of blocks of the heap.
    pub fn from_block_range(heap: &Heap, range: BlockRange, free_list_span: FreeListSpan) -> (r:
        HeapSpan)
        requires
            heap.layout_wf(),
            range.start <= range.end <= heap@.blocks,
        ensures
            r == (HeapSpan {
                start: heap@.address_of(range.start as int) as usize,
                end: heap@.address_of(range.end as int) as usize,
                span_type: SpanType::Color(range.color),
                free_list_span,
            }),
    {
        HeapSpan {
            start: heap.address_of(range.start),
            end: heap.address_of(range.end),
            span_type: SpanType::Color(range.color),
            free_list_span,
        }
    }
}

/// A walk over all the spans of a heap, free or allocated, from the lowest
/// address up. There are two lists to traverse in tandem: the free list and
/// the color map. The walk is a plain cursor: each step is given the heap.
pub struct HeapIterator {
    free_list_span: FreeListSpan,
    current: usize,
}

/// Whether the address `current` lies inside free region `i`, past its
/// first byte.
pub open spec fn inside_region(v: HeapView, i: int, current: int) -> bool {
    0 <= i < v.free.len() && v.free[i].start < current < v.free[i].spec_end()
}

impl HeapIterator {
    /// The address that the walk has come to.
    pub closed spec fn spec_current(&self) -> int {
        self.current as int
    }

    /// The place in the free list that the walk has come to.
    pub closed spec fn spec_span(&self) -> FreeListSpan {
        self.free_list_span
    }

    /// The cursor is one of a walk over the heap `v`: it stands at the
    /// start of a block, the regions behind its place in the free list lie
    /// behind its address and the regions ahead lie ahead. The two regions
    /// at its place may have grown over its address since the last step, as
    /// they do when the span just yielded is returned to the free list.
    #[verifier::opaque]
    pub closed spec fn wf(&self, v: HeapView) -> bool {
        let a = self.free_list_span.insert_point.index as int;
        let b = self.free_list_span.ptr.index as int;
        let current = self.current as int;
        &&& v.start <= current <= v.end()
        &&& current == v.address_of(v.block_index(current))
        &&& self.free_list_span.wf(v.free)
        &&& a < b ==> v.free[a].start < current
        &&& forall|j: int| b < j < v.free.len() ==> current <= (#[trigger] v.free[j]).start
        &&& current < v.end() && !inside_region(v, a, current) && !inside_region(v, b, current)
            ==> v.colors[v.block_index(current)] != Color::Continue
    }

    /// The cursor stands at the start of a span, and its place in the free
    /// list is the place of that address: the regions in front of it lie
    /// behind the address, the others do not.
    #[verifier::opaque]
    pub closed spec fn settled(&self, v: HeapView) -> bool {
        let b = self.free_list_span.ptr.index as int;
        let current = self.current as int;
        &&& self.wf(v)
        &&& forall|j: int| 0 <= j < b ==> (#[trigger] v.free[j]).spec_end() <= current
        &&& forall|j: int| b <= j < v.free.len() ==> current <= (#[trigger] v.free[j]).start
    }

    /// The address of the next span that the walk yields: the address that
    /// the cursor stands at, or the end of the free region that has grown
    /// over it.
    #[verifier::opaque]
    pub closed spec fn position(&self, v: HeapView) -> int {
        let a = self.free_list_span.insert_point.index as int;
        let b = self.free_list_span.ptr.index as int;
        let current = self.current as int;
        if a < b && v.free[a].spec_end() > current {
            v.free[a].spec_end()
        } else if inside_region(v, b, current) {
            v.free[b].spec_end()
        } else {
            current
        }
    }

    /// A walk that begins at the start of the pool.
    pub fn new(heap: &Heap) -> (it: HeapIterator)
        requires
            heap.layout_wf(),
        ensures
            it.settled(heap@),
            it.wf(heap@),
            it.spec_current() == heap@.start,
            it.position(heap@) == heap@.start,
    {
        // there is always at least one place, because the final link that
        // points to nothing is yielded.
        let free_list_span = FreeListSpan {
            insert_point: FreeBlockPtr { index: 0 },
            ptr: FreeBlockPtr { index: 0 },
        };
        let it = HeapIterator { free_list_span, current: heap.start };
        proof {
            reveal(HeapIterator::wf);
            reveal(HeapIterator::settled);
            reveal(HeapIterator::position);
            let v = heap@;
            assert forall|j: int| 0 <= j < v.free.len()
                implies v.start <= (#[trigger] v.free[j]).start by {}
            lemma_first_block(v);
        }
        it
    }

    /// Pass over the free regions that have come to lie behind the cursor
    /// or over it: the cursor moves to the end of a region that has grown
    /// over it, and its place in the free list moves past a region that
    /// lies behind it.
    fn settle(&mut self, heap: &Heap)
        requires
            heap.layout_wf(),
            old(self).wf(heap@),
        ensures
            final(self).settled(heap@),
            final(self).wf(heap@),
            final(self).spec_current() == old(self).position(heap@),
            old(self).spec_current() <= old(self).position(heap@),
            heap@.start <= final(self).spec_current() <= heap@.end(),
            final(self).spec_current() == heap@.address_of(
                heap@.block_index(final(self).spec_current()),
            ),
            final(self).position(heap@) == final(self).spec_current(),
            old(self).settled(heap@) ==> *final(self) == *old(self),
            final(self).spec_current() < heap@.end() ==> heap@.colors[heap@.block_index(
                final(self).spec_current(),
            )] != Color::Continue,
    {
        let a = self.free_list_span.insert_point;
        let b = self.free_list_span.ptr;
        proof {
            lemma_settle(*self, heap@);
        }
        // did the region behind us grow over us when the last span joined it?
        if a.index < b.index {
            match a.block(&heap.free_list) {
                Some(region) => {
                    if region.start + region.size > self.current {
                        self.current = region.start + region.size;
                    }
                },
                None => {},
            }
        }
        match b.block(&heap.free_list) {
            Some(free) => {
                // did they insert a new free region behind us when we gave out the last span?
                if free.start < self.current {
                    if free.start + free.size > self.current {
                        self.current = free.start + free.size;
                    }
                    self.free_list_span = FreeListSpan {
                        insert_point: b,
                        ptr: FreeBlockPtr { index: b.index + 1 },
                    };
                }
            },
            None => {},
        }
    }

    /// Where `settle` takes the cursor: the address of the next span, and
    /// the place of that address in the free list.
    spec fn spec_settled(&self, v: HeapView) -> HeapIterator {
        let b = self.free_list_span.ptr.index as int;
        let behind = behind(*self, v);
        if b < v.free.len() && v.free[b].start < behind {
            HeapIterator {
                free_list_span: self.free_list_span.spec_next(),
                current: (if v.free[b].spec_end() > behind {
                    v.free[b].spec_end()
                } else {
                    behind
                }) as usize,
            }
        } else {
            HeapIterator { free_list_span: self.free_list_span, current: behind as usize }
        }
    }

    /// The next span of the heap, if the walk has not reached the end of
    /// the pool. If the cursor stands at the start of a free region, that
    /// region is the span; otherwise the color map tells the span. A free
    /// region that has come to lie behind the cursor, or over it, is passed
    /// over first.
    pub fn next(&mut self, heap: &Heap) -> (r: Option<HeapSpan>)
        requires
            heap.layout_wf(),
            old(self).wf(heap@),
        ensures
            final(self).settled(heap@),
            final(self).wf(heap@),
            heap@.start <= old(self).position(heap@) <= heap@.end(),
            old(self).position(heap@) == heap@.address_of(
                heap@.block_index(old(self).position(heap@)),
            ),
            old(self).spec_current() <= old(self).position(heap@),
            old(self).settled(heap@) ==> old(self).position(heap@) == old(self).spec_current(),
            old(self).position(heap@) == heap@.end() ==> r.is_none() && final(self).spec_current()
                == heap@.end(),
            old(self).position(heap@) < heap@.end() ==> r.is_some() && heap@.is_boundary(
                heap@.block_index(old(self).position(heap@)),
            ) && r.unwrap().start == old(self).position(heap@)
                && r.unwrap().end == heap@.address_of(
                heap@.span_end(heap@.block_index(old(self).position(heap@))),
            ) && r.unwrap().span_type == heap@.span_kind(
                heap@.block_index(old(self).position(heap@)),
            ) && final(self).spec_current() == r.unwrap().end && r.unwrap().free_list_span.wf(
                heap@.free,
            ) && (r.unwrap().span_type != SpanType::Free ==> r.unwrap().free_list_span
                == final(self).spec_span() && r.unwrap().free_list_span.holds(
                heap@.free,
                r.unwrap().start as int,
                r.unwrap().end as int,
            )),
    {
        let ghost v = heap@;
        self.settle(heap);
        if self.current >= heap.end {
            proof {
                reveal(HeapIterator::wf);
            }
            return None;
        }
        let ghost settled = *self;
        proof {
            lemma_settled_span(settled, v);
        }
        let region = self.free_list_span.ptr.block(&heap.free_list);
        if region.is_some() && region.unwrap().start == self.current {
            let free = region.unwrap();
            let free_span = self.free_list_span;
            self.free_list_span = FreeListSpan {
                insert_point: self.free_list_span.ptr,
                ptr: FreeBlockPtr { index: self.free_list_span.ptr.index + 1 },
            };
            self.current = free.start + free.size;
            proof {
                lemma_settled_next(settled, *self, v);
            }
            Some(HeapSpan::from_free_block(&free, free_span))
        } else {
            let range = heap.get_range(self.current);
            self.current = heap.address_of(range.end);
            proof {
                lemma_settled_next(settled, *self, v);
            }
            Some(HeapSpan::from_block_range(heap, range, self.free_list_span))
        }
    }
}

/// The address of a cursor, or the end of the region in front of its place
/// in the free list if that region has grown over the address.
spec fn behind(it: HeapIterator, v: HeapView) -> int {
    let a = it.free_list_span.insert_point.index as int;
    let b = it.free_list_span.ptr.index as int;
    if a < b && a < v.free.len() && v.free[a].spec_end() > it.current {
        v.free[a].spec_end()
    } else {
        it.current as int
    }
}

/// Behind the region in front of its place in the free list a cursor
/// stands at the start of a block, with every region in front of its place
/// behind it.
proof fn lemma_behind(it: HeapIterator, v: HeapView)
    requires
        v.layout_wf(),
        it.wf(v),
    ensures
        it.spec_span().wf(v.free),
        it.spec_current() <= behind(it, v),
        v.start <= behind(it, v) <= v.end(),
        behind(it, v) == v.address_of(v.block_index(behind(it, v))),
        forall|j: int|
            0 <= j < it.spec_span().ptr.index ==> (#[trigger] v.free[j]).spec_end() <= behind(it, v),
        forall|j: int|
            it.spec_span().ptr.index < j < v.free.len() ==> behind(it, v) <= (
            #[trigger] v.free[j]).start,
        behind(it, v) < v.end() && !inside_region(v, it.spec_span().ptr.index as int, behind(it, v))
            ==> v.colors[v.block_index(behind(it, v))] != Color::Continue,
        it.position(v) == if inside_region(v, it.spec_span().ptr.index as int, behind(it, v)) {
            v.free[it.spec_span().ptr.index as int].spec_end()
        } else {
            behind(it, v)
        },
        it.settled(v) ==> behind(it, v) == it.spec_current(),
{
    reveal(HeapIterator::wf);
    reveal(HeapIterator::settled);
    reveal(HeapIterator::position);
    let a = it.free_list_span.insert_point.index as int;
    let b = it.free_list_span.ptr.index as int;
    if a < b {
        lemma_free_region_blocks(v, a);
        lemma_behind_region(v, a);
        assert forall|j: int| a < j < v.free.len() implies v.free[a].spec_end() <= (
        #[trigger] v.free[j]).start by {
            assert(v.free[a].spec_end() < v.free[j].start);
        }
    }
    assert forall|j: int| 0 <= j < b implies (#[trigger] v.free[j]).spec_end() <= behind(it, v) by {
        if j < a {
            assert(v.free[j].spec_end() < v.free[a].start);
            assert(v.free[a].wf());
        }
    }
}

/// The cursor that `settle` leaves is settled, at the address of the next
/// span.
proof fn lemma_settle(it: HeapIterator, v: HeapView)
    requires
        v.layout_wf(),
        it.wf(v),
    ensures
        it.spec_settled(v).settled(v),
        it.spec_settled(v).wf(v),
        it.spec_settled(v).spec_current() == it.position(v),
        it.spec_current() <= it.position(v),
        v.start <= it.position(v) <= v.end(),
        it.position(v) == v.address_of(v.block_index(it.position(v))),
        it.spec_settled(v).position(v) == it.position(v),
        it.settled(v) ==> it.spec_settled(v) == it,
        it.position(v) < v.end() ==> v.colors[v.block_index(it.position(v))] != Color::Continue,
        it.spec_span().insert_point.index < v.free.len()
            ==> v.free[it.spec_span().insert_point.index as int].wf(),
        it.spec_span().ptr.index < v.free.len() ==> v.free[it.spec_span().ptr.index as int].wf()
            && it.spec_span().ptr.index + 1 <= usize::MAX,
{
    lemma_behind(it, v);
    crate::free_list::lemma_chain_len(v.free);
    let b = it.free_list_span.ptr.index as int;
    if b < v.free.len() {
        lemma_free_region_blocks(v, b);
        lemma_behind_region(v, b);
        assert forall|j: int| b < j < v.free.len() implies v.free[b].spec_end() <= (
        #[trigger] v.free[j]).start by {
            assert(v.free[b].spec_end() < v.free[j].start);
        }
    }
    reveal(HeapIterator::wf);
    reveal(HeapIterator::settled);
    reveal(HeapIterator::position);
}

/// What the walk finds at a settled cursor that has not reached the end of
/// the pool: a span begins there. It is free exactly if the place of the
/// cursor in the free list points to a region that starts there.
proof fn lemma_settled_span(it: HeapIterator, v: HeapView)
    requires
        v.layout_wf(),
        it.settled(v),
        it.spec_current() < v.end(),
        v.colors[v.block_index(it.spec_current())] != Color::Continue,
    ensures
        it.spec_span().ptr.index <= v.free.len(),
        it.spec_span().wf(v.free),
        it.spec_current() == v.address_of(v.block_index(it.spec_current())),
        0 <= v.block_index(it.spec_current()) < v.blocks,
        v.is_boundary(v.block_index(it.spec_current())),
        v.is_free(v.block_index(it.spec_current())) <==> it.spec_span().ptr.index < v.free.len()
            && v.free[it.spec_span().ptr.index as int].start == it.spec_current(),
        it.spec_span().ptr.index < v.free.len() ==> v.free[it.spec_span().ptr.index as int].wf(),
        v.is_free(v.block_index(it.spec_current()))
            ==> v.free[it.spec_span().ptr.index as int].spec_end()
            == v.address_of(v.span_end(v.block_index(it.spec_current()))),
        !v.is_free(v.block_index(it.spec_current())) ==> v.block_of(it.spec_current())
            == v.block_index(it.spec_current()) && it.spec_span().holds(
            v.free,
            it.spec_current(),
            v.address_of(v.object_end(v.block_index(it.spec_current()))),
        ),
        v.block_index(it.spec_current()) < v.span_end(v.block_index(it.spec_current())) <= v.blocks,
{
    reveal(HeapIterator::wf);
    reveal(HeapIterator::settled);
    let b = it.free_list_span.ptr.index as int;
    let current = it.current as int;
    let n = v.block_index(current);
    if b < v.free.len() {
        assert(v.free[b].wf());
    }
    lemma_region_found(v, current, b);
    if v.is_free(n) {
        assert(v.free[b].start <= current);
    }
    lemma_span_end(v, n);
    if !v.is_free(n) {
        crate::color_map::lemma_run_start(v.colors, n);
        crate::model::lemma_object_apart(v, n);
        assert forall|j: int| b <= j < v.free.len() implies v.address_of(v.object_end(n)) <= (
        #[trigger] v.free[j]).start by {
            assert(v.free[j].wf());
            assert(current <= v.free[j].start);
        }
    }
}

/// The cursor behind the span that a settled cursor stands at is settled:
/// behind a free region, with its place in the free list moved on by one;
/// behind an allocated span, with its place as it was.
proof fn lemma_settled_next(it: HeapIterator, next: HeapIterator, v: HeapView)
    requires
        v.layout_wf(),
        it.settled(v),
        it.spec_current() < v.end(),
        v.colors[v.block_index(it.spec_current())] != Color::Continue,
        next.spec_current() == v.address_of(v.span_end(v.block_index(it.spec_current()))),
        next.spec_span() == if v.is_free(v.block_index(it.spec_current())) {
            it.spec_span().spec_next()
        } else {
            it.spec_span()
        },
    ensures
        next.settled(v),
        next.wf(v),
        next.position(v) == next.spec_current(),
{
    lemma_settled_span(it, v);
    crate::free_list::lemma_chain_len(v.free);
    reveal(HeapIterator::wf);
    reveal(HeapIterator::settled);
    reveal(HeapIterator::position);
    let b = it.free_list_span.ptr.index as int;
    let current = it.current as int;
    let n = v.block_index(current);
    let e = v.span_end(n);
    lemma_span_end(v, n);
    if e < v.blocks {
        if v.is_free(e) {
            assert(v.colors[e] == Color::Check);
        }
        assert(v.colors[e] != Color::Continue);
    }
    assert(v.block_index(v.address_of(e)) == e);
    if v.is_free(n) {
        assert(v.free[b].wf());
        assert(v.free[b].start == current);
        assert forall|j: int| b + 1 <= j < v.free.len() implies next.current <= (
        #[trigger] v.free[j]).start by {
            assert(v.free[b].spec_end() < v.free[j].start);
        }
        assert forall|j: int| 0 <= j < b + 1 implies (#[trigger] v.free[j]).spec_end()
            <= next.current by {
            if j < b {
                assert(v.free[j].spec_end() <= current);
            }
        }
    } else {
        assert forall|j: int| 0 <= j < b implies (#[trigger] v.free[j]).spec_end()
            <= next.current by {
            assert(v.free[j].spec_end() <= current);
        }
        let a = it.free_list_span.insert_point.index as int;
        if a < b {
            assert(v.free[a].wf());
            assert(v.free[a].spec_end() <= current);
        }
    }
}

/// A sweep from the address of the cursor is a sweep from the address of
/// the next span: a free region that has grown over the cursor holds
/// nothing to sweep.
proof fn lemma_position_swept(it: HeapIterator, v: HeapView)
    requires
        v.layout_wf(),
        it.wf(v),
    ensures
        it.spec_current() <= it.position(v),
        v.swept_from(v.block_index(it.spec_current())) == v.swept_from(
            v.block_index(it.position(v)),
        ),
{
    reveal(HeapIterator::wf);
    reveal(HeapIterator::settled);
    reveal(HeapIterator::position);
    let a = it.free_list_span.insert_point.index as int;
    let b = it.free_list_span.ptr.index as int;
    let current = it.current as int;
    if it.position(v) != current {
        let i = if a < b && v.free[a].spec_end() > current { a } else { b };
        assert(v.free[i].wf());
        assert forall|j: int| 0 <= j < i implies (#[trigger] v.free[j]).spec_end() <= current by {
            assert(v.free[j].spec_end() < v.free[i].start);
            if i == b && a < b {
                assert(v.free[a].spec_end() <= current);
                if j < a {
                    assert(v.free[j].spec_end() < v.free[a].start);
                    assert(v.free[a].wf());
                }
            }
        }
        lemma_region_found(v, current, i);
        lemma_behind_region(v, i);
    }
}

/// The cursor of a walk that has just yielded the allocated span at block
/// `block` is still a cursor of the walk when that span is retired.
proof fn lemma_cursor_after_retire(it: HeapIterator, v: HeapView, block: int, span: FreeListSpan)
    requires
        v.layout_wf(),
        v.is_object(block),
        it.spec_span() == span,
        it.spec_current() == v.address_of(v.object_end(block)),
        span.wf(v.free),
        span.holds(v.free, v.address_of(block), v.address_of(v.object_end(block))),
    ensures
        it.wf(v.retired(block)),
{
    reveal(HeapIterator::wf);
    let w = v.retired(block);
    let e = v.object_end(block);
    let s = v.address_of(block);
    let size = 16 * (e - block);
    let a = span.insert_point.index as int;
    let b = span.ptr.index as int;
    lemma_object_end(v, block);
    crate::model::lemma_object_apart(v, block);
    assert forall|j: int| 0 <= j < b implies v.free[j].start < s by {
        assert(v.free[j].wf());
        assert(v.free[j].spec_end() <= s);
    }
    if b < v.free.len() {
        assert(v.free[b].wf());
        assert(s + size <= v.free[b].start);
    }
    crate::free_list::lemma_position_is(v.free, s, b);
    crate::free_list::lemma_retire_around(v.free, s, size);
    lemma_retired_wf(v, block);
    let t = w.free;
    if a < b {
        assert(v.free[a].wf());
        assert(v.free[a].spec_end() <= s);
        assert(t[a].start == v.free[a].start);
    }
    if e < v.blocks {
        assert(w.colors[e] == v.colors[e]);
    }
}

/// The name that a dump writes for a kind of span.
fn kind_label(kind: SpanType) -> (name: &'static str)
    ensures
        name@ == kind_name(kind),
{
    match kind {
        SpanType::Free => "FREE",
        SpanType::Color(Color::Blue) => "Blue",
        SpanType::Color(Color::Green) => "Green",
        SpanType::Color(Color::Check) => "Check",
        SpanType::Color(Color::Continue) => "Continue",
    }
}

/// Append what a dump writes for one span to `s`, after a comma and a
/// space if the span is not the first.
fn push_span(s: &mut String, first: bool, kind: SpanType, size: usize, sizes: bool)
    ensures
        final(s)@ == old(s)@ + (separator(first) + span_text(kind, size as int, sizes)),
{
    if !first {
        push_str(s, ", ");
    }
    push_str(s, kind_label(kind));
    if sizes {
        push_str(s, "[");
        push_decimal(s, size);
        push_str(s, "]");
    }
    assert(s@ =~= old(s)@ + (separator(first) + span_text(kind, size as int, sizes)));
}

/// A settled cursor stands at the address of the next span.
proof fn lemma_settled_position(it: HeapIterator, v: HeapView)
    requires
        v.layout_wf(),
        it.wf(v),
        it.settled(v),
    ensures
        it.position(v) == it.spec_current(),
{
    reveal(HeapIterator::wf);
    reveal(HeapIterator::settled);
    reveal(HeapIterator::position);
    let a = it.free_list_span.insert_point.index as int;
    let b = it.free_list_span.ptr.index as int;
    if a < b {
        assert(v.free[a].spec_end() <= it.current);
    }
    if b < v.free.len() {
        assert(it.current <= v.free[b].start);
    }
}

/// A dump from the end of the pool writes nothing.
proof fn lemma_dump_end(v: HeapView, first: bool, sizes: bool)
    requires
        v.layout_wf(),
    ensures
        v.dump_from(v.block_index(v.end()), first, sizes) == Seq::<char>::empty(),
{
}

/// A dump from the start of a span writes that span, then the rest.
proof fn lemma_dump_step(v: HeapView, n: int, first: bool, sizes: bool)
    requires
        v.layout_wf(),
        v.is_boundary(n),
        n < v.blocks,
    ensures
        v.dump_from(n, first, sizes) == (separator(first) + span_text(
            v.span_kind(n),
            16 * (v.span_end(n) - n),
            sizes,
        )) + v.dump_from(v.span_end(n), false, sizes),
        v.address_of(v.span_end(n)) - v.address_of(n) == 16 * (v.span_end(n) - n),
        n < v.span_end(n) <= v.blocks,
        v.block_index(v.address_of(v.span_end(n))) == v.span_end(n),
        v.block_index(v.address_of(n)) == n,
{
    lemma_span_end(v, n);
}

/// A sweep from the end of the pool changes nothing.
proof fn lemma_sweep_end(v: HeapView)
    requires
        v.layout_wf(),
    ensures
        v.swept_from(v.block_index(v.end())) == v,
{
}

/// A sweep from the start of a span passes over the span if it is free or
/// not condemned, and retires it otherwise; then it goes on behind it.
proof fn lemma_sweep_step(v: HeapView, n: int)
    requires
        v.layout_wf(),
        v.is_boundary(n),
        n < v.blocks,
    ensures
        v.swept_from(n) == if v.span_kind(n) == SpanType::Color(v.condemned()) {
            v.retired(n).swept_from(v.span_end(n))
        } else {
            v.swept_from(v.span_end(n))
        },
        v.span_kind(n) == SpanType::Color(v.condemned()) ==> v.is_object(n) && v.holds_span(
            v.address_of(n),
            v.address_of(v.span_end(n)) - v.address_of(n),
        ) && v.span_end(n) == v.object_end(n),
        n < v.span_end(n) <= v.blocks,
        v.address_of(n) < v.address_of(v.span_end(n)) <= v.end(),
        v.block_index(v.address_of(v.span_end(n))) == v.span_end(n),
        v.block_index(v.address_of(n)) == n,
        v.retired(n).blocks == v.blocks,
        v.retired(n).start == v.start,
        v.retired(n).phase == v.phase,
        v.retired(n).current_color == v.current_color,
{
    lemma_span_end(v, n);
}

/// Takes ownership of a region of memory, hands out chunks of it, and
/// garbage collects unused chunks on demand.
///
/// The heap is organized into allocatable blocks, with a small part of the
/// region reserved as a map of colors. Each block has a 2-bit color in the
/// map. One color marks the continuation of a span, so each allocation is a
/// color followed by zero or more "continue" markers. The other three
/// colors are the white, gray, and black of tri-color marking, called blue,
/// green, and "check" here. Separately, a sorted free list holds the free
/// regions.
pub struct Heap {
    start: usize,
    end: usize,
    blocks: usize,
    pool: Vec<u8>,
    color_map: ColorMap,
    free_list: FreeList,
    // gc state:
    current_color: Color,
    phase: Phase,
    // for marking:
    check_start: usize,
    check_end: usize,
}

impl View for Heap {
    type V = HeapView;

    closed spec fn view(&self) -> HeapView {
        HeapView {
            start: self.start as int,
            blocks: self.blocks as int,
            bytes: self.pool@,
            colors: self.color_map@,
            free: self.free_list@,
            current_color: self.current_color,
            phase: self.phase,
            check_start: self.check_start as int,
            check_end: self.check_end as int,
        }
    }
}

impl Heap {
    /// The fields that the view does not show agree with it.
    pub closed spec fn consistent(&self) -> bool {
        self.end == self@.end() && self.color_map.wf()
    }

    /// The pool and its two books agree.
    pub open spec fn layout_wf(&self) -> bool {
        self@.layout_wf() && self.consistent()
    }

    /// The heap is well formed: the pool and its two books agree, and the
    /// colors of the spans fit the phase of the collector.
    pub open spec fn wf(&self) -> bool {
        self@.wf() && self.consistent()
    }

    /// Create a new heap out of a region of memory.
    pub fn new(m: Memory) -> (h: Heap)
        requires
            m.wf(),
        ensures
            h.wf(),
            h@ == HeapView::fresh(m.spec_start(), m@),
    {
        // total heap = pool + color map, and the pool is just
        // color_map_size * blocks_per_colormap_byte * block_size,
        // so color_map_size = heap size / (1 + bpm * bs)
        let divisor: usize = 1 + crate::color_map::BLOCKS_PER_COLORMAP_BYTE * BLOCK_SIZE_BYTES;
        let len: usize = m.len();
        let color_map_size: usize = div_ceil(len, divisor);
        let pool_size: usize = floor_to(len - color_map_size, BLOCK_SIZE_BYTES);
        let ghost region = m@;
        let ghost origin = m.spec_start();
        let (pool_data, color_data) = m.split_at(len - color_map_size);
        let blocks: usize = pool_size / BLOCK_SIZE_BYTES;

        // all of memory is free.
        let pool = pool_data.split_at(pool_size).0;
        let start: usize = pool.start();
        let end: usize = pool.end();
        let color_map = ColorMap::new(color_data);
        let free_list = FreeList::new(Memory::from_addresses(start, end));
        let h = Heap {
            start,
            end,
            blocks,
            pool: pool.inner(),
            color_map,
            free_list,
            current_color: Color::Blue,
            phase: Phase::Quiet,
            check_start: 0,
            check_end: 0,
        };
        proof {
            let v = h@;
            let f = HeapView::fresh(origin, region);
            assert(v.bytes =~= f.bytes);
            assert(v.colors =~= f.colors);
            assert(v.free =~= f.free);
            assert(v == f);
            assert forall|n: int| 0 <= n < v.blocks
                && #[trigger] v.colors[n] == Color::Continue implies n > 0
                && !v.is_free(n - 1) by {}
            assert forall|b: int| #[trigger] v.is_object(b) implies false by {
                assert(v.free[0].start <= v.address_of(b) < v.free[0].spec_end());
            }
        }
        h
    }

    /// Create a new heap out of a chunk of bytes, placed at `BASE_ADDRESS`.
    pub fn from_bytes(bytes: Vec<u8>) -> (h: Heap)
        requires
            crate::memory::BASE_ADDRESS + bytes.len() <= usize::MAX,
        ensures
            h.wf(),
            h@ == HeapView::fresh(crate::memory::BASE_ADDRESS as int, bytes@),
    {
        Heap::new(Memory::new(bytes))
    }

    /// The address of the first byte of block `block`.
    pub fn address_of(&self, block: usize) -> (a: usize)
        requires
            self.layout_wf(),
            block <= self@.blocks,
        ensures
            a == self@.address_of(block as int),
    {
        self.start + block * BLOCK_SIZE_BYTES
    }

    /// The block that begins the span holding the byte at address `p`:
    /// wherever into a span `p` points, this is the span's first block.
    pub fn block_of(&self, p: usize) -> (b: usize)
        requires
            self.layout_wf(),
            self@.in_pool(p as int),
        ensures
            b == self@.block_of(p as int),
            b <= self@.block_index(p as int) < self@.blocks,
    {
        let mut b: usize = (p - self.start) / BLOCK_SIZE_BYTES;
        while b > 0 && self.color_map.get(b) == Color::Continue
            invariant
                self.layout_wf(),
                b <= self@.block_index(p as int) < self@.blocks,
                run_start(self@.colors, b as int) == self@.block_of(p as int),
            decreases b,
        {
            b -= 1;
        }
        b
    }

    /// The blocks that the span `memory` covers, with the color `color`.
    pub fn block_range_of(&self, memory: &Memory, color: Color) -> (r: BlockRange)
        requires
            self.layout_wf(),
            memory.wf(),
            self@.in_pool(memory.spec_start()),
            memory.spec_end() <= self@.end(),
        ensures
            r.start == self@.block_of(memory.spec_start()),
            r.end == r.start + memory@.len() / 16,
            r.color == color,
    {
        let start: usize = self.block_of(memory.start());
        let end: usize = start + memory.len() / BLOCK_SIZE_BYTES;
        BlockRange { start, end, color }
    }

    /// Whether `p` may be a reference into the pool: it lies in the pool
    /// and is aligned to a machine word. A reference may point anywhere
    /// into a span.
    pub fn is_block(&self, p: usize) -> (r: bool)
        requires
            self.layout_wf(),
        ensures
            r == self@.is_block(p as int),
    {
        p >= self.start && p < self.end && p % WORD_SIZE_BYTES == 0
    }

    /// The span that holds the byte at address `p`, in blocks.
    pub fn get_range(&self, p: usize) -> (r: BlockRange)
        requires
            self.layout_wf(),
            self@.in_pool(p as int),
        ensures
            r.start == self@.block_of(p as int),
            r.end == self@.object_end(r.start as int),
            r.color == self@.colors[r.start as int],
            r.start <= self@.block_index(p as int) < r.end <= self@.blocks,
    {
        let r = self.color_map.get_range((p - self.start) / BLOCK_SIZE_BYTES);
        proof {
            lemma_run_start(self@.colors, self@.block_index(p as int));
            lemma_object_end(self@, r.start as int);
        }
        r
    }

    /// Take the address `p` into the gray range: the range grows to hold it.
    fn add_to_check_span(&mut self, p: usize)
        ensures
            final(self)@ == old(self)@.widen(p as int),
            old(self).consistent() ==> final(self).consistent(),
    {
        if self.check_start == 0 || self.check_start > p {
            self.check_start = p;
        }
        if self.check_end == 0 || self.check_end < p {
            self.check_end = p;
        }
    }

    /// Zero the `len` bytes of the pool from the address `start`.
    fn clear_span(&mut self, start: usize, len: usize)
        requires
            old(self)@.start <= start,
            start + len <= old(self)@.start + old(self)@.bytes.len(),
        ensures
            final(self)@ == (HeapView {
                bytes: zeroed(old(self)@.bytes, start - old(self)@.start, len as int),
                ..old(self)@
            }),
            old(self).consistent() ==> final(self).consistent(),
    {
        let offset: usize = start - self.start;
        let size: usize = self.pool.len();
        let mut i: usize = 0;
        assert(self.pool@ =~= zeroed(old(self)@.bytes, offset as int, 0));
        while i < len
            invariant
                i <= len,
                offset + len <= size,
                self.pool@.len() == size,
                self.pool@ == zeroed(old(self)@.bytes, offset as int, i as int),
                self.start == old(self).start,
                self.end == old(self).end,
                self.blocks == old(self).blocks,
                self.color_map == old(self).color_map,
                self.free_list == old(self).free_list,
                self.current_color == old(self).current_color,
                self.phase == old(self).phase,
                self.check_start == old(self).check_start,
                self.check_end == old(self).check_end,
            decreases len - i,
        {
            self.pool.set(offset + i, 0u8);
            i += 1;
            assert(self.pool@ =~= zeroed(old(self)@.bytes, offset as int, i as int));
        }
    }

    /// Request `amount` bytes of memory. The size will be rounded up to a
    /// multiple of the block size, and to one block at least. Returns
    /// `None` if a region of memory that big isn't available; the heap is
    /// then as it was. The span that is handed out is zeroed.
    pub fn allocate(&mut self, amount: usize) -> (r: Option<Memory>)
        requires
            old(self).wf(),
        ensures
            final(self).wf(),
            old(self)@.can_allocate(amount as int) ==> r.is_some() && final(self)@ == old(
                self,
            )@.allocated(amount as int) && r.unwrap().wf() && r.unwrap().spec_start() == old(
                self,
            )@.allocation_address(amount as int) && r.unwrap()@ == Seq::new(
                rounded(amount as int) as nat,
                |i: int| 0u8,
            ),
            !old(self)@.can_allocate(amount as int) ==> r.is_none() && final(self)@ == old(self)@,
            r matches Some(m) ==> final(self)@.holds_span(m.spec_start(), m@.len() as int),
    {
        proof {
            if old(self)@.can_allocate(amount as int) {
                lemma_allocated(old(self)@, amount as int);
            }
        }
        if amount > usize::MAX - (BLOCK_SIZE_BYTES - 1) {
            return None;
        }
        let size: usize = if amount == 0 {
            BLOCK_SIZE_BYTES
        } else {
            ceil_to(amount, BLOCK_SIZE_BYTES)
        };
        assert(size == rounded(amount as int));
        proof {
            if old(self)@.can_allocate(amount as int) {
                lemma_allocated_wf(old(self)@, amount as int);
            }
        }
        match self.free_list.allocate(size) {
            Some(m) => {
                let color = if self.phase == Phase::Marking {
                    Color::Check
                } else {
                    self.current_color
                };
                let range = self.block_range_of(&m, color);
                self.color_map.set_range(range);
                if self.phase == Phase::Marking {
                    self.add_to_check_span(m.start());
                }
                self.clear_span(m.start(), m.len());
                Some(m)
            },
            None => None,
        }
    }

    /// Request enough memory to hold an object of `size` bytes. The object
    /// is zeroed, which is its default value. Returns the address of the
    /// object, or `None` if a region of memory that big isn't available.
    pub fn allocate_object(&mut self, size: usize) -> (r: Option<usize>)
        requires
            old(self).wf(),
        ensures
            final(self).wf(),
            old(self)@.can_allocate(size as int) ==> r == Some(
                old(self)@.allocation_address(size as int) as usize,
            ) && final(self)@ == old(self)@.allocated(size as int),
            !old(self)@.can_allocate(size as int) ==> r.is_none() && final(self)@ == old(self)@,
            r matches Some(a) ==> final(self)@.holds_span(a as int, rounded(size as int)),
    {
        match self.allocate(size) {
            Some(m) => Some(m.start()),
            None => None,
        }
    }

    /// Request enough memory to hold an object of `size` bytes followed by
    /// `padding` bytes. The object is zeroed. Returns the address of the
    /// object, or `None` if a region of memory that big isn't available.
    pub fn allocate_dynamic_object(&mut self, size: usize, padding: usize) -> (r: Option<usize>)
        requires
            old(self).wf(),
        ensures
            final(self).wf(),
            old(self)@.can_allocate(size + padding) ==> r == Some(
                old(self)@.allocation_address(size + padding) as usize,
            ) && final(self)@ == old(self)@.allocated(size + padding),
            !old(self)@.can_allocate(size + padding) ==> r.is_none() && final(self)@ == old(self)@,
            r matches Some(a) ==> final(self)@.holds_span(a as int, rounded(size + padding)),
    {
        if padding > usize::MAX - size {
            return None;
        }
        self.allocate_object(size + padding)
    }

    /// Request enough memory to hold an array of `count` objects of `size`
    /// bytes each. The array is zeroed. Returns the address of the array,
    /// or `None` if a region of memory that big isn't available.
    pub fn allocate_array(&mut self, size: usize, count: usize) -> (r: Option<usize>)
        requires
            old(self).wf(),
        ensures
            final(self).wf(),
            old(self)@.can_allocate(size * count) ==> r == Some(
                old(self)@.allocation_address(size * count) as usize,
            ) && final(self)@ == old(self)@.allocated(size * count),
            !old(self)@.can_allocate(size * count) ==> r.is_none() && final(self)@ == old(self)@,
            r matches Some(a) ==> final(self)@.holds_span(a as int, rounded(size * count)),
    {
        match size.checked_mul(count) {
            Some(total) => self.allocate_object(total),
            None => None,
        }
    }

    /// Given a reference to an object that was allocated on this heap, how
    /// many bytes were allocated to it?
    pub fn size_of(&self, obj: usize) -> (n: usize)
        requires
            self.layout_wf(),
            self@.in_pool(obj as int),
        ensures
            n == 16 * (self@.object_end(self@.block_of(obj as int)) - self@.block_of(obj as int)),
    {
        let range = self.get_range(obj);
        self.address_of(range.end) - self.address_of(range.start)
    }

    /// Give back an allocation without waiting for a GC round.
    pub fn retire(&mut self, m: Memory)
        requires
            old(self).wf(),
            m.wf(),
            old(self)@.holds_span(m.spec_start(), m@.len() as int),
        ensures
            final(self).wf(),
            final(self)@ == old(self)@.retired(old(self)@.block_index(m.spec_start())),
    {
        proof {
            lemma_retired(old(self)@, old(self)@.block_index(m.spec_start()));
        }
        proof {
            let b = self@.block_index(m.spec_start());
            lemma_retired_wf(self@, b);
            lemma_object_apart(self@, b);
            lemma_run_start(self@.colors, b);
        }
        let range = self.block_range_of(&m, Color::Check);
        self.color_map.free_range(range);
        self.free_list.retire(m);
    }

    /// Give back an allocated object without waiting for a GC round. The
    /// reference may point anywhere into the object.
    pub fn retire_object(&mut self, obj: usize)
        requires
            old(self).wf(),
            old(self)@.in_pool(obj as int),
            old(self)@.is_object(old(self)@.block_of(obj as int)),
        ensures
            final(self).wf(),
            final(self)@ == old(self)@.retired(old(self)@.block_of(obj as int)),
    {
        proof {
            lemma_block_of(old(self)@, obj as int);
            lemma_retired(old(self)@, old(self)@.block_of(obj as int));
        }
        let range = self.get_range(obj);
        proof {
            lemma_retired_wf(self@, range.start as int);
            lemma_object_apart(self@, range.start as int);
        }
        let m = Memory::from_addresses(self.address_of(range.start), self.address_of(range.end));
        self.color_map.free_range(range);
        self.free_list.retire(m);
    }

    /// The machine word at the address `p` of the pool.
    pub fn read_word(&self, p: usize) -> (word: u64)
        requires
            self.layout_wf(),
            self@.start <= p,
            p + 8 <= self@.end(),
        ensures
            word == word_at(self@.bytes, p - self@.start),
    {
        let offset: usize = p - self.start;
        u64_from_le_bytes(slice_subrange(self.pool.as_slice(), offset, offset + WORD_SIZE_BYTES))
    }

    /// Write the machine word `word` at the address `p` of the pool. This
    /// is how the fields of an object are set.
    pub fn write_word(&mut self, p: usize, word: u64)
        requires
            old(self).wf(),
            old(self)@.start <= p,
            p + 8 <= old(self)@.end(),
        ensures
            final(self).wf(),
            final(self)@ == old(self)@.written(p as int, word),
    {
        proof {
            lemma_written(old(self)@, p as int, word);
        }
        let offset: usize = p - self.start;
        let size: usize = self.pool.len();
        let bytes: Vec<u8> = u64_to_le_bytes(word);
        proof {
            vstd::bytes::lemma_auto_spec_u64_to_from_le_bytes();
        }
        let mut i: usize = 0;
        while i < WORD_SIZE_BYTES
            invariant
                i <= 8,
                offset + 8 <= size,
                self.pool@.len() == size,
                bytes@ == vstd::bytes::spec_u64_to_le_bytes(word),
                bytes@.len() == 8,
                forall|j: int|
                    0 <= j < size ==> self.pool@[j] == if offset <= j < offset + i {
                        bytes@[j - offset]
                    } else {
                        old(self).pool@[j]
                    },
                self.start == old(self).start,
                self.end == old(self).end,
                self.blocks == old(self).blocks,
                self.color_map == old(self).color_map,
                self.free_list == old(self).free_list,
                self.current_color == old(self).current_color,
                self.phase == old(self).phase,
                self.check_start == old(self).check_start,
                self.check_end == old(self).check_end,
            decreases 8 - i,
        {
            self.pool.set(offset + i, bytes[i]);
            i += 1;
        }
        assert(self.pool@ =~= with_word(old(self)@.bytes, p - old(self)@.start, word));
    }

    /// Check the candidate reference `p`: if it points into a span that the
    /// collection has not reached yet, the span turns gray and `p` joins
    /// the gray range.
    fn check(&mut self, p: usize)
        requires
            old(self).layout_wf(),
        ensures
            final(self).layout_wf(),
            final(self)@ == old(self)@.checked(p as int),
    {
        proof {
            lemma_checked(self@, p as int);
        }
        if self.is_block(p) {
            let block: usize = self.block_of(p);
            if self.color_map.get(block) == self.current_color.opposite() {
                self.color_map.set(block, Color::Check);
                self.add_to_check_span(p);
            }
        }
    }

    /// Start the first phase of garbage collection. This is only useful if
    /// you want tight control over latency -- otherwise, you should call
    /// `gc()`.
    ///
    /// `roots` must be references to objects in the heap which are the
    /// roots of your object graph. Successive calls to `mark_round()` will
    /// follow the object graph and mark all live objects. A follow-on call
    /// to `sweep()` will free the remaining spans.
    ///
    /// **Important**: If you modify any objects before `mark_round()`
    /// returns `true`, you must notify the garbage collector to (re)check
    /// the object you modified by calling `mark_check`.
    pub fn mark_start(&mut self, roots: &[usize])
        requires
            old(self).wf(),
            old(self)@.phase == Phase::Quiet,
        ensures
            final(self).wf(),
            final(self)@ == old(self)@.mark_started(roots@),
            final(self)@.phase == Phase::Marking,
            old(self)@.same_spans(final(self)@),
            final(self)@.bytes == old(self)@.bytes,
            final(self)@.current_color == old(self)@.current_color.spec_opposite(),
    {
        proof {
            lemma_mark_started(old(self)@, roots@);
        }
        self.check_start = 0;
        self.check_end = 0;
        self.current_color = self.current_color.opposite();
        self.phase = Phase::Marking;
        let ghost begun = self@;
        let mut i: usize = 0;
        while i < roots.len()
            invariant
                i <= roots@.len(),
                self.layout_wf(),
                self@.phase == Phase::Marking,
                begun.same_spans(self@),
                self@.bytes == begun.bytes,
                self@.current_color == begun.current_color,
                self@.checked_all(roots@, i as int) == begun.checked_all(roots@, 0),
            decreases roots@.len() - i,
        {
            proof {
                lemma_checked(self@, roots@[i as int] as int);
                lemma_same_spans_trans(begun, self@, self@.checked(roots@[i as int] as int));
            }
            self.check(roots[i]);
            i += 1;
        }
    }

    /// Scan the object that begins at block `range.start`, if it is gray:
    /// pretend the whole object is machine words, check each as a candidate
    /// reference, and give the object the current color.
    fn scan(&mut self, range: &BlockRange)
        requires
            old(self).layout_wf(),
            old(self)@.is_object(range.start as int),
            range.end == old(self)@.object_end(range.start as int),
            range.color == old(self)@.colors[range.start as int],
        ensures
            final(self).layout_wf(),
            final(self)@ == old(self)@.scanned(range.start as int),
            old(self)@.same_spans(final(self)@),
            final(self)@.current_color == old(self)@.current_color,
            final(self)@.phase == old(self)@.phase,
            final(self)@.white_count() <= old(self)@.white_count(),
            final(self)@.gray_empty() ==> old(self)@.gray_empty(),
            (final(self)@.check_start == old(self)@.check_start && final(self)@.check_end == old(
                self,
            )@.check_end) || final(self)@.white_count() < old(self)@.white_count(),
    {
        if range.color == Color::Check {
            proof {
                lemma_object_end(self@, range.start as int);
            }
            let start_addr: usize = self.address_of(range.start);
            let end_addr: usize = self.address_of(range.end);
            let mut p: usize = start_addr;
            while p < end_addr
                invariant
                    self.layout_wf(),
                    old(self)@.same_spans(self@),
                    self@.bytes == old(self)@.bytes,
                    self@.current_color == old(self)@.current_color,
                    self@.phase == old(self)@.phase,
                    self@.start <= start_addr <= p <= end_addr <= self@.end(),
                    (end_addr - p) % 8 == 0,
                    self@.checked_words(p as int, end_addr as int) == old(self)@.checked_words(
                        start_addr as int,
                        end_addr as int,
                    ),
                    self@.white_count() <= old(self)@.white_count(),
                    self@.gray_empty() ==> old(self)@.gray_empty(),
                    (self@.check_start == old(self)@.check_start && self@.check_end == old(
                        self,
                    )@.check_end) || self@.white_count() < old(self)@.white_count(),
                decreases end_addr - p,
            {
                let word: u64 = self.read_word(p);
                proof {
                    lemma_checked(self@, word as int);
                }
                if word <= usize::MAX as u64 {
                    self.check(word as usize);
                }
                p = p + WORD_SIZE_BYTES;
            }
            proof {
                lemma_same_spans(old(self)@, self@, range.start as int);
                lemma_painted(self@, range.start as int, self@.current_color);
                lemma_count_update(
                    self@.colors,
                    self@.condemned(),
                    self@.blocks,
                    range.start as int,
                    self@.current_color,
                );
            }
            self.color_map.set(range.start, self.current_color);
        }
    }

    /// Do one "round" of the mark phase of garbage collection. This is only
    /// useful if you want tight control over latency -- otherwise, you
    /// should call `gc()`.
    ///
    /// Walk the current gray range, following references from gray objects
    /// to find objects to check on the next round. Free regions in the
    /// range are passed over.
    ///
    /// Returns true if this phase is over, and all live objects have been
    /// marked. You must call `sweep()` to finish the collection and free up
    /// memory.
    ///
    /// **Important**: If you modify any objects before this function
    /// returns `true`, you must notify the garbage collector to (re)check
    /// the object you modified by calling `mark_check`.
    pub fn mark_round(&mut self) -> (done: bool)
        requires
            old(self).wf(),
            old(self)@.phase == Phase::Marking,
        ensures
            final(self).wf(),
            (final(self)@, done) == old(self)@.round(),
            final(self)@.phase == if done {
                Phase::Marked
            } else {
                Phase::Marking
            },
            0 <= final(self)@.white_count() <= old(self)@.white_count(),
            !done ==> final(self)@.white_count() < old(self)@.white_count(),
            old(self)@.same_spans(final(self)@),
            final(self)@.bytes == old(self)@.bytes,
            final(self)@.current_color == old(self)@.current_color,
    {
        proof {
            lemma_round(old(self)@);
        }
        proof {
            lemma_count_bounds(self@.colors, self@.condemned(), self@.blocks);
        }
        if self.check_start == 0 {
            self.phase = Phase::Marked;
            return true;
        }
        let (start, end) = (self.check_start, self.check_end);
        self.check_start = 0;
        self.check_end = 0;
        let ghost cleared = self@;

        let mut current: usize = start;
        let mut link = FreeBlockPtr { index: 0 };
        while current <= end
            invariant
                self.layout_wf(),
                cleared.same_spans(self@),
                self@.current_color == cleared.current_color,
                self@.phase == cleared.phase,
                self@.start <= current <= self@.end(),
                end < self@.end(),
                link.index <= self@.free.len(),
                forall|j: int| 0 <= j < link.index
                    ==> (#[trigger] self@.free[j]).spec_end() <= current,
                self@.scanned_from(current as int, end as int) == cleared.scanned_from(
                    start as int,
                    end as int,
                ),
                self@.white_count() <= cleared.white_count(),
                self@.gray_empty() || self@.white_count() < cleared.white_count(),
            decreases self@.end() - current,
        {
            let ghost before = self@;
            // pass over the free regions that lie behind
            loop
                invariant
                    self@ == before,
                    self.layout_wf(),
                    link.index <= self@.free.len(),
                    forall|j: int|
                        0 <= j < link.index ==> (#[trigger] self@.free[j]).spec_end() <= current,
                ensures
                    link.index < self@.free.len()
                        ==> self@.free[link.index as int].spec_end() > current,
                decreases self@.free.len() - link.index,
            {
                match link.block(&self.free_list) {
                    Some(free) => {
                        assert(free.wf());
                        if free.start + free.size <= current {
                            link = FreeBlockPtr { index: link.index + 1 };
                        } else {
                            break ;
                        }
                    },
                    None => {
                        break ;
                    },
                }
            }
            proof {
                lemma_region_found(self@, current as int, link.index as int);
            }
            let region = link.block(&self.free_list);
            if region.is_some() && region.unwrap().start <= current {
                // the cursor is in a free region: go on behind it
                let free = region.unwrap();
                assert(free.wf());
                current = free.start + free.size;
            } else {
                let range = self.get_range(current);
                proof {
                    lemma_block_of(self@, current as int);
                }
                let end_addr: usize = self.address_of(range.end);
                self.scan(&range);
                proof {
                    lemma_same_spans(cleared, before, 0);
                    assert(before.same_spans(self@));
                    assert(cleared.same_spans(self@));
                }
                current = end_addr;
            }
        }

        proof {
            lemma_count_bounds(self@.colors, self@.condemned(), self@.blocks);
        }
        // we're done marking if there's no new span to check.
        if self.check_start == 0 {
            self.phase = Phase::Marked;
            true
        } else {
            false
        }
    }

    /// Do the mark phase of garbage collection (the first of two phases).
    ///
    /// `roots` must be references to objects in the heap which are the
    /// roots of your object graph. Any object that isn't directly or
    /// indirectly referenced by these roots will be freed by a following
    /// call to `sweep()`.
    ///
    /// This is the equivalent of `heap.mark_start(roots); while !heap.mark_round() {};`.
    pub fn mark(&mut self, roots: &[usize])
        requires
            old(self).wf(),
            old(self)@.phase == Phase::Quiet,
        ensures
            final(self).wf(),
            final(self)@ == old(self)@.mark_started(roots@).rounds(),
            final(self)@.phase == Phase::Marked,
            old(self)@.same_spans(final(self)@),
            final(self)@.bytes == old(self)@.bytes,
            final(self)@.current_color == old(self)@.current_color.spec_opposite(),
            forall|x: int|
                #[trigger] old(self)@.is_object(x) ==> final(self)@.colors[x] == if reachable(
                    old(self)@,
                    roots@,
                    x,
                ) {
                    final(self)@.current_color
                } else {
                    final(self)@.condemned()
                },
    {
        proof {
            lemma_marked(old(self)@, roots@);
        }
        self.mark_start(roots);
        loop
            invariant_except_break
                self@.phase == Phase::Marking,
                self@.rounds() == old(self)@.mark_started(roots@).rounds(),
            invariant
                self.wf(),
            ensures
                self@ == old(self)@.mark_started(roots@).rounds(),
                self@.phase == Phase::Marked,
            decreases self@.white_count(),
        {
            if self.mark_round() {
                break ;
            }
        }
    }

    /// Mark an object to be re-checked because it's been modified during
    /// the mark phase of garbage collection: the object turns gray and the
    /// reference joins the gray range. Nothing happens if `obj` is no
    /// reference into the pool, or if no marking is under way.
    ///
    /// This function is only useful if you use the incremental GC calls
    /// `mark_start` and `mark_round`.
    pub fn mark_check(&mut self, obj: usize)
        requires
            old(self).wf(),
        ensures
            final(self).wf(),
            final(self)@ == old(self)@.mark_checked(obj as int),
    {
        proof {
            lemma_mark_checked(old(self)@, obj as int);
        }
        if self.phase == Phase::Marking && self.is_block(obj) {
            let block: usize = self.block_of(obj);
            proof {
                lemma_block_of(self@, obj as int);
                if !self@.is_free(block as int) {
                    lemma_painted(self@, block as int, Color::Check);
                } else {
                    assert(self@.colors.update(block as int, Color::Check) =~= self@.colors);
                }
            }
            self.color_map.set(block, Color::Check);
            self.add_to_check_span(obj);
        }
    }

    /// Return the allocated span `span`, as the walk over the heap yielded
    /// it, to the free list, at the place that the walk found for it.
    fn release(&mut self, span: &HeapSpan)
        requires
            old(self).layout_wf(),
            old(self)@.holds_span(span.start as int, span.end - span.start),
            span.start <= span.end,
            span.free_list_span.wf(old(self)@.free),
            span.free_list_span.holds(old(self)@.free, span.start as int, span.end as int),
        ensures
            final(self).layout_wf(),
            final(self)@ == old(self)@.retired(old(self)@.block_index(span.start as int)),
    {
        proof {
            lemma_retired_wf(self@, self@.block_index(span.start as int));
            lemma_object_end(self@, self@.block_index(span.start as int));
        }
        let m = Memory::from_addresses(span.start, span.end);
        let range = BlockRange {
            start: (span.start - self.start) / BLOCK_SIZE_BYTES,
            end: (span.end - self.start) / BLOCK_SIZE_BYTES,
            color: Color::Check,
        };
        self.color_map.free_range(range);
        span.free_list_span.insert(&mut self.free_list, m);
    }

    /// Sweep through the heap and move every un-marked span of memory into
    /// the free list. This is the 2nd and final phase of garbage
    /// collection.
    pub fn sweep(&mut self)
        requires
            old(self).wf(),
            old(self)@.phase == Phase::Marked,
        ensures
            final(self).wf(),
            final(self)@ == old(self)@.swept(),
            final(self)@.bytes == old(self)@.bytes,
            final(self)@.current_color == old(self)@.current_color,
            forall|x: int|
                #[trigger] final(self)@.is_object(x) <==> old(self)@.is_object(x) && old(
                    self,
                )@.colors[x] != old(self)@.condemned(),
            forall|x: int|
                #[trigger] final(self)@.is_object(x) ==> final(self)@.colors[x] == old(
                    self,
                )@.colors[x] && final(self)@.object_end(x) == old(self)@.object_end(x),
            forall|x: int, m: int|
                #[trigger] old(self)@.is_object(x) && old(self)@.colors[x] == old(self)@.condemned()
                    && x <= m < old(self)@.object_end(x) ==> #[trigger] final(self)@.is_free(m),
    {
        proof {
            lemma_swept_spans(old(self)@);
        }
        let condemned: Color = self.current_color.opposite();
        let mut it = HeapIterator::new(self);
        loop
            invariant_except_break
                it.wf(self@),
                self@.swept_from(self@.block_index(it.spec_current())) == old(self)@.swept_from(0),
            invariant
                self.layout_wf(),
                self@.phase == old(self)@.phase,
                self@.current_color == old(self)@.current_color,
                condemned == self@.condemned(),
            ensures
                self@ == old(self)@.swept_from(0),
            decreases self@.end() - it.spec_current(),
        {
            let ghost before = self@;
            proof {
                lemma_position_swept(it, before);
            }
            match it.next(self) {
                None => {
                    proof {
                        lemma_sweep_end(before);
                    }
                    break ;
                },
                Some(span) => {
                    proof {
                        lemma_sweep_step(before, before.block_index(span.start as int));
                    }
                    if span.span_type == SpanType::Color(condemned) {
                        proof {
                            lemma_cursor_after_retire(
                                it,
                                before,
                                before.block_index(span.start as int),
                                span.free_list_span,
                            );
                        }
                        self.release(&span);
                    }
                },
            }
        }
        self.phase = Phase::Quiet;
    }

    /// Do an entire GC round, freeing any currently unused memory.
    ///
    /// `roots` must be references to objects in the heap which are the
    /// roots of your object graph. Any object that isn't directly or
    /// indirectly referenced by these roots will be freed.
    ///
    /// This is the equivalent of `heap.mark(roots); heap.sweep();`.
    pub fn gc(&mut self, roots: &[usize])
        requires
            old(self).wf(),
            old(self)@.phase == Phase::Quiet,
        ensures
            final(self).wf(),
            final(self)@ == collected(old(self)@, roots@),
            final(self)@.phase == Phase::Quiet,
            final(self)@.bytes == old(self)@.bytes,
            final(self)@.current_color == old(self)@.current_color.spec_opposite(),
            forall|x: int|
                #[trigger] old(self)@.is_object(x) && reachable(old(self)@, roots@, x)
                    ==> final(self)@.is_object(x) && final(self)@.colors[x]
                    == final(self)@.current_color && final(self)@.object_end(x) == old(
                    self,
                )@.object_end(x),
            forall|x: int, m: int|
                #[trigger] old(self)@.is_object(x) && !reachable(old(self)@, roots@, x) && x <= m
                    < old(self)@.object_end(x) ==> #[trigger] final(self)@.is_free(m),
            forall|x: int|
                #[trigger] final(self)@.is_object(x) ==> old(self)@.is_object(x) && reachable(
                    old(self)@,
                    roots@,
                    x,
                ),
    {
        proof {
            collection_keeps_what_is_reachable(old(self)@, roots@);
        }
        self.mark(roots);
        self.sweep();
    }

    /// A walk over the spans of the heap, free or allocated, from the
    /// lowest address up.
    pub fn iter(&self) -> (it: HeapIterator)
        requires
            self.layout_wf(),
        ensures
            it.settled(self@),
            it.wf(self@),
            it.spec_current() == self@.start,
            it.position(self@) == self@.start,
    {
        HeapIterator::new(self)
    }

    /// The text of a dump: the kind of each span, with its size if `sizes`.
    fn dump_with(&self, sizes: bool) -> (s: String)
        requires
            self.layout_wf(),
        ensures
            s@ == self@.dump_from(0, true, sizes),
    {
        let mut s: String = String::new();
        let mut it = self.iter();
        let mut first: bool = true;
        assert(s@ + self@.dump_from(0, true, sizes) =~= self@.dump_from(0, true, sizes));
        loop
            invariant_except_break
                it.wf(self@),
                it.settled(self@),
                s@ + self@.dump_from(self@.block_index(it.spec_current()), first, sizes)
                    == self@.dump_from(0, true, sizes),
            invariant
                self.layout_wf(),
            ensures
                s@ == self@.dump_from(0, true, sizes),
            decreases self@.end() - it.spec_current(),
        {
            let ghost before = s@;
            let ghost from = self@.block_index(it.spec_current());
            proof {
                lemma_settled_position(it, self@);
            }
            match it.next(self) {
                None => {
                    proof {
                        lemma_dump_end(self@, first, sizes);
                        assert(s@ + Seq::<char>::empty() =~= s@);
                    }
                    break ;
                },
                Some(span) => {
                    let ghost n = self@.block_index(span.start as int);
                    proof {
                        lemma_dump_step(self@, n, first, sizes);
                    }
                    push_span(&mut s, first, span.span_type, span.end - span.start, sizes);
                    proof {
                        let rest = self@.dump_from(self@.span_end(n), false, sizes);
                        let text = separator(first) + span_text(
                            self@.span_kind(n),
                            16 * (self@.span_end(n) - n),
                            sizes,
                        );
                        assert(before + (text + rest) =~= (before + text) + rest);
                    }
                    first = false;
                },
            }
        }
        s
    }

    /// For debugging: generate a string listing the size and color of each
    /// span of memory, like `Blue[32], FREE[208]`.
    pub fn dump(&self) -> (s: String)
        requires
            self.layout_wf(),
        ensures
            s@ == self@.dump_from(0, true, true),
    {
        self.dump_with(true)
    }

    /// For debugging: generate a string listing _only_ the color of each
    /// span of memory, like `Blue, FREE`.
    pub fn dump_spans(&self) -> (s: String)
        requires
            self.layout_wf(),
        ensures
            s@ == self@.dump_from(0, true, false),
    {
        self.dump_with(false)
    }

    /// The color map of the heap.
    pub fn color_map(&self) -> (r: &ColorMap)
        requires
            self.layout_wf(),
        ensures
            r@ == self@.colors,
            r.wf(),
    {
        &self.color_map
    }

    /// The free list of the heap.
    pub fn free_list(&self) -> (r: &FreeList)
        requires
            self.layout_wf(),
        ensures
            r@ == self@.free,
            r.wf(),
    {
        &self.free_list
    }

    /// For debugging, report the current range of addresses that
    /// will be scanned on the next `mark_round`: its lowest and its highest
    /// address, or two null addresses if it is empty.
    pub fn get_mark_range(&self) -> (r: (usize, usize))
        ensures
            r.0 == self@.check_start,
            r.1 == self@.check_end,
    {
        (self.check_start, self.check_end)
    }

    /// Return an object listing the free & total bytes of this heap.
    pub fn get_stats(&self) -> (r: HeapStats)
        requires
            self.layout_wf(),
        ensures
            r.total_bytes == 16 * self@.blocks,
            r.free_bytes == crate::free_list::total_bytes(self@.free),
            r.start == self@.start,
            r.end == self@.end(),
    {
        HeapStats {
            total_bytes: self.blocks * BLOCK_SIZE_BYTES,
            free_bytes: self.free_list.bytes(),
            start: self.start,
            end: self.end,
        }
    }
}

} // verus!
