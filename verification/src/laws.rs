//! What holds of every well-formed heap, and how the operations relate.
use crate::color_map::Color;
use crate::free_list::{FreeBlock, total_bytes};
use crate::model::{word_at, 
    HeapView, lemma_allocated_wf, lemma_first_block, lemma_free_region_blocks, lemma_object_apart,
    lemma_object_end, lemma_region_found, lemma_span_end, Phase, rounded,
};
use vstd::prelude::*;

verus! {

/// The free list of a well-formed heap is sorted by address.
pub proof fn free_list_is_sorted(v: HeapView, i: int, j: int)
    requires
        v.wf(),
        0 <= i < j < v.free.len(),
    ensures
        v.free[i].start < v.free[j].start,
{
    assert(v.free[i].wf());
    assert(v.free[i].spec_end() < v.free[j].start);
}

/// No two free regions of a well-formed heap share a boundary: a region
/// ends strictly below the start of every region after it, so neighbours
/// are always coalesced.
pub proof fn free_list_is_coalesced(v: HeapView, i: int, j: int)
    requires
        v.wf(),
        0 <= i < j < v.free.len(),
    ensures
        v.free[i].spec_end() < v.free[j].start,
{
}

/// Every free region of a well-formed heap is made of whole blocks of the
/// pool, and each of its blocks is `Check` in the color map.
pub proof fn free_regions_are_check(v: HeapView, i: int, block: int)
    requires
        v.wf(),
        0 <= i < v.free.len(),
        v.free[i].start <= v.address_of(block) < v.free[i].spec_end(),
    ensures
        v.free[i].size % 16 == 0,
        (v.free[i].start - v.start) % 16 == 0,
        0 <= block < v.blocks,
        v.colors[block] == Color::Check,
{
    lemma_free_region_blocks(v, i);
    assert(v.is_free(block));
}

/// Every allocated span of a well-formed heap starts with one of the colors
/// blue, green and check, goes on with `Continue` up to its end, lies in
/// the pool, and shares no byte with a free region; the block behind it
/// does not continue it.
pub proof fn spans_are_colored_runs(v: HeapView, block: int)
    requires
        v.wf(),
        v.is_object(block),
    ensures
        v.colors[block] == Color::Blue || v.colors[block] == Color::Green || v.colors[block]
            == Color::Check,
        block < v.object_end(block) <= v.blocks,
        forall|i: int| block < i < v.object_end(block) ==> v.colors[i] == Color::Continue,
        v.object_end(block) < v.blocks ==> v.colors[v.object_end(block)] != Color::Continue,
        forall|i: int| block <= i < v.object_end(block) ==> !v.is_free(i),
{
    lemma_object_end(v, block);
    lemma_object_apart(v, block);
    assert forall|i: int| block <= i < v.object_end(block) implies !v.is_free(i) by {
        if v.is_free(i) {
            let k = choose|k: int|
                0 <= k < v.free.len()
                    && (#[trigger] v.free[k]).start <= v.address_of(i) < v.free[k].spec_end();
            assert(v.address_of(v.object_end(block)) <= v.free[k].start || v.free[k].spec_end()
                <= v.address_of(block));
        }
    }
}

/// Retiring the span that an allocation handed out restores the free list
/// and the color map to what they were before the allocation.
pub proof fn retire_undoes_allocate(v: HeapView, amount: int)
    requires
        v.wf(),
        0 <= amount,
        v.can_allocate(amount),
    ensures
        v.allocated(amount).holds_span(v.allocation_address(amount), rounded(amount)),
        v.allocated(amount).retired(v.block_index(v.allocation_address(amount))).free == v.free,
        v.allocated(amount).retired(v.block_index(v.allocation_address(amount))).colors == v.colors,
{
    lemma_allocated_wf(v, amount);
    let size = rounded(amount);
    let k = crate::free_list::first_fit(v.free, size);
    let a = v.allocation_address(amount);
    let b = v.block_index(a);
    let w = v.allocated(amount);
    let e = b + size / 16;
    crate::free_list::lemma_first_fit(v.free, size, 0);
    crate::free_list::lemma_retire_undoes_allocate(v.free, size);
    lemma_free_region_blocks(v, k);
    assert(w.object_end(b) == e);
    assert(w.address_of(b) == a);
    let r = w.retired(b);
    assert(r.colors =~= v.colors) by {
        assert forall|i: int| 0 <= i < v.colors.len() implies r.colors[i] == v.colors[i] by {
            if b <= i < e {
                assert(v.colors[i] == Color::Check);
            }
        }
    }
}

/// The sum of the sizes of the regions of a chain from index `k` on.
pub open spec fn tail_bytes(s: Seq<FreeBlock>, k: int) -> int
    decreases s.len() - k,
{
    if k < 0 || k >= s.len() {
        0
    } else {
        s[k].size + tail_bytes(s, k + 1)
    }
}

/// The bytes of a chain are those of its first `k` regions and those of
/// the others.
proof fn lemma_tail_bytes(s: Seq<FreeBlock>, k: int)
    requires
        0 <= k <= s.len(),
    ensures
        total_bytes(s) == total_bytes(s.take(k)) + tail_bytes(s, k),
    decreases s.len() - k,
{
    if k == s.len() {
        assert(s.take(k) =~= s);
    } else {
        lemma_tail_bytes(s, k + 1);
        assert(s.take(k + 1).drop_last() =~= s.take(k));
    }
}

/// From the start of a span on, every block of the pool belongs to an
/// allocated span or to one of the free regions that begin there or behind.
proof fn lemma_sizes_from(v: HeapView, block: int, k: int)
    requires
        v.wf(),
        v.is_boundary(block),
        0 <= k <= v.free.len(),
        forall|j: int| 0 <= j < k ==> (#[trigger] v.free[j]).spec_end() <= v.address_of(block),
        forall|j: int| k <= j < v.free.len()
            ==> v.address_of(block) <= (#[trigger] v.free[j]).start,
    ensures
        tail_bytes(v.free, k) + v.allocated_bytes_from(block) == 16 * (v.blocks - block),
    decreases v.blocks - block,
{
    if block >= v.blocks {
        assert(k == v.free.len()) by {
            if k < v.free.len() {
                lemma_free_region_blocks(v, k);
            }
        }
    } else {
        let e = v.span_end(block);
        lemma_span_end(v, block);
        if k < v.free.len() {
            assert(v.free[k].wf());
        }
        lemma_region_found(v, v.address_of(block), k);
        if v.is_free(block) {
            assert forall|j: int| k + 1 <= j < v.free.len() implies v.address_of(e) <= (
            #[trigger] v.free[j]).start by {
                assert(v.free[k].spec_end() < v.free[j].start);
            }
            assert forall|j: int| 0 <= j < k + 1 implies (#[trigger] v.free[j]).spec_end()
                <= v.address_of(e) by {
                if j < k {
                    assert(v.free[j].spec_end() <= v.address_of(block));
                }
            }
            lemma_sizes_from(v, e, k + 1);
        } else {
            lemma_object_apart(v, block);
            assert forall|j: int| k <= j < v.free.len() implies v.address_of(e) <= (
            #[trigger] v.free[j]).start by {
                assert(v.free[j].wf());
                assert(v.address_of(block) <= v.free[j].start);
            }
            assert forall|j: int| 0 <= j < k implies (#[trigger] v.free[j]).spec_end()
                <= v.address_of(e) by {
                assert(v.free[j].spec_end() <= v.address_of(block));
            }
            lemma_sizes_from(v, e, k);
        }
    }
}

/// In a well-formed heap the sizes of the free regions and the sizes of the
/// allocated spans add up to the size of the pool.
pub proof fn sizes_add_up(v: HeapView)
    requires
        v.wf(),
    ensures
        total_bytes(v.free) + v.allocated_bytes() == 16 * v.blocks,
{
    lemma_tail_bytes(v.free, 0);
    assert(v.free.take(0) =~= Seq::<FreeBlock>::empty());
    assert forall|j: int| 0 <= j < v.free.len()
        implies v.address_of(0) <= (#[trigger] v.free[j]).start by {}
    if v.blocks > 0 && v.is_free(0) {
        let i = choose|i: int|
            0 <= i < v.free.len()
                && (#[trigger] v.free[i]).start <= v.address_of(0) < v.free[i].spec_end();
        assert forall|j: int|
            0 <= j < i
        implies
            (#[trigger] v.free[j]).spec_end() <= v.address_of(0)
        by {
            assert(v.free[j].spec_end() < v.free[i].start);
        }
        lemma_region_found(v, v.address_of(0), i);
    }
    lemma_first_block(v);
    lemma_sizes_from(v, 0, 0);
}

/// The gray range of a well-formed heap is empty unless marking is under
/// way, and while it is empty no allocated span is gray.
pub proof fn gray_range_fits_the_phase(v: HeapView)
    requires
        v.wf(),
    ensures
        v.phase != Phase::Marking ==> v.gray_empty(),
        v.gray_empty() ==> forall|b: int| #[trigger] v.is_object(b) ==> v.colors[b] != Color::Check,
{
    if v.gray_empty() {
        assert forall|b: int| #[trigger] v.is_object(b) implies v.colors[b] != Color::Check by {
            if v.colors[b] == Color::Check {
                if v.phase == Phase::Marking {
                    assert(v.in_gray_range(b));
                } else if v.phase == Phase::Quiet {
                    assert(v.colors[b] == v.current_color);
                } else {
                    assert(v.colors[b].is_clean());
                }
            }
        }
    }
}

/// The gray range is empty exactly if no marking is under way or no
/// allocated span is gray, in every well-formed heap in which a gray range
/// that is not empty holds a gray span. (A span that is retired while it is
/// gray leaves the range behind: the next round of marking clears it.)
pub proof fn gray_range_is_empty_iff(v: HeapView)
    requires
        v.wf(),
        v.phase == Phase::Marking && !v.gray_empty() ==> exists|b: int| #[trigger]
            v.is_object(b) && v.colors[b] == Color::Check,
    ensures
        v.gray_empty() <==> v.phase != Phase::Marking || forall|b: int| #[trigger]
            v.is_object(b) ==> v.colors[b] != Color::Check,
{
    gray_range_fits_the_phase(v);
}

/// A machine word that was written into the pool is read back at the same
/// address, and the bytes around it are as they were.
pub proof fn written_word_is_read(v: HeapView, p: int, word: u64)
    requires
        v.layout_wf(),
        v.start <= p,
        p + 8 <= v.end(),
    ensures
        word_at(v.written(p, word).bytes, p - v.start) == word,
        forall|i: int|
            0 <= i < v.bytes.len() && !(p - v.start <= i < p - v.start + 8) ==> v.written(
                p,
                word,
            ).bytes[i] == v.bytes[i],
{
    vstd::bytes::lemma_auto_spec_u64_to_from_le_bytes();
    let offset = p - v.start;
    let bytes = v.written(p, word).bytes;
    assert(bytes.subrange(offset, offset + 8) =~= vstd::bytes::spec_u64_to_le_bytes(word));
}

/// Eight bytes that are zero hold the machine word zero: the words of a
/// span that was just allocated are null references.
pub proof fn zero_bytes_are_a_zero_word(bytes: Seq<u8>, offset: int)
    requires
        0 <= offset,
        offset + 8 <= bytes.len(),
        forall|i: int| offset <= i < offset + 8 ==> bytes[i] == 0u8,
    ensures
        word_at(bytes, offset) == 0,
{
    vstd::bytes::lemma_auto_spec_u64_to_from_le_bytes();
    vstd::bytes::spec_u64_to_le_bytes_to_open(0u64);
    let zero = vstd::bytes::spec_u64_to_le_bytes(0u64);
    assert(zero =~= bytes.subrange(offset, offset + 8)) by {
        assert(0u64 & 0xff == 0 && (0u64 >> 8) & 0xff == 0 && (0u64 >> 16) & 0xff == 0
            && (0u64 >> 24)
            & 0xff == 0 && (0u64 >> 32) & 0xff == 0 && (0u64 >> 40) & 0xff == 0
                && (0u64 >> 48) & 0xff
            == 0 && (0u64 >> 56) & 0xff == 0) by (bit_vector);
    }
}

} // verus!
