//! The colors of the spans fit the phase of the collector: proofs that the
//! operations on a heap keep it so.
use crate::color_map::{Color, lemma_run_end, lemma_run_end_local};
use crate::free_list::{first_fit, lemma_allocate_covers, lemma_first_fit};
use crate::model::{
    HeapView, lemma_allocated_wf, lemma_behind_region, lemma_block_of, lemma_checked,
    lemma_count_bounds, lemma_count_update, lemma_first_block, lemma_free_region_blocks,
    lemma_object_apart, lemma_object_end, lemma_painted, lemma_region_found, lemma_retired_wf,
    lemma_same_spans, Phase, rounded, word_at,
};
use vstd::prelude::*;

verus! {

/// After an allocation the allocated spans are those from before, with
/// their colors and their ends, and the new span.
pub proof fn lemma_allocated_spans(v: HeapView, amount: int)
    requires
        v.layout_wf(),
        0 <= amount,
        v.can_allocate(amount),
    ensures
        forall|x: int|
            #[trigger] v.allocated(amount).is_object(x) <==> v.is_object(x) || x == v.block_index(
                v.allocation_address(amount),
            ),
        forall|x: int|
            #[trigger] v.is_object(x) ==> v.allocated(amount).object_end(x) == v.object_end(x)
                && v.allocated(amount).colors[x] == v.colors[x],
        v.allocated(amount).colors[v.block_index(v.allocation_address(amount))] == v.fresh_color(),
        v.allocated(amount).address_of(v.block_index(v.allocation_address(amount)))
            == v.allocation_address(amount),
        v.allocated(amount).object_end(v.block_index(v.allocation_address(amount)))
            == v.block_index(
            v.allocation_address(amount),
        ) + rounded(amount) / 16,
{
    lemma_allocated_wf(v, amount);
    let size = rounded(amount);
    let k = first_fit(v.free, size);
    lemma_first_fit(v.free, size, 0);
    let a = v.allocation_address(amount);
    let b = v.block_index(a);
    let e = b + size / 16;
    let w = v.allocated(amount);
    lemma_free_region_blocks(v, k);
    assert forall|x: int| #[trigger] w.is_object(x) <==> v.is_object(x) || x == b by {
        lemma_allocate_covers(v.free, k, size, v.address_of(x));
        if 0 <= x < v.blocks && b < x < e {
            assert(w.colors[x] == Color::Continue);
            assert(v.is_free(x));
        }
        if 0 <= x < v.blocks && !(b <= x < e) {
            assert(w.colors[x] == v.colors[x]);
        }
    }
    assert forall|x: int| #[trigger] v.is_object(x) implies w.object_end(x) == v.object_end(x)
        && w.colors[x] == v.colors[x] by {
        assert(!(b <= x < e)) by {
            if b <= x < e {
                assert(v.is_free(x));
            }
        }
        lemma_object_end(v, x);
        let end = v.object_end(x);
        assert forall|i: int| x + 1 <= i <= end && i < v.colors.len() implies (v.colors[i]
            == Color::Continue) == (w.colors[i] == Color::Continue) by {
            if b <= i < e {
                assert(v.colors[i] == Color::Check);
                if i > b {
                    // the span would reach into the free region
                    assert(i <= end);
                    assert(v.colors[b] == Color::Check);
                    if b > x {
                        assert(b < end);
                    }
                }
            }
        }
        lemma_run_end_local(v.colors, w.colors, x + 1);
    }
}

/// An allocation that succeeds keeps the heap well formed.
pub proof fn lemma_allocated(v: HeapView, amount: int)
    requires
        v.wf(),
        0 <= amount,
        v.can_allocate(amount),
    ensures
        v.allocated(amount).wf(),
{
    lemma_allocated_wf(v, amount);
    lemma_allocated_spans(v, amount);
    let w = v.allocated(amount);
    let b = v.block_index(v.allocation_address(amount));
    if v.phase == Phase::Marking {
        assert forall|x: int|
            #[trigger] w.is_object(x) && w.colors[x] == Color::Check
        implies
            w.in_gray_range(x)
        by {
            if x != b {
                assert(v.is_object(x));
                assert(v.in_gray_range(x));
            }
        }
    } else {
        assert forall|x: int| #[trigger] w.is_object(x) implies w.colors[x] == if x == b {
            v.current_color
        } else {
            v.colors[x]
        } by {
            if x != b {
                assert(v.is_object(x));
            }
        }
        if v.phase == Phase::Quiet {
            assert forall|x: int|
                #[trigger] w.is_object(x)
            implies
                w.colors[x] == w.current_color
            by {
                if x != b {
                    assert(v.is_object(x));
                }
            }
        } else {
            assert forall|x: int| #[trigger] w.is_object(x) implies w.colors[x].is_clean() by {
                if x != b {
                    assert(v.is_object(x));
                }
            }
        }
    }
}

/// After a span was retired the allocated spans are the others from before,
/// with their colors and their ends.
pub proof fn lemma_retired_spans(v: HeapView, block: int)
    requires
        v.layout_wf(),
        v.is_object(block),
    ensures
        forall|x: int| #[trigger] v.retired(block).is_object(x) <==> v.is_object(x) && x != block,
        forall|x: int|
            #[trigger] v.is_object(x)
                && x != block ==> v.retired(block).object_end(x) == v.object_end(
                x,
            ) && v.retired(block).colors[x] == v.colors[x],
{
    lemma_retired_wf(v, block);
    lemma_object_end(v, block);
    let w = v.retired(block);
    let e = v.object_end(block);
    assert forall|x: int| #[trigger] w.is_object(x) <==> v.is_object(x) && x != block by {
        if 0 <= x < v.blocks {
            assert(w.is_free(x) <==> v.is_free(x) || block <= x < e);
            if block < x < e {
                assert(v.colors[x] == Color::Continue);
            }
        }
    }
    assert forall|x: int| #[trigger] v.is_object(x) && x != block implies w.object_end(x)
        == v.object_end(x) && w.colors[x] == v.colors[x] by {
        if block < x < e {
            assert(v.colors[x] == Color::Continue);
        }
        lemma_object_end(v, x);
        let end = v.object_end(x);
        assert forall|i: int| x + 1 <= i <= end && i < v.colors.len() implies (v.colors[i]
            == Color::Continue) == (w.colors[i] == Color::Continue) by {
            if block <= i < e {
                // the span would reach into the retired one
                if i > block {
                    assert(v.colors[i] == Color::Continue);
                    assert(x < block);
                    assert(v.colors[block] != Color::Continue);
                    assert(block < end);
                }
            }
        }
        lemma_run_end_local(v.colors, w.colors, x + 1);
    }
}

/// Retiring an allocated span keeps the heap well formed.
pub proof fn lemma_retired(v: HeapView, block: int)
    requires
        v.wf(),
        v.is_object(block),
    ensures
        v.retired(block).wf(),
{
    lemma_retired_wf(v, block);
    lemma_retired_spans(v, block);
    let w = v.retired(block);
    assert forall|x: int| #[trigger] w.is_object(x) implies v.is_object(x)
        && w.colors[x] == v.colors[x]
        && w.object_end(x) == v.object_end(x) by {}
    if v.phase == Phase::Marking {
        assert forall|x: int|
            #[trigger] w.is_object(x) && w.colors[x] == Color::Check
        implies
            w.in_gray_range(x)
        by {
            assert(v.is_object(x));
            assert(v.in_gray_range(x));
        }
    } else if v.phase == Phase::Quiet {
        assert forall|x: int| #[trigger] w.is_object(x) implies w.colors[x] == w.current_color by {
            assert(v.is_object(x));
        }
    } else {
        assert forall|x: int| #[trigger] w.is_object(x) implies w.colors[x].is_clean() by {
            assert(v.is_object(x));
        }
    }
}

/// Writing a machine word into the pool keeps the heap well formed.
pub proof fn lemma_written(v: HeapView, p: int, word: u64)
    requires
        v.wf(),
    ensures
        v.written(p, word).wf(),
{
    let w = v.written(p, word);
    assert forall|x: int| w.is_object(x) == v.is_object(x) && w.object_end(x) == v.object_end(x)
        && w.in_gray_range(x) == v.in_gray_range(x) by {}
    if v.phase == Phase::Marking {
        assert forall|x: int|
            #[trigger] w.is_object(x) && w.colors[x] == Color::Check
        implies
            w.in_gray_range(x)
        by {
            assert(v.is_object(x));
        }
    } else if v.phase == Phase::Quiet {
        assert forall|x: int| #[trigger] w.is_object(x) implies w.colors[x] == w.current_color by {
            assert(v.is_object(x));
        }
    } else {
        assert forall|x: int| #[trigger] w.is_object(x) implies w.colors[x].is_clean() by {
            assert(v.is_object(x));
        }
    }
}

/// Two allocated spans share no block: one that begins in front of another
/// ends at or in front of it.
pub proof fn lemma_spans_apart(v: HeapView, x: int, y: int)
    requires
        v.layout_wf(),
        v.is_object(x),
        v.is_object(y),
        x < y,
    ensures
        v.object_end(x) <= y,
{
    lemma_run_end(v.colors, x + 1);
    if v.object_end(x) > y {
        assert(v.colors[y] == Color::Continue);
    }
}

/// States with the same spans have the same allocated spans, with the same
/// ends.
pub proof fn lemma_same_objects(v: HeapView, w: HeapView)
    requires
        v.same_spans(w),
        v.blocks <= v.colors.len(),
    ensures
        forall|x: int| #[trigger] w.is_object(x) <==> v.is_object(x),
        forall|x: int| x < v.colors.len() ==> #[trigger] w.object_end(x) == v.object_end(x),
        forall|x: int| x < v.colors.len() ==> #[trigger] w.is_free(x) == v.is_free(x),
        forall|x: int| x < v.colors.len() ==> #[trigger] w.is_boundary(x) == v.is_boundary(x),
        forall|x: int| x < v.colors.len() ==> #[trigger] w.region_end(x) == v.region_end(x),
{
    assert forall|x: int| #[trigger] w.is_object(x) <==> v.is_object(x) by {
        if 0 <= x < v.blocks && x < v.colors.len() {
            assert((v.colors[x] == Color::Continue) == (w.colors[x] == Color::Continue));
        }
    }
    assert forall|x: int|
        x < v.colors.len()
    implies
        #[trigger] w.object_end(x) == v.object_end(x)
    by {
        lemma_same_spans(v, w, x);
    }
    assert forall|x: int|
        x < v.colors.len()
    implies
        #[trigger] w.is_boundary(x) == v.is_boundary(x)
    by {
        lemma_same_spans(v, w, x);
        if 0 <= x {
            assert((v.colors[x] == Color::Continue) == (w.colors[x] == Color::Continue));
        }
    }
    assert forall|x: int|
        x < v.colors.len()
    implies
        #[trigger] w.region_end(x) == v.region_end(x)
    by {
        lemma_same_spans(v, w, x);
    }
}

/// Whether the gray span at block `x` is still to be passed in a round
/// whose pass has come to the address `current`, over the range from `lo`
/// to `hi`: it lies in that range and ends behind `current`.
pub open spec fn pending(v: HeapView, x: int, current: int, lo: int, hi: int) -> bool {
    v.address_of(v.object_end(x)) > current && v.address_of(x) <= hi && lo < v.address_of(
        v.object_end(x),
    )
}

/// What holds during the pass of a round that has come to the address
/// `current`: every gray span has a byte in the new gray range, or is still
/// to be passed.
pub open spec fn pass_wf(v: HeapView, current: int, lo: int, hi: int) -> bool {
    &&& v.layout_wf()
    &&& v.phase == Phase::Marking
    &&& forall|x: int| #[trigger]
        v.is_object(x) && v.colors[x] == Color::Check ==> v.in_gray_range(x) || pending(
            v,
            x,
            current,
            lo,
            hi,
        )
}

/// From the state `v` to the state `w` the gray range stayed as it was, or
/// a span lost the condemned color; no span gained it.
pub open spec fn whitened(v: HeapView, w: HeapView) -> bool {
    &&& w.white_count() <= v.white_count()
    &&& (w.check_start == v.check_start && w.check_end == v.check_end) || w.white_count()
        < v.white_count()
}

/// A span holds the addresses of its blocks: a reference into a span lies
/// between the address of the span and the address of its end.
pub proof fn lemma_reference_in_span(v: HeapView, p: int)
    requires
        v.layout_wf(),
        v.in_pool(p),
        !v.is_free(v.block_index(p)),
    ensures
        v.is_object(v.block_of(p)),
        v.address_of(v.block_of(p)) <= p < v.address_of(v.object_end(v.block_of(p))),
{
    lemma_block_of(v, p);
}

/// Checking a candidate reference during a pass keeps what holds during
/// the pass.
pub proof fn lemma_checked_pass(v: HeapView, p: int, current: int, lo: int, hi: int)
    requires
        pass_wf(v, current, lo, hi),
    ensures
        pass_wf(v.checked(p), current, lo, hi),
        v.same_spans(v.checked(p)),
        v.checked(p).bytes == v.bytes,
        v.checked(p).current_color == v.current_color,
        whitened(v, v.checked(p)),
{
    lemma_checked(v, p);
    let w = v.checked(p);
    if w != v {
        let b = v.block_of(p);
        lemma_block_of(v, p);
        assert(v.colors[b] != Color::Check);
        assert(!v.is_free(b));
        lemma_reference_in_span(v, p);
        lemma_same_objects(v, w);
        assert forall|x: int| #[trigger] w.is_object(x)
            && w.colors[x] == Color::Check implies w.in_gray_range(x)
            || pending(w, x, current, lo, hi) by {
            assert(v.is_object(x));
            assert(w.object_end(x) == v.object_end(x));
            if x != b {
                assert(v.colors[x] == Color::Check);
                assert(v.in_gray_range(x) || pending(v, x, current, lo, hi));
            }
        }
    }
}

/// Checking a candidate reference while marking keeps the heap well
/// formed.
pub proof fn lemma_checked_marking(v: HeapView, p: int)
    requires
        v.wf(),
        v.phase == Phase::Marking,
    ensures
        v.checked(p).wf(),
        v.checked(p).phase == Phase::Marking,
{
    assert(pass_wf(v, 0, 0, 0));
    lemma_checked_pass(v, p, 0, 0, 0);
    let w = v.checked(p);
    lemma_same_objects(v, w);
    assert forall|x: int|
        #[trigger] w.is_object(x) && w.colors[x] == Color::Check
    implies
        w.in_gray_range(x)
    by {
        assert(w.in_gray_range(x) || pending(w, x, 0, 0, 0));
        lemma_object_end(v, x);
    }
}

/// Checking each of the roots while marking keeps the heap well formed.
pub proof fn lemma_checked_all(v: HeapView, roots: Seq<usize>, i: int)
    requires
        v.wf(),
        v.phase == Phase::Marking,
        0 <= i,
    ensures
        v.checked_all(roots, i).wf(),
        v.checked_all(roots, i).phase == Phase::Marking,
    decreases roots.len() - i,
{
    if i < roots.len() {
        lemma_checked_marking(v, roots[i] as int);
        lemma_checked_all(v.checked(roots[i] as int), roots, i + 1);
    }
}

/// The start of marking keeps the heap well formed and leaves it marking.
pub proof fn lemma_mark_started(v: HeapView, roots: Seq<usize>)
    requires
        v.wf(),
        v.phase == Phase::Quiet,
    ensures
        v.mark_started(roots).wf(),
        v.mark_started(roots).phase == Phase::Marking,
{
    let begun = HeapView {
        check_start: 0,
        check_end: 0,
        current_color: v.current_color.spec_opposite(),
        phase: Phase::Marking,
        ..v
    };
    assert forall|x: int|
        #[trigger] begun.is_object(x) && begun.colors[x] == Color::Check
    implies
        begun.in_gray_range(x)
    by {
        assert(v.is_object(x));
    }
    lemma_checked_all(begun, roots, 0);
}

/// `mark_check` keeps the heap well formed.
pub proof fn lemma_mark_checked(v: HeapView, p: int)
    requires
        v.wf(),
    ensures
        v.mark_checked(p).wf(),
{
    if v.phase == Phase::Marking && v.is_block(p) {
        let b = v.block_of(p);
        lemma_block_of(v, p);
        let w = v.mark_checked(p);
        if v.is_free(b) {
            assert(v.colors[b] == Color::Check);
            assert(v.colors.update(b, Color::Check) =~= v.colors);
            assert forall|x: int|
                #[trigger] w.is_object(x) && w.colors[x] == Color::Check
            implies
                w.in_gray_range(x)
            by {
                assert(v.is_object(x));
                assert(v.in_gray_range(x));
            }
        } else {
            lemma_painted(v, b, Color::Check);
            lemma_reference_in_span(v, p);
            lemma_same_objects(v, w);
            assert forall|x: int|
                #[trigger] w.is_object(x) && w.colors[x] == Color::Check
            implies
                w.in_gray_range(x)
            by {
                assert(v.is_object(x));
                assert(w.object_end(x) == v.object_end(x));
                if x != b {
                    assert(v.in_gray_range(x));
                }
            }
        }
    }
}

/// Checking the machine words of a span during a pass keeps what holds
/// during the pass.
pub proof fn lemma_checked_words_pass(v: HeapView, from: int, to: int, current: int, lo: int,
    hi: int)
    requires
        pass_wf(v, current, lo, hi),
    ensures
        pass_wf(v.checked_words(from, to), current, lo, hi),
        v.same_spans(v.checked_words(from, to)),
        v.checked_words(from, to).bytes == v.bytes,
        v.checked_words(from, to).current_color == v.current_color,
        whitened(v, v.checked_words(from, to)),
    decreases to - from,
{
    if from + 8 <= to {
        let p = word_at(v.bytes, from - v.start) as int;
        lemma_checked_pass(v, p, current, lo, hi);
        let w = v.checked(p);
        lemma_checked_words_pass(w, from + 8, to, current, lo, hi);
        let r = w.checked_words(from + 8, to);
        assert(v.same_spans(r)) by {
            assert forall|i: int| 0 <= i < v.colors.len() implies (#[trigger] v.colors[i]
                == Color::Continue) == (r.colors[i] == Color::Continue) by {
                assert((w.colors[i] == Color::Continue) == (r.colors[i] == Color::Continue));
            }
        }
    }
}

/// Scanning the span that the pass of a round has come to, and going on
/// behind it, keeps what holds during the pass.
pub proof fn lemma_scanned_pass(v: HeapView, head: int, current: int, lo: int, hi: int)
    requires
        pass_wf(v, current, lo, hi),
        v.is_object(head),
        v.address_of(head) <= current,
    ensures
        pass_wf(v.scanned(head), v.address_of(v.object_end(head)), lo, hi),
        v.same_spans(v.scanned(head)),
        v.scanned(head).bytes == v.bytes,
        v.scanned(head).current_color == v.current_color,
        whitened(v, v.scanned(head)),
{
    let e = v.object_end(head);
    lemma_object_end(v, head);
    let w = v.scanned(head);
    if v.colors[head] == Color::Check {
        let mid = v.checked_words(v.address_of(head), v.address_of(e));
        lemma_checked_words_pass(v, v.address_of(head), v.address_of(e), current, lo, hi);
        lemma_same_objects(v, mid);
        lemma_painted(mid, head, v.current_color);
        lemma_count_update(mid.colors, mid.condemned(), mid.blocks, head, mid.current_color);
        lemma_same_objects(mid, w);
        assert(v.same_spans(w)) by {
            assert forall|i: int| 0 <= i < v.colors.len() implies (#[trigger] v.colors[i]
                == Color::Continue) == (w.colors[i] == Color::Continue) by {
                assert((mid.colors[i] == Color::Continue) == (w.colors[i] == Color::Continue));
            }
        }
        assert forall|x: int| #[trigger] w.is_object(x)
            && w.colors[x] == Color::Check implies w.in_gray_range(x)
            || pending(w, x, v.address_of(e), lo, hi) by {
            assert(mid.is_object(x));
            assert(v.is_object(x));
            assert(x != head);
            assert(mid.colors[x] == Color::Check);
            assert(w.object_end(x) == mid.object_end(x));
            assert(mid.object_end(x) == v.object_end(x));
            if !mid.in_gray_range(x) {
                assert(pending(mid, x, current, lo, hi));
                if x < head {
                    lemma_spans_apart(v, x, head);
                } else {
                    lemma_spans_apart(v, head, x);
                    lemma_object_end(v, x);
                }
            }
        }
    } else {
        assert forall|x: int| #[trigger] w.is_object(x)
            && w.colors[x] == Color::Check implies w.in_gray_range(x)
            || pending(w, x, v.address_of(e), lo, hi) by {
            assert(x != head);
            if !v.in_gray_range(x) {
                assert(pending(v, x, current, lo, hi));
                if x < head {
                    lemma_spans_apart(v, x, head);
                } else {
                    lemma_spans_apart(v, head, x);
                    lemma_object_end(v, x);
                }
            }
        }
    }
}

/// Whether a pass can stand at the address `current`: it is where the pass
/// began, or a span begins there, or the pool ends there.
pub open spec fn pass_at(v: HeapView, current: int, lo: int) -> bool {
    current == lo || (current == v.address_of(v.block_index(current)) && v.block_index(current)
        <= v.blocks && (v.block_index(current) < v.blocks ==> v.colors[v.block_index(current)]
        != Color::Continue))
}

/// When the pass of a round has come past the end of its range, every gray
/// span has a byte in the new gray range.
proof fn lemma_pass_done(v: HeapView, current: int, lo: int, hi: int)
    requires
        pass_wf(v, current, lo, hi),
        v.start <= lo <= current,
        lo <= hi < v.end(),
        pass_at(v, current, lo),
        current > hi || !v.in_pool(current),
    ensures
        v.wf(),
{
    assert forall|x: int| #[trigger] v.is_object(x)
        && v.colors[x] == Color::Check implies v.in_gray_range(x) by {
        if !v.in_gray_range(x) {
            assert(pending(v, x, current, lo, hi));
            lemma_object_end(v, x);
            let n = v.block_index(current);
            assert(x < n < v.object_end(x));
            assert(v.colors[n] == Color::Continue);
        }
    }
}

/// The pass of a round goes over a free region: behind the region a span
/// begins or the pool ends, and the gray spans that were still to be passed
/// still are.
proof fn lemma_pass_over_region(v: HeapView, current: int, lo: int, hi: int)
    requires
        pass_wf(v, current, lo, hi),
        v.start <= lo <= current,
        v.in_pool(current),
        v.is_free(v.block_index(current)),
    ensures
        current < v.address_of(v.region_end(v.block_index(current))) <= v.end(),
        pass_wf(v, v.address_of(v.region_end(v.block_index(current))), lo, hi),
        pass_at(v, v.address_of(v.region_end(v.block_index(current))), lo),
{
    let n = v.block_index(current);
    let i = choose|i: int|
        0 <= i < v.free.len() && (#[trigger] v.free[i]).start <= v.address_of(n) < v.free[i].spec_end();
    lemma_free_region_blocks(v, i);
    assert forall|j: int| 0 <= j < i implies (#[trigger] v.free[j]).spec_end() <= current by {
        assert(v.free[j].spec_end() < v.free[i].start);
    }
    lemma_region_found(v, current, i);
    lemma_behind_region(v, i);
    let next = v.free[i].spec_end();
    assert(next == v.address_of(v.region_end(n)));
    assert forall|x: int| #[trigger] v.is_object(x)
        && v.colors[x] == Color::Check implies v.in_gray_range(x) || pending(v, x, next, lo, hi) by {
        if !v.in_gray_range(x) {
            assert(pending(v, x, current, lo, hi));
            lemma_object_apart(v, x);
            assert(v.address_of(v.object_end(x)) <= v.free[i].start || v.free[i].spec_end()
                <= v.address_of(x));
            lemma_object_end(v, x);
        }
    }
}

/// The pass of a round goes over an allocated span and scans it: behind the
/// span a span begins or the pool ends, and what holds during the pass
/// still holds.
proof fn lemma_pass_over_span(v: HeapView, current: int, lo: int, hi: int)
    requires
        pass_wf(v, current, lo, hi),
        v.start <= lo <= current,
        v.in_pool(current),
        !v.is_free(v.block_index(current)),
    ensures
        v.is_object(v.block_of(current)),
        current < v.address_of(v.object_end(v.block_of(current))) <= v.end(),
        pass_wf(
            v.scanned(v.block_of(current)),
            v.address_of(v.object_end(v.block_of(current))),
            lo,
            hi,
        ),
        pass_at(
            v.scanned(v.block_of(current)),
            v.address_of(v.object_end(v.block_of(current))),
            lo,
        ),
        v.same_spans(v.scanned(v.block_of(current))),
        v.scanned(v.block_of(current)).bytes == v.bytes,
        v.scanned(v.block_of(current)).current_color == v.current_color,
        whitened(v, v.scanned(v.block_of(current))),
{
    let head = v.block_of(current);
    lemma_block_of(v, current);
    lemma_reference_in_span(v, current);
    lemma_object_end(v, head);
    let w = v.scanned(head);
    lemma_scanned_pass(v, head, current, lo, hi);
    lemma_same_objects(v, w);
}

/// The pass of a round over a range leaves every gray span with a byte in
/// the new gray range: the heap is well formed after the pass.
pub proof fn lemma_scanned_from(v: HeapView, current: int, lo: int, hi: int)
    requires
        pass_wf(v, current, lo, hi),
        v.start <= lo <= current,
        lo <= hi < v.end(),
        pass_at(v, current, lo),
    ensures
        v.scanned_from(current, hi).wf(),
        v.scanned_from(current, hi).phase == Phase::Marking,
        v.same_spans(v.scanned_from(current, hi)),
        v.scanned_from(current, hi).bytes == v.bytes,
        v.scanned_from(current, hi).current_color == v.current_color,
        whitened(v, v.scanned_from(current, hi)),
    decreases v.end() - current,
{
    if current > hi || !v.in_pool(current) {
        lemma_pass_done(v, current, lo, hi);
    } else if v.is_free(v.block_index(current)) {
        lemma_pass_over_region(v, current, lo, hi);
        lemma_scanned_from(v, v.address_of(v.region_end(v.block_index(current))), lo, hi);
    } else {
        lemma_pass_over_span(v, current, lo, hi);
        let head = v.block_of(current);
        let w = v.scanned(head);
        let next = v.address_of(v.object_end(head));
        lemma_scanned_from(w, next, lo, hi);
        lemma_same_spans_trans(v, w, w.scanned_from(next, hi));
    }
}

/// A round of marking keeps the heap well formed and its spans as they
/// are. It leaves the heap marked if marking is over, and marking if not.
pub proof fn lemma_round(v: HeapView)
    requires
        v.wf(),
        v.phase == Phase::Marking,
    ensures
        v.round().0.wf(),
        v.round().0.phase == if v.round().1 {
            Phase::Marked
        } else {
            Phase::Marking
        },
        v.same_spans(v.round().0),
        v.round().0.bytes == v.bytes,
        v.round().0.current_color == v.current_color,
        0 <= v.round().0.white_count() <= v.white_count(),
        !v.round().1 ==> v.round().0.white_count() < v.white_count(),
{
    lemma_count_bounds(v.colors, v.condemned(), v.blocks);
    lemma_count_bounds(v.round().0.colors, v.round().0.condemned(), v.round().0.blocks);
    if v.check_start == 0 {
        let w = v.round().0;
        assert forall|x: int| #[trigger] w.is_object(x) implies w.colors[x].is_clean() by {
            assert(v.is_object(x));
            if v.colors[x] == Color::Check {
                assert(v.in_gray_range(x));
            }
        }
    } else {
        let cleared = HeapView { check_start: 0, check_end: 0, ..v };
        assert forall|x: int| #[trigger] cleared.is_object(x)
            && cleared.colors[x] == Color::Check implies cleared.in_gray_range(x)
            || pending(cleared, x, v.check_start, v.check_start, v.check_end) by {
            assert(v.is_object(x));
            assert(v.in_gray_range(x));
        }
        lemma_scanned_from(cleared, v.check_start, v.check_start, v.check_end);
        let pass = cleared.scanned_from(v.check_start, v.check_end);
        if pass.check_start == 0 {
            let w = v.round().0;
            assert forall|x: int| #[trigger] w.is_object(x) implies w.colors[x].is_clean() by {
                assert(pass.is_object(x));
                if pass.colors[x] == Color::Check {
                    assert(pass.in_gray_range(x));
                }
            }
        }
    }
}

/// Whether a sweep can stand at block `block`: the block is free, or a span
/// begins there, or the pool ends there.
pub open spec fn sweep_at(v: HeapView, block: int) -> bool {
    0 <= block <= v.blocks && (block < v.blocks && !v.is_free(block) ==> v.colors[block]
        != Color::Continue)
}

/// Whether `r` is what a sweep from block `block` on makes of the heap `v`:
/// the allocated spans from there on that have the condemned color are free
/// in `r`, the other allocated spans are as they are in `v`, and what is
/// free in `v` is free in `r`.
pub open spec fn sweeps(v: HeapView, block: int, r: HeapView) -> bool {
    &&& r.layout_wf()
    &&& r.start == v.start
    &&& r.blocks == v.blocks
    &&& r.bytes == v.bytes
    &&& r.current_color == v.current_color
    &&& r.phase == v.phase
    &&& r.check_start == v.check_start
    &&& r.check_end == v.check_end
    &&& forall|x: int|
        #[trigger] r.is_object(x) <==> v.is_object(x) && !(x >= block && v.colors[x] == v.condemned())
    &&& forall|x: int|
        #[trigger] r.is_object(x) ==> r.colors[x] == v.colors[x] && r.object_end(x) == v.object_end(x)
    &&& forall|m: int| 0 <= m < v.blocks && v.is_free(m) ==> #[trigger] r.is_free(m)
    &&& forall|x: int, m: int|
        #[trigger] v.is_object(x) && x >= block && v.colors[x] == v.condemned() && x <= m
            < v.object_end(x) ==> #[trigger] r.is_free(m)
}

/// A sweep that goes on behind a free region has swept from the region on.
proof fn lemma_sweeps_region(v: HeapView, block: int, r: HeapView)
    requires
        v.layout_wf(),
        sweep_at(v, block),
        block < v.blocks,
        v.is_free(block),
        sweeps(v, v.region_end(block), r),
    ensures
        sweeps(v, block, r),
{
    let i = choose|i: int|
        0 <= i < v.free.len() && (#[trigger] v.free[i]).start <= v.address_of(block) < v.free[i].spec_end();
    lemma_free_region_blocks(v, i);
    assert forall|j: int| 0 <= j < i implies (#[trigger] v.free[j]).spec_end() <= v.address_of(
        block,
    ) by {
        assert(v.free[j].spec_end() < v.free[i].start);
    }
    lemma_region_found(v, v.address_of(block), i);
    let e = v.region_end(block);
    assert(v.address_of(e) == v.free[i].spec_end());
    assert forall|x: int| v.is_object(x) && block <= x implies x >= e by {
        if x < e {
            assert(v.free[i].start <= v.address_of(x) < v.free[i].spec_end());
        }
    }
}

/// Behind a free region that a sweep has come to, the sweep can go on.
proof fn lemma_sweep_over_region(v: HeapView, block: int)
    requires
        v.layout_wf(),
        sweep_at(v, block),
        block < v.blocks,
        v.is_free(block),
    ensures
        block < v.region_end(block) <= v.blocks,
        sweep_at(v, v.region_end(block)),
{
    let i = choose|i: int|
        0 <= i < v.free.len() && (#[trigger] v.free[i]).start <= v.address_of(block) < v.free[i].spec_end();
    lemma_free_region_blocks(v, i);
    assert forall|j: int| 0 <= j < i implies (#[trigger] v.free[j]).spec_end() <= v.address_of(
        block,
    ) by {
        assert(v.free[j].spec_end() < v.free[i].start);
    }
    lemma_region_found(v, v.address_of(block), i);
    lemma_behind_region(v, i);
}

/// A sweep that goes on behind a span that it keeps has swept from the span
/// on.
proof fn lemma_sweeps_kept(v: HeapView, block: int, r: HeapView)
    requires
        v.layout_wf(),
        v.is_object(block),
        v.colors[block] != v.condemned(),
        sweeps(v, v.object_end(block), r),
    ensures
        sweeps(v, block, r),
{
    let e = v.object_end(block);
    lemma_object_end(v, block);
    assert forall|x: int|
        #[trigger] r.is_object(x) <==> v.is_object(x) && !(x >= block && v.colors[x] == v.condemned()) by {
        if v.is_object(x) && block < x < e {
            assert(v.colors[x] == Color::Continue);
        }
    }
    assert forall|x: int, m: int|
        #[trigger] v.is_object(x) && x >= block && v.colors[x] == v.condemned() && x <= m
            < v.object_end(x) implies #[trigger] r.is_free(m) by {
        if block < x < e {
            assert(v.colors[x] == Color::Continue);
        }
    }
}

/// A sweep that retires a span and goes on behind it has swept from the
/// span on.
proof fn lemma_sweeps_retired(v: HeapView, block: int, r: HeapView)
    requires
        v.layout_wf(),
        v.is_object(block),
        v.colors[block] == v.condemned(),
        sweeps(v.retired(block), v.object_end(block), r),
    ensures
        sweeps(v, block, r),
{
    let e = v.object_end(block);
    let w = v.retired(block);
    lemma_object_end(v, block);
    lemma_retired_wf(v, block);
    lemma_retired_spans(v, block);
    assert forall|x: int|
        #[trigger] r.is_object(x) <==> v.is_object(x) && !(x >= block && v.colors[x] == v.condemned()) by {
        if v.is_object(x) && block < x < e {
            assert(v.colors[x] == Color::Continue);
        }
        assert(w.is_object(x) <==> v.is_object(x) && x != block);
    }
    assert forall|x: int| #[trigger] r.is_object(x) implies r.colors[x] == v.colors[x]
        && r.object_end(x) == v.object_end(x) by {
        assert(w.is_object(x));
        assert(v.is_object(x) && x != block);
    }
    assert forall|m: int| 0 <= m < v.blocks && v.is_free(m) implies #[trigger] r.is_free(m) by {
        assert(w.is_free(m));
    }
    assert forall|x: int, m: int|
        #[trigger] v.is_object(x) && x >= block && v.colors[x] == v.condemned() && x <= m
            < v.object_end(x) implies #[trigger] r.is_free(m) by {
        lemma_object_end(v, x);
        if x == block {
            assert(w.is_free(m));
        } else {
            if x < e {
                assert(v.colors[x] == Color::Continue);
            }
            assert(w.is_object(x));
            assert(w.object_end(x) == v.object_end(x) && w.colors[x] == v.colors[x]);
        }
    }
}

/// What a sweep from block `block` on makes of a heap: the allocated spans
/// from there on that have the condemned color are free afterwards, the
/// other allocated spans stay as they are, and what is free stays free.
pub proof fn lemma_swept_from(v: HeapView, block: int)
    requires
        v.layout_wf(),
        sweep_at(v, block),
    ensures
        sweeps(v, block, v.swept_from(block)),
    decreases v.blocks - block,
{
    if block >= v.blocks {
    } else if v.is_free(block) {
        lemma_sweep_over_region(v, block);
        lemma_swept_from(v, v.region_end(block));
        lemma_sweeps_region(v, block, v.swept_from(v.region_end(block)));
    } else {
        let e = v.object_end(block);
        lemma_object_end(v, block);
        if v.colors[block] == v.condemned() {
            let w = v.retired(block);
            lemma_retired_wf(v, block);
            lemma_swept_from(w, e);
            lemma_sweeps_retired(v, block, w.swept_from(e));
        } else {
            lemma_swept_from(v, e);
            lemma_sweeps_kept(v, block, v.swept_from(e));
        }
    }
}

/// A sweep keeps the heap well formed and leaves it quiet: every span that
/// is left has the current color.
pub proof fn lemma_swept(v: HeapView)
    requires
        v.wf(),
        v.phase == Phase::Marked,
    ensures
        v.swept().wf(),
        v.swept().phase == Phase::Quiet,
{
    lemma_first_block(v);
    lemma_swept_from(v, 0);
    let r = v.swept_from(0);
    let w = v.swept();
    assert forall|x: int| w.is_object(x) == r.is_object(x) by {}
    assert forall|x: int| #[trigger] w.is_object(x) implies w.colors[x] == w.current_color by {
        assert(r.is_object(x));
        assert(v.is_object(x));
        assert(v.colors[x].is_clean());
    }
}

/// Having the same spans carries over from state to state.
pub proof fn lemma_same_spans_trans(u: HeapView, v: HeapView, w: HeapView)
    requires
        u.same_spans(v),
        v.same_spans(w),
    ensures
        u.same_spans(w),
{
    assert forall|i: int| 0 <= i < u.colors.len()
        implies (#[trigger] u.colors[i] == Color::Continue)
        == (w.colors[i] == Color::Continue) by {
        assert((v.colors[i] == Color::Continue) == (w.colors[i] == Color::Continue));
    }
}

/// Rounds of marking made until marking is over keep the heap well formed
/// and its spans as they are, and leave the heap marked.
pub proof fn lemma_rounds(v: HeapView)
    requires
        v.wf(),
        v.phase == Phase::Marking,
    ensures
        v.rounds().wf(),
        v.rounds().phase == Phase::Marked,
        v.same_spans(v.rounds()),
        v.rounds().bytes == v.bytes,
        v.rounds().current_color == v.current_color,
    decreases v.white_count(),
{
    lemma_round(v);
    let (next, done) = v.round();
    if !done {
        lemma_rounds(next);
        lemma_same_spans_trans(v, next, next.rounds());
    }
}

/// What a sweep makes of a marked heap, span by span: the spans without
/// the condemned color stay as they are, and every block of a span with
/// the condemned color is free afterwards.
pub proof fn lemma_swept_spans(v: HeapView)
    requires
        v.wf(),
        v.phase == Phase::Marked,
    ensures
        v.swept().wf(),
        v.swept().bytes == v.bytes,
        v.swept().current_color == v.current_color,
        forall|x: int|
            #[trigger] v.swept().is_object(x) <==> v.is_object(x) && v.colors[x] != v.condemned(),
        forall|x: int|
            #[trigger] v.swept().is_object(x) ==> v.swept().colors[x] == v.colors[x]
                && v.swept().object_end(x) == v.object_end(x),
        forall|x: int, m: int|
            #[trigger] v.is_object(x) && v.colors[x] == v.condemned() && x <= m < v.object_end(x)
                ==> #[trigger] v.swept().is_free(m),
{
    lemma_swept(v);
    lemma_first_block(v);
    lemma_swept_from(v, 0);
    let swept = v.swept_from(0);
    let quiet = v.swept();
    assert forall|x: int|
        quiet.is_object(x) == swept.is_object(x) && quiet.object_end(x) == swept.object_end(x)
            && quiet.is_free(x) == swept.is_free(x) by {}
}

} // verus!
