//! Which spans a collection keeps: those that can be reached from the
//! roots, where every machine word of a span counts as a reference.
use crate::color_map::{Color, run_start};
use crate::model::{
    HeapView, lemma_block_of, lemma_checked, lemma_first_block, lemma_object_end, lemma_painted,
    lemma_same_spans, Phase, word_at,
};
use crate::phases::{
    lemma_mark_started, lemma_round, lemma_rounds, lemma_same_objects, lemma_same_spans_trans,
    lemma_swept, lemma_swept_from,
};
use vstd::prelude::*;

verus! {

/// Whether `p` is a reference into the span that begins at block `x`.
pub open spec fn refers(v: HeapView, p: int, x: int) -> bool {
    v.is_block(p) && v.block_of(p) == x
}

/// The number of machine words in the span that begins at block `a`.
pub open spec fn slot_count(v: HeapView, a: int) -> int {
    2 * (v.object_end(a) - a)
}

/// The machine word number `k` of the span that begins at block `a`.
pub open spec fn slot(v: HeapView, a: int, k: int) -> int {
    word_at(v.bytes, 16 * a + 8 * k) as int
}

/// Whether some machine word of the span at block `a` is a reference into
/// the span at block `x`.
pub open spec fn edge(v: HeapView, a: int, x: int) -> bool {
    exists|k: int| 0 <= k < slot_count(v, a) && refers(v, #[trigger] slot(v, a, k), x)
}

/// Whether one of `roots` is a reference into the span at block `x`.
pub open spec fn is_root(v: HeapView, roots: Seq<usize>, x: int) -> bool {
    exists|i: int| 0 <= i < roots.len() && refers(v, #[trigger] roots[i] as int, x)
}

/// Whether `path` is a chain of allocated spans that begins with a span
/// that a root refers to, and in which each span refers to the next.
pub open spec fn is_path(v: HeapView, roots: Seq<usize>, path: Seq<int>) -> bool {
    &&& path.len() > 0
    &&& is_root(v, roots, path[0])
    &&& forall|i: int| 0 <= i < path.len() ==> v.is_object(#[trigger] path[i])
    &&& forall|i: int| 0 < i < path.len() ==> edge(v, path[i - 1], #[trigger] path[i])
}

/// Whether the allocated span at block `x` can be reached from the roots:
/// a chain of references leads from a root to it.
pub open spec fn reachable(v: HeapView, roots: Seq<usize>, x: int) -> bool {
    exists|path: Seq<int>| #[trigger] is_path(v, roots, path) && path.last() == x
}

/// A span that a root refers to can be reached.
pub proof fn lemma_root_reachable(v: HeapView, roots: Seq<usize>, i: int, x: int)
    requires
        0 <= i < roots.len(),
        v.is_object(x),
        refers(v, roots[i] as int, x),
    ensures
        reachable(v, roots, x),
{
    assert(is_root(v, roots, x));
    let path = seq![x];
    assert(is_path(v, roots, path));
    assert(path.last() == x);
}

/// A span that a span that can be reached refers to can be reached.
pub proof fn lemma_edge_reachable(v: HeapView, roots: Seq<usize>, a: int, k: int, x: int)
    requires
        reachable(v, roots, a),
        0 <= k < slot_count(v, a),
        v.is_object(x),
        refers(v, slot(v, a, k), x),
    ensures
        reachable(v, roots, x),
{
    let path = choose|path: Seq<int>| #[trigger] is_path(v, roots, path) && path.last() == a;
    assert(edge(v, a, x));
    let longer = path.push(x);
    assert forall|i: int| 0 <= i < longer.len() implies v.is_object(#[trigger] longer[i]) by {
        if i < path.len() {
            assert(longer[i] == path[i]);
        }
    }
    assert forall|i: int|
        0 < i < longer.len()
    implies
        edge(v, longer[i - 1], #[trigger] longer[i])
    by {
        if i < path.len() {
            assert(longer[i] == path[i]);
            assert(longer[i - 1] == path[i - 1]);
        } else {
            assert(longer[i - 1] == path.last());
        }
    }
    assert(longer[0] == path[0]);
    assert(is_path(v, roots, longer));
    assert(longer.last() == x);
}

/// The colors of `w` bear out what marking has found in the heap `g` so
/// far: a span without the condemned color can be reached, and a span with
/// the current color refers to no span with the condemned color.
pub open spec fn tri_wf(g: HeapView, roots: Seq<usize>, w: HeapView) -> bool {
    &&& g.layout_wf()
    &&& w.layout_wf()
    &&& g.same_spans(w)
    &&& w.bytes == g.bytes
    &&& forall|x: int| #[trigger]
        g.is_object(x) && w.colors[x] != w.condemned() ==> reachable(g, roots, x)
    &&& forall|a: int, x: int|
        g.is_object(a) && w.colors[a] == w.current_color && g.is_object(x)
            && #[trigger] edge(g, a, x)
            ==> w.colors[x] != w.condemned()
}

/// No span has gained the condemned color from the state `v` to the state
/// `w`.
pub open spec fn lighter(v: HeapView, w: HeapView) -> bool {
    &&& w.current_color == v.current_color
    &&& w.colors.len() == v.colors.len()
    &&& forall|x: int|
        0 <= x < v.colors.len() && v.colors[x] != v.condemned() ==> #[trigger] w.colors[x]
            != w.condemned()
}

/// Checking a reference that comes from a root, or from a span that can be
/// reached, keeps what marking has found: the span that it refers to does
/// not have the condemned color afterwards.
pub proof fn lemma_checked_tri(g: HeapView, roots: Seq<usize>, w: HeapView, p: int)
    requires
        tri_wf(g, roots, w),
        w.current_color.is_clean(),
        forall|x: int| g.is_object(x) && refers(g, p, x) ==> reachable(g, roots, x),
    ensures
        tri_wf(g, roots, w.checked(p)),
        lighter(w, w.checked(p)),
        forall|x: int| g.is_object(x)
            && refers(g, p, x) ==> w.checked(p).colors[x] != w.condemned(),
{
    lemma_checked(w, p);
    let r = w.checked(p);
    if w.in_pool(p) {
        lemma_same_spans(g, w, g.block_index(p));
        lemma_block_of(g, p);
    }
    crate::phases::lemma_same_spans_trans(g, w, r);
    if r != w {
        let b = w.block_of(p);
        assert(refers(g, p, b));
        assert(w.colors[b] != Color::Check);
        lemma_block_of(w, p);
        assert(!w.is_free(b));
        assert(g.is_object(b));
        assert forall|x: int|
            #[trigger] g.is_object(x) && r.colors[x] != r.condemned()
        implies
            reachable(g, roots, x)
        by {
            if x != b {
                assert(w.colors[x] == r.colors[x]);
            }
        }
        assert forall|a: int, x: int|
            g.is_object(a) && r.colors[a] == r.current_color && g.is_object(x) && #[trigger] edge(
                g,
                a,
                x,
            ) implies r.colors[x] != r.condemned() by {
            assert(w.colors[a] == w.current_color);
            if x != b {
                assert(w.colors[x] == r.colors[x]);
            }
        }
    }
}

/// Not gaining the condemned color carries over from state to state.
pub proof fn lemma_lighter_trans(u: HeapView, v: HeapView, w: HeapView)
    requires
        lighter(u, v),
        lighter(v, w),
    ensures
        lighter(u, w),
{
    assert forall|x: int| 0 <= x < u.colors.len()
        && u.colors[x] != u.condemned() implies #[trigger] w.colors[x]
        != w.condemned() by {
        assert(v.colors[x] != v.condemned());
    }
}

/// Checking the machine words of a span that can be reached, from word
/// `k` on, keeps what marking has found: no span that one of these words
/// refers to has the condemned color afterwards.
pub proof fn lemma_checked_words_tri(g: HeapView, roots: Seq<usize>, w: HeapView, a: int, k: int)
    requires
        tri_wf(g, roots, w),
        w.current_color.is_clean(),
        g.is_object(a),
        reachable(g, roots, a),
        0 <= k <= slot_count(g, a),
    ensures
        tri_wf(
            g,
            roots,
            w.checked_words(g.address_of(a) + 8 * k, g.address_of(g.object_end(a))),
        ),
        lighter(w, w.checked_words(g.address_of(a) + 8 * k, g.address_of(g.object_end(a)))),
        forall|j: int, x: int|
            k <= j < slot_count(g, a) && g.is_object(x) && refers(g, #[trigger] slot(g, a, j), x)
                ==> #[trigger] w.checked_words(
                g.address_of(a) + 8 * k,
                g.address_of(g.object_end(a)),
            ).colors[x] != w.condemned(),
    decreases slot_count(g, a) - k,
{
    let from = g.address_of(a) + 8 * k;
    let to = g.address_of(g.object_end(a));
    let r = w.checked_words(from, to);
    if from + 8 <= to {
        let p = word_at(w.bytes, from - w.start) as int;
        assert(p == slot(g, a, k));
        assert forall|x: int| g.is_object(x) && refers(g, p, x) implies reachable(g, roots, x) by {
            lemma_edge_reachable(g, roots, a, k, x);
        }
        lemma_checked_tri(g, roots, w, p);
        let w1 = w.checked(p);
        lemma_checked_words_tri(g, roots, w1, a, k + 1);
        assert(r == w1.checked_words(from + 8, to));
        lemma_lighter_trans(w, w1, r);
        assert forall|j: int, x: int|
            k <= j < slot_count(g, a) && g.is_object(x) && refers(
                g,
                #[trigger] slot(g, a, j),
                x,
            ) implies #[trigger] r.colors[x] != w.condemned() by {
            if j == k {
                assert(w1.colors[x] != w1.condemned());
            }
        }
    }
}

/// Scanning a span keeps what marking has found.
pub proof fn lemma_scanned_tri(g: HeapView, roots: Seq<usize>, w: HeapView, head: int)
    requires
        tri_wf(g, roots, w),
        w.current_color.is_clean(),
        g.is_object(head),
    ensures
        tri_wf(g, roots, w.scanned(head)),
        lighter(w, w.scanned(head)),
{
    if w.colors[head] == Color::Check {
        lemma_same_spans(g, w, head);
        lemma_same_objects(g, w);
        let e = g.object_end(head);
        lemma_object_end(g, head);
        lemma_checked_words_tri(g, roots, w, head, 0);
        let mid = w.checked_words(g.address_of(head), g.address_of(e));
        lemma_same_objects(g, mid);
        lemma_painted(mid, head, mid.current_color);
        let r = mid.painted(head, mid.current_color);
        assert(r == w.scanned(head));
        lemma_same_spans_trans(g, mid, r);
        assert forall|x: int|
            #[trigger] g.is_object(x) && r.colors[x] != r.condemned()
        implies
            reachable(g, roots, x)
        by {
            if x != head {
                assert(mid.colors[x] == r.colors[x]);
            }
        }
        assert forall|a: int, x: int|
            g.is_object(a) && r.colors[a] == r.current_color && g.is_object(x) && #[trigger] edge(
                g,
                a,
                x,
            ) implies r.colors[x] != r.condemned() by {
            if a == head {
                let k = choose|k: int|
                    0 <= k < slot_count(g, a) && refers(g, #[trigger] slot(g, a, k), x);
                assert(mid.colors[x] != w.condemned());
            } else {
                assert(mid.colors[a] == mid.current_color);
                assert(mid.colors[x] != mid.condemned());
            }
        }
        assert forall|x: int| 0 <= x < w.colors.len()
            && w.colors[x] != w.condemned() implies #[trigger] r.colors[x]
            != r.condemned() by {
            assert(mid.colors[x] != mid.condemned());
        }
    }
}

/// The pass of a round keeps what marking has found.
pub proof fn lemma_scanned_from_tri(g: HeapView, roots: Seq<usize>, w: HeapView, current: int,
    last: int)
    requires
        tri_wf(g, roots, w),
        w.current_color.is_clean(),
    ensures
        tri_wf(g, roots, w.scanned_from(current, last)),
        lighter(w, w.scanned_from(current, last)),
    decreases w.end() - current,
{
    if current > last || !w.in_pool(current) {
    } else {
        let n = w.block_index(current);
        if w.is_free(n) {
            let next_address = w.address_of(w.region_end(n));
            if current < next_address <= w.end() {
                lemma_scanned_from_tri(g, roots, w, next_address, last);
            }
        } else {
            let head = crate::color_map::run_start(w.colors, n);
            let next_address = w.address_of(w.object_end(head));
            let next = w.scanned(head);
            if current < next_address <= w.end() && next.end() == w.end() {
                lemma_block_of(w, current);
                lemma_same_objects(g, w);
                lemma_scanned_tri(g, roots, w, head);
                lemma_scanned_from_tri(g, roots, next, next_address, last);
                lemma_lighter_trans(w, next, next.scanned_from(next_address, last));
            }
        }
    }
}

/// A round of marking keeps what marking has found.
pub proof fn lemma_round_tri(g: HeapView, roots: Seq<usize>, w: HeapView)
    requires
        tri_wf(g, roots, w),
        w.current_color.is_clean(),
    ensures
        tri_wf(g, roots, w.round().0),
        lighter(w, w.round().0),
{
    if w.check_start != 0 {
        let cleared = HeapView { check_start: 0, check_end: 0, ..w };
        assert(tri_wf(g, roots, cleared));
        lemma_scanned_from_tri(g, roots, cleared, w.check_start, w.check_end);
    }
}

/// Rounds of marking made until marking is over keep what marking has
/// found.
pub proof fn lemma_rounds_tri(g: HeapView, roots: Seq<usize>, w: HeapView)
    requires
        tri_wf(g, roots, w),
        w.wf(),
        w.phase == Phase::Marking,
    ensures
        tri_wf(g, roots, w.rounds()),
        lighter(w, w.rounds()),
    decreases w.white_count(),
{
    lemma_round(w);
    lemma_round_tri(g, roots, w);
    let (next, done) = w.round();
    if !done {
        lemma_rounds_tri(g, roots, next);
        lemma_lighter_trans(w, next, next.rounds());
    }
}

/// No span that one of the first `i` roots refers to has the condemned
/// color.
pub open spec fn roots_checked(g: HeapView, roots: Seq<usize>, w: HeapView, i: int) -> bool {
    forall|j: int, x: int|
        0 <= j < i && j < roots.len() && g.is_object(x) && refers(g, #[trigger] roots[j] as int, x)
            ==> #[trigger] w.colors[x] != w.condemned()
}

/// Checking the roots from root `i` on keeps what marking has found: no
/// span that a root refers to has the condemned color afterwards.
pub proof fn lemma_checked_all_tri(g: HeapView, roots: Seq<usize>, w: HeapView, i: int)
    requires
        tri_wf(g, roots, w),
        w.current_color.is_clean(),
        0 <= i,
        roots_checked(g, roots, w, i),
    ensures
        tri_wf(g, roots, w.checked_all(roots, i)),
        lighter(w, w.checked_all(roots, i)),
        roots_checked(g, roots, w.checked_all(roots, i), roots.len() as int),
    decreases roots.len() - i,
{
    if i < roots.len() {
        let p = roots[i] as int;
        assert forall|x: int| g.is_object(x) && refers(g, p, x) implies reachable(g, roots, x) by {
            lemma_root_reachable(g, roots, i, x);
        }
        lemma_checked_tri(g, roots, w, p);
        let w1 = w.checked(p);
        assert(roots_checked(g, roots, w1, i + 1)) by {
            assert forall|j: int, x: int|
                0 <= j < i + 1 && j < roots.len() && g.is_object(x) && refers(
                    g,
                    #[trigger] roots[j] as int,
                    x,
                ) implies #[trigger] w1.colors[x] != w1.condemned() by {
                if j < i {
                    assert(w.colors[x] != w.condemned());
                }
            }
        }
        lemma_checked_all_tri(g, roots, w1, i + 1);
        lemma_lighter_trans(w, w1, w1.checked_all(roots, i + 1));
    }
}

/// When marking is over, every span on a chain of references from a root
/// has lost the condemned color.
pub proof fn lemma_path_marked(g: HeapView, roots: Seq<usize>, w: HeapView, path: Seq<int>, i: int)
    requires
        tri_wf(g, roots, w),
        w.wf(),
        w.phase == Phase::Marked,
        roots_checked(g, roots, w, roots.len() as int),
        is_path(g, roots, path),
        0 <= i < path.len(),
    ensures
        w.colors[path[i]] == w.current_color,
    decreases i,
{
    lemma_same_objects(g, w);
    assert(g.is_object(path[i]));
    assert(w.is_object(path[i]));
    assert(w.colors[path[i]].is_clean());
    if i == 0 {
        let j = choose|j: int|
            0 <= j < roots.len() && refers(g, #[trigger] roots[j] as int, path[0]);
        assert(w.colors[path[0]] != w.condemned());
    } else {
        lemma_path_marked(g, roots, w, path, i - 1);
        assert(g.is_object(path[i - 1]));
        assert(edge(g, path[i - 1], path[i]));
    }
}

/// The state after a whole collection: marking from the roots until it is
/// over, then the sweep.
pub open spec fn collected(v: HeapView, roots: Seq<usize>) -> HeapView {
    v.mark_started(roots).rounds().swept()
}

/// What marking from the roots until it is over makes of a quiet heap: the
/// spans stay as they are, and a span has the current color exactly if it
/// can be reached from the roots; the others have the condemned color.
pub proof fn lemma_marked(v: HeapView, roots: Seq<usize>)
    requires
        v.wf(),
        v.phase == Phase::Quiet,
    ensures
        v.mark_started(roots).rounds().wf(),
        v.mark_started(roots).rounds().phase == Phase::Marked,
        v.same_spans(v.mark_started(roots).rounds()),
        v.mark_started(roots).rounds().bytes == v.bytes,
        v.mark_started(roots).rounds().current_color == v.current_color.spec_opposite(),
        forall|x: int|
            #[trigger] v.is_object(x) ==> v.mark_started(roots).rounds().colors[x] == if reachable(
                v,
                roots,
                x,
            ) {
                v.current_color.spec_opposite()
            } else {
                v.current_color
            },
{
    let begun = HeapView {
        check_start: 0,
        check_end: 0,
        current_color: v.current_color.spec_opposite(),
        phase: Phase::Marking,
        ..v
    };
    assert(tri_wf(v, roots, begun)) by {
        assert forall|x: int|
            #[trigger] v.is_object(x) && begun.colors[x] != begun.condemned()
        implies
            reachable(v, roots, x)
        by {
            assert(v.colors[x] == v.current_color);
        }
        assert forall|a: int, x: int|
            v.is_object(a) && begun.colors[a] == begun.current_color && v.is_object(x)
                && #[trigger] edge(v, a, x) implies begun.colors[x] != begun.condemned() by {
            assert(v.colors[a] == v.current_color);
        }
    }
    assert(roots_checked(v, roots, begun, 0));
    lemma_checked_all_tri(v, roots, begun, 0);
    let started = v.mark_started(roots);
    lemma_mark_started(v, roots);
    lemma_rounds(started);
    lemma_rounds_tri(v, roots, started);
    let m = started.rounds();
    assert(roots_checked(v, roots, m, roots.len() as int)) by {
        assert forall|j: int, x: int|
            0 <= j < roots.len() && v.is_object(x)
                && refers(v, #[trigger] roots[j] as int, x) implies #[trigger] m.colors[x]
                != m.condemned() by {
            assert(started.colors[x] != started.condemned());
        }
    }
    lemma_same_objects(v, m);
    assert forall|x: int| #[trigger] v.is_object(x)
        implies m.colors[x] == if reachable(v, roots, x) {
        v.current_color.spec_opposite()
    } else {
        v.current_color
    } by {
        assert(m.is_object(x));
        assert(m.colors[x].is_clean());
        if reachable(v, roots, x) {
            let path = choose|path: Seq<int>|
                #[trigger] is_path(v, roots, path) && path.last() == x;
            lemma_path_marked(v, roots, m, path, path.len() - 1);
        }
    }
}

/// After a collection every span that can be reached from the roots is
/// still allocated, as it was, and has the current color; every other span
/// that was allocated is free, and all its blocks are `Check`. The bytes of
/// the pool are as they were.
pub proof fn collection_keeps_what_is_reachable(v: HeapView, roots: Seq<usize>)
    requires
        v.wf(),
        v.phase == Phase::Quiet,
    ensures
        collected(v, roots).wf(),
        collected(v, roots).phase == Phase::Quiet,
        collected(v, roots).start == v.start,
        collected(v, roots).blocks == v.blocks,
        collected(v, roots).bytes == v.bytes,
        collected(v, roots).current_color == v.current_color.spec_opposite(),
        forall|x: int|
            #[trigger] v.is_object(x) && reachable(v, roots, x) ==> collected(v, roots).is_object(x)
                && collected(v, roots).colors[x] == collected(v, roots).current_color && collected(
                v,
                roots,
            ).object_end(x) == v.object_end(x),
        forall|x: int, m: int|
            #[trigger] v.is_object(x) && !reachable(v, roots, x) && x <= m < v.object_end(x)
                ==> #[trigger] collected(v, roots).is_free(m),
        forall|m: int|
            0 <= m < v.blocks && #[trigger] collected(v, roots).is_free(m) ==> collected(
                v,
                roots,
            ).colors[m] == Color::Check,
        forall|x: int|
            #[trigger] collected(v, roots).is_object(x) ==> v.is_object(x)
                && reachable(v, roots, x),
        forall|m: int| 0 <= m < v.blocks
            && v.is_free(m) ==> #[trigger] collected(v, roots).is_free(m),
{
    lemma_marked(v, roots);
    let marked = v.mark_started(roots).rounds();
    lemma_same_objects(v, marked);
    lemma_first_block(marked);
    lemma_swept_from(marked, 0);
    lemma_swept(marked);
    let swept = marked.swept_from(0);
    let r = collected(v, roots);
    assert forall|x: int| r.is_object(x) == swept.is_object(x)
        && r.object_end(x) == swept.object_end(x)
        && r.is_free(x) == swept.is_free(x) by {}
    assert forall|x: int| #[trigger] v.is_object(x) && reachable(v, roots, x) implies r.is_object(x)
        && r.colors[x] == r.current_color && r.object_end(x) == v.object_end(x) by {
        assert(marked.is_object(x));
        assert(swept.is_object(x));
    }
    assert forall|x: int, m: int|
        #[trigger] v.is_object(x) && !reachable(v, roots, x) && x <= m < v.object_end(x) implies (
        #[trigger] r.is_free(m)) && r.colors[m] == Color::Check by {
        assert(marked.is_object(x));
        assert(marked.object_end(x) == v.object_end(x));
        lemma_object_end(v, x);
        assert(swept.is_free(m));
    }
    assert forall|x: int|
        #[trigger] r.is_object(x)
    implies
        v.is_object(x) && reachable(v, roots, x)
    by {
        assert(swept.is_object(x));
        assert(marked.is_object(x));
        assert(v.is_object(x));
    }
    assert forall|m: int| 0 <= m < v.blocks && v.is_free(m) implies #[trigger] r.is_free(m) by {
        assert(marked.is_free(m));
        assert(swept.is_free(m));
    }
    assert forall|m: int| 0 <= m < v.blocks && #[trigger] r.is_free(m) implies r.colors[m]
        == Color::Check by {}
}

/// The start of the run that a block belongs to is the block in front of
/// it that does not continue a run, with only `Continue` in between.
pub proof fn lemma_run_start_is(colors: Seq<Color>, x: int, n: int)
    requires
        0 <= x <= n < colors.len(),
        colors[x] != Color::Continue,
        forall|i: int| x < i <= n ==> colors[i] == Color::Continue,
    ensures
        run_start(colors, n) == x,
    decreases n - x,
{
    if n > x {
        lemma_run_start_is(colors, x, n - 1);
    }
}

/// A reference into a span that a collection keeps refers to the same span
/// after the collection.
pub proof fn lemma_refers_kept(v: HeapView, r: HeapView, p: int, x: int)
    requires
        v.layout_wf(),
        r.layout_wf(),
        r.start == v.start,
        r.blocks == v.blocks,
        v.is_object(x),
        r.is_object(x),
        r.object_end(x) == v.object_end(x),
        refers(v, p, x),
    ensures
        refers(r, p, x),
{
    lemma_block_of(v, p);
    let n = v.block_index(p);
    if v.is_free(n) {
        assert(v.block_of(p) == n);
    }
    lemma_object_end(r, x);
    lemma_run_start_is(r.colors, x, n);
}

/// A span that a span that is kept refers to, and that is kept too, is
/// referred to by the same span after the collection.
pub proof fn lemma_edge_kept(v: HeapView, r: HeapView, a: int, x: int)
    requires
        v.layout_wf(),
        r.layout_wf(),
        r.start == v.start,
        r.blocks == v.blocks,
        r.bytes == v.bytes,
        v.is_object(a),
        r.is_object(a),
        r.object_end(a) == v.object_end(a),
        v.is_object(x),
        r.is_object(x),
        r.object_end(x) == v.object_end(x),
        edge(v, a, x),
    ensures
        edge(r, a, x),
{
    let k = choose|k: int| 0 <= k < slot_count(v, a) && refers(v, #[trigger] slot(v, a, k), x);
    lemma_refers_kept(v, r, slot(v, a, k), x);
    assert(slot(r, a, k) == slot(v, a, k));
    assert(0 <= k < slot_count(r, a));
}

/// A span that can be reached from the roots before a collection can be
/// reached from the roots after it.
pub proof fn lemma_reachable_kept(v: HeapView, roots: Seq<usize>, x: int)
    requires
        v.wf(),
        v.phase == Phase::Quiet,
        v.is_object(x),
        reachable(v, roots, x),
    ensures
        reachable(collected(v, roots), roots, x),
{
    collection_keeps_what_is_reachable(v, roots);
    let r = collected(v, roots);
    let path = choose|path: Seq<int>| #[trigger] is_path(v, roots, path) && path.last() == x;
    assert forall|i: int| 0 <= i < path.len() implies reachable(v, roots, #[trigger] path[i]) by {
        let prefix = path.take(i + 1);
        assert forall|j: int| 0 <= j < prefix.len() implies v.is_object(#[trigger] prefix[j]) by {
            assert(prefix[j] == path[j]);
        }
        assert forall|j: int|
            0 < j < prefix.len()
        implies
            edge(v, prefix[j - 1], #[trigger] prefix[j])
        by {
            assert(prefix[j] == path[j]);
            assert(prefix[j - 1] == path[j - 1]);
        }
        assert(prefix[0] == path[0]);
        assert(is_path(v, roots, prefix));
        assert(prefix.last() == path[i]);
    }
    assert forall|i: int| 0 <= i < path.len() implies r.is_object(#[trigger] path[i])
        && r.object_end(
        path[i],
    ) == v.object_end(path[i]) by {
        assert(v.is_object(path[i]));
        assert(reachable(v, roots, path[i]));
    }
    assert(is_root(r, roots, path[0])) by {
        let j = choose|j: int|
            0 <= j < roots.len() && refers(v, #[trigger] roots[j] as int, path[0]);
        assert(v.is_object(path[0]));
        lemma_refers_kept(v, r, roots[j] as int, path[0]);
    }
    assert forall|i: int| 0 < i < path.len() implies edge(r, path[i - 1], #[trigger] path[i]) by {
        assert(v.is_object(path[i]));
        assert(v.is_object(path[i - 1]));
        assert(r.is_object(path[i - 1]));
        lemma_edge_kept(v, r, path[i - 1], path[i]);
    }
    assert(is_path(r, roots, path));
}

/// A sweep of a heap in which no span has the condemned color changes
/// nothing.
pub proof fn lemma_swept_nothing(v: HeapView, block: int)
    requires
        v.layout_wf(),
        forall|x: int| #[trigger] v.is_object(x) ==> v.colors[x] != v.condemned(),
    ensures
        v.swept_from(block) == v,
    decreases v.blocks - block,
{
    if block < 0 || block >= v.blocks {
    } else if v.is_free(block) {
        let e = v.region_end(block);
        if block < e <= v.blocks {
            lemma_swept_nothing(v, e);
        }
    } else {
        let e = v.object_end(block);
        if v.colors[block] == v.condemned() {
            assert(v.colors[block] != Color::Continue);
            assert(v.is_object(block));
        } else if block < e <= v.blocks {
            lemma_swept_nothing(v, e);
        }
    }
}

/// A collection is idempotent: a second collection from the same roots,
/// with nothing done to the heap in between, frees nothing. The free list,
/// the bytes and the spans are as the first collection left them; the
/// spans get the color that is current then.
pub proof fn collection_is_idempotent(v: HeapView, roots: Seq<usize>)
    requires
        v.wf(),
        v.phase == Phase::Quiet,
    ensures
        collected(collected(v, roots), roots).free == collected(v, roots).free,
        collected(collected(v, roots), roots).bytes == collected(v, roots).bytes,
        collected(v, roots).same_spans(collected(collected(v, roots), roots)),
        collected(collected(v, roots), roots).current_color == v.current_color,
        forall|x: int|
            #[trigger] collected(v, roots).is_object(x) ==> collected(
                collected(v, roots),
                roots,
            ).is_object(x) && collected(collected(v, roots), roots).colors[x] == v.current_color
                && collected(collected(v, roots), roots).object_end(x) == collected(
                v,
                roots,
            ).object_end(x),
{
    collection_keeps_what_is_reachable(v, roots);
    let r = collected(v, roots);
    assert forall|x: int| #[trigger] r.is_object(x) implies reachable(r, roots, x) by {
        lemma_reachable_kept(v, roots, x);
    }
    collection_keeps_what_is_reachable(r, roots);
    lemma_marked(r, roots);
    let marked = r.mark_started(roots).rounds();
    lemma_same_objects(r, marked);
    assert forall|x: int|
        #[trigger] marked.is_object(x)
    implies
        marked.colors[x] != marked.condemned()
    by {
        assert(r.is_object(x));
    }
    lemma_swept_nothing(marked, 0);
}

} // verus!
