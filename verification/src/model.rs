//! The state of a heap as a mathematical value, what each operation makes
//! of it, and the proofs that the operations keep it well formed.
use crate::color_map::{
    Color, lemma_run_end, lemma_run_end_same, lemma_run_start, lemma_run_start_same, paint_free,
    paint_run, run_end, run_start,
};
use crate::free_list::{
    after_allocate, after_retire, apart_from, chain_aligned, chain_wf, covers, first_fit,
    FREE_BLOCK_SIZE, FreeBlock, lemma_allocate_covers, lemma_allocate_keeps_aligned,
    lemma_allocate_keeps_chain, lemma_first_fit, lemma_retire_covers, lemma_retire_keeps_aligned,
    lemma_retire_shape, position_from, taken,
};
use crate::text::decimal;
use vstd::bytes::{spec_u64_from_le_bytes, spec_u64_to_le_bytes};
use vstd::prelude::*;

verus! {

/// Where the collector stands in its cycle.
#[derive(Clone, Copy, Debug, PartialEq, Eq, Structural)]
pub enum Phase {
    /// No collection is under way.
    Quiet,
    /// Live objects are being marked, round by round.
    Marking,
    /// All live objects are marked; the sweep is due.
    Marked,
}

/// The kind of a span of the pool: allocated, with the color of its first
/// block, or free.
#[derive(Clone, Copy, Debug, PartialEq, Eq, Structural)]
pub enum SpanType {
    Color(Color),
    Free,
}

/// The state of a heap as a mathematical value.
pub struct HeapView {
    /// The address of the first byte of the pool.
    pub start: int,
    /// The number of blocks in the pool.
    pub blocks: int,
    /// The bytes of the pool.
    pub bytes: Seq<u8>,
    /// The color of each block that the color map has room for.
    pub colors: Seq<Color>,
    /// The free regions, in address order.
    pub free: Seq<FreeBlock>,
    /// The color of live objects.
    pub current_color: Color,
    /// Where the collector stands.
    pub phase: Phase,
    /// The lowest address of the gray range, or 0 if the range is empty.
    pub check_start: int,
    /// The highest address of the gray range, or 0 if the range is empty.
    pub check_end: int,
}

/// The size of the color map for a region of `len` bytes: one byte for
/// every 65 bytes of the region, or part thereof.
pub open spec fn color_map_size(len: int) -> int {
    (len + 64) / 65
}

/// The size of the pool of a region of `len` bytes: what the color map
/// leaves, rounded down to whole blocks.
pub open spec fn pool_size(len: int) -> int {
    ((len - color_map_size(len)) / 16) * 16
}

/// The size of an allocation of `amount` bytes: `amount` rounded up to
/// whole blocks, and one block at least.
pub open spec fn rounded(amount: int) -> int {
    if amount == 0 {
        16
    } else {
        ((amount + 15) / 16) * 16
    }
}

/// The bytes `bytes` with the `len` bytes from offset `offset` set to zero.
pub open spec fn zeroed(bytes: Seq<u8>, offset: int, len: int) -> Seq<u8> {
    Seq::new(
        bytes.len(),
        |i: int|
            if offset <= i < offset + len {
                0u8
            } else {
                bytes[i]
            },
    )
}

/// The machine word that the eight bytes from offset `offset` hold, least
/// significant byte first.
pub open spec fn word_at(bytes: Seq<u8>, offset: int) -> u64 {
    spec_u64_from_le_bytes(bytes.subrange(offset, offset + 8))
}

/// The bytes `bytes` with the machine word `word` written at offset
/// `offset`, least significant byte first.
pub open spec fn with_word(bytes: Seq<u8>, offset: int, word: u64) -> Seq<u8> {
    Seq::new(
        bytes.len(),
        |i: int|
            if offset <= i < offset + 8 {
                spec_u64_to_le_bytes(word)[i - offset]
            } else {
                bytes[i]
            },
    )
}

/// How many of the first `n` blocks have the color `c`.
pub open spec fn count_color(colors: Seq<Color>, c: Color, n: int) -> int
    decreases n,
{
    if n <= 0 {
        0
    } else {
        count_color(colors, c, n - 1) + if colors[n - 1] == c {
            1int
        } else {
            0int
        }
    }
}

/// The name that a dump writes for a kind of span.
pub open spec fn kind_name(kind: SpanType) -> Seq<char> {
    match kind {
        SpanType::Free => "FREE"@,
        SpanType::Color(Color::Blue) => "Blue"@,
        SpanType::Color(Color::Green) => "Green"@,
        SpanType::Color(Color::Check) => "Check"@,
        SpanType::Color(Color::Continue) => "Continue"@,
    }
}

/// What a dump writes in front of a span: nothing in front of the first,
/// a comma and a space in front of the others.
pub open spec fn separator(first: bool) -> Seq<char> {
    if first {
        Seq::<char>::empty()
    } else {
        ", "@
    }
}

/// What a dump writes for a span of `size` bytes: its kind, and its size in
/// square brackets if sizes are asked for.
pub open spec fn span_text(kind: SpanType, size: int, sizes: bool) -> Seq<char> {
    if sizes {
        kind_name(kind) + "["@ + decimal(size as nat) + "]"@
    } else {
        kind_name(kind)
    }
}

impl HeapView {
    /// The address just past the pool.
    pub open spec fn end(self) -> int {
        self.start + 16 * self.blocks
    }

    /// The address of the first byte of block `block`.
    pub open spec fn address_of(self, block: int) -> int {
        self.start + 16 * block
    }

    /// Whether the address `p` lies in the pool.
    pub open spec fn in_pool(self, p: int) -> bool {
        self.start <= p < self.end()
    }

    /// The block that holds the byte at address `p`.
    pub open spec fn block_index(self, p: int) -> int {
        (p - self.start) / 16
    }

    /// Whether `p` may be a reference into the pool: it lies in the pool
    /// and is aligned to a machine word.
    pub open spec fn is_block(self, p: int) -> bool {
        self.in_pool(p) && p % 8 == 0
    }

    /// The block that begins the span holding the byte at address `p`.
    pub open spec fn block_of(self, p: int) -> int {
        run_start(self.colors, self.block_index(p))
    }

    /// Whether block `block` belongs to a free region.
    pub open spec fn is_free(self, block: int) -> bool {
        covers(self.free, self.address_of(block))
    }

    /// Whether an allocated span begins at block `block`.
    pub open spec fn is_object(self, block: int) -> bool {
        0 <= block < self.blocks && self.colors[block] != Color::Continue && !self.is_free(block)
    }

    /// The block just past the span that begins at block `block`.
    pub open spec fn object_end(self, block: int) -> int {
        run_end(self.colors, block + 1)
    }

    /// Whether the gray range is empty.
    pub open spec fn gray_empty(self) -> bool {
        self.check_start == 0 && self.check_end == 0
    }

    /// The pool and its two books agree: the free list is sorted, coalesced
    /// and made of whole blocks of the pool; every block of a free region
    /// is `Check`; every allocated span begins with a color and goes on
    /// with `Continue` up to its end.
    pub open spec fn layout_wf(self) -> bool {
        &&& 0 < self.start
        &&& 0 <= self.blocks
        &&& self.end() <= usize::MAX
        &&& self.bytes.len() == 16 * self.blocks
        &&& self.blocks <= self.colors.len() <= usize::MAX
        &&& chain_wf(self.free)
        &&& chain_aligned(self.free, self.start, self.end(), 16)
        &&& self.current_color.is_clean()
        &&& forall|n: int|
            0 <= n < self.blocks && self.is_free(n) ==> #[trigger] self.colors[n] == Color::Check
        &&& forall|n: int|
            0 <= n < self.blocks && #[trigger] self.colors[n] == Color::Continue ==> n > 0
                && !self.is_free(n - 1)
        &&& forall|n: int|
            self.blocks <= n < self.colors.len() ==> #[trigger] self.colors[n] == Color::Check
        &&& self.gray_empty() || (self.start <= self.check_start <= self.check_end < self.end())
    }

    /// Whether the span that begins at block `block` has a byte in the gray
    /// range.
    pub open spec fn in_gray_range(self, block: int) -> bool {
        !self.gray_empty() && self.address_of(block) <= self.check_end && self.check_start
            < self.address_of(self.object_end(block))
    }

    /// The colors of the allocated spans and the gray range fit the phase
    /// of the collector: outside marking the gray range is empty and no
    /// span is gray; while quiet every span has the current color; while
    /// marking every gray span has a byte in the gray range.
    pub open spec fn phase_wf(self) -> bool {
        &&& self.phase != Phase::Marking ==> self.gray_empty()
        &&& self.phase == Phase::Quiet ==> forall|b: int| #[trigger]
            self.is_object(b) ==> self.colors[b] == self.current_color
        &&& self.phase == Phase::Marked ==> forall|b: int| #[trigger]
            self.is_object(b) ==> self.colors[b].is_clean()
        &&& self.phase == Phase::Marking ==> forall|b: int| #[trigger]
            self.is_object(b) && self.colors[b] == Color::Check ==> self.in_gray_range(b)
    }

    /// The state of a heap is well formed.
    pub open spec fn wf(self) -> bool {
        self.layout_wf() && self.phase_wf()
    }

    /// The state with the address `p` taken into the gray range.
    pub open spec fn widen(self, p: int) -> HeapView {
        HeapView {
            check_start: if self.check_start == 0 || self.check_start > p {
                p
            } else {
                self.check_start
            },
            check_end: if self.check_end == 0 || self.check_end < p {
                p
            } else {
                self.check_end
            },
            ..self
        }
    }

    /// The color that a new span gets: `Check` while marking, so that the
    /// span is scanned in a later round, and the current color otherwise.
    pub open spec fn fresh_color(self) -> Color {
        if self.phase == Phase::Marking {
            Color::Check
        } else {
            self.current_color
        }
    }

    /// Whether an allocation of `amount` bytes succeeds: some free region
    /// holds that many bytes, rounded up to whole blocks.
    pub open spec fn can_allocate(self, amount: int) -> bool {
        amount + 15 <= usize::MAX && first_fit(self.free, rounded(amount)) < self.free.len()
    }

    /// The address of the span that an allocation of `amount` bytes hands
    /// out: the start of the first free region that is large enough.
    pub open spec fn allocation_address(self, amount: int) -> int {
        self.free[first_fit(self.free, rounded(amount))].start as int
    }

    /// The state after an allocation of `amount` bytes that succeeds: the
    /// span leaves the free list, is painted as one span, and is zeroed;
    /// while marking, its address joins the gray range.
    pub open spec fn allocated(self, amount: int) -> HeapView {
        let size = rounded(amount);
        let k = first_fit(self.free, size);
        let a = self.free[k].start as int;
        let b = self.block_index(a);
        let painted = HeapView {
            free: after_allocate(self.free, k, size),
            colors: paint_run(self.colors, b, b + size / 16, self.fresh_color()),
            bytes: zeroed(self.bytes, a - self.start, size),
            ..self
        };
        if self.phase == Phase::Marking {
            painted.widen(a)
        } else {
            painted
        }
    }

    /// Whether the `len` bytes at the address `start` are exactly one
    /// allocated span.
    pub open spec fn holds_span(self, start: int, len: int) -> bool {
        &&& self.in_pool(start)
        &&& start == self.address_of(self.block_index(start))
        &&& self.is_object(self.block_index(start))
        &&& len == 16 * (self.object_end(self.block_index(start)) - self.block_index(start))
    }

    /// The state after the span that begins at block `block` was retired:
    /// all its blocks are `Check`, and it has joined the free list.
    pub open spec fn retired(self, block: int) -> HeapView {
        HeapView {
            colors: paint_free(self.colors, block, self.object_end(block)),
            free: after_retire(
                self.free,
                self.address_of(block),
                16 * (self.object_end(block) - block),
            ),
            ..self
        }
    }

    /// The color of the objects that the collection under way has not
    /// reached: the opposite of the current color.
    pub open spec fn condemned(self) -> Color {
        self.current_color.spec_opposite()
    }

    /// How many blocks have the condemned color.
    pub open spec fn white_count(self) -> int {
        count_color(self.colors, self.condemned(), self.blocks)
    }

    /// The state with block `block` painted `color`.
    pub open spec fn painted(self, block: int, color: Color) -> HeapView {
        HeapView { colors: self.colors.update(block, color), ..self }
    }

    /// The state with the machine word `word` written at address `p`.
    pub open spec fn written(self, p: int, word: u64) -> HeapView {
        HeapView { bytes: with_word(self.bytes, p - self.start, word), ..self }
    }

    /// The index of the last free region that starts at or below the first
    /// byte of block `block`, or -1 if there is none. If the block is free,
    /// this is the region that holds it.
    pub open spec fn region_index(self, block: int) -> int {
        position_from(self.free, self.address_of(block) + 1, 0) - 1
    }

    /// The block just past the free region that holds block `block`.
    pub open spec fn region_end(self, block: int) -> int {
        self.block_index(self.free[self.region_index(block)].spec_end())
    }

    /// The state after the candidate reference `p` was checked: if it
    /// points into a span of the condemned color, the span turns `Check`
    /// and `p` joins the gray range.
    pub open spec fn checked(self, p: int) -> HeapView {
        if self.is_block(p) && self.colors[self.block_of(p)] == self.condemned() {
            self.painted(self.block_of(p), Color::Check).widen(p)
        } else {
            self
        }
    }

    /// The state after `mark_check` on the reference `p`: while marking,
    /// the span that `p` points into turns `Check` and `p` joins the gray
    /// range.
    pub open spec fn mark_checked(self, p: int) -> HeapView {
        if self.phase == Phase::Marking && self.is_block(p) {
            self.painted(self.block_of(p), Color::Check).widen(p)
        } else {
            self
        }
    }

    /// The state after each of the machine words at the addresses `from`,
    /// `from + 8`, ... below `to` was checked as a candidate reference, in
    /// that order.
    pub open spec fn checked_words(self, from: int, to: int) -> HeapView
        decreases to - from,
    {
        if from + 8 > to {
            self
        } else {
            self.checked(word_at(self.bytes, from - self.start) as int).checked_words(from + 8, to)
        }
    }

    /// The state after each of `roots` from index `i` on was checked.
    pub open spec fn checked_all(self, roots: Seq<usize>, i: int) -> HeapView
        decreases roots.len() - i,
    {
        if 0 <= i < roots.len() {
            self.checked(roots[i] as int).checked_all(roots, i + 1)
        } else {
            self
        }
    }

    /// The state after `mark_start`: the gray range is cleared, the current
    /// color flips, every root is checked, and marking is under way.
    pub open spec fn mark_started(self, roots: Seq<usize>) -> HeapView {
        (HeapView {
            check_start: 0,
            check_end: 0,
            current_color: self.current_color.spec_opposite(),
            phase: Phase::Marking,
            ..self
        }).checked_all(roots, 0)
    }

    /// The state after the object at block `head` was scanned, if it was
    /// gray: each of its machine words is checked as a candidate reference,
    /// then the object gets the current color. An object of another color
    /// is left alone.
    pub open spec fn scanned(self, head: int) -> HeapView {
        if self.colors[head] == Color::Check {
            self.checked_words(
                self.address_of(head),
                self.address_of(self.object_end(head)),
            ).painted(head, self.current_color)
        } else {
            self
        }
    }

    /// The state after the pass of one round over the addresses from
    /// `current` to `last` (inclusive): free regions are passed over, and
    /// every object that has a byte in that range is scanned, in address
    /// order.
    pub open spec fn scanned_from(self, current: int, last: int) -> HeapView
        decreases self.end() - current,
    {
        if current > last || !self.in_pool(current) {
            self
        } else {
            let n = self.block_index(current);
            if self.is_free(n) {
                let next_address = self.address_of(self.region_end(n));
                if current < next_address <= self.end() {
                    self.scanned_from(next_address, last)
                } else {
                    self
                }
            } else {
                let head = run_start(self.colors, n);
                let next_address = self.address_of(self.object_end(head));
                let next = self.scanned(head);
                if current < next_address <= self.end() && next.end() == self.end() {
                    next.scanned_from(next_address, last)
                } else {
                    self
                }
            }
        }
    }

    /// The state after one round of marking, and whether marking is over.
    /// With an empty gray range marking is over. Else the range is taken
    /// and cleared, and the pass goes over it; marking is over if the gray
    /// range is empty after the pass.
    pub open spec fn round(self) -> (HeapView, bool) {
        if self.check_start == 0 {
            (HeapView { phase: Phase::Marked, ..self }, true)
        } else {
            let pass = (HeapView { check_start: 0, check_end: 0, ..self }).scanned_from(
                self.check_start,
                self.check_end,
            );
            if pass.check_start == 0 {
                (HeapView { phase: Phase::Marked, ..pass }, true)
            } else {
                (pass, false)
            }
        }
    }

    /// The state after rounds of marking were made until marking was over.
    pub open spec fn rounds(self) -> HeapView
        decreases self.white_count(),
    {
        let (next, done) = self.round();
        if done || !(0 <= next.white_count() < self.white_count()) {
            next
        } else {
            next.rounds()
        }
    }

    /// The state after the sweep of the blocks from `block` on: every span
    /// of the condemned color is retired, in address order.
    pub open spec fn swept_from(self, block: int) -> HeapView
        decreases self.blocks - block,
    {
        if block < 0 || block >= self.blocks {
            self
        } else if self.is_free(block) {
            let e = self.region_end(block);
            if block < e <= self.blocks {
                self.swept_from(e)
            } else {
                self
            }
        } else {
            let e = self.object_end(block);
            let next = if self.colors[block] == self.condemned() {
                self.retired(block)
            } else {
                self
            };
            if block < e <= self.blocks && next.blocks == self.blocks {
                next.swept_from(e)
            } else {
                self
            }
        }
    }

    /// The state after `sweep`: every span of the condemned color is
    /// retired, and the collector is quiet again.
    pub open spec fn swept(self) -> HeapView {
        HeapView { phase: Phase::Quiet, ..self.swept_from(0) }
    }

    /// The two states have the same pool, the same free list and the same
    /// spans: they differ at most in the colors of spans, in the bytes, and
    /// in what the collector keeps.
    pub open spec fn same_spans(self, other: HeapView) -> bool {
        &&& self.start == other.start
        &&& self.blocks == other.blocks
        &&& self.free == other.free
        &&& self.colors.len() == other.colors.len()
        &&& forall|i: int|
            0 <= i < self.colors.len() ==> (#[trigger] self.colors[i] == Color::Continue) == (
            other.colors[i] == Color::Continue)
    }

    /// The kind of the span that begins at block `block`.
    pub open spec fn span_kind(self, block: int) -> SpanType {
        if self.is_free(block) {
            SpanType::Free
        } else {
            SpanType::Color(self.colors[block])
        }
    }

    /// The block just past the span, free or allocated, that begins at
    /// block `block`.
    pub open spec fn span_end(self, block: int) -> int {
        if self.is_free(block) {
            self.region_end(block)
        } else {
            self.object_end(block)
        }
    }

    /// Whether a span, free or allocated, begins at block `block`, or the
    /// pool ends there.
    pub open spec fn is_boundary(self, block: int) -> bool {
        0 <= block <= self.blocks && (block < self.blocks ==> if self.is_free(block) {
            self.address_of(block) == self.free[self.region_index(block)].start
        } else {
            self.colors[block] != Color::Continue
        })
    }

    /// The text of a dump of the spans from block `block` on, separated by
    /// a comma and a space; `first` says whether the span at `block` is the
    /// first that the dump writes.
    pub open spec fn dump_from(self, block: int, first: bool, sizes: bool) -> Seq<char>
        decreases self.blocks - block,
    {
        if block < 0 || block >= self.blocks {
            Seq::<char>::empty()
        } else {
            let e = self.span_end(block);
            let text = separator(first) + span_text(self.span_kind(block), 16 * (e - block), sizes);
            if block < e <= self.blocks {
                text + self.dump_from(e, false, sizes)
            } else {
                text
            }
        }
    }

    /// The bytes of the allocated spans that begin at block `block` or
    /// behind it.
    pub open spec fn allocated_bytes_from(self, block: int) -> int
        decreases self.blocks - block,
    {
        if block < 0 || block >= self.blocks {
            0
        } else {
            let e = self.span_end(block);
            let own = if self.is_free(block) {
                0
            } else {
                16 * (e - block)
            };
            if block < e <= self.blocks {
                own + self.allocated_bytes_from(e)
            } else {
                own
            }
        }
    }

    /// The sum of the sizes of the allocated spans.
    pub open spec fn allocated_bytes(self) -> int {
        self.allocated_bytes_from(0)
    }

    /// The heap made of a region of bytes at the address `start`: the pool
    /// comes first and is one free region, the color map takes the tail of
    /// the region and marks every block `Check`.
    pub open spec fn fresh(start: int, region: Seq<u8>) -> HeapView {
        let size = pool_size(region.len() as int);
        HeapView {
            start,
            blocks: size / 16,
            bytes: region.subrange(0, size),
            colors: Seq::new((4 * color_map_size(region.len() as int)) as nat,
                |i: int| Color::Check),
            free: if size >= FREE_BLOCK_SIZE {
                seq![FreeBlock { start: start as usize, size: size as usize }]
            } else {
                Seq::<FreeBlock>::empty()
            },
            current_color: Color::Blue,
            phase: Phase::Quiet,
            check_start: 0,
            check_end: 0,
        }
    }
}

/// A span that begins inside the pool ends inside the pool.
pub proof fn lemma_object_end(v: HeapView, block: int)
    requires
        v.layout_wf(),
        0 <= block < v.blocks,
    ensures
        block < v.object_end(block) <= v.blocks,
        forall|i: int| block < i < v.object_end(block) ==> v.colors[i] == Color::Continue,
        v.object_end(block) < v.colors.len() ==> v.colors[v.object_end(block)] != Color::Continue,
{
    lemma_run_end(v.colors, block + 1);
    let e = run_end(v.colors, block + 1);
    if e > v.blocks {
        assert(v.colors[v.blocks] == Color::Continue);
    }
}

/// The blocks that free region `i` is made of.
pub proof fn lemma_free_region_blocks(v: HeapView, i: int)
    requires
        v.layout_wf(),
        0 <= i < v.free.len(),
    ensures
        v.free[i].start == v.address_of(v.block_index(v.free[i].start as int)),
        0 <= v.block_index(v.free[i].start as int),
        v.block_index(v.free[i].start as int) + v.free[i].size / 16 <= v.blocks,
        v.free[i].size == 16 * (v.free[i].size / 16),
        v.free[i].size >= 16,
        forall|n: int|
            v.block_index(v.free[i].start as int) <= n < v.block_index(v.free[i].start as int)
                + v.free[i].size / 16 ==> v.is_free(n) && #[trigger] v.colors[n] == Color::Check,
{
    let f = v.free[i];
    assert(f.wf());
    let b = v.block_index(f.start as int);
    assert forall|n: int| b <= n < b + f.size / 16 implies v.is_free(n) && #[trigger] v.colors[n]
        == Color::Check by {
        assert(f.start <= v.address_of(n) < f.spec_end());
    }
}

/// A free region that holds a byte of a block holds the whole block and
/// the address of the block.
pub proof fn lemma_free_block_whole(v: HeapView, i: int, n: int)
    requires
        v.layout_wf(),
        0 <= i < v.free.len(),
        0 <= n < v.blocks,
        v.free[i].start < v.address_of(n) + 16,
        v.address_of(n) < v.free[i].spec_end(),
    ensures
        v.free[i].start <= v.address_of(n),
        v.address_of(n) + 16 <= v.free[i].spec_end(),
        v.is_free(n),
{
    lemma_free_region_blocks(v, i);
}

/// No byte of an allocated span belongs to a free region.
pub proof fn lemma_object_apart(v: HeapView, block: int)
    requires
        v.layout_wf(),
        v.is_object(block),
    ensures
        apart_from(v.free, v.address_of(block), v.address_of(v.object_end(block))),
        block < v.object_end(block) <= v.blocks,
{
    lemma_object_end(v, block);
    let e = v.object_end(block);
    assert forall|i: int| 0 <= i < v.free.len()
        implies v.address_of(e) <= (#[trigger] v.free[i]).start
        || v.free[i].spec_end() <= v.address_of(block) by {
        let f = v.free[i];
        if !(v.address_of(e) <= f.start || f.spec_end() <= v.address_of(block)) {
            lemma_free_region_blocks(v, i);
            let fb = v.block_index(f.start as int);
            let n = if fb < block { block } else { fb };
            assert(block <= n < e);
            assert(fb <= n < fb + f.size / 16);
            assert(v.is_free(n));
            assert(v.colors[n] == Color::Check);
        }
    }
}

/// An allocation that succeeds keeps the heap well formed; the span that
/// it hands out is made of whole blocks of the pool and is an allocated
/// span afterwards.
pub proof fn lemma_allocated_wf(v: HeapView, amount: int)
    requires
        v.layout_wf(),
        0 <= amount,
        v.can_allocate(amount),
    ensures
        v.allocated(amount).layout_wf(),
        taken(v.free[first_fit(v.free, rounded(amount))], rounded(amount)) == rounded(amount),
        rounded(amount) >= 16,
        rounded(amount) == 16 * (rounded(amount) / 16),
        v.in_pool(v.allocation_address(amount)),
        v.allocation_address(amount) + rounded(amount) <= v.end(),
        v.allocation_address(amount) == v.address_of(v.block_index(v.allocation_address(amount))),
        v.block_of(v.allocation_address(amount)) == v.block_index(v.allocation_address(amount)),
        v.allocated(amount).holds_span(v.allocation_address(amount), rounded(amount)),
        (HeapView {
            free: after_allocate(v.free, first_fit(v.free, rounded(amount)), rounded(amount)),
            ..v
        }).layout_wf(),
{
    let size = rounded(amount);
    let k = first_fit(v.free, size);
    lemma_first_fit(v.free, size, 0);
    let f = v.free[k];
    let a = f.start as int;
    let b = v.block_index(a);
    let e = b + size / 16;
    let w = v.allocated(amount);
    assert(f.wf());
    lemma_free_region_blocks(v, k);
    assert(v.colors[b] == Color::Check);
    assert(taken(f, size) == size);
    lemma_allocate_keeps_chain(v.free, k, size);
    lemma_allocate_keeps_aligned(v.free, k, size, v.start, v.end(), 16);
    assert forall|n: int|
        0 <= n < v.blocks
    implies
        (w.is_free(n) <==> v.is_free(n) && !(b <= n < e))
    by {
        lemma_allocate_covers(v.free, k, size, v.address_of(n));
    }
    assert forall|n: int| 0 <= n < w.blocks && w.is_free(n) implies #[trigger] w.colors[n]
        == Color::Check by {
        assert(v.is_free(n) && !(b <= n < e));
        assert(v.colors[n] == Color::Check);
    }
    assert forall|n: int| 0 <= n < w.blocks
        && #[trigger] w.colors[n] == Color::Continue implies n > 0
        && !w.is_free(n - 1) by {
        if b < n < e {
            assert(!(v.is_free(n - 1) && !(b <= n - 1 < e)));
        } else {
            assert(v.colors[n] == Color::Continue);
            assert(!v.is_free(n));
        }
    }
    assert forall|n: int| w.blocks <= n < w.colors.len() implies #[trigger] w.colors[n]
        == Color::Check by {
        assert(v.colors[n] == Color::Check);
    }
    assert(w.layout_wf());
    // the state in which the span has left the free list and is not painted yet
    let u = HeapView { free: after_allocate(v.free, k, size), ..v };
    assert forall|n: int| 0 <= n < u.blocks && u.is_free(n) implies #[trigger] u.colors[n]
        == Color::Check by {
        assert(w.is_free(n));
        assert(v.is_free(n));
    }
    assert forall|n: int| 0 <= n < u.blocks
        && #[trigger] u.colors[n] == Color::Continue implies n > 0
        && !u.is_free(n - 1) by {
        assert(!v.is_free(n - 1));
        assert(u.is_free(n - 1) == w.is_free(n - 1));
    }
    // the new span
    assert(!w.is_free(b));
    assert(w.colors[b] == v.fresh_color());
    lemma_run_end(w.colors, b + 1);
    let r = run_end(w.colors, b + 1);
    if r < e {
        assert(w.colors[r] == Color::Continue);
    }
    if r > e {
        assert(w.colors[e] == Color::Continue);
        if e < v.blocks {
            assert(v.colors[e] == Color::Continue);
            assert(v.is_free(e - 1));
        } else {
            assert(v.colors[e] == Color::Check);
        }
    }
    crate::color_map::lemma_run_start(v.colors, b);
}

/// Retiring an allocated span keeps the heap well formed, and frees the
/// blocks of the span and no others.
pub proof fn lemma_retired_wf(v: HeapView, block: int)
    requires
        v.layout_wf(),
        v.is_object(block),
    ensures
        v.retired(block).layout_wf(),
        forall|n: int|
            0 <= n < v.blocks ==> (#[trigger] v.retired(block).is_free(n) <==> v.is_free(n) || block
                <= n < v.object_end(block)),
{
    let e = v.object_end(block);
    let w = v.retired(block);
    let start = v.address_of(block);
    let size = 16 * (e - block);
    lemma_object_apart(v, block);
    lemma_object_end(v, block);
    lemma_retire_shape(v.free, start, size);
    lemma_retire_keeps_aligned(v.free, start, size, v.start, v.end(), 16);
    assert forall|n: int| 0 <= n < v.blocks
        implies (#[trigger] w.is_free(n) <==> v.is_free(n) || block
        <= n < e) by {
        lemma_retire_covers(v.free, start, size, v.address_of(n));
    }
    assert forall|n: int| 0 <= n < w.blocks && w.is_free(n) implies #[trigger] w.colors[n]
        == Color::Check by {
        if !(block <= n < e) {
            assert(v.is_free(n));
            assert(v.colors[n] == Color::Check);
        }
    }
    assert forall|n: int| 0 <= n < w.blocks
        && #[trigger] w.colors[n] == Color::Continue implies n > 0
        && !w.is_free(n - 1) by {
        assert(v.colors[n] == Color::Continue);
        assert(!(block <= n < e));
        assert(w.is_free(n - 1) <==> v.is_free(n - 1) || block <= n - 1 < e);
    }
    assert forall|n: int| w.blocks <= n < w.colors.len() implies #[trigger] w.colors[n]
        == Color::Check by {
        assert(v.colors[n] == Color::Check);
    }
}

/// States with the same spans agree on where each span begins and ends.
pub proof fn lemma_same_spans(v: HeapView, w: HeapView, n: int)
    requires
        v.same_spans(w),
        n < v.colors.len(),
    ensures
        run_start(v.colors, n) == run_start(w.colors, n),
        v.object_end(n) == w.object_end(n),
        v.is_free(n) == w.is_free(n),
        v.region_index(n) == w.region_index(n),
        v.region_end(n) == w.region_end(n),
{
    assert forall|i: int| 0 <= i < v.colors.len() implies (v.colors[i] == Color::Continue) == (
    w.colors[i] == Color::Continue) by {
        assert((#[trigger] v.colors[i] == Color::Continue) == (w.colors[i] == Color::Continue));
    }
    lemma_run_start_same(v.colors, w.colors, n);
    lemma_run_end_same(v.colors, w.colors, n + 1);
}

/// No more than `n` of the first `n` blocks have a color.
pub proof fn lemma_count_bounds(colors: Seq<Color>, c: Color, n: int)
    ensures
        0 <= count_color(colors, c, n),
        n >= 0 ==> count_color(colors, c, n) <= n,
    decreases n,
{
    if n > 0 {
        lemma_count_bounds(colors, c, n - 1);
    }
}

/// Painting a block changes how many blocks have a color by what the block
/// loses and gains.
pub proof fn lemma_count_update(colors: Seq<Color>, c: Color, n: int, i: int, new: Color)
    requires
        0 <= i < colors.len(),
        0 <= n <= colors.len(),
    ensures
        count_color(colors.update(i, new), c, n) == count_color(colors, c, n) + if i < n {
            (if new == c {
                1int
            } else {
                0int
            }) - (if colors[i] == c {
                1int
            } else {
                0int
            })
        } else {
            0int
        },
        0 <= count_color(colors, c, n) <= n,
    decreases n,
{
    if n > 0 {
        lemma_count_update(colors, c, n - 1, i, new);
    }
}

/// Painting the first block of an allocated span with a color keeps the
/// heap well formed and its spans as they are.
pub proof fn lemma_painted(v: HeapView, block: int, color: Color)
    requires
        v.layout_wf(),
        v.is_object(block),
        color != Color::Continue,
    ensures
        v.painted(block, color).layout_wf(),
        v.same_spans(v.painted(block, color)),
{
    let w = v.painted(block, color);
    assert forall|n: int| 0 <= n < w.blocks && w.is_free(n) implies #[trigger] w.colors[n]
        == Color::Check by {
        assert(v.colors[n] == Color::Check);
    }
    assert forall|n: int| 0 <= n < w.blocks
        && #[trigger] w.colors[n] == Color::Continue implies n > 0
        && !w.is_free(n - 1) by {
        assert(v.colors[n] == Color::Continue);
    }
    assert forall|n: int| w.blocks <= n < w.colors.len() implies #[trigger] w.colors[n]
        == Color::Check by {
        assert(v.colors[n] == Color::Check);
    }
}

/// The first block of the pool does not continue a span.
pub proof fn lemma_first_block(v: HeapView)
    requires
        v.layout_wf(),
    ensures
        v.blocks > 0 ==> v.colors[0] != Color::Continue,
{
    if v.blocks > 0 {
        assert(v.colors[0] == Color::Continue ==> 0 > 0int);
    }
}

/// The block that a reference into an allocated span resolves to is the
/// first block of that span; a reference into a free region resolves to the
/// block that it points into.
pub proof fn lemma_block_of(v: HeapView, p: int)
    requires
        v.layout_wf(),
        v.in_pool(p),
    ensures
        0 <= v.block_of(p) <= v.block_index(p) < v.blocks,
        v.colors[v.block_of(p)] != Color::Continue,
        v.is_free(v.block_of(p)) == v.is_free(v.block_index(p)),
        v.is_free(v.block_index(p)) ==> v.block_of(p) == v.block_index(p),
        !v.is_free(v.block_index(p)) ==> v.is_object(v.block_of(p)) && v.block_index(p)
            < v.object_end(v.block_of(p)),
{
    let n = v.block_index(p);
    lemma_run_start(v.colors, n);
    let b = v.block_of(p);
    lemma_first_block(v);
    if b < n {
        assert(v.colors[n] == Color::Continue);
        if v.is_free(b) {
            assert(v.colors[b + 1] == Color::Continue);
        }
        lemma_run_end_from_inside_upto(v.colors, b + 1, n + 1);
    } else {
        lemma_run_end(v.colors, b + 1);
    }
}

/// A run that continues up to block `b` ends at or after `b`.
proof fn lemma_run_end_from_inside_upto(colors: Seq<Color>, a: int, b: int)
    requires
        0 <= a <= b <= colors.len(),
        forall|i: int| a <= i < b ==> colors[i] == Color::Continue,
    ensures
        run_end(colors, a) >= b,
{
    crate::color_map::lemma_run_end_from_inside(colors, a, b);
    lemma_run_end(colors, b);
}

/// Checking a candidate reference keeps the heap well formed and its spans
/// as they are. Either nothing changes, or a span loses the condemned color
/// and the gray range is not empty.
pub proof fn lemma_checked(v: HeapView, p: int)
    requires
        v.layout_wf(),
    ensures
        v.checked(p).layout_wf(),
        v.same_spans(v.checked(p)),
        v.checked(p).bytes == v.bytes,
        v.checked(p).current_color == v.current_color,
        v.checked(p).phase == v.phase,
        v.checked(p) == v || (!v.checked(p).gray_empty() && v.checked(p).white_count()
            < v.white_count()),
{
    if v.is_block(p) && v.colors[v.block_of(p)] == v.condemned() {
        let b = v.block_of(p);
        lemma_block_of(v, p);
        assert(v.colors[b] != Color::Check);
        assert(!v.is_free(b));
        lemma_painted(v, b, Color::Check);
        lemma_count_update(v.colors, v.condemned(), v.blocks, b, Color::Check);
    }
}

/// How a walk over the free list finds the free region that holds an
/// address: if every region before region `i` ends at or below the address
/// `p` and region `i` does not, then `p` is free exactly if region `i`
/// starts at or below it, and region `i` is then the region that holds it.
pub proof fn lemma_region_found(v: HeapView, p: int, i: int)
    requires
        v.layout_wf(),
        v.in_pool(p),
        0 <= i <= v.free.len(),
        forall|j: int| 0 <= j < i ==> (#[trigger] v.free[j]).spec_end() <= p,
        i < v.free.len() ==> v.free[i].spec_end() > p,
    ensures
        v.is_free(v.block_index(p)) <==> i < v.free.len() && v.free[i].start <= p,
        v.is_free(v.block_index(p)) ==> v.region_index(v.block_index(p)) == i && v.address_of(
            v.region_end(v.block_index(p)),
        ) == v.free[i].spec_end() && v.region_end(v.block_index(p)) <= v.blocks,
{
    let n = v.block_index(p);
    let a = v.address_of(n);
    assert(a <= p < a + 16);
    if i < v.free.len() && v.free[i].start <= p {
        lemma_free_block_whole(v, i, n);
        assert forall|j: int| 0 <= j < i + 1 implies v.free[j].start < a + 1 by {
            if j < i {
                assert(v.free[j].spec_end() < v.free[i].start);
                assert(v.free[j].wf());
            }
        }
        if i + 1 < v.free.len() {
            assert(v.free[i].spec_end() < v.free[i + 1].start);
        }
        crate::free_list::lemma_position_is(v.free, a + 1, i + 1);
        lemma_free_region_blocks(v, i);
    }
    if v.is_free(n) {
        let k = choose|k: int|
            0 <= k < v.free.len() && (#[trigger] v.free[k]).start <= a < v.free[k].spec_end();
        lemma_free_block_whole(v, k, n);
        if k < i {
            assert(v.free[k].spec_end() <= p);
        } else if k > i {
            assert(v.free[i].spec_end() < v.free[k].start);
            assert(v.free[i].wf());
            lemma_free_block_whole(v, i, n);
        }
    }
}

/// A span that begins at a boundary ends at a boundary, inside the pool.
pub proof fn lemma_span_end(v: HeapView, block: int)
    requires
        v.layout_wf(),
        v.is_boundary(block),
        block < v.blocks,
    ensures
        block < v.span_end(block) <= v.blocks,
        v.is_boundary(v.span_end(block)),
        !v.is_free(block) ==> v.is_object(block),
        v.is_free(block) ==> 0 <= v.region_index(block) < v.free.len() && v.address_of(
            v.span_end(block),
        ) == v.free[v.region_index(block)].spec_end(),
{
    let e = v.span_end(block);
    if v.is_free(block) {
        let i = choose|i: int|
            0 <= i < v.free.len()
                && (#[trigger] v.free[i]).start <= v.address_of(block) < v.free[i].spec_end();
        assert forall|j: int| 0 <= j < i implies (#[trigger] v.free[j]).spec_end() <= v.address_of(
            block,
        ) by {
            assert(v.free[j].spec_end() < v.free[i].start);
        }
        lemma_region_found(v, v.address_of(block), i);
        lemma_free_region_blocks(v, i);
        if e < v.blocks {
            // the block behind a free region is not free, and begins a span
            if v.is_free(e) {
                let k = choose|k: int|
                    0 <= k < v.free.len()
                        && (#[trigger] v.free[k]).start <= v.address_of(e) < v.free[k].spec_end();
                if k < i {
                    assert(v.free[k].spec_end() < v.free[i].start);
                } else if k > i {
                    assert(v.free[i].spec_end() < v.free[k].start);
                }
            }
            assert(v.is_free(e - 1));
            if v.colors[e] == Color::Continue {
                assert(!v.is_free(e - 1));
            }
        }
    } else {
        lemma_object_end(v, block);
        if e < v.blocks && v.is_free(e) {
            let k = choose|k: int|
                0 <= k < v.free.len()
                    && (#[trigger] v.free[k]).start <= v.address_of(e) < v.free[k].spec_end();
            assert forall|j: int| 0 <= j < k
                implies (#[trigger] v.free[j]).spec_end() <= v.address_of(
                e,
            ) by {
                assert(v.free[j].spec_end() < v.free[k].start);
            }
            lemma_region_found(v, v.address_of(e), k);
            lemma_free_region_blocks(v, k);
            let fb = v.block_index(v.free[k].start as int);
            if fb < e {
                // the region would hold the last block of the span
                assert(v.is_free(e - 1));
                if e - 1 > block {
                    assert(v.colors[e - 1] == Color::Continue);
                }
            }
        }
    }
}

/// The block behind a free region begins a span: it is not `Continue`.
pub proof fn lemma_behind_region(v: HeapView, i: int)
    requires
        v.layout_wf(),
        0 <= i < v.free.len(),
    ensures
        v.free[i].spec_end() == v.address_of(v.block_index(v.free[i].spec_end())),
        v.start < v.free[i].spec_end() <= v.end(),
        v.free[i].spec_end() < v.end() ==> v.colors[v.block_index(v.free[i].spec_end())]
            != Color::Continue,
{
    lemma_free_region_blocks(v, i);
    let e = v.block_index(v.free[i].spec_end());
    if e < v.blocks {
        assert(v.is_free(e - 1));
        if v.colors[e] == Color::Continue {
            assert(!v.is_free(e - 1));
        }
    }
}

} // verus!
