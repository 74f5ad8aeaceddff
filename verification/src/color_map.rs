//! The color map: two bits of color for each block of the pool.
use crate::memory::Memory;
use crate::text::push_str;
use vstd::prelude::*;

verus! {

/// Two bits are reserved per block, so one byte of the map tracks four blocks.
pub const BLOCKS_PER_COLORMAP_BYTE: usize = 4;

/// The color of a block.
#[derive(Clone, Copy, Debug, PartialEq, Eq, Structural)]
pub enum Color {
    /// This block belongs to the span that began at a preceding block.
    Continue,
    /// Live, one of the two clean colors.
    Blue,
    /// Live, the other clean color.
    Green,
    /// Gray: marked for scanning. Also the color of every free block.
    Check,
}

impl Color {
    /// The two bits that stand for this color in the map.
    pub open spec fn spec_bits(self) -> u8 {
        match self {
            Color::Continue => 0u8,
            Color::Blue => 1u8,
            Color::Green => 2u8,
            Color::Check => 3u8,
        }
    }

    /// The color that the two bits `n` stand for.
    pub open spec fn spec_from_bits(n: u8) -> Color {
        if n == 0 {
            Color::Continue
        } else if n == 1 {
            Color::Blue
        } else if n == 2 {
            Color::Green
        } else {
            Color::Check
        }
    }

    /// The other clean color; `Continue` and `Check` have no opposite and
    /// stay as they are.
    pub open spec fn spec_opposite(self) -> Color {
        match self {
            Color::Blue => Color::Green,
            Color::Green => Color::Blue,
            x => x,
        }
    }

    /// One of the two clean colors.
    pub open spec fn is_clean(self) -> bool {
        self == Color::Blue || self == Color::Green
    }

    /// The color that the two bits `n` stand for.
    pub fn from_bits(n: u8) -> (c: Color)
        requires
            n < 4,
        ensures
            c == Color::spec_from_bits(n),
            c.spec_bits() == n,
    {
        if n == 0 {
            Color::Continue
        } else if n == 1 {
            Color::Blue
        } else if n == 2 {
            Color::Green
        } else {
            Color::Check
        }
    }

    /// The two bits that stand for this color in the map.
    pub fn bits(&self) -> (n: u8)
        ensures
            n == self.spec_bits(),
            n < 4,
    {
        match *self {
            Color::Continue => 0u8,
            Color::Blue => 1u8,
            Color::Green => 2u8,
            Color::Check => 3u8,
        }
    }

    /// The other clean color.
    pub fn opposite(&self) -> (c: Color)
        ensures
            c == self.spec_opposite(),
    {
        match *self {
            Color::Blue => Color::Green,
            Color::Green => Color::Blue,
            x => x,
        }
    }
}

/// A run of blocks, in block numbers starting from 0: the block `start`
/// carries `color`, the blocks after it up to `end` (exclusive) continue it.
#[derive(Debug, PartialEq, Eq)]
pub struct BlockRange {
    pub start: usize,
    pub end: usize,
    pub color: Color,
}

/// The two bits of slot `k` (0 to 3) of a byte of the map.
pub open spec fn slot_bits(byte: u8, k: int) -> u8 {
    (byte >> ((2 * k) as u8)) & 3u8
}

/// The block that begins the run containing block `n`: the nearest block at
/// or before `n` that is not `Continue`, or block 0 if there is none.
pub open spec fn run_start(colors: Seq<Color>, n: int) -> int
    decreases n,
{
    if n > 0 && colors[n] == Color::Continue {
        run_start(colors, n - 1)
    } else {
        n
    }
}

/// The first block at or after `e` that is not `Continue`, or the length of
/// the map if there is none.
pub open spec fn run_end(colors: Seq<Color>, e: int) -> int
    decreases colors.len() - e,
{
    if 0 <= e < colors.len() && colors[e] == Color::Continue {
        run_end(colors, e + 1)
    } else {
        e
    }
}

/// The colors after painting the run `start..end`: `color` at its first
/// block, `Continue` at the others.
pub open spec fn paint_run(colors: Seq<Color>, start: int, end: int, color: Color) -> Seq<Color> {
    Seq::new(
        colors.len(),
        |i: int|
            if i == start {
                color
            } else if start < i < end {
                Color::Continue
            } else {
                colors[i]
            },
    )
}

/// The colors after painting every block of `start..end` with `Check`.
pub open spec fn paint_free(colors: Seq<Color>, start: int, end: int) -> Seq<Color> {
    Seq::new(
        colors.len(),
        |i: int|
            if start <= i < end {
                Color::Check
            } else {
                colors[i]
            },
    )
}

/// The letter that a dump writes for a color.
pub open spec fn color_letter(c: Color) -> char {
    match c {
        Color::Blue => 'B',
        Color::Green => 'G',
        Color::Check => 'C',
        Color::Continue => '.',
    }
}

/// The text of a dump of the map.
pub open spec fn dump_text(colors: Seq<Color>) -> Seq<char> {
    "ColorMap("@ + Seq::new(colors.len(), |i: int| color_letter(colors[i])) + ")"@
}

/// Every block between a run's start and `n` continues the run.
pub proof fn lemma_run_start(colors: Seq<Color>, n: int)
    requires
        0 <= n < colors.len(),
    ensures
        0 <= run_start(colors, n) <= n,
        forall|i: int| run_start(colors, n) < i <= n ==> colors[i] == Color::Continue,
        run_start(colors, n) > 0 ==> colors[run_start(colors, n)] != Color::Continue,
    decreases n,
{
    if n > 0 && colors[n] == Color::Continue {
        lemma_run_start(colors, n - 1);
    }
}

/// Every block between `e` and the end of the run continues the run, and
/// the run stops at the first block that does not.
pub proof fn lemma_run_end(colors: Seq<Color>, e: int)
    requires
        0 <= e <= colors.len(),
    ensures
        e <= run_end(colors, e) <= colors.len(),
        forall|i: int| e <= i < run_end(colors, e) ==> colors[i] == Color::Continue,
        run_end(colors, e) < colors.len() ==> colors[run_end(colors, e)] != Color::Continue,
    decreases colors.len() - e,
{
    if e < colors.len() && colors[e] == Color::Continue {
        lemma_run_end(colors, e + 1);
    }
}

/// A run ends at the same block from wherever inside it the search starts.
pub proof fn lemma_run_end_from_inside(colors: Seq<Color>, a: int, b: int)
    requires
        0 <= a <= b <= colors.len(),
        forall|i: int| a <= i < b ==> colors[i] == Color::Continue,
    ensures
        run_end(colors, a) == run_end(colors, b),
    decreases b - a,
{
    if a < b {
        lemma_run_end_from_inside(colors, a + 1, b);
    }
}

/// Two maps that have `Continue` at the same blocks have the same runs:
/// a run ends at the same block in both.
pub proof fn lemma_run_end_same(c1: Seq<Color>, c2: Seq<Color>, e: int)
    requires
        c1.len() == c2.len(),
        forall|i: int| 0 <= i < c1.len()
            ==> (c1[i] == Color::Continue) == (c2[i] == Color::Continue),
    ensures
        run_end(c1, e) == run_end(c2, e),
    decreases c1.len() - e,
{
    if 0 <= e < c1.len() && c1[e] == Color::Continue {
        lemma_run_end_same(c1, c2, e + 1);
    }
}

/// Two maps that have `Continue` at the same blocks have the same runs:
/// a run begins at the same block in both.
pub proof fn lemma_run_start_same(c1: Seq<Color>, c2: Seq<Color>, n: int)
    requires
        c1.len() == c2.len(),
        n < c1.len(),
        forall|i: int| 0 <= i < c1.len()
            ==> (c1[i] == Color::Continue) == (c2[i] == Color::Continue),
    ensures
        run_start(c1, n) == run_start(c2, n),
    decreases n,
{
    if n > 0 && c1[n] == Color::Continue {
        lemma_run_start_same(c1, c2, n - 1);
    }
}

/// A run ends at the same block in two maps that have `Continue` at the
/// same blocks from the start of the search up to the end of the run.
pub proof fn lemma_run_end_local(c1: Seq<Color>, c2: Seq<Color>, a: int)
    requires
        c1.len() == c2.len(),
        0 <= a,
        forall|i: int|
            a <= i <= run_end(c1, a) && i < c1.len() ==> (c1[i] == Color::Continue) == (c2[i]
                == Color::Continue),
    ensures
        run_end(c2, a) == run_end(c1, a),
    decreases c1.len() - a,
{
    if a < c1.len() {
        lemma_run_end(c1, a);
        if c1[a] == Color::Continue {
            lemma_run_end(c1, a + 1);
            lemma_run_end_local(c1, c2, a + 1);
        }
    }
}

/// The color map uses two bits to describe the color of each block. Each
/// span of allocated memory starts with a color (blue, green, or check) and
/// is followed by zero or more blocks that are marked as "continue".
pub struct ColorMap {
    bits: Vec<u8>,
}

impl View for ColorMap {
    type V = Seq<Color>;

    closed spec fn view(&self) -> Seq<Color> {
        Seq::new(
            self.bits@.len() * 4,
            |n: int| Color::spec_from_bits(slot_bits(self.bits@[n / 4], n % 4)),
        )
    }
}

proof fn lemma_slot_get(byte: u8, k: u8)
    requires
        k < 4,
    ensures
        (byte & (3u8 << (k * 2) as u8)) >> (k * 2) as u8 == slot_bits(byte, k as int),
        slot_bits(byte, k as int) < 4,
{
    let s: u8 = (k * 2) as u8;
    assert(s == 0 || s == 2 || s == 4 || s == 6);
    assert((2 * (k as int)) as u8 == s);
    assert((byte & (3u8 << s)) >> s == (byte >> s) & 3u8 && (byte >> s) & 3u8 < 4) by (bit_vector)
        requires
            s == 0 || s == 2 || s == 4 || s == 6,
    ;
}

proof fn lemma_slot_set(byte: u8, k: u8, c: u8, j: u8)
    requires
        k < 4,
        j < 4,
        c < 4,
    ensures
        slot_bits((byte & !(3u8 << (k * 2) as u8)) | (c << (k * 2) as u8), j as int) == if j == k {
            c
        } else {
            slot_bits(byte, j as int)
        },
{
    let s: u8 = (k * 2) as u8;
    let t: u8 = (j * 2) as u8;
    assert((2 * (k as int)) as u8 == s);
    assert((2 * (j as int)) as u8 == t);
    assert((((byte & !(3u8 << s)) | (c << s)) >> t) & 3u8 == if t == s {
        c
    } else {
        (byte >> t) & 3u8
    }) by (bit_vector)
        requires
            s == 0 || s == 2 || s == 4 || s == 6,
            t == 0 || t == 2 || t == 4 || t == 6,
            c < 4,
    ;
}

impl ColorMap {
    /// The map can number its blocks.
    pub closed spec fn wf(&self) -> bool {
        self.bits@.len() * 4 <= usize::MAX
    }

    /// A map over the bytes of `m`, with every block marked free (`Check`).
    pub fn new(m: Memory) -> (r: ColorMap)
        requires
            m@.len() * 4 <= usize::MAX,
        ensures
            r.wf(),
            r@ == Seq::new(m@.len() * 4, |i: int| Color::Check),
    {
        let mut bits: Vec<u8> = m.inner();
        let n: usize = bits.len();
        let mut i: usize = 0;
        while i < n
            invariant
                i <= n,
                bits@.len() == n,
                forall|j: int| 0 <= j < i ==> bits@[j] == 0xffu8,
            decreases n - i,
        {
            bits.set(i, 0xffu8);
            i += 1;
        }
        let r = ColorMap { bits };
        proof {
            assert forall|j: int| 0 <= j < r@.len() implies r@[j] == Color::Check by {
                let k = j % 4;
                assert(slot_bits(0xffu8, 0) == 3u8) by (bit_vector);
                assert(slot_bits(0xffu8, 1) == 3u8) by (bit_vector);
                assert(slot_bits(0xffu8, 2) == 3u8) by (bit_vector);
                assert(slot_bits(0xffu8, 3) == 3u8) by (bit_vector);
            }
            assert(r@ =~= Seq::new(m@.len() * 4, |i: int| Color::Check));
        }
        r
    }

    /// The number of blocks that the map has a color for.
    pub fn len(&self) -> (n: usize)
        requires
            self.wf(),
        ensures
            n == self@.len(),
    {
        self.bits.len() * BLOCKS_PER_COLORMAP_BYTE
    }

    /// The color of block `n`.
    pub fn get(&self, n: usize) -> (c: Color)
        requires
            n < self@.len(),
        ensures
            c == self@[n as int],
    {
        let k: u8 = (n % 4) as u8;
        let shift: u8 = k * 2;
        let mask: u8 = 3u8 << shift;
        let byte: u8 = self.bits[n / 4];
        proof {
            lemma_slot_get(byte, k);
        }
        Color::from_bits((byte & mask) >> shift)
    }

    /// Paint block `n` with `color`.
    pub fn set(&mut self, n: usize, color: Color)
        requires
            n < old(self)@.len(),
        ensures
            final(self)@ == old(self)@.update(n as int, color),
            old(self).wf() ==> final(self).wf(),
    {
        let k: u8 = (n % 4) as u8;
        let shift: u8 = k * 2;
        let mask: u8 = !(3u8 << shift);
        let replace: u8 = color.bits() << shift;
        let byte: u8 = self.bits[n / 4];
        let updated: u8 = (byte & mask) | replace;
        self.bits.set(n / 4, updated);
        proof {
            assert forall|j: int| 0 <= j < self@.len() implies self@[j] == old(self)@.update(
                n as int,
                color,
            )[j] by {
                if j / 4 == n / 4 {
                    lemma_slot_set(byte, k, color.spec_bits(), (j % 4) as u8);
                }
            }
            assert(self@ =~= old(self)@.update(n as int, color));
        }
    }

    /// The run of blocks that block `n` belongs to: it starts at the nearest
    /// block at or before `n` that is not `Continue`, carries that block's
    /// color, and ends before the next block that is not `Continue`.
    pub fn get_range(&self, n: usize) -> (r: BlockRange)
        requires
            self.wf(),
            n < self@.len(),
        ensures
            r.start == run_start(self@, n as int),
            r.end == run_end(self@, r.start + 1),
            r.color == self@[r.start as int],
            r.start <= n < r.end <= self@.len(),
    {
        let len: usize = self.len();
        let mut start: usize = n;
        while start > 0 && self.get(start) == Color::Continue
            invariant
                start <= n < self@.len(),
                run_start(self@, start as int) == run_start(self@, n as int),
            decreases start,
        {
            start -= 1;
        }
        let color: Color = self.get(start);
        let mut end: usize = n + 1;
        proof {
            lemma_run_start(self@, n as int);
            lemma_run_end_from_inside(self@, start + 1, n + 1);
        }
        while end < len && self.get(end) == Color::Continue
            invariant
                n < end <= len,
                len == self@.len(),
                run_end(self@, end as int) == run_end(self@, start + 1),
            decreases len - end,
        {
            end += 1;
        }
        BlockRange { start, end, color }
    }

    /// Paint a run: `range.color` at its first block, `Continue` at the rest.
    pub fn set_range(&mut self, range: BlockRange)
        requires
            old(self).wf(),
            range.start < range.end <= old(self)@.len(),
        ensures
            final(self).wf(),
            final(self)@ == paint_run(old(self)@, range.start as int, range.end as int,
                range.color),
    {
        self.set(range.start, range.color);
        let mut i: usize = range.start + 1;
        while i < range.end
            invariant
                self.wf(),
                range.start < i <= range.end <= self@.len(),
                self@ == paint_run(old(self)@, range.start as int, i as int, range.color),
            decreases range.end - i,
        {
            self.set(i, Color::Continue);
            i += 1;
        }
    }

    /// Mark a run as free: every block of it gets `Check`, so that the run
    /// ends any span in front of it.
    pub fn free_range(&mut self, range: BlockRange)
        requires
            old(self).wf(),
            range.start <= range.end <= old(self)@.len(),
        ensures
            final(self).wf(),
            final(self)@ == paint_free(old(self)@, range.start as int, range.end as int),
    {
        let mut i: usize = range.start;
        assert(self@ =~= paint_free(old(self)@, range.start as int, i as int));
        while i < range.end
            invariant
                self.wf(),
                range.start <= i <= range.end <= self@.len(),
                self@ == paint_free(old(self)@, range.start as int, i as int),
            decreases range.end - i,
        {
            self.set(i, Color::Check);
            i += 1;
        }
    }

    /// For debugging: one letter per block, `B`, `G`, `C` or `.`.
    pub fn dump(&self) -> (s: String)
        requires
            self.wf(),
        ensures
            s@ == dump_text(self@),
    {
        let len: usize = self.len();
        let mut s: String = String::new();
        push_str(&mut s, "ColorMap(");
        let mut i: usize = 0;
        while i < len
            invariant
                i <= len,
                len == self@.len(),
                s@ == "ColorMap("@ + Seq::new(i as nat, |j: int| color_letter(self@[j])),
            decreases len - i,
        {
            proof {
                reveal_strlit("B");
                reveal_strlit("G");
                reveal_strlit("C");
                reveal_strlit(".");
            }
            let letter: &str = match self.get(i) {
                Color::Blue => "B",
                Color::Green => "G",
                Color::Check => "C",
                Color::Continue => ".",
            };
            assert(letter@ =~= seq![color_letter(self@[i as int])]);
            push_str(&mut s, letter);
            i += 1;
            assert(s@ =~= "ColorMap("@ + Seq::new(i as nat, |j: int| color_letter(self@[j])));
        }
        push_str(&mut s, ")");
        s
    }
}

} // verus!
