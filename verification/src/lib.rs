//! A small heap with a tri-color, tracing, conservative, incremental,
//! non-compacting garbage collector, for a tiny language on tiny hardware.
//!
//! The heap takes a region of bytes, keeps a map of two-bit colors at its
//! tail and hands out the rest, the pool, in spans of whole blocks. A span
//! goes back to the free list when it is retired, or when a collection
//! finds that no chain of references leads to it from the roots. The
//! collector is conservative: every machine word of a span counts as a
//! reference if it is the address of a word of the pool.
//!
//! Addresses are plain numbers. The heap owns the bytes of the pool, so the
//! fields of an object are read and written through the heap, and a
//! reference to an object is the address of any of its words:
//!
//! ```text
//! let mut heap = Heap::from_bytes(vec![0; 256]);
//! let a = heap.allocate_object(32).unwrap();
//! let b = heap.allocate_object(32).unwrap();
//! heap.write_word(a + 8, b as u64);
//! heap.gc(&[a]);
//! ```
//!
//! Every operation is specified over `model::HeapView`, the state of a heap
//! as a mathematical value. The module `laws` states what holds of every
//! well-formed heap, the module `reach` what a collection keeps.
use vstd::prelude::*;

pub mod color_map;
pub mod free_list;
pub mod heap;
pub mod laws;
pub mod memory;
pub mod model;
pub mod phases;
pub mod reach;
pub mod string_buffer;
pub mod text;

pub use crate::heap::{Heap, HeapStats};
pub use crate::memory::Memory;
pub use crate::string_buffer::StringBuffer;

verus! {

/// How many bytes are in each block of memory. Smaller means more overhead
/// for tracking memory, larger means more memory wasted per allocation.
pub const BLOCK_SIZE_BYTES: usize = 16;

/// How many bytes are in one machine word, the unit in which objects are
/// scanned for references.
pub const WORD_SIZE_BYTES: usize = 8;

/// A block is big enough to hold the header of a free region, so any run
/// of blocks can be a free region.
pub proof fn block_holds_free_block_header()
    ensures
        BLOCK_SIZE_BYTES >= crate::free_list::FREE_BLOCK_SIZE,
        crate::free_list::FREE_BLOCK_SIZE == 2 * WORD_SIZE_BYTES,
{
}

/// `numerator / denominator`, rounded up.
pub fn div_ceil(numerator: usize, denominator: usize) -> (q: usize)
    requires
        denominator > 0,
    ensures
        q == (numerator + denominator - 1) / (denominator as int),
        q * denominator >= numerator,
        q * denominator < numerator + denominator,
{
    let floor: usize = numerator / denominator;
    let rem: usize = numerator % denominator;
    proof {
        let d = denominator as int;
        let f = floor as int;
        vstd::arithmetic::div_mod::lemma_fundamental_div_mod(numerator as int, d);
        assert(numerator == d * f + rem);
        assert(d * f >= f) by (nonlinear_arith)
            requires
                d >= 1,
                f >= 0,
        ;
        assert(d * (f + 1) == d * f + d) by (nonlinear_arith);
        if rem == 0 {
            vstd::arithmetic::div_mod::lemma_fundamental_div_mod_converse(
                numerator + d - 1,
                d,
                f,
                d - 1,
            );
        } else {
            vstd::arithmetic::div_mod::lemma_fundamental_div_mod_converse(
                numerator + d - 1,
                d,
                f + 1,
                rem - 1,
            );
        }
        assert(f * d == d * f) by (nonlinear_arith);
        assert((f + 1) * d == d * (f + 1)) by (nonlinear_arith);
    }
    if rem == 0 {
        floor
    } else {
        floor + 1
    }
}

/// The largest multiple of `chunk` that is at most `n`.
pub fn floor_to(n: usize, chunk: usize) -> (r: usize)
    requires
        chunk > 0,
    ensures
        r == (n / chunk) * chunk,
        r <= n,
        n - r < chunk,
        r % chunk == 0,
{
    proof {
        vstd::arithmetic::div_mod::lemma_fundamental_div_mod(n as int, chunk as int);
        vstd::arithmetic::div_mod::lemma_mod_multiples_basic((n / chunk) as int, chunk as int);
        assert((n / chunk) * chunk == chunk * (n / chunk)) by (nonlinear_arith);
    }
    n / chunk * chunk
}

/// The smallest multiple of `chunk` that is at least `n`.
pub fn ceil_to(n: usize, chunk: usize) -> (r: usize)
    requires
        chunk > 0,
        n + chunk - 1 <= usize::MAX,
    ensures
        r == ((n + chunk - 1) / (chunk as int)) * chunk,
        r >= n,
        r - n < chunk,
        r % chunk == 0,
{
    let q: usize = self::div_ceil(n, chunk);
    proof {
        vstd::arithmetic::div_mod::lemma_mod_multiples_basic(q as int, chunk as int);
    }
    q * chunk
}

} // verus!
