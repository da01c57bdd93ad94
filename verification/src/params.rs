//! Compile-time bounds of the simulation volume and the fixed-point scale of
//! the continuous coordinates.

use vstd::prelude::*;

verus! {

/// Number of addressable lattice sites along each axis.
pub const MAX_I: u16 = 1000;
pub const MAX_J: u16 = 1000;
pub const MAX_K: u16 = 200;

/// Conventional origin of the volume: the midpoint on each axis.
pub const CENTER_I: u16 = MAX_I / 2;
pub const CENTER_J: u16 = MAX_J / 2;
pub const CENTER_K: u16 = MAX_K / 2;

/// Bits per site in the packed store, sites per byte, and words per k-column.
pub const BITS: u16 = 2;
pub const DIV: u16 = 8 / BITS;
pub const WORDS_K: u16 = MAX_K / DIV + 1;

/// Number of vacancy buckets (one per tracked coordination number).
pub const VAC_LISTS: usize = 9;

/// Continuous positions are integers in units of `diameter / SCALE`, so one
/// atomic diameter is exactly `SCALE` position units.
pub const SCALE: i64 = 1_000_000;
pub const HALF_SCALE: i64 = 500_000;

/// Fixed-point values of the FCC basis constants, scaled by `SCALE`:
/// sin 60°, the lateral y-part of the third basis vector (1 / (2*sqrt 3)),
/// and its vertical part (sqrt(2/3)).
pub const SIN60: i64 = 866_025;
pub const YPOS: i64 = 288_675;
pub const ZPOS: i64 = 816_497;

/// Largest position component (in `SCALE` units) that the inverse mapping
/// accepts; generously above anything the forward mapping can produce.
pub const POS_LIMIT: i64 = 1_000_000_000_000;

/// The products of the volume constants that the packed store's indexing
/// proofs need, spelled out because the verifier does not evaluate constant
/// products on its own: `ROW_WORDS == MAX_J * WORDS_K` and
/// `TOTAL_WORDS == MAX_I * MAX_J * WORDS_K`, as `lemma_volume_products`
/// states. Changing the volume means updating these two values alongside
/// (and nothing else: every indexing proof goes through that lemma).
pub const ROW_WORDS: u64 = 51_000;
pub const TOTAL_WORDS: u64 = 51_000_000;

pub proof fn lemma_volume_products()
    ensures
        MAX_J * WORDS_K == ROW_WORDS,
        MAX_I * (MAX_J * WORDS_K) == TOTAL_WORDS,
{
    assert(MAX_J * WORDS_K == ROW_WORDS && MAX_I * (MAX_J * WORDS_K) == TOTAL_WORDS)
        by (nonlinear_arith)
        requires
            MAX_I == 1000,
            MAX_J == 1000,
            WORDS_K == 51,
            ROW_WORDS == 51_000,
            TOTAL_WORDS == 51_000_000,
    ;
}

} // verus!
