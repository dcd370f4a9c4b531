//! Random choices: ball placement and line colours, drawn through `rand`.
use vstd::prelude::*;

verus! {

/// Mask of the alpha byte of a packed colour.
pub const ALPHA: u32 = 0xFF00_0000;

/// Relies on `rand::Rng::gen_range` over `rand::thread_rng()`: a value drawn
/// from the half-open range `lo..hi`, which panics when the range is empty.
#[verifier::external_body]
pub(crate) fn random_in(lo: i64, hi: i64) -> (r: i64)
    requires
        lo < hi,
    ensures
        lo <= r < hi,
{
    rand::Rng::gen_range(&mut rand::thread_rng(), lo..hi)
}

/// Relies on `rand::random::<u32>`: any 32-bit value, drawn at random.
#[verifier::external_body]
pub(crate) fn random_u32() -> (r: u32) {
    rand::random::<u32>()
}

/// `c` with its alpha byte set: fully opaque, colour channels kept.
pub fn opaque(c: u32) -> (r: u32)
    ensures
        r == c | ALPHA,
        r & ALPHA == ALPHA,
        r & 0x00FF_FFFF == c & 0x00FF_FFFF,
{
    let r = c | ALPHA;
    assert(r & ALPHA == ALPHA && r & 0x00FF_FFFF == c & 0x00FF_FFFF) by (bit_vector)
        requires
            r == c | 0xFF00_0000u32,
            ALPHA == 0xFF00_0000u32,
    ;
    r
}

/// A random opaque colour.
pub fn random_color() -> (r: u32)
    ensures
        r & ALPHA == ALPHA,
{
    opaque(random_u32())
}

} // verus!
