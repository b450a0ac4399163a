//! Bit ranges of unsigned integers.
//!
//! The executable functions forward to the `twiddle` crate; their contracts
//! are trusted and state the extracted value arithmetically.

use twiddle::Twiddle;
use vstd::arithmetic::power2::{lemma_pow2_pos, pow2};
use vstd::prelude::*;

verus! {

/// Bits `hi..=lo` of `x`, bit 0 being the least significant, as a number:
/// `x` shifted right by `lo` bits, and of that the lowest `hi - lo + 1` bits.
pub open spec fn field(x: int, hi: nat, lo: nat) -> int
    recommends
        lo <= hi,
{
    (x / pow2(lo) as int) % pow2((hi - lo + 1) as nat) as int
}

/// Whether bit `n` of `x` is set.
pub open spec fn flag(x: int, n: nat) -> bool {
    field(x, n, n) == 1
}

/// A field of a number that is not negative lies below two to the power of
/// its width.
pub proof fn lemma_field_bound(x: int, hi: nat, lo: nat)
    requires
        0 <= x,
        lo <= hi,
    ensures
        0 <= field(x, hi, lo) < pow2((hi - lo + 1) as nat),
{
    lemma_pow2_pos(lo);
    lemma_pow2_pos((hi - lo + 1) as nat);
    let p = pow2(lo) as int;
    let m = pow2((hi - lo + 1) as nat) as int;
    assert(0 <= (x / p) % m < m) by (nonlinear_arith)
        requires
            0 < p,
            0 < m,
    ;
}

/// Trusted: `Twiddle::bits` on `u8` with the range `hi..=lo`. The crate masks
/// the bits of the range and shifts them down to bit 0. It asks for
/// `lo <= hi` and for `hi` below the width of the type.
#[verifier::external_body]
pub(crate) fn bits_u8(x: u8, hi: usize, lo: usize) -> (r: u8)
    requires
        lo <= hi < 8,
    ensures
        r as int == field(x as int, hi as nat, lo as nat),
{
    x.bits(hi..=lo)
}

/// Trusted: `Twiddle::bits` on `u16` with the range `hi..=lo`.
#[verifier::external_body]
pub(crate) fn bits_u16(x: u16, hi: usize, lo: usize) -> (r: u16)
    requires
        lo <= hi < 16,
    ensures
        r as int == field(x as int, hi as nat, lo as nat),
{
    x.bits(hi..=lo)
}

/// Trusted: `Twiddle::bits` on `u32` with the range `hi..=lo`.
#[verifier::external_body]
pub(crate) fn bits_u32(x: u32, hi: usize, lo: usize) -> (r: u32)
    requires
        lo <= hi < 32,
    ensures
        r as int == field(x as int, hi as nat, lo as nat),
{
    x.bits(hi..=lo)
}

/// Trusted: `Twiddle::bits` on `u64` with the range `hi..=lo`.
#[verifier::external_body]
pub(crate) fn bits_u64(x: u64, hi: usize, lo: usize) -> (r: u64)
    requires
        lo <= hi < 64,
    ensures
        r as int == field(x as int, hi as nat, lo as nat),
{
    x.bits(hi..=lo)
}

/// Trusted: `Twiddle::bit` on `u8`. The crate shifts bit `n` down to bit 0
/// and tests it.
#[verifier::external_body]
pub(crate) fn bit_u8(x: u8, n: usize) -> (r: bool)
    requires
        n < 8,
    ensures
        r == flag(x as int, n as nat),
{
    x.bit(n)
}

/// Trusted: `Twiddle::bit` on `u32`.
#[verifier::external_body]
pub(crate) fn bit_u32(x: u32, n: usize) -> (r: bool)
    requires
        n < 32,
    ensures
        r == flag(x as int, n as nat),
{
    x.bit(n)
}

/// Trusted: `Twiddle::bit` on `u64`.
#[verifier::external_body]
pub(crate) fn bit_u64(x: u64, n: usize) -> (r: bool)
    requires
        n < 64,
    ensures
        r == flag(x as int, n as nat),
{
    x.bit(n)
}

} // verus!
