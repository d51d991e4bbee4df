//! Complex amplitudes.
//!
//! An amplitude is a `complex::c64`. Its arithmetic is that crate's; the
//! functions here are the only places where it is called, and the spec
//! functions without a body name what it returns.

use vstd::prelude::*;
use complex::c64;

verus! {

/// `complex::c64`, a pair of 64-bit floating-point parts. Nothing of its
/// inside is visible to proofs.
#[verifier::external_type_specification]
#[verifier::external_body]
pub struct ExC64(complex::c64);

/// The product of two amplitudes, as `c64`'s `Mul` computes it.
pub uninterp spec fn complex_product(a: c64, b: c64) -> c64;

/// The sum of two amplitudes, as `c64`'s `Add` computes it.
pub uninterp spec fn complex_sum(a: c64, b: c64) -> c64;

/// The amplitude with the given whole real and imaginary parts, as
/// `complex::Complex::new` builds it.
pub uninterp spec fn complex_of_parts(re: i32, im: i32) -> c64;

/// The entries of a 2×2 matrix, row by row.
pub type Matrix = (c64, c64, c64, c64);

/// Calls `<c64 as Mul>::mul`. Claimed: the result is a function of the two
/// factors alone.
#[verifier::external_body]
pub(crate) fn times(a: c64, b: c64) -> (r: c64)
    ensures
        r == complex_product(a, b),
{
    a * b
}

/// Calls `<c64 as Add>::add`. Claimed: the result is a function of the two
/// summands alone.
#[verifier::external_body]
pub(crate) fn plus(a: c64, b: c64) -> (r: c64)
    ensures
        r == complex_sum(a, b),
{
    a + b
}

/// Calls `<c64 as complex::Complex>::new` on the two integers, each converted
/// to a float without loss. Claimed: the result is a function of the two
/// integers alone.
#[verifier::external_body]
pub(crate) fn of_parts(re: i32, im: i32) -> (r: c64)
    ensures
        r == complex_of_parts(re, im),
{
    complex::Complex::new(re.into(), im.into())
}

/// The amplitude 0.
pub open spec fn zero() -> c64 {
    complex_of_parts(0, 0)
}

/// The amplitude 1.
pub open spec fn one() -> c64 {
    complex_of_parts(1, 0)
}

/// One row of a matrix applied to a pair of amplitudes: `m0·a0 + m1·a1`.
pub open spec fn row_applied(m0: c64, m1: c64, a0: c64, a1: c64) -> c64 {
    complex_sum(complex_product(m0, a0), complex_product(m1, a1))
}

/// Applies one row of a matrix to a pair of amplitudes.
pub fn apply_row(m0: c64, m1: c64, a0: c64, a1: c64) -> (r: c64)
    ensures
        r == row_applied(m0, m1, a0, a1),
{
    plus(times(m0, a0), times(m1, a1))
}

} // verus!
