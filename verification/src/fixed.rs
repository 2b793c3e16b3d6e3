//! Fixed-point scalars: a value is stored as a whole number of millionths,
//! so that every arithmetic step has an exact, provable result.

use vstd::prelude::*;

verus! {

/// Number of stored units per whole unit of value: one unit is one millionth.
pub const SCALE: i64 = 1_000_000;

/// A fixed-point number holding `units` millionths.
#[derive(Clone, Copy, PartialEq, Eq, Structural, Debug)]
pub struct Fx {
    pub units: i64,
}

impl Fx {
    /// Build a value from a raw count of millionths.
    pub fn from_units(units: i64) -> (r: Fx)
        ensures
            r.units == units,
    {
        Fx { units }
    }

    /// Build a value from a whole number, `n` becomes `n.000000`.
    pub fn from_int(n: i64) -> (r: Fx)
        requires
            -9_000_000_000_000 <= n <= 9_000_000_000_000,
        ensures
            r.units == n * SCALE,
    {
        Fx { units: n * SCALE }
    }
}

/// Quotient rounded toward zero, the rounding that machine division uses.
/// Meaningful for `b > 0`.
pub open spec fn tdiv(a: int, b: int) -> int {
    if a >= 0 {
        a / b
    } else {
        -((-a) / b)
    }
}

/// The product of two fixed-point values, in units: `a * b` millionths
/// of millionths, scaled back down with rounding toward zero.
pub open spec fn fxmul(a: int, b: int) -> int {
    tdiv(a * b, SCALE as int)
}

/// The quotient of two fixed-point values, in units, rounded toward zero.
/// Meaningful for `b > 0`.
pub open spec fn fxdiv(a: int, b: int) -> int {
    tdiv(a * SCALE, b)
}

/// Quotient rounded toward zero for any nonzero divisor.
pub open spec fn tdiv_s(a: int, b: int) -> int {
    if b > 0 {
        tdiv(a, b)
    } else {
        tdiv(-a, -b)
    }
}

pub proof fn lemma_tdiv_bounds(a: int, b: int)
    requires
        0 <= a,
        0 < b,
    ensures
        0 <= tdiv(a, b) <= a,
        b * tdiv(a, b) <= a < b * (tdiv(a, b) + 1),
{
    vstd::arithmetic::div_mod::lemma_fundamental_div_mod(a, b);
    vstd::arithmetic::div_mod::lemma_mod_bound(a, b);
    assert(a == b * (a / b) + a % b);
    assert(0 <= a % b < b);
    assert(0 <= a / b) by (nonlinear_arith)
        requires
            0 <= a,
            0 < b,
            a == b * (a / b) + a % b,
            0 <= a % b < b,
    ;
    assert(a / b <= a) by (nonlinear_arith)
        requires
            0 <= a,
            0 < b,
            0 <= a / b,
            a == b * (a / b) + a % b,
            0 <= a % b < b,
    ;
    assert(b * (a / b) <= a < b * ((a / b) + 1)) by (nonlinear_arith)
        requires
            0 < b,
            a == b * (a / b) + a % b,
            0 <= a % b < b,
    ;
}

/// `tdiv(a, b) <= c` whenever the numerator stays at or under `c * b`.
pub proof fn lemma_tdiv_le(a: int, b: int, c: int)
    requires
        0 <= a,
        0 < b,
        0 <= c,
        a <= c * b,
    ensures
        tdiv(a, b) <= c,
{
    lemma_tdiv_bounds(a, b);
    assert(tdiv(a, b) <= c) by (nonlinear_arith)
        requires
            0 < b,
            0 <= c,
            a <= c * b,
            b * tdiv(a, b) <= a,
            0 <= tdiv(a, b),
    ;
}

/// `tdiv(a, b) >= c` whenever the numerator reaches `c * b`.
pub proof fn lemma_tdiv_ge(a: int, b: int, c: int)
    requires
        0 < b,
        0 <= c,
        c * b <= a,
    ensures
        c <= tdiv(a, b),
{
    assert(0 <= a) by (nonlinear_arith)
        requires
            0 < b,
            0 <= c,
            c * b <= a,
    ;
    lemma_tdiv_bounds(a, b);
    assert(c <= tdiv(a, b)) by (nonlinear_arith)
        requires
            0 < b,
            0 <= c,
            c * b <= a,
            a < b * (tdiv(a, b) + 1),
    ;
}

/// Rounding toward zero never grows the magnitude of the true quotient.
pub proof fn lemma_tdiv_mono(a1: int, a2: int, b: int)
    requires
        0 <= a1 <= a2,
        0 < b,
    ensures
        tdiv(a1, b) <= tdiv(a2, b),
{
    lemma_tdiv_bounds(a1, b);
    lemma_tdiv_bounds(a2, b);
    assert(tdiv(a1, b) <= tdiv(a2, b)) by (nonlinear_arith)
        requires
            0 <= a1 <= a2,
            0 < b,
            b * tdiv(a1, b) <= a1 < b * (tdiv(a1, b) + 1),
            b * tdiv(a2, b) <= a2 < b * (tdiv(a2, b) + 1),
    ;
}

/// A numerator strictly below `c * b` keeps the quotient strictly below `c`.
pub proof fn lemma_tdiv_lt(a: int, b: int, c: int)
    requires
        0 <= a,
        0 < b,
        0 < c,
        a < c * b,
    ensures
        tdiv(a, b) < c,
{
    lemma_tdiv_bounds(a, b);
    assert(tdiv(a, b) < c) by (nonlinear_arith)
        requires
            0 < b,
            0 < c,
            a < c * b,
            b * tdiv(a, b) <= a,
            0 <= tdiv(a, b),
    ;
}

/// A larger divisor never gives a larger quotient.
pub proof fn lemma_tdiv_div_mono(a: int, b1: int, b2: int)
    requires
        0 <= a,
        0 < b1 <= b2,
    ensures
        tdiv(a, b2) <= tdiv(a, b1),
{
    lemma_tdiv_bounds(a, b1);
    lemma_tdiv_bounds(a, b2);
    assert(tdiv(a, b2) <= tdiv(a, b1)) by (nonlinear_arith)
        requires
            0 < b1 <= b2,
            b1 * tdiv(a, b1) <= a < b1 * (tdiv(a, b1) + 1),
            b2 * tdiv(a, b2) <= a < b2 * (tdiv(a, b2) + 1),
            0 <= tdiv(a, b1),
            0 <= tdiv(a, b2),
    ;
}

/// Dividing an exact multiple of `d` by `d` recovers the multiplier,
/// whatever its sign.
pub proof fn lemma_tdiv_mult_vanish(c: int, d: int)
    requires
        0 < d,
    ensures
        tdiv(c * d, d) == c,
{
    if c >= 0 {
        vstd::arithmetic::div_mod::lemma_div_multiples_vanish(c, d);
        assert(c * d == d * c) by (nonlinear_arith);
    } else {
        vstd::arithmetic::div_mod::lemma_div_multiples_vanish(-c, d);
        assert(c * d < 0) by (nonlinear_arith)
            requires
                c < 0,
                0 < d,
        ;
        assert(-(c * d) == d * (-c)) by (nonlinear_arith);
    }
}

/// Signed division rounded toward zero, for a positive divisor.
pub fn div_i128(a: i128, b: i128) -> (r: i128)
    requires
        0 < b,
        -0x7fff_ffff_ffff_ffff_ffff_ffff_ffff_ffff <= a,
    ensures
        r as int == tdiv(a as int, b as int),
{
    if a >= 0 {
        proof {
            lemma_tdiv_bounds(a as int, b as int);
        }
        ((a as u128) / (b as u128)) as i128
    } else {
        proof {
            lemma_tdiv_bounds(-(a as int), b as int);
        }
        let m: u128 = ((-a) as u128) / (b as u128);
        -(m as i128)
    }
}

} // verus!
