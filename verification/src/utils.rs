//! Activation primitives: the logistic squashing function and linear range
//! remapping, over fixed-point scalars.
//!
//! The logistic function is `1 / (1 + e^(-z))`.  Its exponential is computed
//! in fixed point: the whole part of the exponent by repeated multiplication
//! with `e`, the fractional part by a truncated power series.  Every step
//! rounds toward zero, so the whole computation has an exact mathematical
//! description, given by the spec functions below.

use vstd::prelude::*;
use crate::fixed::{
    Fx, SCALE, tdiv, tdiv_s, lemma_tdiv_bounds, lemma_tdiv_le, lemma_tdiv_ge, lemma_tdiv_lt,
    lemma_tdiv_div_mono, lemma_tdiv_mono, lemma_tdiv_mult_vanish, div_i128,
};

verus! {

/// `e` in millionths, rounded toward zero.
pub const E1: i64 = 2_718_281;

/// One half, in millionths.
pub const HALF: i64 = 500_000;

/// Largest exponent magnitude, in millionths, that the fixed-point
/// exponential accepts without overflowing a machine word.
pub const EXP_ARG_MAX: i64 = 21_000_000;

/// `3^n`.
pub open spec fn pow3(n: nat) -> int
    decreases n,
{
    if n == 0 {
        1
    } else {
        3 * pow3((n - 1) as nat)
    }
}

/// `e^n` in millionths, as the fixed-point repeated product computes it.
pub open spec fn epow(n: nat) -> int
    decreases n,
{
    if n == 0 {
        SCALE as int
    } else {
        tdiv(epow((n - 1) as nat) * (E1 as int), SCALE as int)
    }
}

/// The `k`-th term `f^k / k!` of the power series for `e^f`, in millionths,
/// as the fixed-point recurrence computes it; `f` is in millionths.
pub open spec fn eterm(f: int, k: nat) -> int
    decreases k,
{
    if k == 0 {
        SCALE as int
    } else {
        tdiv(eterm(f, (k - 1) as nat) * f, (k as int) * (SCALE as int))
    }
}

/// The power series for `e^f` truncated after term `k`, in millionths.
pub open spec fn esum(f: int, k: nat) -> int
    decreases k,
{
    if k == 0 {
        SCALE as int
    } else {
        esum(f, (k - 1) as nat) + eterm(f, k)
    }
}

/// `e^t` in millionths for `t >= 0` millionths, as computed: the whole part
/// of `t` by repeated product, the fractional part by twelve series terms.
pub open spec fn exp_spec(t: int) -> int {
    tdiv(epow((t / (SCALE as int)) as nat) * esum(t % (SCALE as int), 12), SCALE as int)
}

/// `1 / (1 + e^(-z))` in millionths, as computed.  Beyond the magnitude the
/// exponential accepts, the result saturates to the nearest representable
/// value below one, or to zero.
pub open spec fn logistic_spec(z: int) -> int {
    if z > EXP_ARG_MAX as int {
        SCALE as int - 1
    } else if z < -(EXP_ARG_MAX as int) {
        0
    } else if z >= 0 {
        tdiv(exp_spec(z) * (SCALE as int), exp_spec(z) + SCALE as int)
    } else {
        tdiv((SCALE as int) * (SCALE as int), SCALE as int + exp_spec(-z))
    }
}

/// Linear remapping of `v` from `[in_min, in_max]` to `[out_min, out_max]`,
/// rounded toward zero; `out_min` when the source interval is degenerate.
pub open spec fn map_range_spec(v: int, in_min: int, in_max: int, out_min: int, out_max: int) -> int {
    if in_min == in_max {
        out_min
    } else {
        tdiv_s((v - in_min) * (out_max - out_min), in_max - in_min) + out_min
    }
}

pub proof fn lemma_pow3_pos(n: nat)
    ensures
        1 <= pow3(n),
    decreases n,
{
    if n > 0 {
        lemma_pow3_pos((n - 1) as nat);
    }
}

pub proof fn lemma_pow3_mono(m: nat, n: nat)
    requires
        m <= n,
    ensures
        pow3(m) <= pow3(n),
    decreases n,
{
    lemma_pow3_pos(m);
    if m < n {
        lemma_pow3_mono(m, (n - 1) as nat);
        lemma_pow3_pos((n - 1) as nat);
    }
}

/// The repeated product for `e^n` stays between one and `3^n`.
pub proof fn lemma_epow_bounds(n: nat)
    ensures
        SCALE as int <= epow(n) <= (SCALE as int) * pow3(n),
    decreases n,
{
    let s = SCALE as int;
    if n == 0 {
        lemma_pow3_pos(n);
        assert(s * 1 == s) by (nonlinear_arith);
    } else {
        lemma_epow_bounds((n - 1) as nat);
        let e = epow((n - 1) as nat);
        assert(e * s <= e * (E1 as int) <= (3 * e) * s) by (nonlinear_arith)
            requires
                0 <= e,
                s == 1_000_000,
                E1 == 2_718_281,
        ;
        lemma_tdiv_ge(e * (E1 as int), s, e);
        lemma_tdiv_le(e * (E1 as int), s, 3 * e);
        assert(3 * e <= s * pow3(n)) by (nonlinear_arith)
            requires
                e <= s * pow3((n - 1) as nat),
                pow3(n) == 3 * pow3((n - 1) as nat),
        ;
    }
}

/// Every series term for a zero fraction after the first is zero.
pub proof fn lemma_eterm_zero(k: nat)
    requires
        k >= 1,
    ensures
        eterm(0, k) == 0,
    decreases k,
{
    let s = SCALE as int;
    if k == 1 {
        assert(eterm(0, 0) * 0 == 0 * (1 * s)) by (nonlinear_arith);
        lemma_tdiv_mult_vanish(0, 1 * s);
    } else {
        lemma_eterm_zero((k - 1) as nat);
        assert(eterm(0, (k - 1) as nat) * 0 == 0 * ((k as int) * s)) by (nonlinear_arith);
        assert((k as int) * s > 0) by (nonlinear_arith)
            requires
                k >= 1,
                s == 1_000_000,
        ;
        lemma_tdiv_mult_vanish(0, (k as int) * s);
    }
}

/// The truncated series for a zero fraction is exactly one.
pub proof fn lemma_esum_zero(k: nat)
    ensures
        esum(0, k) == SCALE as int,
    decreases k,
{
    if k > 0 {
        lemma_esum_zero((k - 1) as nat);
        lemma_eterm_zero(k);
    }
}

/// For a fraction `f` below one, the series terms stay in `[0, 1]`, and the
/// truncated sum stays between one and `1 + 2 f` (so strictly below three).
pub proof fn lemma_series_bounds(f: int, k: nat)
    requires
        0 <= f < SCALE as int,
    ensures
        0 <= eterm(f, k) <= SCALE as int,
        SCALE as int <= esum(f, k),
        k >= 1 ==> esum(f, k) + eterm(f, k) <= SCALE as int + 2 * f,
        esum(f, k) <= 3 * (SCALE as int),
    decreases k,
{
    let s = SCALE as int;
    if k == 0 {
    } else if k == 1 {
        assert(eterm(f, 0) * f == f * (1 * s)) by (nonlinear_arith)
            requires
                eterm(f, 0) == s,
        ;
        lemma_tdiv_mult_vanish(f, 1 * s);
        assert(eterm(f, 1) == f);
    } else {
        lemma_series_bounds(f, (k - 1) as nat);
        let e = eterm(f, (k - 1) as nat);
        let ks = (k as int) * s;
        assert(2 * s <= (k as int) * s) by (nonlinear_arith)
            requires
                2 <= k,
                s == 1_000_000,
        ;
        assert(0 <= e * f <= e * s) by (nonlinear_arith)
            requires
                0 <= e,
                0 <= f < s,
        ;
        // eterm(f, k) <= tdiv(e * s, 2 * s) == e / 2, so twice it is at most e.
        lemma_tdiv_div_mono(e * f, 2 * s, ks);
        lemma_tdiv_mono(e * f, e * s, 2 * s);
        vstd::arithmetic::div_mod::lemma_div_multiples_vanish(e, s);
        assert(e * s == s * e) by (nonlinear_arith);
        vstd::arithmetic::div_mod::lemma_div_denominator(e * s, s, 2);
        assert(s * 2 == 2 * s) by (nonlinear_arith);
        assert(tdiv(e * s, 2 * s) == e / 2);
        vstd::arithmetic::div_mod::lemma_fundamental_div_mod(e, 2);
        vstd::arithmetic::div_mod::lemma_mod_bound(e, 2);
        assert(2 * (e / 2) <= e);
        lemma_tdiv_bounds(e * f, ks);
        assert(eterm(f, k) == tdiv(e * f, ks));
        assert(esum(f, k) == esum(f, (k - 1) as nat) + eterm(f, k));
        assert(0 <= eterm(f, k));
        assert(2 * eterm(f, k) <= e);
    }
}

/// The fixed-point exponential of a nonnegative argument is at least one
/// and at most `3 * 3^n` where `n` is the whole part of the argument.
pub proof fn lemma_exp_spec_bounds(t: int)
    requires
        0 <= t <= EXP_ARG_MAX as int,
    ensures
        SCALE as int <= exp_spec(t),
        exp_spec(t) <= 3 * (SCALE as int) * pow3((t / (SCALE as int)) as nat),
        exp_spec(t) <= 32_000_000_000_000_000,
        t == 0 ==> exp_spec(t) == SCALE as int,
        t / (SCALE as int) <= 21,
{
    let s = SCALE as int;
    let n = (t / s) as nat;
    let f = t % s;
    lemma_tdiv_bounds(t, s);
    assert(tdiv(t, s) == t / s);
    lemma_tdiv_le(t, s, 21);
    vstd::arithmetic::div_mod::lemma_mod_bound(t, s);
    lemma_epow_bounds(n);
    lemma_series_bounds(f, 12);
    let e = epow(n);
    let m = esum(f, 12);
    assert(s * s <= e * m) by (nonlinear_arith)
        requires
            s <= e,
            s <= m,
            0 < s,
    ;
    lemma_tdiv_ge(e * m, s, s);
    assert(e * m <= (3 * e) * s) by (nonlinear_arith)
        requires
            0 <= e,
            m <= 3 * s,
    ;
    assert(0 <= e * m) by (nonlinear_arith)
        requires
            0 <= e,
            0 <= m,
    ;
    lemma_tdiv_le(e * m, s, 3 * e);
    assert(3 * e <= 3 * s * pow3(n)) by (nonlinear_arith)
        requires
            e <= s * pow3(n),
    ;
    lemma_pow3_mono(n, 21);
    assert(pow3(21) == 10460353203) by {
        reveal_with_fuel(pow3, 25);
    }
    assert(3 * s * pow3(n) <= 3 * s * 10460353203) by (nonlinear_arith)
        requires
            pow3(n) <= 10460353203,
            s == 1_000_000,
    ;
    if t == 0 {
        lemma_esum_zero(12);
        assert(epow(0) * esum(0, 12) == s * s);
        lemma_tdiv_mult_vanish(s, s);
    }
}

/// The fixed-point exponential: `e^t` in millionths for `t` millionths.
pub fn exp_units(t: i64) -> (r: i64)
    requires
        0 <= t <= EXP_ARG_MAX,
    ensures
        r as int == exp_spec(t as int),
{
    let ghost s = SCALE as int;
    proof {
        lemma_exp_spec_bounds(t as int);
    }
    let n: u64 = (t as u64) / (SCALE as u64);
    let f: i64 = ((t as u64) % (SCALE as u64)) as i64;
    proof {
        lemma_tdiv_bounds(t as int, s);
        assert(tdiv(t as int, s) == (t as int) / s);
        lemma_tdiv_le(t as int, s, 21);
        vstd::arithmetic::div_mod::lemma_mod_bound(t as int, s);
    }

    // Whole part: repeated fixed-point product with e.
    let mut acc: i64 = SCALE;
    let mut i: u64 = 0;
    while i < n
        invariant
            0 <= i <= n,
            n <= 21,
            acc as int == epow(i as nat),
            SCALE as int <= acc as int <= (SCALE as int) * pow3(i as nat),
        decreases n - i,
    {
        proof {
            let e = epow(i as nat);
            assert(e * (SCALE as int) <= e * (E1 as int) <= (3 * e) * (SCALE as int))
                by (nonlinear_arith)
                requires
                    0 <= e,
                    E1 == 2_718_281,
                    SCALE == 1_000_000,
            ;
            lemma_tdiv_ge(e * (E1 as int), SCALE as int, e);
            lemma_tdiv_le(e * (E1 as int), SCALE as int, 3 * e);
            lemma_pow3_mono((i + 1) as nat, 21);
            lemma_pow3_pos(i as nat);
            assert(pow3(21) == 10460353203) by {
        reveal_with_fuel(pow3, 25);
    }
            assert(3 * e <= (SCALE as int) * pow3((i + 1) as nat)) by (nonlinear_arith)
                requires
                    e <= (SCALE as int) * pow3(i as nat),
                    pow3((i + 1) as nat) == 3 * pow3(i as nat),
            ;
            assert((SCALE as int) * pow3((i + 1) as nat) <= (SCALE as int) * 10460353203)
                by (nonlinear_arith)
                requires
                    pow3((i + 1) as nat) <= 10460353203,
                    SCALE == 1_000_000,
            ;
        }
        let p: i128 = (acc as i128) * (E1 as i128);
        let q = div_i128(p, SCALE as i128);
        acc = q as i64;
        i = i + 1;
        assert(acc as int == epow(i as nat));
    }

    // Fractional part: the power series, truncated after twelve terms.
    let mut term: i64 = SCALE;
    let mut sum: i64 = SCALE;
    let mut k: i64 = 1;
    while k <= 12
        invariant
            1 <= k <= 13,
            0 <= f < SCALE,
            term as int == eterm(f as int, (k - 1) as nat),
            sum as int == esum(f as int, (k - 1) as nat),
            0 <= term <= SCALE,
            SCALE as int <= sum as int <= 3 * (SCALE as int),
        decreases 13 - k,
    {
        proof {
            lemma_series_bounds(f as int, k as nat);
            assert((k as int) * (SCALE as int) >= 1 * (SCALE as int)) by (nonlinear_arith)
                requires
                    k >= 1,
                    SCALE == 1_000_000,
            ;
            assert(0 <= (term as int) * (f as int)) by (nonlinear_arith)
                requires
                    0 <= term,
                    0 <= f,
            ;
            lemma_tdiv_bounds((term as int) * (f as int), (k as int) * (SCALE as int));
            assert((term as int) * (f as int) <= 1_000_000_000_000) by (nonlinear_arith)
                requires
                    0 <= term <= 1_000_000,
                    0 <= f < 1_000_000,
            ;
        }
        let p: i128 = (term as i128) * (f as i128);
        let q = div_i128(p, (k as i128) * (SCALE as i128));
        term = q as i64;
        sum = sum + term;
        k = k + 1;
        assert(term as int == eterm(f as int, (k - 1) as nat));
        assert(sum as int == esum(f as int, (k - 1) as nat));
    }

    // Combine the two parts.
    proof {
        let e = epow(n as nat);
        let m = esum(f as int, 12);
        lemma_pow3_mono(n as nat, 21);
        assert(pow3(21) == 10460353203) by {
            reveal_with_fuel(pow3, 25);
        }
        assert(e <= 10_460_353_203_000_000) by (nonlinear_arith)
            requires
                e <= s * pow3(n as nat),
                pow3(n as nat) <= 10460353203,
                s == 1_000_000,
        ;
        assert(0 <= e * m && s * s <= e * m && e * m <= (3 * e) * s
            && e * m <= 40_000_000_000_000_000_000_000_000) by (nonlinear_arith)
            requires
                s <= e <= 10_460_353_203_000_000,
                s <= m <= 3 * s,
                s == 1_000_000,
        ;
        lemma_tdiv_ge(e * m, s, s);
        lemma_tdiv_le(e * m, s, 3 * e);
    }
    let p: i128 = (acc as i128) * (sum as i128);
    let q = div_i128(p, SCALE as i128);
    q as i64
}

/// The logistic function stays strictly inside the unit interval wherever
/// the exponential's resolution allows, sits at exactly one half at zero,
/// and lies on the half of the interval that the sign of its argument
/// picks.  Far below zero, fixed-point resolution saturates it to zero.
pub proof fn lemma_logistic_spec_bounds(z: int)
    ensures
        0 <= logistic_spec(z) <= SCALE as int - 1,
        z == 0 ==> logistic_spec(z) == HALF as int,
        z >= 0 ==> HALF as int <= logistic_spec(z),
        z <= 0 ==> logistic_spec(z) <= HALF as int,
        z > -12_000_000 ==> 1 <= logistic_spec(z),
{
    let s = SCALE as int;
    if z > EXP_ARG_MAX as int {
        // Saturated to the largest value below one.
    } else if z < -(EXP_ARG_MAX as int) {
        // Saturated to zero.
    } else if z >= 0 {
        lemma_exp_spec_bounds(z);
        let e = exp_spec(z);
        assert(HALF as int * (e + s) <= e * s && e * s < s * (e + s)) by (nonlinear_arith)
            requires
                s <= e,
                s == 1_000_000,
                HALF == 500_000,
        ;
        lemma_tdiv_ge(e * s, e + s, HALF as int);
        lemma_tdiv_lt(e * s, e + s, s);
        if z == 0 {
            assert(e == s);
            assert(e * s == (HALF as int) * (e + s)) by (nonlinear_arith)
                requires
                    e == s,
                    s == 1_000_000,
                    HALF == 500_000,
            ;
            lemma_tdiv_le(e * s, e + s, HALF as int);
        }
    } else {
        lemma_exp_spec_bounds(-z);
        let e = exp_spec(-z);
        assert(0 <= s * s) by (nonlinear_arith);
        assert(s * s <= (HALF as int) * (2 * s)) by (nonlinear_arith)
            requires
                s == 1_000_000,
                HALF == 500_000,
        ;
        lemma_tdiv_div_mono(s * s, 2 * s, s + e);
        lemma_tdiv_le(s * s, 2 * s, HALF as int);
        lemma_tdiv_bounds(s * s, s + e);
        if z > -12_000_000 {
            lemma_pow3_mono(((-z) / s) as nat, 11);
            assert(pow3(11) == 177147) by {
                reveal_with_fuel(pow3, 15);
            }
            assert(3 * s * pow3(((-z) / s) as nat) <= 3 * s * 177147) by (nonlinear_arith)
                requires
                    pow3(((-z) / s) as nat) <= 177147,
                    s == 1_000_000,
            ;
            assert(1 * (s + e) <= s * s) by (nonlinear_arith)
                requires
                    e <= 3 * 1_000_000 * 177147,
                    s == 1_000_000,
            ;
            lemma_tdiv_ge(s * s, s + e, 1);
        }
    }
}

/// One piece of the logistic function's monotonicity: an argument at or
/// below zero never gives more than one at or above zero does.  (Full
/// strict monotonicity does not hold at fixed-point resolution: arguments
/// a few millionths apart can share a result.)
pub proof fn lemma_logistic_spec_across_zero(z1: int, z2: int)
    requires
        z1 <= 0 <= z2,
    ensures
        logistic_spec(z1) <= logistic_spec(z2),
{
    lemma_logistic_spec_bounds(z1);
    lemma_logistic_spec_bounds(z2);
}

/// The logistic function `1 / (1 + e^(-z))`.
///
/// The result is exact for the fixed-point exponential described by
/// `logistic_spec`: it is one half exactly at zero, stays on the half of the
/// interval that the sign of `z` picks, and is strictly between zero and one
/// unless `z` is far below zero, where fixed-point resolution saturates to
/// zero.
pub fn logistic(z: Fx) -> (r: Fx)
    ensures
        r.units as int == logistic_spec(z.units as int),
        0 <= r.units < SCALE,
        z.units == 0 ==> r.units == HALF,
        z.units >= 0 ==> r.units >= HALF,
        z.units <= 0 ==> r.units <= HALF,
        z.units > -12_000_000 ==> r.units >= 1,
{
    proof {
        lemma_logistic_spec_bounds(z.units as int);
    }
    if z.units > EXP_ARG_MAX {
        Fx { units: SCALE - 1 }
    } else if z.units < -EXP_ARG_MAX {
        Fx { units: 0 }
    } else if z.units >= 0 {
        let en = exp_units(z.units);
        proof {
            lemma_exp_spec_bounds(z.units as int);
        }
        let p: i128 = (en as i128) * (SCALE as i128);
        let q = div_i128(p, (en as i128) + (SCALE as i128));
        Fx { units: q as i64 }
    } else {
        let en = exp_units(-z.units);
        proof {
            lemma_exp_spec_bounds(-(z.units as int));
        }
        let p: i128 = (SCALE as i128) * (SCALE as i128);
        let q = div_i128(p, (SCALE as i128) + (en as i128));
        Fx { units: q as i64 }
    }
}

/// Map a value from the input range to the output range, linearly.
///
/// A degenerate input range would mean a division by zero; the function
/// then falls back to `out_min` instead.
pub fn map_range(val: Fx, in_min: Fx, in_max: Fx, out_min: Fx, out_max: Fx) -> (r: Fx)
    requires
        -1_000_000_000_000_000 <= val.units <= 1_000_000_000_000_000,
        -1_000_000_000_000_000 <= in_min.units <= 1_000_000_000_000_000,
        -1_000_000_000_000_000 <= in_max.units <= 1_000_000_000_000_000,
        -1_000_000_000_000_000 <= out_min.units <= 1_000_000_000_000_000,
        -1_000_000_000_000_000 <= out_max.units <= 1_000_000_000_000_000,
        -0x7fff_ffff_ffff_ffff <= map_range_spec(
            val.units as int,
            in_min.units as int,
            in_max.units as int,
            out_min.units as int,
            out_max.units as int,
        ) <= 0x7fff_ffff_ffff_ffff,
    ensures
        r.units as int == map_range_spec(
            val.units as int,
            in_min.units as int,
            in_max.units as int,
            out_min.units as int,
            out_max.units as int,
        ),
        in_min.units == in_max.units ==> r.units == out_min.units,
        val.units == in_min.units ==> r.units == out_min.units,
        in_min.units != in_max.units && val.units == in_max.units ==> r.units == out_max.units,
{
    if in_min.units == in_max.units {
        return out_min;
    }
    let dv: i128 = (val.units as i128) - (in_min.units as i128);
    let dc: i128 = (out_max.units as i128) - (out_min.units as i128);
    proof {
        assert(-4_000_000_000_000_000_000_000_000_000_000 <= (dv as int) * (dc as int)
            <= 4_000_000_000_000_000_000_000_000_000_000) by (nonlinear_arith)
            requires
                -2_000_000_000_000_000 <= dv as int <= 2_000_000_000_000_000,
                -2_000_000_000_000_000 <= dc as int <= 2_000_000_000_000_000,
        ;
    }
    let num: i128 = dv * dc;
    let den: i128 = (in_max.units as i128) - (in_min.units as i128);
    let ghost nm = (val.units as int - in_min.units as int) * (out_max.units as int
        - out_min.units as int);
    let ghost dn = in_max.units as int - in_min.units as int;
    proof {
        let dvg = val.units as int - in_min.units as int;
        let dcg = out_max.units as int - out_min.units as int;
        assert(-4_000_000_000_000_000_000_000_000_000_000 <= nm
            <= 4_000_000_000_000_000_000_000_000_000_000) by (nonlinear_arith)
            requires
                nm == dvg * dcg,
                -2_000_000_000_000_000 <= dvg <= 2_000_000_000_000_000,
                -2_000_000_000_000_000 <= dcg <= 2_000_000_000_000_000,
        ;
        if val.units == in_min.units {
            assert(nm == 0) by (nonlinear_arith)
                requires
                    nm == 0 * (out_max.units as int - out_min.units as int),
            ;
            if dn > 0 {
                lemma_tdiv_mult_vanish(0, dn);
                assert(0 * dn == 0) by (nonlinear_arith);
            } else {
                lemma_tdiv_mult_vanish(0, -dn);
                assert(0 * (-dn) == 0) by (nonlinear_arith);
            }
        }
        if val.units == in_max.units {
            let c = out_max.units as int - out_min.units as int;
            if dn > 0 {
                lemma_tdiv_mult_vanish(c, dn);
                assert(nm == c * dn) by (nonlinear_arith)
                    requires
                        nm == dn * c,
                ;
            } else {
                lemma_tdiv_mult_vanish(c, -dn);
                assert(-nm == c * (-dn)) by (nonlinear_arith)
                    requires
                        nm == dn * c,
                ;
            }
        }
    }
    let q: i128 = if den > 0 {
        div_i128(num, den)
    } else {
        div_i128(-num, -den)
    };
    let out: i128 = q + (out_min.units as i128);
    Fx { units: out as i64 }
}

} // verus!
