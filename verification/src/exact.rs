//! How near the rounded results of arithmetic come to the exact ones, stated in
//! whole numbers: a value is counted in units of `2^-1074`, of which every finite
//! number is a multiple.

use vstd::arithmetic::div_mod::*;
use vstd::arithmetic::mul::*;
use vstd::arithmetic::power2::*;
use vstd::prelude::*;

use crate::float;
use crate::float::{nearest, round_units, unit_exponent, units, Real, MANT_ONE};
use crate::ops;
use crate::time::TimeUs;

verus! {

/// How many of the finest units make one.
pub open spec fn one() -> nat {
    pow2(1074)
}

/// The magnitude of a finite number in the finest units.
pub open spec fn fine(x: Real) -> nat {
    x.mant() * pow2((x.unit() + 1074) as nat)
}

/// Whether a number is finite and above zero.
pub open spec fn above_zero(x: Real) -> bool {
    x.is_finite() && !x.neg() && !x.is_zero()
}

/// The distance of two whole numbers.
pub open spec fn apart(a: int, b: int) -> int {
    if a < b {
        b - a
    } else {
        a - b
    }
}

/// A number above zero has finest units.
pub proof fn lemma_fine_positive(x: Real)
    requires
        above_zero(x),
    ensures
        fine(x) > 0,
{
    float::lemma_parts(x);
    lemma_pow2_pos((x.unit() + 1074) as nat);
    lemma_mul_strictly_positive(x.mant() as int, pow2((x.unit() + 1074) as nat) as int);
}

/// A count of units is rounded to within half a unit.
pub proof fn lemma_round_units_near(n: nat, sticky: bool, s: nat)
    requires
        s > 0,
    ensures
        ({
            let d = 2 * (round_units(n, sticky, s) * pow2(s) - n);
            -pow2(s) <= d <= pow2(s) && (sticky ==> d >= 2 - pow2(s))
        }),
{
    let p = pow2(s) as int;
    lemma_pow2_pos(s);
    lemma_pow2_unfold(s);
    lemma_fundamental_div_mod(n as int, p);
    lemma_mod_pos_bound(n as int, p);
    let m = n as int / p;
    let r = n as int % p;
    assert((m + 1) * p == m * p + p) by (nonlinear_arith);
    assert(p * m == m * p) by (nonlinear_arith);
    assert(n / pow2(s) == m && n % pow2(s) == r);
}

/// A mantissa in units that are not the finest ones is full.
pub proof fn lemma_units_full(n: nat, sticky: bool, k: int)
    requires
        n > 0,
        unit_exponent(n, k, 53, -1074) > -1074,
    ensures
        units(n, sticky, k, unit_exponent(n, k, 53, -1074)) >= pow2(52),
{
    let q = unit_exponent(n, k, 53, -1074);
    let l = float::bitlen(n);
    float::lemma_bitlen_bounds(n);
    if q <= k {
        let d: nat = (k - q) as nat;
        lemma_pow2_pos(d);
        lemma_pow2_adds((l - 1) as nat, d);
        lemma_mul_inequality(pow2((l - 1) as nat) as int, n as int, pow2(d) as int);
    } else {
        let d: nat = (q - k) as nat;
        lemma_pow2_pos(d);
        lemma_pow2_adds(52, d);
        lemma_div_is_ordered(pow2((l - 1) as nat) as int, n as int, pow2(d) as int);
        lemma_div_by_multiple(pow2(52) as int, pow2(d) as int);
    }
}

/// The value of a rounded number is its mantissa in its unit.
pub proof fn lemma_nearest_value(neg: bool, n: nat, sticky: bool, k: int)
    requires
        n == 0 || unit_exponent(n, k, 53, -1074) <= 900,
    ensures
        ({
            let q = unit_exponent(n, k, 53, -1074);
            let m = units(n, sticky, k, q);
            let x = nearest(neg, n, sticky, k);
            &&& x.is_finite()
            &&& x.neg() == neg
            &&& q >= -1074
            &&& m <= pow2(53)
            &&& n > 0 || !sticky ==> fine(x) == m * pow2((q + 1074) as nat)
            &&& n > 0 && q > -1074 ==> m >= pow2(52)
        }),
{
    let q = unit_exponent(n, k, 53, -1074);
    let m = units(n, sticky, k, q);
    let x = nearest(neg, n, sticky, k);
    float::lemma_nearest_is_number(neg, n, sticky, k);
    float::lemma_units_top(n, sticky, k, q, 53);
    lemma2_to64();
    lemma2_to64_rest();
    if n == 0 {
        if q <= k {
            lemma_mul_basics(pow2((k - q) as nat) as int);
        } else {
            let p = pow2((q - k) as nat);
            lemma_pow2_pos((q - k) as nat);
            lemma_div_of0(p as int);
            lemma_small_mod(0, p);
        }
        assert(m == 0 || sticky);
        assert(m == 0) by {
            if q > k {
                assert(2 * 0 < pow2((q - k) as nat)) by {
                    lemma_pow2_pos((q - k) as nat);
                }
            }
        }
        assert(x.magnitude() == 0);
        assert(x.mant() == 0);
        lemma_mul_basics(pow2((x.unit() + 1074) as nat) as int);
        lemma_mul_basics(pow2((q + 1074) as nat) as int);
    } else {
        if q > -1074 {
            lemma_units_full(n, sticky, k);
        }
        let b = (q + 1074) * MANT_ONE + m;
        assert(0 <= (q + 1074) * MANT_ONE <= 1974 * MANT_ONE) by (nonlinear_arith)
            requires
                -1074 <= q <= 900,
        ;
        if m == 0 {
            lemma_mul_basics(pow2((x.unit() + 1074) as nat) as int);
            lemma_mul_basics(pow2((q + 1074) as nat) as int);
        } else {
            assert(x.magnitude() == b);
            let one = MANT_ONE as int;
            if m < MANT_ONE {
                assert(q == -1074);
                assert(b == m);
                lemma_small_mod(m, MANT_ONE as nat);
                assert(m as int / one == 0) by {
                    lemma_basic_div(m as int, one);
                }
            } else if m < 2 * MANT_ONE {
                assert(b == (q + 1075) * one + (m - one)) by (nonlinear_arith)
                    requires
                        b == (q + 1074) * one + m,
                ;
                lemma_fundamental_div_mod_converse(b, one, q + 1075, m - one);
                assert(x.mant() == m && x.unit() == q);
            } else {
                assert(b == (q + 1076) * one + 0) by (nonlinear_arith)
                    requires
                        b == (q + 1074) * one + m,
                        m == 2 * one,
                ;
                lemma_fundamental_div_mod_converse(b, one, q + 1076, 0);
                assert(x.mant() == MANT_ONE && x.unit() == q + 1);
                lemma_pow2_unfold((q + 1 + 1074) as nat);
                assert(MANT_ONE * (2 * pow2((q + 1074) as nat)) == m * pow2((q + 1074) as nat))
                    by (nonlinear_arith)
                    requires
                        m == 2 * MANT_ONE,
                ;
            }
        }
    }
}

/// A whole number of few digits is held exactly.
pub proof fn lemma_whole_is_exact(t: int)
    requires
        0 <= t < pow2(53),
    ensures
        Real::of(t).is_finite(),
        !Real::of(t).neg(),
        fine(Real::of(t)) == t * one(),
        t > 0 ==> Real::of(t).mant() >= MANT_ONE && Real::of(t).unit() <= 0,
{
    let n = t as nat;
    let x = Real::of(t);
    let q = unit_exponent(n, 0, 53, -1074);
    float::lemma_bitlen_below(n, 53);
    lemma_nearest_value(false, n, false, 0);
    lemma2_to64();
    lemma2_to64_rest();
    float::lemma_parts(x);
    if n > 0 {
        float::lemma_bitlen_bounds(n);
        let l = float::bitlen(n);
        let d: nat = (0 - q) as nat;
        assert(q == l - 53);
        lemma_pow2_adds(d, (q + 1074) as nat);
        lemma_mul_is_associative(t, pow2(d) as int, pow2((q + 1074) as nat) as int);
        let m = units(n, false, 0, q);
        // the mantissa is full, so the unit is the one that was taken, or the next
        assert(fine(x) == m * pow2((q + 1074) as nat));
        if x.unit() > 0 || x.unit() == -1074 || x.mant() < MANT_ONE {
            assert(m == n * pow2(d));
            lemma_pow2_adds(l, d);
            lemma_pow2_pos(d);
            assert(m < pow2(53)) by (nonlinear_arith)
                requires
                    m == n * pow2(d),
                    n < pow2(l),
                    pow2(l) * pow2(d) == pow2(53),
                    pow2(d) > 0,
            ;
            let b = (q + 1074) * MANT_ONE + m;
            let w = MANT_ONE as int;
            assert(b == (q + 1075) * w + (m - w)) by (nonlinear_arith)
                requires
                    b == (q + 1074) * w + m,
            ;
            assert(0 <= (q + 1074) * w <= 1074 * w) by (nonlinear_arith)
                requires
                    -1074 <= q <= 0,
                    w > 0,
            ;
            float::lemma_nearest_is_number(false, n, false, 0);
            lemma_fundamental_div_mod_converse(b, w, q + 1075, m - w);
        }
    } else {
        lemma_mul_basics(one() as int);
        let m = units(0, false, 0, q);
        assert(m == 0) by {
            if q <= 0 {
                lemma_mul_basics(pow2((0 - q) as nat) as int);
            }
        }
        lemma_mul_basics(pow2((q + 1074) as nat) as int);
    }
}

/// Rounding to a whole number moves a value by half of one at the most.
pub proof fn lemma_to_nearest(x: Real)
    requires
        x.is_finite(),
        !x.neg(),
        fine(x) <= pow2(54) * one(),
    ensures
        x.to_nearest_int() >= 0,
        2 * apart(x.to_nearest_int() * one(), fine(x) as int) <= one(),
{
    let r = x.rounded_magnitude();
    float::lemma_parts(x);
    lemma_pow2_pos(1074);
    lemma2_to64();
    lemma2_to64_rest();
    if x.unit() >= 0 {
        lemma_pow2_adds(x.unit() as nat, 1074);
        lemma_mul_is_associative(x.mant() as int, pow2(x.unit() as nat) as int, one() as int);
        assert(r * one() == fine(x));
    } else {
        let u: nat = (-x.unit()) as nat;
        let p = pow2(u) as int;
        let w = pow2((1074 - u) as nat) as int;
        lemma_pow2_pos(u);
        lemma_pow2_pos((1074 - u) as nat);
        lemma_pow2_unfold(u + 1);
        lemma_pow2_adds(u, (1074 - u) as nat);
        let a = 2 * x.mant() + p;
        assert(pow2((1 - x.unit()) as nat) == 2 * p);
        lemma_fundamental_div_mod(a, 2 * p);
        lemma_mod_pos_bound(a, 2 * p);
        let z = a % (2 * p);
        assert(r == a / (2 * p));
        assert(2 * (r * p) == 2 * x.mant() + p - z) by (nonlinear_arith)
            requires
                a == (2 * p) * (r as int) + z,
                a == 2 * x.mant() + p,
        ;
        assert(r * (p * w) == (r * p) * w) by (nonlinear_arith);
        assert(fine(x) == x.mant() * w);
        let e = 2 * (r * p) - 2 * x.mant();
        assert(-p <= e <= p);
        assert(2 * ((r * p) * w) - 2 * (x.mant() * w) == e * w) by (nonlinear_arith)
            requires
                e == 2 * (r * p) - 2 * x.mant(),
        ;
        assert(-(p * w) <= e * w <= p * w) by (nonlinear_arith)
            requires
                -p <= e <= p,
                w > 0,
        ;
    }
    assert(r <= pow2(54) + 1) by (nonlinear_arith)
        requires
            2 * (r * one()) <= 2 * fine(x) + one(),
            fine(x) <= pow2(54) * one(),
            one() > 0,
    ;
}

/// The whole part of a value is less than one below it.
pub proof fn lemma_to_whole(x: Real)
    requires
        x.is_finite(),
        !x.neg(),
        fine(x) <= pow2(54) * one(),
    ensures
        x.to_whole_int() >= 0,
        x.to_whole_int() * one() <= fine(x) < (x.to_whole_int() + 1) * one(),
{
    let r = x.truncated_magnitude();
    float::lemma_parts(x);
    lemma_pow2_pos(1074);
    lemma2_to64();
    lemma2_to64_rest();
    let o = one() as int;
    if x.unit() >= 0 {
        lemma_pow2_adds(x.unit() as nat, 1074);
        lemma_mul_is_associative(x.mant() as int, pow2(x.unit() as nat) as int, one() as int);
        assert(r * one() == fine(x));
    } else {
        let u: nat = (-x.unit()) as nat;
        let p = pow2(u) as int;
        let w = pow2((1074 - u) as nat) as int;
        lemma_pow2_pos(u);
        lemma_pow2_pos((1074 - u) as nat);
        lemma_pow2_adds(u, (1074 - u) as nat);
        let m = x.mant() as int;
        lemma_fundamental_div_mod(m, p);
        lemma_mod_pos_bound(m, p);
        assert(fine(x) == m * w);
        assert((r * p) * w <= m * w < ((r + 1) * p) * w) by (nonlinear_arith)
            requires
                m == p * (r as int) + m % p,
                0 <= m % p < p,
                w > 0,
        ;
        assert((r * p) * w == r * (p * w) && ((r + 1) * p) * w == (r + 1) * (p * w))
            by (nonlinear_arith);
    }
    assert((r + 1) * o == r * o + o) by (nonlinear_arith);
    assert(r <= pow2(54)) by (nonlinear_arith)
        requires
            r * one() <= fine(x),
            fine(x) <= pow2(54) * one(),
            one() > 0,
    ;
}

/// The digits of a number in units below a power of two are limited.
proof fn lemma_short(n: nat, k: int, j: int, w: nat)
    requires
        n > 0,
        k + j >= 0,
        n * pow2((k + j) as nat) < pow2((w + j) as nat),
        w + j >= 0,
    ensures
        float::bitlen(n) + k <= w,
{
    let l = float::bitlen(n);
    float::lemma_bitlen_bounds(n);
    if l + k > w {
        let a: nat = (l - 1) as nat;
        let b: nat = (k + j) as nat;
        lemma_pow2_adds(a, b);
        lemma_pow2_pos(b);
        lemma_mul_inequality(pow2(a) as int, n as int, pow2(b) as int);
        if (w + j) < a + b {
            lemma_pow2_strictly_increases((w + j) as nat, a + b);
        }
    }
}

/// A whole number of few digits times a number, rounded once: off by half a unit
/// at the most, which is no more than one where the product has few digits too.
pub proof fn lemma_product_near(t: int, x: Real)
    requires
        0 <= t < pow2(53),
        x.is_finite(),
        !x.neg(),
        t * fine(x) < pow2(53) * one(),
    ensures
        ({
            let y = Real::of(t).times(x);
            &&& y.is_finite()
            &&& !y.neg()
            &&& 2 * apart(fine(y) as int, t * fine(x)) <= one()
        }),
{
    let a = Real::of(t);
    lemma_whole_is_exact(t);
    float::lemma_parts(x);
    float::lemma_parts(a);
    let n = a.mant() * x.mant();
    let k = a.unit() + x.unit();
    let y = a.times(x);
    let q = unit_exponent(n, k, 53, -1074);
    let g = (k + 2148) as nat;
    let c: nat = (a.unit() + 1074) as nat;
    let d: nat = (x.unit() + 1074) as nat;
    lemma_pow2_adds(c, d);
    lemma_pow2_adds(1074, 1074);
    lemma_pow2_pos(1074);
    let o = one() as int;
    assert(n * pow2(g) == fine(a) * fine(x)) by (nonlinear_arith)
        requires
            n == a.mant() * x.mant(),
            fine(a) == a.mant() * pow2(c),
            fine(x) == x.mant() * pow2(d),
            pow2(g) == pow2(c) * pow2(d),
    ;
    assert(fine(a) * fine(x) == (t * fine(x)) * o) by (nonlinear_arith)
        requires
            fine(a) == t * o,
    ;
    if n == 0 {
        lemma_nearest_value(false, n, false, k);
        lemma_mul_basics(pow2(g) as int);
        assert(t * fine(x) == 0) by (nonlinear_arith)
            requires
                (t * fine(x)) * o == 0,
                o > 0,
        ;
        let m = units(0, false, k, q);
        assert(m == 0) by {
            lemma_zero_units(k, q);
        }
        lemma_mul_basics(pow2((q + 1074) as nat) as int);
    } else {
        lemma_pow2_adds(53, 2148);
        assert(n * pow2(g) < pow2((53 + 2148) as nat)) by (nonlinear_arith)
            requires
                n * pow2(g) == (t * fine(x)) * o,
                t * fine(x) < pow2(53) * o,
                pow2((53 + 2148) as nat) == pow2(53) * (o * o),
                o > 0,
        ;
        lemma_short(n, k, 2148, 53);
        assert(q <= 0);
        lemma_nearest_value(false, n, false, k);
        let m = units(n, false, k, q);
        let f: nat = (q + 1074) as nat;
        lemma_pow2_adds(f, 1074);
        assert(fine(y) == m * pow2(f));
        assert(fine(y) * o == m * pow2((q + 2148) as nat)) by (nonlinear_arith)
            requires
                fine(y) == m * pow2(f),
                pow2((q + 2148) as nat) == pow2(f) * o,
        ;
        let big = (q + 2148) as nat;
        if q <= k {
            let e: nat = (k - q) as nat;
            lemma_pow2_adds(e, big);
            assert(m * pow2(big) == n * pow2(g)) by (nonlinear_arith)
                requires
                    m == n * pow2(e),
                    pow2(g) == pow2(e) * pow2(big),
            ;
            assert(fine(y) == t * fine(x)) by (nonlinear_arith)
                requires
                    fine(y) * o == (t * fine(x)) * o,
                    o > 0,
            ;
        } else {
            let e: nat = (q - k) as nat;
            lemma_round_units_near(n, false, e);
            lemma_pow2_adds(e, g);
            lemma_pow2_pos(g);
            let p = pow2(e) as int;
            let w = pow2(g) as int;
            let z = 2 * (m * p - n);
            assert(m * pow2(big) == (m * p) * w) by (nonlinear_arith)
                requires
                    pow2(big) == p * w,
            ;
            assert(2 * (fine(y) * o) - 2 * ((t * fine(x)) * o) == z * w) by (nonlinear_arith)
                requires
                    fine(y) * o == (m * p) * w,
                    (t * fine(x)) * o == n * w,
                    z == 2 * (m * p - n),
            ;
            assert(-(p * w) <= z * w <= p * w) by (nonlinear_arith)
                requires
                    -p <= z <= p,
                    w > 0,
            ;
            if q < 0 {
                lemma_pow2_strictly_increases(big, 2148);
            }
            assert(p * w <= o * o);
            let v = fine(y) as int - t * fine(x);
            assert((2 * v) * o == z * w) by (nonlinear_arith)
                requires
                    2 * (fine(y) * o) - 2 * ((t * fine(x)) * o) == z * w,
                    v == fine(y) as int - t * fine(x),
            ;
            assert(-o <= 2 * v <= o) by (nonlinear_arith)
                requires
                    -(o * o) <= (2 * v) * o <= o * o,
                    o > 0,
            ;
        }
    }
}

proof fn lemma_zero_units(k: int, q: int)
    ensures
        units(0, false, k, q) == 0,
{
    if q <= k {
        lemma_mul_basics(pow2((k - q) as nat) as int);
    } else {
        let p = pow2((q - k) as nat);
        lemma_pow2_pos((q - k) as nat);
        lemma_div_of0(p as int);
        lemma_small_mod(0, p);
    }
}

/// The time at a speed: a number of microseconds times the speed, to within one
/// microsecond. In whole numbers, with the speed counted in its finest units.
pub proof fn law_scaled_time(t: TimeUs, speed: Real)
    requires
        0 <= t < pow2(53),
        speed.is_finite(),
        !speed.neg(),
        t * fine(speed) < pow2(53) * one(),
    ensures
        0 <= ops::scaled_time(t, speed) <= pow2(53) + 1,
        apart(ops::scaled_time(t, speed) * one(), t * fine(speed)) <= one(),
{
    let y = Real::of(t as int).times(speed);
    lemma_product_near(t as int, speed);
    lemma_pow2_pos(1074);
    lemma2_to64();
    lemma2_to64_rest();
    let o = one() as int;
    assert(fine(y) <= pow2(54) * one()) by (nonlinear_arith)
        requires
            2 * fine(y) <= 2 * (t * fine(speed)) + o,
            t * fine(speed) < pow2(53) * o,
            pow2(54) == 2 * pow2(53),
            pow2(53) >= 1,
            o == one(),
    ;
    lemma_to_nearest(y);
    let r = y.to_nearest_int();
    assert(0 <= r <= pow2(53) + 1) by (nonlinear_arith)
        requires
            2 * (r * o) <= 2 * fine(y) + o,
            2 * fine(y) <= 2 * (t * fine(speed)) + o,
            t * fine(speed) < pow2(53) * o,
            o > 0,
            r >= 0,
    ;
}

/// A whole number of few digits over a number above zero, rounded once.
pub proof fn lemma_quotient_near(t: int, x: Real, w: nat)
    requires
        0 <= t < pow2(53),
        above_zero(x),
        w <= 53,
        t * one() < pow2(w) * fine(x),
    ensures
        ({
            let y = Real::of(t).over(x);
            &&& y.is_finite()
            &&& !y.neg()
            &&& 2 * apart((fine(y) * fine(x)) as int, t * one() * one()) <= fine(x) * pow2(
                (1021 + w) as nat,
            )
        }),
{
    let a = Real::of(t);
    lemma_whole_is_exact(t);
    float::lemma_parts(x);
    float::lemma_parts(a);
    let b = x.mant();
    let big = a.mant() * pow2(118);
    let n = big / b;
    let sticky = big % b != 0;
    let k = a.unit() - x.unit() - 118;
    let y = a.over(x);
    let q = unit_exponent(n, k, 53, -1074);
    assert(y == nearest(false, n, sticky, k));
    let o = one() as int;
    lemma_pow2_pos(1074);
    lemma_pow2_pos((1021 + w) as nat);
    lemma_fundamental_div_mod(big as int, b as int);
    lemma_mod_pos_bound(big as int, b as int);
    let rem = big as int % (b as int);
    assert(big == b * n + rem);
    if t == 0 {
        assert(a.mant() == 0) by {
            lemma_pow2_pos((a.unit() + 1074) as nat);
            assert(a.mant() == 0) by (nonlinear_arith)
                requires
                    a.mant() * pow2((a.unit() + 1074) as nat) == 0 * o,
                    pow2((a.unit() + 1074) as nat) > 0,
            ;
        }
        lemma_mul_basics(pow2(118) as int);
        lemma_div_of0(b as int);
        lemma_small_mod(0, b);
        assert(n == 0 && !sticky);
        lemma_nearest_value(false, 0, false, k);
        lemma_zero_units(k, q);
        lemma_mul_basics(pow2((q + 1074) as nat) as int);
        lemma_mul_basics(fine(x) as int);
        assert(t * one() * one() == 0) by (nonlinear_arith)
            requires
                t == 0,
        ;
        lemma_mul_nonnegative(fine(x) as int, pow2((1021 + w) as nat) as int);
    } else {
        lemma2_to64();
        lemma2_to64_rest();
        lemma_pow2_adds(64, 54);
        // the quotient has more digits than a mantissa
        assert(n >= pow2(64)) by {
            assert(a.mant() * pow2(118) >= pow2(64) * b + b) by (nonlinear_arith)
                requires
                    a.mant() >= 0x10_0000_0000_0000,
                    b < 0x20_0000_0000_0000,
                    pow2(118) == pow2(64) * pow2(54),
                    pow2(54) == 0x40_0000_0000_0000,
                    pow2(64) == 0x1_0000_0000_0000_0000,
            ;
            assert(n >= pow2(64)) by (nonlinear_arith)
                requires
                    b * n + rem >= pow2(64) * b + b,
                    rem < b,
                    b > 0,
            ;
        }
        float::lemma_bitlen_bounds(n);
        let l = float::bitlen(n);
        if l <= 64 {
            if l < 64 {
                lemma_pow2_strictly_increases(l, 64);
            }
        }
        assert(q > k);
        // the value in fine units
        let au: nat = (a.unit() + 1074) as nat;
        let xu: nat = (x.unit() + 1074) as nat;
        let e: nat = (a.unit() + 2030) as nat;
        lemma_pow2_adds(118, e);
        lemma_pow2_adds(au, 1074);
        assert(t * o * o == big * pow2(e)) by (nonlinear_arith)
            requires
                a.mant() * pow2(au) == t * o,
                big == a.mant() * pow2(118),
                pow2(118) * pow2(e) == pow2(au) * o,
        ;
        // few digits in front
        let g = (k + xu + 1074) as nat;
        assert(g == e);
        lemma_pow2_pos(e);
        lemma_pow2_pos(xu);
        lemma_pow2_adds(w, (xu + 1074) as nat);
        lemma_pow2_adds(xu, 1074);
        assert(n * pow2(e) < pow2((w + (xu + 1074)) as nat)) by {
            assert(t * o * o < (pow2(w) * fine(x)) * o) by (nonlinear_arith)
                requires
                    t * o < pow2(w) * fine(x),
                    o > 0,
            ;
            assert((b * n) * pow2(e) <= big * pow2(e)) by (nonlinear_arith)
                requires
                    b * n <= big,
                    pow2(e) > 0,
            ;
            let h = pow2(xu + 1074) as int;
            assert((b * n) * pow2(e) < (pow2(w) * (b * pow2(xu))) * o);
            assert((pow2(w) * (b * pow2(xu))) * o == b * (pow2(w) * h)) by (nonlinear_arith)
                requires
                    h == pow2(xu) * o,
            ;
            assert(n * pow2(e) < pow2(w) * h) by (nonlinear_arith)
                requires
                    (b * n) * pow2(e) < b * (pow2(w) * h),
                    b > 0,
            ;
        }
        lemma_short(n, k, (xu + 1074) as int, w);
        assert(q <= w - 53);
        lemma_nearest_value(false, n, sticky, k);
        let m = units(n, sticky, k, q);
        let s: nat = (q - k) as nat;
        lemma_round_units_near(n, sticky, s);
        let p = pow2(s) as int;
        let z = 2 * (m * p - n);
        // in units of the divisor
        let z2 = 2 * (m * p * b - big);
        assert(z2 == z * b - 2 * rem) by (nonlinear_arith)
            requires
                z == 2 * (m * p - n),
                z2 == 2 * (m * p * b - big),
                big == b * n + rem,
        ;
        assert(-(p * b) <= z2 <= p * b) by (nonlinear_arith)
            requires
                z2 == z * b - 2 * rem,
                -p <= z <= p,
                sticky ==> z >= 2 - p,
                0 <= rem < b,
                rem > 0 ==> sticky,
                b > 0,
        ;
        let f: nat = (q + 1074) as nat;
        lemma_pow2_adds(f, xu);
        lemma_pow2_adds(s, e);
        assert(f + xu == s + e);
        assert(fine(y) * fine(x) == (m * p * b) * pow2(e)) by (nonlinear_arith)
            requires
                fine(y) == m * pow2(f),
                fine(x) == b * pow2(xu),
                pow2(f) * pow2(xu) == p * pow2(e),
        ;
        let we = pow2(e) as int;
        assert(2 * (fine(y) * fine(x)) - 2 * (t * o * o) == z2 * we) by (nonlinear_arith)
            requires
                fine(y) * fine(x) == (m * p * b) * we,
                t * o * o == big * we,
                z2 == 2 * (m * p * b - big),
        ;
        assert(-((p * b) * we) <= z2 * we <= (p * b) * we) by (nonlinear_arith)
            requires
                -(p * b) <= z2 <= p * b,
                we > 0,
        ;
        assert((p * b) * we == fine(x) * pow2(f)) by (nonlinear_arith)
            requires
                fine(x) == b * pow2(xu),
                pow2(f) * pow2(xu) == p * we,
        ;
        if f < 1021 + w {
            lemma_pow2_strictly_increases(f, (1021 + w) as nat);
        }
        lemma_mul_inequality(pow2(f) as int, pow2((1021 + w) as nat) as int, fine(x) as int);
        lemma_mul_is_commutative(pow2(f) as int, fine(x) as int);
        lemma_mul_is_commutative(pow2((1021 + w) as nat) as int, fine(x) as int);
    }
}

/// The time that material takes at a speed: a number of microseconds divided by
/// the speed, to within one microsecond.
pub proof fn law_divided_time(t: TimeUs, speed: Real)
    requires
        0 <= t < pow2(53),
        above_zero(speed),
        t * one() < pow2(53) * fine(speed),
    ensures
        0 <= ops::divided_time(t, speed) <= pow2(53) + 1,
        apart(ops::divided_time(t, speed) * fine(speed), t * one()) <= fine(speed),
{
    let y = Real::of(t as int).over(speed);
    lemma_quotient_near(t as int, speed, 53);
    lemma_fine_positive(speed);
    lemma_pow2_pos(1074);
    lemma2_to64();
    lemma2_to64_rest();
    let o = one() as int;
    let sp = fine(speed) as int;
    assert(fine(y) <= pow2(54) * one()) by (nonlinear_arith)
        requires
            2 * (fine(y) * sp) <= 2 * (t * o * o) + sp * o,
            t * o < pow2(53) * sp,
            pow2(54) == 2 * pow2(53),
            pow2(53) >= 1,
            o == one(),
            o > 0,
            sp > 0,
    ;
    lemma_to_nearest(y);
    let r = y.to_nearest_int();
    let v = r * sp - t * o;
    assert(-sp <= v <= sp) by (nonlinear_arith)
        requires
            -o <= 2 * (r * o) - 2 * fine(y) <= o,
            -(sp * o) <= 2 * (fine(y) * sp) - 2 * (t * o * o) <= sp * o,
            v == r * sp - t * o,
            o > 0,
            sp > 0,
    ;
    assert(0 <= r <= pow2(53) + 1) by (nonlinear_arith)
        requires
            v <= sp,
            v == r * sp - t * o,
            t * o < pow2(53) * sp,
            sp > 0,
            r >= 0,
    ;
}

/// Whether a time that is not below zero, and what it comes to at a speed, are
/// both below 2^53 microseconds, which is 285 years: times that a number holds
/// exactly.
pub open spec fn within(t: int, speed: Real) -> bool {
    &&& speed.is_finite() && !speed.neg()
    &&& 0 <= t < pow2(53)
    &&& t * fine(speed) < pow2(53) * one()
}

/// Backwards as far as forwards.
pub proof fn lemma_scaled_back(t: TimeUs, speed: Real)
    requires
        within(t as int, speed),
    ensures
        ops::scaled_time((-t) as i64, speed) == -ops::scaled_time(t, speed),
{
    law_scaled_time(t, speed);
    lemma2_to64();
    lemma2_to64_rest();
    let a = Real::of(t as int);
    let b = Real::of(-t as int);
    float::lemma_nearest_is_number(false, t as nat, false, 0);
    float::lemma_nearest_is_number(true, t as nat, false, 0);
    let n = a.mant() * speed.mant();
    let k = a.unit() + speed.unit();
    if t > 0 {
        assert(a.magnitude() == b.magnitude());
        float::lemma_nearest_is_number(false, n, false, k);
        float::lemma_nearest_is_number(true, n, false, k);
        let x = a.times(speed);
        let y = b.times(speed);
        lemma_whole_is_exact(t as int);
        assert(x.magnitude() == y.magnitude());
        assert(!x.neg() && y.neg());
        assert(x.rounded_magnitude() == y.rounded_magnitude());
        assert(x.is_finite()) by {
            lemma_product_near(t as int, speed);
        }
    } else {
        float::lemma_nothing_scaled(speed);
    }
}

/// A power of two has the least mantissa.
pub proof fn lemma_power_parts(x: Real, j: nat)
    requires
        x.is_finite(),
        x.unit() > -1074,
        fine(x) == pow2(j),
    ensures
        x.mant() == MANT_ONE,
        x.unit() == j - 52 - 1074,
{
    float::lemma_parts(x);
    lemma2_to64();
    lemma2_to64_rest();
    let e: nat = (x.unit() + 1074) as nat;
    let p = pow2(e) as int;
    lemma_pow2_pos(e);
    lemma_pow2_adds(52, e);
    lemma_pow2_adds(53, e);
    assert(pow2(52) * p <= fine(x) < pow2(53) * p) by (nonlinear_arith)
        requires
            fine(x) == x.mant() * p,
            pow2(52) <= x.mant() < pow2(53),
            p > 0,
    ;
    if j < 52 + e {
        lemma_pow2_strictly_increases(j, 52 + e);
    } else if j > 52 + e {
        if j > 53 + e {
            lemma_pow2_strictly_increases(53 + e, j);
        }
    }
    assert(j == 52 + e);
    assert(x.mant() == pow2(52)) by (nonlinear_arith)
        requires
            x.mant() * p == pow2(52) * p,
            p > 0,
    ;
}

/// A number divided by a power of two is exact: only its unit changes.
pub proof fn lemma_over_power(x: Real, d: Real)
    requires
        above_zero(x),
        x.unit() > -1074,
        above_zero(d),
        d.mant() == MANT_ONE,
        -1074 < x.unit() - d.unit() - 52 <= 900,
    ensures
        above_zero(x.over(d)),
        x.over(d).unit() > -1074,
        fine(x.over(d)) == x.mant() * pow2((x.unit() - d.unit() - 52 + 1074) as nat),
{
    float::lemma_parts(x);
    float::lemma_parts(d);
    lemma2_to64();
    lemma2_to64_rest();
    let m = x.mant();
    let r = x.unit() - d.unit() - 52;
    let y = x.over(d);
    let n = m * pow2(118);
    lemma_pow2_adds(66, 52);
    lemma_pow2_pos(66);
    assert(n == (m * pow2(66)) * pow2(52)) by (nonlinear_arith)
        requires
            n == m * pow2(118),
            pow2(118) == pow2(66) * pow2(52),
    ;
    lemma_div_by_multiple((m * pow2(66)) as int, pow2(52) as int);
    lemma_mod_multiples_basic((m * pow2(66)) as int, pow2(52) as int);
    assert(y == nearest(false, m * pow2(66), false, r - 66));
    float::lemma_nearest_scale(false, m, r, 66);
    assert(y == nearest(false, m, false, r));
    float::lemma_bitlen_below(m, 53);
    float::lemma_bitlen_bounds(m);
    if float::bitlen(m) < 53 {
        if float::bitlen(m) < 52 {
            lemma_pow2_strictly_increases(float::bitlen(m), 52);
        }
    }
    assert(float::bitlen(m) == 53);
    assert(unit_exponent(m, r, 53, -1074) == r);
    lemma_nearest_value(false, m, false, r);
    lemma_mul_basics(m as int);
    assert(units(m, false, r, r) == m);
    let f: nat = (r + 1074) as nat;
    lemma_pow2_pos(f);
    lemma_mul_strictly_positive(m as int, pow2(f) as int);
    if y.unit() == -1074 {
        float::lemma_parts(y);
        lemma_pow2_unfold(f);
        lemma_pow2_pos((f - 1) as nat);
        assert(pow2((y.unit() + 1074) as nat) == 1);
        assert(m * pow2(f) >= 2 * pow2(52)) by (nonlinear_arith)
            requires
                m >= pow2(52),
                pow2(f) == 2 * pow2((f - 1) as nat),
                pow2((f - 1) as nat) >= 1,
        ;
        lemma_mul_basics(y.mant() as int);
    }
    if y.is_zero() {
        float::lemma_parts(y);
        lemma_mul_basics(pow2((y.unit() + 1074) as nat) as int);
    }
}

/// A number is no smaller in the finest units where it is no smaller as a number.
pub proof fn lemma_fine_order(x: Real, y: Real)
    requires
        x.is_finite(),
        y.is_finite(),
        x.magnitude() <= y.magnitude(),
    ensures
        fine(x) <= fine(y),
{
    float::lemma_value_order(x, y);
    float::lemma_parts(x);
    float::lemma_parts(y);
    let d: nat = (y.unit() - x.unit()) as nat;
    let e: nat = (x.unit() + 1074) as nat;
    lemma_pow2_adds(d, e);
    lemma_pow2_pos(e);
    assert(x.mant() * pow2(e) <= y.mant() * (pow2(d) * pow2(e))) by (nonlinear_arith)
        requires
            x.mant() <= y.mant() * pow2(d),
            pow2(e) > 0,
    ;
}

} // verus!
