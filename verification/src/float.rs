//! Binary64 numbers, computed with over the integers.
//!
//! Speeds, gains, curve values and sizes are IEEE 754 binary64 numbers. A
//! [`Real`] holds the bit pattern of one, and the arithmetic here works on the
//! integers inside it: the exact result is formed first and then rounded once
//! to the nearest representable number, ties to even.

use vstd::arithmetic::div_mod::*;
use vstd::arithmetic::mul::*;
use vstd::arithmetic::power2::*;
use vstd::prelude::*;

verus! {

/// 2^52: the weight of the implicit leading bit of a mantissa.
pub const MANT_ONE: u64 = 0x10_0000_0000_0000;

/// 2^63: the weight of the sign bit.
pub const SIGN_BIT: u64 = 0x8000_0000_0000_0000;

/// The bit pattern of positive infinity.
pub const INF_BITS: u64 = 0x7FF0_0000_0000_0000;

/// The bit pattern of the number that invalid operations give.
pub const NAN_BITS: u64 = 0x7FF8_0000_0000_0000;

/// A binary64 number, by its bit pattern.
#[derive(Clone, Copy, PartialEq, Eq, Structural, Debug)]
pub struct Real {
    pub bits: u64,
}

/// The number of binary digits of `n`; none for zero.
pub open spec fn bitlen(n: nat) -> nat
    decreases n,
{
    if n == 0 {
        0
    } else {
        1 + bitlen(n / 2)
    }
}

/// `n / 2^s` rounded to the nearest whole number, ties to even. The flag
/// `sticky` says that the number to be rounded lies a little above `n`, by
/// less than one.
pub open spec fn round_units(n: nat, sticky: bool, s: nat) -> nat {
    let p = pow2(s);
    let m = n / p;
    let r = n % p;
    if s > 0 && (2 * r > p || (2 * r == p && (sticky || m % 2 == 1))) {
        m + 1
    } else {
        m
    }
}

/// The exponent of the unit in which a number of `prec` binary digits holds
/// `n * 2^k`, no unit being finer than `2^low`.
pub open spec fn unit_exponent(n: nat, k: int, prec: int, low: int) -> int {
    let q = bitlen(n) - prec + k;
    if q < low {
        low
    } else {
        q
    }
}

/// How many units of `2^q` the number `n * 2^k` has (a little more than that
/// where `sticky` is set), to the nearest, ties to even.
pub open spec fn units(n: nat, sticky: bool, k: int, q: int) -> nat {
    if q <= k {
        n * pow2((k - q) as nat)
    } else {
        round_units(n, sticky, (q - k) as nat)
    }
}

/// The bit pattern of `m * 2^q` without its sign, for a mantissa `m` that is
/// full or counts the finest units. Numbers too large become infinity.
pub open spec fn magnitude_bits(m: nat, q: int) -> int {
    let b = (q + 1074) * MANT_ONE + m;
    if m == 0 {
        0
    } else if b >= INF_BITS {
        INF_BITS as int
    } else {
        b
    }
}

/// The binary64 number nearest to `n * 2^k` (a little above that where
/// `sticky` is set), ties to even.
pub open spec fn nearest(neg: bool, n: nat, sticky: bool, k: int) -> Real {
    let q = unit_exponent(n, k, 53, -1074);
    signed_bits(neg, magnitude_bits(units(n, sticky, k, q), q))
}

/// The number with magnitude bits `b` and the given sign.
pub open spec fn signed_bits(neg: bool, b: int) -> Real {
    Real { bits: (b + if neg { SIGN_BIT as int } else { 0 }) as u64 }
}

/// A number lies between the powers of two that its length says.
pub proof fn lemma_bitlen_bounds(n: nat)
    requires
        n > 0,
    ensures
        bitlen(n) >= 1,
        pow2((bitlen(n) - 1) as nat) <= n < pow2(bitlen(n)),
    decreases n,
{
    if n == 1 {
        lemma2_to64();
        assert(bitlen(1) == 1 + bitlen(0)) by {
            reveal_with_fuel(bitlen, 2);
        }
    } else {
        lemma_bitlen_bounds(n / 2);
        lemma_pow2_unfold(bitlen(n));
        lemma_pow2_unfold((bitlen(n) - 1) as nat);
    }
}

/// A number below a power of two has no more digits than the power says.
pub proof fn lemma_bitlen_below(n: nat, e: nat)
    requires
        n < pow2(e),
    ensures
        bitlen(n) <= e,
{
    if n > 0 {
        lemma_bitlen_bounds(n);
        if bitlen(n) > e {
            let l: nat = (bitlen(n) - 1) as nat;
            if l > e {
                lemma_pow2_strictly_increases(e, l);
            }
        }
    }
}

proof fn lemma_bitlen_at_least(n: nat, e: nat)
    requires
        n >= pow2(e),
    ensures
        bitlen(n) >= e + 1,
{
    lemma_pow2_pos(e);
    lemma_bitlen_bounds(n);
    if bitlen(n) < e + 1 {
        if bitlen(n) < e {
            lemma_pow2_strictly_increases(bitlen(n), e);
        }
    }
}

proof fn lemma_bitlen_shift(n: nat, j: nat)
    requires
        n / pow2(j) > 0,
    ensures
        bitlen(n) == bitlen(n / pow2(j)) + j,
    decreases j,
{
    lemma_pow2_pos(j);
    if j == 0 {
        lemma2_to64();
        assert(n / 1 == n);
    } else {
        lemma_pow2_unfold(j);
        let p: nat = pow2((j - 1) as nat);
        lemma_pow2_pos((j - 1) as nat);
        lemma_div_denominator(n as int, 2, p as int);
        assert(2 * p == pow2(j));
        assert((n / 2) / p == n / pow2(j));
        lemma_bitlen_shift(n / 2, (j - 1) as nat);
        assert(n > 0) by {
            if n == 0 {
                lemma_div_of0(pow2(j) as int);
            }
        }
    }
}

/// Rounding looks at the bits below the unit only through whether there are
/// any: they may be dropped and remembered in the flag.
proof fn lemma_round_units_shift(n: nat, sticky: bool, s: nat, j: nat)
    requires
        s >= 1,
    ensures
        round_units(n, sticky, s + j) == round_units(
            n / pow2(j),
            sticky || n % pow2(j) != 0,
            s,
        ),
{
    let pj: int = pow2(j) as int;
    let ps: int = pow2(s) as int;
    lemma_pow2_pos(j);
    lemma_pow2_pos(s);
    lemma_pow2_adds(s, j);
    lemma_pow2_unfold(s);
    let h: int = pow2((s - 1) as nat) as int;
    assert(ps == 2 * h);
    let big: int = pow2(s + j) as int;
    assert(big == ps * pj);
    let t: int = n as int / pj;
    let r0: int = n as int % pj;
    let m: int = t / ps;
    let r: int = t % ps;
    lemma_fundamental_div_mod(n as int, pj);
    lemma_fundamental_div_mod(t, ps);
    lemma_div_denominator(n as int, pj, ps);
    assert(pj * ps == big) by {
        lemma_mul_is_commutative(pj, ps);
    }
    assert(n as int / big == m);
    lemma_fundamental_div_mod(n as int, big);
    assert(n as int % big == r * pj + r0) by {
        assert(n as int == pj * (ps * m + r) + r0);
        lemma_mul_is_distributive_add(pj, ps * m, r);
        lemma_mul_is_associative(pj, ps, m);
        lemma_mul_is_commutative(pj, r);
    }
    lemma_mod_pos_bound(n as int, pj);
    lemma_mod_pos_bound(t, ps);
    let rr: int = r * pj + r0;
    if 2 * r > ps {
        assert(r >= h + 1);
        assert(r * pj >= (h + 1) * pj) by (nonlinear_arith)
            requires
                r >= h + 1,
                pj > 0,
        ;
        assert(2 * rr > ps * pj) by (nonlinear_arith)
            requires
                r * pj >= (h + 1) * pj,
                rr == r * pj + r0,
                r0 >= 0,
                ps == 2 * h,
                pj > 0,
        ;
    } else if 2 * r == ps {
        assert(2 * rr == ps * pj + 2 * r0) by (nonlinear_arith)
            requires
                2 * r == ps,
                rr == r * pj + r0,
        ;
    } else {
        assert(r <= h - 1);
        assert(2 * rr < ps * pj) by (nonlinear_arith)
            requires
                r <= h - 1,
                rr == r * pj + r0,
                r0 < pj,
                ps == 2 * h,
                pj > 0,
        ;
    }
}

/// The low bits of a number that has more than enough digits may be dropped
/// and remembered in the flag without changing what it rounds to.
pub proof fn lemma_nearest_shift(neg: bool, n: nat, sticky: bool, k: int, j: nat)
    requires
        n / pow2(j) >= pow2(54),
    ensures
        nearest(neg, n, sticky, k) == nearest(
            neg,
            n / pow2(j),
            sticky || n % pow2(j) != 0,
            k + j,
        ),
{
    lemma_pow2_pos(54);
    lemma_pow2_pos(j);
    lemma_bitlen_shift(n, j);
    lemma_bitlen_at_least(n / pow2(j), 54);
    let q = unit_exponent(n, k, 53, -1074);
    assert(q - (k + j) >= 1);
    let s: nat = (q - (k + j)) as nat;
    lemma_round_units_shift(n, sticky, s, j);
    assert(q - k == s + j);
}

/// A number of many digits has as many more than what is left of it.
proof fn lemma_bitlen_drop(n: nat, j: nat)
    requires
        n >= pow2(j),
    ensures
        bitlen(n) == j + bitlen(n / pow2(j)),
    decreases j,
{
    if j == 0 {
        lemma2_to64();
    } else {
        let i: nat = (j - 1) as nat;
        lemma_pow2_unfold(j);
        lemma_pow2_pos(i);
        lemma_pow2_pos(j);
        lemma_bitlen_drop(n, i);
        let m: nat = n / pow2(i);
        lemma_div_denominator(n as int, pow2(i) as int, 2);
        assert(n / pow2(j) == m / 2) by {
            lemma_mul_is_commutative(pow2(i) as int, 2);
        }
        assert(m >= 1) by {
            lemma_div_is_ordered(pow2(i) as int, n as int, pow2(i) as int);
            lemma_div_by_self(pow2(i) as int);
        }
        assert(bitlen(m) == 1 + bitlen(m / 2));
    }
}

/// How many binary digits a number has.
fn bit_length(n: u128) -> (len: u32)
    ensures
        len == bitlen(n as nat),
        len <= 128,
{
    let mut x: u128 = n;
    let mut len: u32 = 0;
    proof {
        lemma2_to64();
        lemma2_to64_rest();
        lemma_pow2_adds(64, 64);
        lemma_bitlen_below(n as nat, 128);
    }
    if x >= 0x1_0000_0000_0000_0000 {
        proof {
            lemma_bitlen_drop(x as nat, 64);
        }
        x = x / 0x1_0000_0000_0000_0000;
        len = 64;
    }
    if x >= 0x1_0000_0000 {
        proof {
            lemma_bitlen_drop(x as nat, 32);
        }
        x = x / 0x1_0000_0000;
        len = len + 32;
    }
    if x >= 0x1_0000 {
        proof {
            lemma_bitlen_drop(x as nat, 16);
        }
        x = x / 0x1_0000;
        len = len + 16;
    }
    if x >= 0x100 {
        proof {
            lemma_bitlen_drop(x as nat, 8);
        }
        x = x / 0x100;
        len = len + 8;
    }
    while x > 0
        invariant
            bitlen(n as nat) == len + bitlen(x as nat),
            bitlen(n as nat) <= 128,
        decreases x,
    {
        assert(bitlen(x as nat) == 1 + bitlen((x / 2) as nat));
        x = x / 2;
        len = len + 1;
    }
    len
}

/// `2^s`.
fn power_of_two(s: u32) -> (p: u128)
    requires
        s < 128,
    ensures
        p == pow2(s as nat),
        p > 0,
{
    let mut p: u128 = 1;
    let mut i: u32 = 0;
    proof {
        lemma2_to64();
    }
    while i < s
        invariant
            i <= s,
            s < 128,
            p == pow2(i as nat),
        decreases s - i,
    {
        proof {
            lemma_pow2_unfold((i + 1) as nat);
            lemma_pow2_127();
            if i + 1 < 127 {
                lemma_pow2_strictly_increases((i + 1) as nat, 127);
            }
        }
        p = p * 2;
        i = i + 1;
    }
    proof {
        lemma_pow2_pos(s as nat);
    }
    p
}

proof fn lemma_pow2_127()
    ensures
        pow2(127) == 0x8000_0000_0000_0000_0000_0000_0000_0000,
        pow2(52) == MANT_ONE,
        pow2(53) == 2 * MANT_ONE,
        pow2(54) == 4 * MANT_ONE,
        pow2(64) == 0x1_0000_0000_0000_0000,
{
    lemma2_to64();
    lemma2_to64_rest();
    lemma_pow2_adds(64, 63);
}

/// Builds the number nearest to `n * 2^k`.
fn round_to_real(neg: bool, n: u128, sticky: bool, k: i32) -> (r: Real)
    requires
        -5000 <= k <= 5000,
        n < 0x8000_0000_0000_0000_0000_0000_0000_0000,
    ensures
        r == nearest(neg, n as nat, sticky, k as int),
{
    let len: u32 = bit_length(n);
    let full: i32 = len as i32 - 53 + k;
    let q: i32 = if full < -1074 { -1074 } else { full };
    let ghost qs = unit_exponent(n as nat, k as int, 53, -1074);
    assert(q == qs);
    let mut m: u128;
    if q <= k {
        let d: i32 = k - q;
        proof {
            lemma_pow2_127();
        }
        if n == 0 {
            m = 0;
            proof {
                lemma_mul_basics(pow2((k - q) as nat) as int);
            }
        } else {
            proof {
                lemma_bitlen_bounds(n as nat);
                assert(d <= 53 - len);
                lemma_pow2_adds(len as nat, d as nat);
                lemma_pow2_pos(d as nat);
                assert(n * pow2(d as nat) < pow2(len as nat) * pow2(d as nat))
                    by (nonlinear_arith)
                    requires
                        n < pow2(len as nat),
                        pow2(d as nat) > 0,
                ;
                if len + d < 53 {
                    lemma_pow2_strictly_increases((len + d) as nat, 53);
                }
            }
            m = n * power_of_two(d as u32);
        }
    } else {
        let s: i32 = q - k;
        if s >= 128 {
            m = 0;
            proof {
                lemma_pow2_127();
                lemma_pow2_unfold(128);
                if s > 128 {
                    lemma_pow2_strictly_increases(128, s as nat);
                }
                lemma_basic_div(n as int, pow2(s as nat) as int);
                lemma_small_mod(n as nat, pow2(s as nat));
            }
        } else {
            let p: u128 = power_of_two(s as u32);
            m = n / p;
            let r: u128 = n % p;
            let half: u128 = p / 2;
            proof {
                lemma_pow2_unfold(s as nat);
            }
            if r > half || (r == half && (sticky || m % 2 == 1)) {
                proof {
                    lemma_pow2_127();
                    lemma_div_decreases_any(n as int, p as int);
                }
                m = m + 1;
            }
        }
    }
    assert(m == units(n as nat, sticky, k as int, qs));
    proof {
        assert(m <= 0x8000_0000_0000_0000_0000_0000_0000_0000) by {
            lemma_pow2_127();
            lemma_units_bound(n as nat, sticky, k as int);
        }
    }
    if m == 0 {
        return signed(neg, 0);
    }
    let e: i128 = (q as i128 + 1074) * 0x10_0000_0000_0000i128;
    if m >= 0x8000_0000_0000_0000u128 {
        return signed(neg, INF_BITS);
    }
    let b: i128 = e + m as i128;
    if b >= 0x7FF0_0000_0000_0000i128 {
        signed(neg, INF_BITS)
    } else {
        signed(neg, b as u64)
    }
}

proof fn lemma_div_decreases_any(x: int, d: int)
    requires
        x >= 0,
        d >= 1,
    ensures
        0 <= x / d <= x,
{
    lemma_div_pos_is_pos(x, d);
    lemma_div_nonincreasing(x, d);
}

/// A rounded mantissa never exceeds the number it was taken from by much.
proof fn lemma_units_bound(n: nat, sticky: bool, k: int)
    requires
        n < pow2(127),
    ensures
        units(n, sticky, k, unit_exponent(n, k, 53, -1074)) <= pow2(127),
{
    let q = unit_exponent(n, k, 53, -1074);
    if q <= k {
        if n == 0 {
            lemma_mul_basics(pow2((k - q) as nat) as int);
        } else {
            let d: nat = (k - q) as nat;
            let l: nat = bitlen(n);
            lemma_bitlen_bounds(n);
            lemma_pow2_adds(l, d);
            lemma_pow2_pos(d);
            assert(n * pow2(d) < pow2(l) * pow2(d)) by (nonlinear_arith)
                requires
                    n < pow2(l),
                    pow2(d) > 0,
            ;
            lemma_pow2_strictly_increases(l + d, 127);
        }
    } else {
        lemma_pow2_pos((q - k) as nat);
        lemma_div_decreases_any(n as int, pow2((q - k) as nat) as int);
    }
}

/// The number with the given magnitude bits and sign.
fn signed(neg: bool, b: u64) -> (r: Real)
    requires
        b < SIGN_BIT,
    ensures
        r == signed_bits(neg, b as int),
{
    if neg {
        Real { bits: b + SIGN_BIT }
    } else {
        Real { bits: b }
    }
}

impl Real {
    /// Whether the sign bit is set.
    pub open spec fn neg(self) -> bool {
        self.bits >= SIGN_BIT
    }

    /// The bits without the sign.
    pub open spec fn magnitude(self) -> int {
        if self.neg() {
            self.bits - SIGN_BIT
        } else {
            self.bits as int
        }
    }

    /// Whether the number is neither infinite nor none at all.
    pub open spec fn is_finite(self) -> bool {
        self.magnitude() < INF_BITS
    }

    /// Whether the number is infinite.
    pub open spec fn is_inf(self) -> bool {
        self.magnitude() == INF_BITS
    }

    /// Whether there is no number.
    pub open spec fn is_nan(self) -> bool {
        self.magnitude() > INF_BITS
    }

    /// The whole number of units that the magnitude holds.
    pub open spec fn mant(self) -> nat {
        let f = self.magnitude() % (MANT_ONE as int);
        if self.magnitude() < MANT_ONE {
            f as nat
        } else {
            (f + MANT_ONE) as nat
        }
    }

    /// The exponent of the unit: a finite number is `mant * 2^unit`.
    pub open spec fn unit(self) -> int {
        let e = self.magnitude() / (MANT_ONE as int);
        if e == 0 {
            -1074
        } else {
            e - 1075
        }
    }

    /// Whether the number is zero, of either sign.
    pub open spec fn is_zero(self) -> bool {
        self.magnitude() == 0
    }

    /// An integer that orders the numbers as their values do.
    pub open spec fn key(self) -> int {
        if self.neg() {
            -self.magnitude()
        } else {
            self.magnitude()
        }
    }

    /// The number `n` as written, rounded where it has too many digits.
    pub open spec fn of(n: int) -> Real {
        if n < 0 {
            nearest(true, (-n) as nat, false, 0)
        } else {
            nearest(false, n as nat, false, 0)
        }
    }

    /// No number.
    pub open spec fn nan() -> Real {
        Real { bits: NAN_BITS }
    }

    /// The product.
    pub open spec fn times(self, o: Real) -> Real {
        let s = self.neg() != o.neg();
        if self.is_nan() || o.is_nan() {
            Real::nan()
        } else if self.is_inf() || o.is_inf() {
            if self.is_zero() || o.is_zero() {
                Real::nan()
            } else {
                signed_bits(s, INF_BITS as int)
            }
        } else {
            nearest(s, self.mant() * o.mant(), false, self.unit() + o.unit())
        }
    }

    /// The quotient.
    pub open spec fn over(self, o: Real) -> Real {
        let s = self.neg() != o.neg();
        if self.is_nan() || o.is_nan() {
            Real::nan()
        } else if self.is_inf() {
            if o.is_inf() {
                Real::nan()
            } else {
                signed_bits(s, INF_BITS as int)
            }
        } else if o.is_inf() {
            signed_bits(s, 0)
        } else if o.is_zero() {
            if self.is_zero() {
                Real::nan()
            } else {
                signed_bits(s, INF_BITS as int)
            }
        } else {
            quotient(s, self.mant(), o.mant(), self.unit() - o.unit())
        }
    }

    /// The value in units of `2^k`, where `k` is no more than the own unit.
    pub open spec fn scaled(self, k: int) -> int {
        let v = self.mant() * pow2((self.unit() - k) as nat);
        if self.neg() {
            -v
        } else {
            v as int
        }
    }

    /// The sum.
    pub open spec fn plus(self, o: Real) -> Real {
        if self.is_nan() || o.is_nan() {
            Real::nan()
        } else if self.is_inf() {
            if o.is_inf() && self.neg() != o.neg() {
                Real::nan()
            } else {
                self
            }
        } else if o.is_inf() {
            o
        } else {
            let k = if self.unit() < o.unit() {
                self.unit()
            } else {
                o.unit()
            };
            let sum = self.scaled(k) + o.scaled(k);
            if sum == 0 {
                signed_bits(self.neg() && o.neg(), 0)
            } else if sum < 0 {
                nearest(true, (-sum) as nat, false, k)
            } else {
                nearest(false, sum as nat, false, k)
            }
        }
    }

    /// The number with the other sign.
    pub open spec fn negated(self) -> Real {
        signed_bits(!self.neg(), self.magnitude())
    }

    /// The difference.
    pub open spec fn minus(self, o: Real) -> Real {
        self.plus(o.negated())
    }

    /// The magnitude.
    pub open spec fn magn(self) -> Real {
        signed_bits(false, self.magnitude())
    }

    /// Whether the number is smaller.
    pub open spec fn less(self, o: Real) -> bool {
        !self.is_nan() && !o.is_nan() && self.key() < o.key()
    }

    /// Whether the number is not greater.
    pub open spec fn at_most(self, o: Real) -> bool {
        !self.is_nan() && !o.is_nan() && self.key() <= o.key()
    }

    /// Whether the numbers are equal.
    pub open spec fn same(self, o: Real) -> bool {
        !self.is_nan() && !o.is_nan() && self.key() == o.key()
    }

    /// The greater of two numbers.
    pub open spec fn larger(self, o: Real) -> Real {
        if self.is_nan() {
            o
        } else if o.is_nan() {
            self
        } else if self.key() < o.key() {
            o
        } else {
            self
        }
    }

    /// The lesser of two numbers.
    pub open spec fn smaller(self, o: Real) -> Real {
        if self.is_nan() {
            o
        } else if o.is_nan() {
            self
        } else if o.key() < self.key() {
            o
        } else {
            self
        }
    }

    /// The number moved into a range.
    pub open spec fn within(self, lo: Real, hi: Real) -> Real {
        if self.less(lo) {
            lo
        } else if hi.less(self) {
            hi
        } else {
            self
        }
    }

    /// The whole number nearest to the magnitude, ties away from zero.
    pub open spec fn rounded_magnitude(self) -> nat {
        if self.unit() >= 0 {
            self.mant() * pow2(self.unit() as nat)
        } else {
            ((2 * self.mant() + pow2((-self.unit()) as nat)) / pow2((1 - self.unit()) as nat)) as nat
        }
    }

    /// The whole part of the magnitude.
    pub open spec fn truncated_magnitude(self) -> nat {
        if self.unit() >= 0 {
            self.mant() * pow2(self.unit() as nat)
        } else {
            self.mant() / pow2((-self.unit()) as nat)
        }
    }

    /// The nearest whole number, ties away from zero.
    pub open spec fn rounded(self) -> Real {
        if self.is_finite() {
            nearest(self.neg(), self.rounded_magnitude(), false, 0)
        } else {
            self
        }
    }

    /// The nearest whole number, ties away from zero, within the `i64` range;
    /// zero for what is no number.
    pub open spec fn to_nearest_int(self) -> int {
        if self.is_nan() {
            0
        } else if self.is_inf() {
            saturated(self.neg(), pow2(64))
        } else {
            saturated(self.neg(), self.rounded_magnitude())
        }
    }

    /// The whole part within the `i64` range; zero for what is no number.
    pub open spec fn to_whole_int(self) -> int {
        if self.is_nan() {
            0
        } else if self.is_inf() {
            saturated(self.neg(), pow2(64))
        } else {
            saturated(self.neg(), self.truncated_magnitude())
        }
    }
}

/// The number nearest to `a / b * 2^k`.
pub open spec fn quotient(neg: bool, a: nat, b: nat, k: int) -> Real {
    let n = a * pow2(118);
    nearest(neg, n / b, n % b != 0, k - 118)
}

/// The signed value of a magnitude, held within the `i64` range.
pub open spec fn saturated(neg: bool, m: nat) -> int {
    if neg {
        if m > 0x8000_0000_0000_0000 {
            i64::MIN as int
        } else {
            -(m as int)
        }
    } else {
        if m > 0x7FFF_FFFF_FFFF_FFFF {
            i64::MAX as int
        } else {
            m as int
        }
    }
}

/// The parts of a number.
pub proof fn lemma_parts(x: Real)
    ensures
        0 <= x.magnitude() < SIGN_BIT,
        x.is_finite() ==> x.mant() < 2 * MANT_ONE && -1074 <= x.unit() <= 971,
        x.is_finite() && x.unit() > -1074 ==> x.mant() >= MANT_ONE,
        x.is_zero() <==> (x.is_finite() && x.mant() == 0),
{
}

impl Real {
    /// Tells whether the sign is set.
    pub fn is_negative(self) -> (b: bool)
        ensures
            b == self.neg(),
    {
        self.bits >= SIGN_BIT
    }

    /// The bits without the sign.
    pub fn magnitude_of(self) -> (m: u64)
        ensures
            m == self.magnitude(),
            m < SIGN_BIT,
    {
        if self.bits >= SIGN_BIT {
            self.bits - SIGN_BIT
        } else {
            self.bits
        }
    }

    /// The whole number of units that the magnitude holds.
    pub fn mantissa(self) -> (m: u64)
        requires
            self.is_finite(),
        ensures
            m == self.mant(),
            m < 2 * MANT_ONE,
    {
        let b: u64 = self.magnitude_of();
        if b < MANT_ONE {
            b % MANT_ONE
        } else {
            b % MANT_ONE + MANT_ONE
        }
    }

    /// The exponent of the unit.
    pub fn unit_of(self) -> (u: i32)
        requires
            self.is_finite(),
        ensures
            u == self.unit(),
            -1074 <= u <= 971,
    {
        let e: u64 = self.magnitude_of() / MANT_ONE;
        if e == 0 {
            -1074
        } else {
            e as i32 - 1075
        }
    }

    /// Tells whether the number is finite.
    pub fn finite(self) -> (b: bool)
        ensures
            b == self.is_finite(),
    {
        self.magnitude_of() < INF_BITS
    }

    /// Tells whether the number is infinite.
    pub fn infinite(self) -> (b: bool)
        ensures
            b == self.is_inf(),
    {
        self.magnitude_of() == INF_BITS
    }

    /// Whether this is no number at all.
    pub fn not_a_number(self) -> (b: bool)
        ensures
            b == self.is_nan(),
    {
        self.magnitude_of() > INF_BITS
    }

    /// Tells whether the number is zero.
    pub fn zero(self) -> (b: bool)
        ensures
            b == self.is_zero(),
    {
        self.magnitude_of() == 0
    }

    /// A whole number as a real one.
    pub fn from_int(n: i64) -> (r: Real)
        ensures
            r == Real::of(n as int),
    {
        if n < 0 {
            let m: u128 = (-(n as i128)) as u128;
            round_to_real(true, m, false, 0)
        } else {
            round_to_real(false, n as u128, false, 0)
        }
    }

    /// The product, rounded to the nearest number.
    pub fn mul(self, o: Real) -> (r: Real)
        ensures
            r == self.times(o),
    {
        let s: bool = self.is_negative() != o.is_negative();
        if self.not_a_number() || o.not_a_number() {
            Real { bits: NAN_BITS }
        } else if self.infinite() || o.infinite() {
            if self.zero() || o.zero() {
                Real { bits: NAN_BITS }
            } else {
                signed(s, INF_BITS)
            }
        } else {
            let a: u64 = self.mantissa();
            let b: u64 = o.mantissa();
            proof {
                assert(a * b < 0x40_0000_0000_0000 * 0x40_0000_0000_0000) by (nonlinear_arith)
                    requires
                        0 <= a < 0x20_0000_0000_0000,
                        0 <= b < 0x20_0000_0000_0000,
                ;
                lemma_mul_nonnegative(a as int, b as int);
            }
            let n: u128 = a as u128 * b as u128;
            round_to_real(s, n, false, self.unit_of() + o.unit_of())
        }
    }

    /// The quotient, rounded to the nearest number.
    pub fn div(self, o: Real) -> (r: Real)
        ensures
            r == self.over(o),
    {
        let s: bool = self.is_negative() != o.is_negative();
        if self.not_a_number() || o.not_a_number() {
            return Real { bits: NAN_BITS };
        }
        if self.infinite() {
            if o.infinite() {
                return Real { bits: NAN_BITS };
            }
            return signed(s, INF_BITS);
        }
        if o.infinite() {
            return signed(s, 0);
        }
        if o.zero() {
            if self.zero() {
                return Real { bits: NAN_BITS };
            }
            return signed(s, INF_BITS);
        }
        let b: u64 = o.mantissa();
        let k: i32 = self.unit_of() - o.unit_of();
        let a: u64 = self.mantissa();
        divide(s, a, b, k)
    }

    /// The sum, rounded to the nearest number.
    pub fn add(self, o: Real) -> (r: Real)
        ensures
            r == self.plus(o),
    {
        if self.not_a_number() || o.not_a_number() {
            return Real { bits: NAN_BITS };
        }
        if self.infinite() {
            if o.infinite() && self.is_negative() != o.is_negative() {
                return Real { bits: NAN_BITS };
            }
            return self;
        }
        if o.infinite() {
            return o;
        }
        if self.unit_of() < o.unit_of() {
            add_ordered(o, self)
        } else {
            add_ordered(self, o)
        }
    }

    /// The number with its sign turned.
    pub fn opposite(self) -> (r: Real)
        ensures
            r == self.negated(),
    {
        signed(!self.is_negative(), self.magnitude_of())
    }

    /// The difference, rounded to the nearest number.
    pub fn sub(self, o: Real) -> (r: Real)
        ensures
            r == self.minus(o),
    {
        self.add(o.opposite())
    }

    /// The number without its sign.
    pub fn abs(self) -> (r: Real)
        ensures
            r == self.magn(),
    {
        signed(false, self.magnitude_of())
    }

    fn order_key(self) -> (k: i64)
        ensures
            k == self.key(),
    {
        if self.is_negative() {
            -(self.magnitude_of() as i64)
        } else {
            self.magnitude_of() as i64
        }
    }

    /// Whether this number lies below the other.
    pub fn lt(self, o: Real) -> (b: bool)
        ensures
            b == self.less(o),
    {
        !self.not_a_number() && !o.not_a_number() && self.order_key() < o.order_key()
    }

    /// Whether this number lies below the other or equals it.
    pub fn le(self, o: Real) -> (b: bool)
        ensures
            b == self.at_most(o),
    {
        !self.not_a_number() && !o.not_a_number() && self.order_key() <= o.order_key()
    }

    /// Whether the two numbers have one value.
    pub fn equals(self, o: Real) -> (b: bool)
        ensures
            b == self.same(o),
    {
        !self.not_a_number() && !o.not_a_number() && self.order_key() == o.order_key()
    }

    /// The larger of two numbers; the other one where one is no number.
    pub fn max(self, o: Real) -> (r: Real)
        ensures
            r == self.larger(o),
    {
        if self.not_a_number() {
            o
        } else if o.not_a_number() {
            self
        } else if self.order_key() < o.order_key() {
            o
        } else {
            self
        }
    }

    /// The smaller of two numbers; the other one where one is no number.
    pub fn min(self, o: Real) -> (r: Real)
        ensures
            r == self.smaller(o),
    {
        if self.not_a_number() {
            o
        } else if o.not_a_number() {
            self
        } else if o.order_key() < self.order_key() {
            o
        } else {
            self
        }
    }

    /// The number moved into the range from `lo` to `hi`.
    pub fn clamp(self, lo: Real, hi: Real) -> (r: Real)
        ensures
            r == self.within(lo, hi),
    {
        if self.lt(lo) {
            lo
        } else if hi.lt(self) {
            hi
        } else {
            self
        }
    }

    /// The nearest whole number, ties away from zero, as a real number.
    pub fn round(self) -> (r: Real)
        ensures
            r == self.rounded(),
    {
        if !self.finite() {
            return self;
        }
        let u: i32 = self.unit_of();
        let m: u64 = self.mantissa();
        proof {
            lemma_parts(self);
        }
        if u >= 0 {
            proof {
                lemma_whole_is_exact(self);
            }
            return self;
        }
        let n: u64 = round_shift(m, (-u) as u32);
        round_to_real(self.is_negative(), n as u128, false, 0)
    }

    /// The nearest whole number, ties away from zero, held within the `i64`
    /// range; zero for what is no number.
    pub fn round_to_int(self) -> (n: i64)
        ensures
            n == self.to_nearest_int(),
    {
        if self.not_a_number() {
            return 0;
        }
        proof {
            lemma_pow2_127();
            lemma_parts(self);
        }
        if self.infinite() {
            return if self.is_negative() {
                i64::MIN
            } else {
                i64::MAX
            };
        }
        let u: i32 = self.unit_of();
        let m: u64 = self.mantissa();
        if u >= 0 {
            saturate(self.is_negative(), m, u as u32)
        } else {
            proof {
                lemma2_to64();
            }
            let n: u64 = round_shift(m, (-u) as u32);
            assert(n as nat * pow2(0) == n);
            saturate(self.is_negative(), n, 0)
        }
    }

    /// The whole part, held within the `i64` range; zero for what is no
    /// number.
    pub fn to_int(self) -> (n: i64)
        ensures
            n == self.to_whole_int(),
    {
        if self.not_a_number() {
            return 0;
        }
        proof {
            lemma_pow2_127();
            lemma_parts(self);
        }
        if self.infinite() {
            return if self.is_negative() {
                i64::MIN
            } else {
                i64::MAX
            };
        }
        let u: i32 = self.unit_of();
        let m: u64 = self.mantissa();
        if u >= 0 {
            saturate(self.is_negative(), m, u as u32)
        } else {
            proof {
                lemma2_to64();
            }
            let n: u64 = floor_shift(m, (-u) as u32);
            assert(n as nat * pow2(0) == n);
            saturate(self.is_negative(), n, 0)
        }
    }
}

/// A number whose unit is one or more is whole and rounds to itself.
proof fn lemma_whole_is_exact(x: Real)
    requires
        x.is_finite(),
        x.unit() >= 0,
    ensures
        x.rounded() == x,
{
    let m = x.mant();
    let u: nat = x.unit() as nat;
    lemma_parts(x);
    lemma_pow2_127();
    let n = m * pow2(u);
    lemma_pow2_pos(u);
    assert(n / pow2(u) == m) by {
        lemma_div_by_multiple(m as int, pow2(u) as int);
    }
    lemma_bitlen_shift(n, u);
    lemma_bitlen_at_least(m, 52);
    lemma_bitlen_below(m, 53);
    let q = unit_exponent(n, 0, 53, -1074);
    assert(q == u);
    assert(n % pow2(u) == 0) by {
        lemma_mod_multiples_basic(m as int, pow2(u) as int);
    }
    assert(units(n, false, 0, q) == m) by {
        lemma2_to64();
        if u == 0 {
            assert(m * pow2(0) == m);
        }
    }
    assert(x.magnitude() == (x.unit() + 1074) * MANT_ONE + m) by {
        lemma_fundamental_div_mod(x.magnitude(), MANT_ONE as int);
        let e = x.magnitude() / (MANT_ONE as int);
        assert(e == x.unit() + 1075);
    }
}

/// `m / 2^s` to the nearest whole number, ties up.
fn round_shift(m: u64, s: u32) -> (r: u64)
    requires
        m < 2 * MANT_ONE,
        1 <= s,
    ensures
        r == (2 * m as nat + pow2(s as nat)) / pow2((s + 1) as nat),
        r <= 2 * MANT_ONE,
{
    proof {
        lemma_pow2_127();
        lemma_pow2_unfold((s + 1) as nat);
        lemma_pow2_pos(s as nat);
    }
    if s >= 54 {
        proof {
            if s > 54 {
                lemma_pow2_strictly_increases(54, s as nat);
            }
            lemma_basic_div(2 * m + pow2(s as nat), pow2((s + 1) as nat) as int);
        }
        return 0;
    }
    proof {
        lemma_pow2_strictly_increases(s as nat, 54);
    }
    let p: u128 = power_of_two(s);
    let n: u128 = 2 * m as u128 + p;
    let d: u128 = 2 * p;
    let r: u128 = n / d;
    proof {
        assert(d == pow2((s + 1) as nat));
        lemma_pow2_unfold(s as nat);
        lemma_pow2_pos((s - 1) as nat);
        assert(p >= 2);
        assert(r <= 2 * MANT_ONE) by (nonlinear_arith)
            requires
                n as int == 2 * m + p,
                d as int == 2 * p,
                r as int == n as int / d as int,
                p >= 2,
                m < 2 * MANT_ONE,
        {
            lemma_fundamental_div_mod(n as int, d as int);
        }
    }
    r as u64
}

/// `n / 2^s` to the nearest whole number, ties to even.
pub fn round_off(n: u128, s: u32) -> (r: u128)
    requires
        n < 0x8000_0000_0000_0000_0000_0000_0000_0000,
        s >= 1,
    ensures
        r == round_units(n as nat, false, s as nat),
{
    proof {
        lemma_pow2_127();
        lemma_pow2_unfold(128);
        lemma_pow2_pos(s as nat);
        lemma_pow2_unfold(s as nat);
    }
    if s >= 128 {
        proof {
            if s > 128 {
                lemma_pow2_strictly_increases(128, s as nat);
            }
            lemma_basic_div(n as int, pow2(s as nat) as int);
            lemma_small_mod(n as nat, pow2(s as nat));
        }
        return 0;
    }
    let p: u128 = power_of_two(s);
    let m: u128 = n / p;
    let r: u128 = n % p;
    let half: u128 = p / 2;
    if r > half || (r == half && m % 2 == 1) {
        proof {
            lemma_div_decreases_any(n as int, p as int);
        }
        m + 1
    } else {
        m
    }
}

/// The whole part of `m / 2^s`.
fn floor_shift(m: u64, s: u32) -> (r: u64)
    requires
        m < 2 * MANT_ONE,
        1 <= s,
    ensures
        r == m as nat / pow2(s as nat),
        r <= m,
{
    proof {
        lemma_pow2_127();
        lemma_pow2_pos(s as nat);
        lemma_div_decreases_any(m as int, pow2(s as nat) as int);
    }
    if s >= 54 {
        proof {
            if s > 54 {
                lemma_pow2_strictly_increases(54, s as nat);
            }
            lemma_basic_div(m as int, pow2(s as nat) as int);
        }
        return 0;
    }
    let p: u128 = power_of_two(s);
    (m as u128 / p) as u64
}

/// `m * 2^u` with its sign, held within the `i64` range.
fn saturate(neg: bool, m: u64, u: u32) -> (n: i64)
    requires
        m <= 2 * MANT_ONE,
        u > 0 ==> m >= MANT_ONE,
    ensures
        n == saturated(neg, m as nat * pow2(u as nat)),
{
    proof {
        lemma_pow2_127();
        lemma2_to64();
    }
    if u >= 12 {
        proof {
            if u > 12 {
                lemma_pow2_strictly_increases(12, u as nat);
            }
            assert(m * pow2(u as nat) >= MANT_ONE * pow2(12)) by (nonlinear_arith)
                requires
                    m >= MANT_ONE,
                    pow2(u as nat) >= pow2(12),
            ;
        }
        return if neg {
            i64::MIN
        } else {
            i64::MAX
        };
    }
    let p: u128 = power_of_two(u);
    proof {
        lemma_pow2_strictly_increases(u as nat, 12);
        assert(m * p <= 2 * MANT_ONE * 0x1000) by (nonlinear_arith)
            requires
                m <= 2 * MANT_ONE,
                0 <= p <= 0x1000,
        ;
        lemma_mul_nonnegative(m as int, p as int);
    }
    let v: u128 = m as u128 * p;
    if neg {
        if v > 0x8000_0000_0000_0000u128 {
            i64::MIN
        } else {
            (-(v as i128)) as i64
        }
    } else {
        if v > 0x7FFF_FFFF_FFFF_FFFFu128 {
            i64::MAX
        } else {
            v as i64
        }
    }
}

/// Divides two mantissas.
fn divide(neg: bool, a: u64, b: u64, k: i32) -> (r: Real)
    requires
        a < 2 * MANT_ONE,
        0 < b < 2 * MANT_ONE,
        -2200 <= k <= 2200,
    ensures
        r == quotient(neg, a as nat, b as nat, k as int),
{
    if a == 0 {
        proof {
            lemma_mul_basics(pow2(118) as int);
            lemma_div_of0(b as int);
            lemma_small_mod(0, b as nat);
        }
        return round_to_real(neg, 0, false, k - 118);
    }
    // Shift the dividend up until it is full, so that one division gives all
    // the digits.
    let mut x: u64 = a;
    let mut j: u32 = 0;
    proof {
        lemma2_to64();
        assert(a * pow2(0) == a);
    }
    while x < MANT_ONE
        invariant
            0 < a < 2 * MANT_ONE,
            x == a * pow2(j as nat),
            0 < x < 2 * MANT_ONE,
            j <= 52,
            j > 0 ==> pow2(j as nat) <= x,
        decreases 2 * MANT_ONE - x,
    {
        proof {
            lemma_pow2_unfold((j + 1) as nat);
            assert(2 * (a * pow2(j as nat)) == a * (2 * pow2(j as nat))) by (nonlinear_arith);
            lemma_pow2_127();
            lemma_pow2_pos(j as nat);
            assert(pow2((j + 1) as nat) <= a * pow2((j + 1) as nat)) by (nonlinear_arith)
                requires
                    a >= 1,
                    pow2((j + 1) as nat) >= 0,
            ;
            if j >= 52 {
                assert(x >= pow2(j as nat));
                assert(false);
            }
        }
        x = 2 * x;
        j = j + 1;
    }
    proof {
        lemma_pow2_127();
    }
    let n: u128 = x as u128 * 0x1_0000_0000_0000_0000u128;
    let d: u128 = b as u128;
    let q: u128 = n / d;
    let rem: u128 = n % d;
    proof {
        lemma_quotient_shift(neg, a as nat, b as nat, k as int, j as nat, x as nat);
        lemma_div_decreases_any(n as int, d as int);
    }
    round_to_real(neg, q, rem != 0, k - 64 - j as i32)
}

/// A dividend that is shifted up to a full mantissa gives the same quotient
/// with fewer digits.
proof fn lemma_quotient_shift(neg: bool, a: nat, b: nat, k: int, j: nat, x: nat)
    requires
        0 < b < 2 * MANT_ONE,
        j <= 52,
        x == a * pow2(j),
        MANT_ONE <= x < 2 * MANT_ONE,
    ensures
        quotient(neg, a, b, k) == nearest(
            neg,
            x * pow2(64) / b,
            (x * pow2(64)) % b != 0,
            k - 64 - j,
        ),
{
    let t: nat = (54 - j) as nat;
    let big: nat = a * pow2(118);
    let n: nat = x * pow2(64);
    lemma_pow2_adds(j, 64);
    lemma_pow2_adds(t, j + 64);
    assert(big == pow2(t) * n) by (nonlinear_arith)
        requires
            big == a * pow2(118),
            n == x * pow2(64),
            x == a * pow2(j),
            pow2(j) * pow2(64) == pow2((j + 64) as nat),
            pow2(t) * pow2((j + 64) as nat) == pow2(118),
    {
        assert(n == a * (pow2(j) * pow2(64)));
        assert(pow2(t) * n == a * (pow2(t) * pow2((j + 64) as nat)));
    }
    lemma_pow2_pos(t);
    let pt: int = pow2(t) as int;
    // big / b / 2^t == n / b, and the remainders vanish together.
    lemma_div_denominator(big as int, b as int, pt);
    lemma_div_denominator(big as int, pt, b as int);
    lemma_mul_is_commutative(pt, b as int);
    lemma_div_multiples_vanish(n as int, pt);
    assert(big as int / pt == n as int);
    assert((big / b) as int / pt == n as int / b as int);
    let q: int = big as int / b as int;
    lemma_fundamental_div_mod(big as int, b as int);
    lemma_fundamental_div_mod(q, pt);
    lemma_fundamental_div_mod(n as int, b as int);
    lemma_mod_pos_bound(big as int, b as int);
    lemma_mod_pos_bound(q, pt);
    lemma_mod_pos_bound(n as int, b as int);
    let r0: int = big as int % b as int;
    let r1: int = q % pt;
    let r2: int = n as int % b as int;
    let qn: int = n as int / b as int;
    assert(pt * r2 == b * r1 + r0) by (nonlinear_arith)
        requires
            big == pt * n,
            big == b * q + r0,
            q == pt * qn + r1,
            n == b * qn + r2,
    ;
    if r2 == 0 {
        assert(r0 == 0 && r1 == 0) by (nonlinear_arith)
            requires
                pt * r2 == b * r1 + r0,
                r2 == 0,
                r0 >= 0,
                r1 >= 0,
                b > 0,
        ;
    } else {
        assert(r0 != 0 || r1 != 0) by (nonlinear_arith)
            requires
                pt * r2 == b * r1 + r0,
                r2 > 0,
                pt > 0,
        ;
    }
    assert(n / b >= pow2(54)) by {
        lemma_pow2_127();
        assert(n >= 0x10_0000_0000_0000 * 0x1_0000_0000_0000_0000) by (nonlinear_arith)
            requires
                n == x * pow2(64),
                pow2(64) == 0x1_0000_0000_0000_0000,
                x >= 0x10_0000_0000_0000,
        ;
        assert(n as int / b as int >= 4 * MANT_ONE) by (nonlinear_arith)
            requires
                n >= 0x10_0000_0000_0000 * 0x1_0000_0000_0000_0000,
                0 < b < 2 * MANT_ONE,
        {
            lemma_fundamental_div_mod(n as int, b as int);
            lemma_mod_pos_bound(n as int, b as int);
        }
    }
    lemma_nearest_shift(neg, big / b, r0 != 0, k - 118, t);
}

/// Adds two finite numbers of which the first has the coarser unit.
fn add_ordered(x: Real, y: Real) -> (r: Real)
    requires
        x.is_finite(),
        y.is_finite(),
        x.unit() >= y.unit(),
    ensures
        r == x.plus(y),
        r == y.plus(x),
{
    let k: i32 = y.unit_of();
    let d: i32 = x.unit_of() - k;
    let a: u64 = x.mantissa();
    let b: u64 = y.mantissa();
    proof {
        lemma_pow2_127();
        lemma2_to64();
        lemma_parts(x);
        lemma_parts(y);
        assert(b as nat * pow2(0) == b as nat) by {
            assert(pow2(0) == 1);
            lemma_mul_basics(b as int);
        }
    }
    let ghost sum = x.scaled(k as int) + y.scaled(k as int);
    if d <= 73 {
        let p: u128 = power_of_two(d as u32);
        proof {
            lemma_pow2_adds(53, 73);
            lemma_pow2_strictly_increases(126, 127);
            lemma_pow2_unfold(127);
            if d < 73 {
                lemma_pow2_strictly_increases(d as nat, 73);
            }
            lemma_pow2_pos(d as nat);
            assert(a * p < pow2(53) * pow2(73)) by (nonlinear_arith)
                requires
                    0 <= a < pow2(53),
                    0 < p <= pow2(73),
            ;
            lemma_mul_nonnegative(a as int, p as int);
            assert(pow2(126) == 0x4000_0000_0000_0000_0000_0000_0000_0000);
        }
        let v: i128 = (a as u128 * p) as i128;
        let sx: i128 = if x.is_negative() { -v } else { v };
        let sy: i128 = if y.is_negative() { -(b as i128) } else { b as i128 };
        let s: i128 = sx + sy;
        assert(s == sum);
        if s == 0 {
            return signed(x.is_negative() && y.is_negative(), 0);
        }
        if s < 0 {
            return round_to_real(true, (-s) as u128, false, k);
        }
        return round_to_real(false, s as u128, false, k);
    }
    // The second number lies far below the last digit of the first: it only
    // tells on which side of it the sum is.
    let j: i32 = d - 20;
    let n: u128 = a as u128 * 0x10_0000u128;
    proof {
        lemma_far_sum(a as nat, b as nat, d as nat, j as nat);
    }
    let same: bool = x.is_negative() == y.is_negative();
    if same || b == 0 {
        proof {
            lemma_nearest_shift(
                x.neg(),
                (a * pow2(d as nat) + b) as nat,
                false,
                k as int,
                j as nat,
            );
        }
        round_to_real(x.is_negative(), n, b != 0, k + j)
    } else {
        proof {
            lemma_nearest_shift(
                x.neg(),
                (a * pow2(d as nat) - b) as nat,
                false,
                k as int,
                j as nat,
            );
        }
        round_to_real(x.is_negative(), n - 1, true, k + j)
    }
}

proof fn lemma_far_sum(a: nat, b: nat, d: nat, j: nat)
    requires
        MANT_ONE <= a < 2 * MANT_ONE,
        b < 2 * MANT_ONE,
        d >= 74,
        j == d - 20,
    ensures
        (a * pow2(d) + b) as nat / pow2(j) == a * 0x10_0000,
        (a * pow2(d) + b) as nat % pow2(j) == b,
        b > 0 ==> (a * pow2(d) - b) as nat / pow2(j) == a * 0x10_0000 - 1,
        b > 0 ==> (a * pow2(d) - b) as nat % pow2(j) == pow2(j) - b,
        a * pow2(d) - b > 0,
        a * 0x10_0000 - 1 >= pow2(54),
{
    lemma_pow2_127();
    lemma2_to64();
    lemma_pow2_adds(20, j);
    if j > 54 {
        lemma_pow2_strictly_increases(54, j);
    }
    let p: int = pow2(j) as int;
    let t: int = (a * 0x10_0000) as int;
    assert(a * pow2(d) == t * p) by (nonlinear_arith)
        requires
            pow2(d) == 0x10_0000 * p,
            t == a * 0x10_0000,
    ;
    assert(b < p);
    lemma_fundamental_div_mod_converse(t * p + b, p, t, b as int);
    if b > 0 {
        assert(t * p - b == (t - 1) * p + (p - b)) by (nonlinear_arith);
        lemma_fundamental_div_mod_converse(t * p - b, p, t - 1, p - b);
    }
    assert(t * p >= p) by (nonlinear_arith)
        requires
            t >= 1,
            p >= 0,
    ;
}

// ---- single precision ----

/// The first power of two that is too large for single precision.
pub const SINGLE_LIMIT_BITS: u64 = 0x47F0_0000_0000_0000;

impl Real {
    /// The nearest number of single precision, ties to even.
    pub open spec fn single(self) -> Real {
        if !self.is_finite() {
            self
        } else {
            let q = unit_exponent(self.mant(), self.unit(), 24, -149);
            let v = if q <= self.unit() {
                self
            } else {
                nearest(
                    self.neg(),
                    round_units(self.mant(), false, (q - self.unit()) as nat),
                    false,
                    q,
                )
            };
            if v.magnitude() >= SINGLE_LIMIT_BITS {
                signed_bits(self.neg(), INF_BITS as int)
            } else {
                v
            }
        }
    }

    /// Rounds to the nearest number of single precision, ties to even.
    pub fn to_single(self) -> (r: Real)
        ensures
            r == self.single(),
    {
        if !self.finite() {
            return self;
        }
        let m: u64 = self.mantissa();
        let u: i32 = self.unit_of();
        let full: i32 = bit_length(m as u128) as i32 - 24 + u;
        let q: i32 = if full < -149 {
            -149
        } else {
            full
        };
        let v: Real = if q <= u {
            self
        } else {
            let n: u128 = round_off(m as u128, (q - u) as u32);
            proof {
                lemma_pow2_pos((q - u) as nat);
                lemma_div_decreases_any(m as int, pow2((q - u) as nat) as int);
            }
            round_to_real(self.is_negative(), n, false, q)
        };
        if v.magnitude_of() >= SINGLE_LIMIT_BITS {
            signed(self.is_negative(), INF_BITS)
        } else {
            v
        }
    }
}

/// A whole number of single precision: the nearest one, ties to even.
pub open spec fn single_of(n: int) -> Real {
    let m: nat = if n < 0 {
        (-n) as nat
    } else {
        n as nat
    };
    let q = unit_exponent(m, 0, 24, -149);
    if q <= 0 {
        nearest(n < 0, m, false, 0)
    } else {
        nearest(n < 0, round_units(m, false, q as nat), false, q)
    }
}

/// Turns a whole number into the nearest one of single precision.
pub fn single_from_int(n: i64) -> (r: Real)
    ensures
        r == single_of(n as int),
{
    let m: u128 = if n < 0 {
        (-(n as i128)) as u128
    } else {
        n as u128
    };
    let full: i32 = bit_length(m) as i32 - 24;
    if full <= 0 {
        round_to_real(n < 0, m, false, 0)
    } else {
        let k: u128 = round_off(m, full as u32);
        proof {
            lemma_pow2_pos(full as nat);
            lemma_div_decreases_any(m as int, pow2(full as nat) as int);
        }
        round_to_real(n < 0, k, false, full)
    }
}

/// A rounded number is a number: at most infinite.
pub proof fn lemma_nearest_is_number(neg: bool, n: nat, sticky: bool, k: int)
    ensures
        nearest(neg, n, sticky, k).neg() == neg,
        nearest(neg, n, sticky, k).magnitude() == magnitude_bits(
            units(n, sticky, k, unit_exponent(n, k, 53, -1074)),
            unit_exponent(n, k, 53, -1074),
        ),
        !nearest(neg, n, sticky, k).is_nan(),
{
    let q = unit_exponent(n, k, 53, -1074);
    let m = units(n, sticky, k, q);
    assert(0 <= magnitude_bits(m, q) <= INF_BITS) by {
        assert((q + 1074) * MANT_ONE >= 0) by (nonlinear_arith)
            requires
                q >= -1074,
        ;
    }
}

/// A number of few digits in small units is neither zero nor infinite.
proof fn lemma_nearest_is_plain(n: nat, k: int)
    requires
        0 < n < pow2(53),
        0 <= k <= 64,
    ensures
        nearest(false, n, false, k).is_finite(),
        !nearest(false, n, false, k).is_zero(),
{
    let l = bitlen(n);
    lemma_bitlen_bounds(n);
    lemma_bitlen_below(n, 53);
    let q = unit_exponent(n, k, 53, -1074);
    let d: nat = (53 - l) as nat;
    assert(q == k - d);
    lemma_nearest_is_number(false, n, false, k);
    lemma_pow2_pos(d);
    lemma_pow2_adds(l, d);
    let m = units(n, false, k, q);
    assert(m == n * pow2(d));
    assert(0 < n * pow2(d) < pow2(l) * pow2(d)) by (nonlinear_arith)
        requires
            0 < n < pow2(l),
            pow2(d) > 0,
    ;
    lemma2_to64();
    lemma2_to64_rest();
    assert((q + 1074) * MANT_ONE <= 1138 * MANT_ONE) by (nonlinear_arith)
        requires
            q <= 64,
    ;
}

/// A whole number above zero is neither zero nor infinite in single precision.
pub proof fn lemma_single_of_is_plain(n: int)
    requires
        0 < n <= i64::MAX,
    ensures
        single_of(n).is_finite(),
        !single_of(n).is_zero(),
{
    let m = n as nat;
    lemma2_to64();
    lemma2_to64_rest();
    lemma_bitlen_bounds(m);
    lemma_bitlen_below(m, 63);
    let l = bitlen(m);
    let q = unit_exponent(m, 0, 24, -149);
    assert(q == l - 24);
    if q <= 0 {
        if l < 24 {
            lemma_pow2_strictly_increases(l, 24);
        }
        lemma_nearest_is_plain(m, 0);
    } else {
        let p = pow2(q as nat);
        lemma_pow2_pos(q as nat);
        lemma_pow2_adds(23, q as nat);
        lemma_pow2_adds(24, q as nat);
        let w = m / p;
        lemma_fundamental_div_mod(m as int, p as int);
        lemma_mod_bound(m as int, p as int);
        assert(0 < w < 0x100_0000) by (nonlinear_arith)
            requires
                m == p * w + m % p,
                0 <= m % p < p,
                0x80_0000 * p <= m < 0x100_0000 * p,
        ;
        lemma_nearest_is_plain(round_units(m, false, q as nat), q);
    }
}

/// Rounding to single precision keeps numbers numbers.
pub proof fn lemma_single_is_number(x: Real)
    requires
        !x.is_nan(),
    ensures
        !x.single().is_nan(),
{
    if x.is_finite() {
        let q = unit_exponent(x.mant(), x.unit(), 24, -149);
        if q > x.unit() {
            lemma_nearest_is_number(
                x.neg(),
                round_units(x.mant(), false, (q - x.unit()) as nat),
                false,
                q,
            );
        }
    }
}

// ---- order ----

/// Rounding keeps the order, in the same units.
proof fn lemma_round_units_order(n1: nat, st1: bool, n2: nat, st2: bool, s: nat)
    requires
        n1 < n2 || (n1 == n2 && (st1 ==> st2)),
    ensures
        round_units(n1, st1, s) <= round_units(n2, st2, s),
{
    let p = pow2(s) as int;
    lemma_pow2_pos(s);
    lemma_div_is_ordered(n1 as int, n2 as int, p);
    lemma_fundamental_div_mod(n1 as int, p);
    lemma_fundamental_div_mod(n2 as int, p);
}

/// Rounding keeps the order: the units do not become finer, there are not fewer
/// of the same units, and a coarser unit is full.
proof fn lemma_units_order(
    n1: nat,
    st1: bool,
    n2: nat,
    st2: bool,
    k: int,
    prec: nat,
    low: int,
)
    requires
        n1 < n2 || (n1 == n2 && (st1 ==> st2)),
        prec >= 1,
    ensures
        ({
            let q1 = unit_exponent(n1, k, prec as int, low);
            let q2 = unit_exponent(n2, k, prec as int, low);
            let u1 = units(n1, st1, k, q1);
            let u2 = units(n2, st2, k, q2);
            &&& q1 <= q2
            &&& q1 == q2 ==> u1 <= u2
            &&& q1 < q2 ==> u1 <= pow2(prec) && u2 >= pow2((prec - 1) as nat)
        }),
{
    let q1 = unit_exponent(n1, k, prec as int, low);
    let q2 = unit_exponent(n2, k, prec as int, low);
    lemma_bitlen_order(n1, n2);
    if q1 == q2 {
        if q1 <= k {
            lemma_mul_inequality(n1 as int, n2 as int, pow2((k - q1) as nat) as int);
        } else {
            lemma_round_units_order(n1, st1, n2, st2, (q1 - k) as nat);
        }
    } else {
        let l2 = bitlen(n2);
        assert(q2 == l2 - prec + k);
        assert(n2 > 0);
        lemma_bitlen_bounds(n2);
        lemma_units_top(n1, st1, k, q1, prec);
        if q2 <= k {
            let d: nat = (k - q2) as nat;
            lemma_pow2_pos(d);
            lemma_pow2_adds((l2 - 1) as nat, d);
            lemma_mul_inequality(pow2((l2 - 1) as nat) as int, n2 as int, pow2(d) as int);
        } else {
            let d: nat = (q2 - k) as nat;
            lemma_pow2_pos(d);
            lemma_pow2_adds((prec - 1) as nat, d);
            lemma_div_is_ordered(pow2((l2 - 1) as nat) as int, n2 as int, pow2(d) as int);
            lemma_div_by_multiple(pow2((prec - 1) as nat) as int, pow2(d) as int);
        }
    }
}

proof fn lemma_bitlen_order(n1: nat, n2: nat)
    requires
        n1 <= n2,
    ensures
        bitlen(n1) <= bitlen(n2),
    decreases n2,
{
    if n1 > 0 {
        lemma_bitlen_order(n1 / 2, n2 / 2);
    }
}

/// A number has no more units than its digits can count.
pub proof fn lemma_units_top(n: nat, st: bool, k: int, q: int, prec: nat)
    requires
        q >= bitlen(n) - prec + k,
    ensures
        units(n, st, k, q) <= pow2(prec),
{
    let l = bitlen(n);
    lemma_pow2_pos(prec);
    if n == 0 {
        if q <= k {
            lemma_mul_basics(pow2((k - q) as nat) as int);
        } else {
            let p = pow2((q - k) as nat) as int;
            lemma_pow2_pos((q - k) as nat);
            lemma_div_of0(p);
            lemma_small_mod(0, p as nat);
        }
    } else {
        lemma_bitlen_bounds(n);
        if q <= k {
            let d: nat = (k - q) as nat;
            lemma_pow2_pos(d);
            lemma_pow2_adds(l, d);
            lemma_mul_inequality(n as int, pow2(l) as int, pow2(d) as int);
            if l + d < prec {
                lemma_pow2_strictly_increases(l + d, prec);
            }
        } else {
            let d: nat = (q - k) as nat;
            lemma_pow2_pos(d);
            lemma_pow2_adds(prec, d);
            if l < prec + d {
                lemma_pow2_strictly_increases(l, prec + d);
            }
            let p = pow2(d) as int;
            lemma_fundamental_div_mod(n as int, p);
            lemma_mod_pos_bound(n as int, p);
            assert(n as int / p < pow2(prec)) by (nonlinear_arith)
                requires
                    n == p * (n as int / p) + n as int % p,
                    n as int % p >= 0,
                    n < pow2(prec) * p,
                    p > 0,
            ;
        }
    }
}

/// Numbers in the same units are rounded in their order.
pub proof fn lemma_nearest_order(n1: nat, st1: bool, n2: nat, st2: bool, k: int)
    requires
        n1 < n2 || (n1 == n2 && (st1 ==> st2)),
    ensures
        nearest(false, n1, st1, k).magnitude() <= nearest(false, n2, st2, k).magnitude(),
{
    lemma_units_order(n1, st1, n2, st2, k, 53, -1074);
    lemma_nearest_is_number(false, n1, st1, k);
    lemma_nearest_is_number(false, n2, st2, k);
    let q1 = unit_exponent(n1, k, 53, -1074);
    let q2 = unit_exponent(n2, k, 53, -1074);
    lemma2_to64();
    lemma2_to64_rest();
    if q1 < q2 {
        assert((q1 + 1) * MANT_ONE <= q2 * MANT_ONE) by (nonlinear_arith)
            requires
                q1 + 1 <= q2,
        ;
    }
    assert((q1 + 1074) * MANT_ONE >= 0) by (nonlinear_arith)
        requires
            q1 >= -1074,
    ;
    assert((q2 + 1074) * MANT_ONE >= 0) by (nonlinear_arith)
        requires
            q2 >= -1074,
    ;
}

/// A number in finer units is rounded to the same number.
pub proof fn lemma_nearest_scale(neg: bool, n: nat, k: int, j: nat)
    ensures
        nearest(neg, n * pow2(j), false, k - j) == nearest(neg, n, false, k),
{
    let x = n * pow2(j);
    lemma_pow2_pos(j);
    lemma_div_multiples_vanish(n as int, pow2(j) as int);
    lemma_mul_is_commutative(n as int, pow2(j) as int);
    lemma_mod_multiples_basic(n as int, pow2(j) as int);
    if n == 0 {
        lemma_mul_basics(pow2(j) as int);
        lemma_nearest_zero(neg, k);
        lemma_nearest_zero(neg, k - j);
    } else {
        lemma_bitlen_shift(x, j);
        let q = unit_exponent(n, k, 53, -1074);
        assert(q == unit_exponent(x, k - j, 53, -1074));
        if q <= k - j {
            lemma_pow2_adds(j, (k - j - q) as nat);
            lemma_mul_is_associative(n as int, pow2(j) as int, pow2((k - j - q) as nat) as int);
        } else if q <= k {
            let s: nat = (q - (k - j)) as nat;
            let d: nat = (k - q) as nat;
            lemma_pow2_adds(d, s);
            lemma_pow2_pos(s);
            lemma_mul_is_associative(n as int, pow2(d) as int, pow2(s) as int);
            let y = n * pow2(d);
            assert(x == y * pow2(s));
            lemma_mul_is_commutative(y as int, pow2(s) as int);
            lemma_div_multiples_vanish(y as int, pow2(s) as int);
            lemma_mod_multiples_basic(y as int, pow2(s) as int);
            assert(round_units(x, false, s) == y);
        } else {
            lemma_round_units_shift(x, false, (q - k) as nat, j);
        }
    }
}

proof fn lemma_nearest_zero(neg: bool, k: int)
    ensures
        nearest(neg, 0, false, k) == signed_bits(neg, 0),
{
    let q = unit_exponent(0, k, 53, -1074);
    lemma_units_zero(k, q);
}

proof fn lemma_units_zero(k: int, q: int)
    ensures
        units(0, false, k, q) == 0,
{
    if q <= k {
        lemma_mul_basics(pow2((k - q) as nat) as int);
    } else {
        let p = pow2((q - k) as nat);
        lemma_pow2_pos((q - k) as nat);
        lemma_div_of0(p as int);
        lemma_small_mod(0, p);
    }
}

/// Numbers are rounded in their order, whatever their units.
proof fn lemma_nearest_order_across(r1: nat, q1: int, r2: nat, q2: int)
    requires
        q1 <= q2,
        r1 <= r2 * pow2((q2 - q1) as nat),
    ensures
        nearest(false, r1, false, q1).magnitude() <= nearest(false, r2, false, q2).magnitude(),
{
    lemma_nearest_scale(false, r2, q2, (q2 - q1) as nat);
    lemma_nearest_order(r1, false, r2 * pow2((q2 - q1) as nat), false, q1);
}

/// A finite number is the one nearest to its own value.
pub proof fn lemma_nearest_self(x: Real)
    requires
        x.is_finite(),
    ensures
        nearest(x.neg(), x.mant(), false, x.unit()) == x,
{
    lemma_parts(x);
    lemma2_to64();
    lemma2_to64_rest();
    let m = x.mant();
    lemma_bitlen_below(m, 53);
    if x.unit() > -1074 {
        lemma_bitlen_at_least(m, 52);
    }
    let q = unit_exponent(m, x.unit(), 53, -1074);
    assert(q == x.unit());
    lemma_mul_basics(m as int);
    assert(units(m, false, q, q) == m);
    lemma_fundamental_div_mod(x.magnitude(), MANT_ONE as int);
    lemma_nearest_is_number(x.neg(), m, false, x.unit());
    let e = x.magnitude() / (MANT_ONE as int);
    assert((q + 1074) * MANT_ONE + m == x.magnitude()) by {
        if e > 0 {
            assert((e - 1) * MANT_ONE + MANT_ONE == MANT_ONE * e) by (nonlinear_arith);
        }
    }
    assert(m == 0 ==> x.magnitude() == 0);
}

/// Of two numbers without a sign, the one with more bits is the larger.
pub proof fn lemma_value_order(x: Real, y: Real)
    requires
        x.is_finite(),
        y.is_finite(),
        x.magnitude() <= y.magnitude(),
    ensures
        x.unit() <= y.unit(),
        x.mant() <= y.mant() * pow2((y.unit() - x.unit()) as nat),
{
    lemma_parts(x);
    lemma_parts(y);
    lemma2_to64();
    lemma_div_is_ordered(x.magnitude(), y.magnitude(), MANT_ONE as int);
    lemma_fundamental_div_mod(x.magnitude(), MANT_ONE as int);
    lemma_fundamental_div_mod(y.magnitude(), MANT_ONE as int);
    let d: nat = (y.unit() - x.unit()) as nat;
    if d == 0 {
        lemma_mul_basics(y.mant() as int);
    } else {
        lemma_pow2_unfold(d);
        lemma_pow2_pos((d - 1) as nat);
        assert(y.mant() * pow2(d) >= 2 * MANT_ONE) by (nonlinear_arith)
            requires
                y.mant() >= MANT_ONE,
                pow2(d) >= 2,
        ;
    }
}

/// Rounding to fewer digits keeps the order of values.
proof fn lemma_fewer_order(n1: nat, n2: nat, k: int, prec: nat, low: int)
    requires
        n1 <= n2,
        prec >= 1,
    ensures
        ({
            let q1 = unit_exponent(n1, k, prec as int, low);
            let q2 = unit_exponent(n2, k, prec as int, low);
            nearest(false, units(n1, false, k, q1), false, q1).magnitude() <= nearest(
                false,
                units(n2, false, k, q2),
                false,
                q2,
            ).magnitude()
        }),
{
    let q1 = unit_exponent(n1, k, prec as int, low);
    let q2 = unit_exponent(n2, k, prec as int, low);
    let u1 = units(n1, false, k, q1);
    let u2 = units(n2, false, k, q2);
    lemma_units_order(n1, false, n2, false, k, prec, low);
    let d: nat = (q2 - q1) as nat;
    lemma2_to64();
    if d == 0 {
        lemma_mul_basics(u2 as int);
    } else {
        lemma_pow2_unfold(d);
        lemma_pow2_unfold(prec);
        lemma_pow2_pos((d - 1) as nat);
        assert(u2 * pow2(d) >= u2 * 2) by (nonlinear_arith)
            requires
                pow2(d) >= 2,
                u2 >= 0,
        ;
    }
    lemma_nearest_order_across(u1, q1, u2, q2);
}

/// Whole numbers keep their order in single precision.
pub proof fn lemma_single_of_order(a: int, b: int)
    requires
        0 <= a <= b,
    ensures
        single_of(a).magnitude() <= single_of(b).magnitude(),
        !single_of(a).neg(),
{
    lemma_fewer_order(a as nat, b as nat, 0, 24, -149);
    lemma_single_of_units(a);
    lemma_single_of_units(b);
}

proof fn lemma_single_of_units(n: int)
    requires
        n >= 0,
    ensures
        ({
            let q = unit_exponent(n as nat, 0, 24, -149);
            single_of(n) == nearest(false, units(n as nat, false, 0, q), false, q)
        }),
        !single_of(n).neg(),
{
    let q = unit_exponent(n as nat, 0, 24, -149);
    if q <= 0 {
        lemma_nearest_scale(false, n as nat, 0, (-q) as nat);
    }
    lemma_nearest_is_number(false, units(n as nat, false, 0, q), false, q);
}

proof fn lemma_single_units(x: Real, m: nat, k: int)
    requires
        x.is_finite(),
        !x.neg(),
        k <= x.unit(),
        m == x.mant() * pow2((x.unit() - k) as nat),
    ensures
        ({
            let q = unit_exponent(m, k, 24, -149);
            let v = nearest(false, units(m, false, k, q), false, q);
            x.single() == if v.magnitude() >= SINGLE_LIMIT_BITS {
                signed_bits(false, INF_BITS as int)
            } else {
                v
            }
        }),
{
    let u = x.unit();
    let n = x.mant();
    let j: nat = (u - k) as nat;
    let q = unit_exponent(m, k, 24, -149);
    lemma_nearest_self(x);
    lemma_pow2_pos(j);
    lemma_div_multiples_vanish(n as int, pow2(j) as int);
    lemma_mul_is_commutative(n as int, pow2(j) as int);
    lemma_mod_multiples_basic(n as int, pow2(j) as int);
    if n == 0 {
        lemma_mul_basics(pow2(j) as int);
        let q0 = unit_exponent(n, u, 24, -149);
        lemma_units_zero(k, q);
        lemma_nearest_zero(false, q);
        lemma_nearest_zero(false, u);
        if q0 > u {
            lemma_units_zero(u, q0);
            lemma_nearest_zero(false, q0);
        }
    } else {
        lemma_bitlen_shift(m, j);
        assert(q == unit_exponent(n, u, 24, -149));
        if q <= k {
            lemma_pow2_adds(j, (k - q) as nat);
            lemma_mul_is_associative(n as int, pow2(j) as int, pow2((k - q) as nat) as int);
            assert(units(m, false, k, q) == n * pow2((u - q) as nat));
            lemma_nearest_scale(false, n, u, (u - q) as nat);
        } else if q <= u {
            let s: nat = (q - k) as nat;
            let d: nat = (u - q) as nat;
            lemma_pow2_adds(d, s);
            lemma_pow2_pos(s);
            lemma_mul_is_associative(n as int, pow2(d) as int, pow2(s) as int);
            let y = n * pow2(d);
            lemma_mul_is_commutative(y as int, pow2(s) as int);
            lemma_div_multiples_vanish(y as int, pow2(s) as int);
            lemma_mod_multiples_basic(y as int, pow2(s) as int);
            assert(units(m, false, k, q) == y);
            lemma_nearest_scale(false, n, u, d);
        } else {
            lemma_round_units_shift(m, false, (q - u) as nat, j);
            assert(units(m, false, k, q) == round_units(n, false, (q - u) as nat));
        }
    }
}

/// Rounding to single precision keeps the sign.
pub proof fn lemma_single_sign(x: Real)
    ensures
        x.single().neg() == x.neg(),
{
    if x.is_finite() {
        let q = unit_exponent(x.mant(), x.unit(), 24, -149);
        if q > x.unit() {
            lemma_nearest_is_number(
                x.neg(),
                round_units(x.mant(), false, (q - x.unit()) as nat),
                false,
                q,
            );
        }
    }
}

/// Zero is finite in single precision.
pub proof fn lemma_single_of_zero()
    ensures
        single_of(0).is_finite(),
{
    lemma_nearest_zero(false, 0);
}

/// Rounding to single precision keeps the order.
pub proof fn lemma_single_order(x: Real, y: Real)
    requires
        !x.neg(),
        !y.neg(),
        !y.is_nan(),
        x.magnitude() <= y.magnitude(),
    ensures
        x.single().magnitude() <= y.single().magnitude(),
        !x.single().neg(),
{
    if x.is_finite() {
        let k = x.unit();
        lemma_mul_basics(x.mant() as int);
        lemma2_to64();
        lemma_single_units(x, x.mant(), k);
        let q1 = unit_exponent(x.mant(), k, 24, -149);
        lemma_nearest_is_number(false, units(x.mant(), false, k, q1), false, q1);
        if y.is_finite() {
            lemma_value_order(x, y);
            let m = y.mant() * pow2((y.unit() - k) as nat);
            lemma_single_units(y, m, k);
            lemma_fewer_order(x.mant(), m, k, 24, -149);
        }
    }
}

/// A quotient in finer units is rounded to the same number.
proof fn lemma_quotient_scale(a: nat, b: nat, k: int, j: nat)
    requires
        a > 0,
        0 < b < 2 * MANT_ONE,
    ensures
        quotient(false, a * pow2(j), b, k - j) == quotient(false, a, b, k),
{
    let n: nat = a * pow2(118);
    let pt = pow2(j) as int;
    let big: nat = (a * pow2(j)) * pow2(118);
    lemma_pow2_pos(j);
    assert(big == pt * n) by (nonlinear_arith)
        requires
            big == (a * pow2(j)) * pow2(118),
            n == a * pow2(118),
            pt == pow2(j),
    ;
    lemma_div_denominator(big as int, b as int, pt);
    lemma_div_denominator(big as int, pt, b as int);
    lemma_mul_is_commutative(pt, b as int);
    lemma_div_multiples_vanish(n as int, pt);
    let q: int = big as int / b as int;
    let qn: int = n as int / b as int;
    lemma_fundamental_div_mod(big as int, b as int);
    lemma_fundamental_div_mod(q, pt);
    lemma_fundamental_div_mod(n as int, b as int);
    lemma_mod_pos_bound(big as int, b as int);
    lemma_mod_pos_bound(q, pt);
    lemma_mod_pos_bound(n as int, b as int);
    let r0: int = big as int % b as int;
    let r1: int = q % pt;
    let r2: int = n as int % b as int;
    assert(q / pt == qn);
    assert(pt * r2 == b * r1 + r0) by (nonlinear_arith)
        requires
            big == pt * n,
            big == b * q + r0,
            q == pt * qn + r1,
            n == b * qn + r2,
    ;
    if r2 == 0 {
        assert(r0 == 0 && r1 == 0) by (nonlinear_arith)
            requires
                pt * r2 == b * r1 + r0,
                r2 == 0,
                r0 >= 0,
                r1 >= 0,
                b > 0,
        ;
    } else {
        assert(r0 != 0 || r1 != 0) by (nonlinear_arith)
            requires
                pt * r2 == b * r1 + r0,
                r2 > 0,
                pt > 0,
        ;
    }
    lemma2_to64();
    lemma2_to64_rest();
    lemma_pow2_adds(54, 64);
    assert(n >= pow2(54) * b) by (nonlinear_arith)
        requires
            n == a * pow2(118),
            a >= 1,
            pow2(118) == pow2(54) * pow2(64),
            pow2(64) >= b,
            pow2(54) >= 0,
            pow2(118) >= 0,
    ;
    lemma_div_is_ordered((pow2(54) * b) as int, n as int, b as int);
    lemma_div_by_multiple(pow2(54) as int, b as int);
    lemma_nearest_shift(false, (big / b) as nat, r0 != 0, k - j - 118, j);
}

/// Quotients by the same number keep the order.
pub proof fn lemma_over_order(x: Real, y: Real, d: Real)
    requires
        x.is_finite(),
        y.is_finite(),
        d.is_finite(),
        !d.is_zero(),
        !x.neg(),
        !y.neg(),
        !d.neg(),
        x.magnitude() <= y.magnitude(),
    ensures
        x.over(d).magnitude() <= y.over(d).magnitude(),
        !x.over(d).neg(),
        !y.over(d).neg(),
        !y.over(d).is_nan(),
{
    lemma_parts(x);
    lemma_parts(y);
    lemma_parts(d);
    lemma_value_order(x, y);
    let b = d.mant();
    let j: nat = (y.unit() - x.unit()) as nat;
    let k = x.unit() - d.unit();
    let a2 = y.mant() * pow2(j);
    let n1 = x.mant() * pow2(118);
    let n2 = a2 * pow2(118);
    lemma_mul_inequality(x.mant() as int, a2 as int, pow2(118) as int);
    lemma_div_is_ordered(n1 as int, n2 as int, b as int);
    lemma_fundamental_div_mod(n1 as int, b as int);
    lemma_fundamental_div_mod(n2 as int, b as int);
    lemma_mod_pos_bound(n1 as int, b as int);
    lemma_mod_pos_bound(n2 as int, b as int);
    lemma_nearest_order(n1 / b, n1 % b != 0, n2 / b, n2 % b != 0, k - 118);
    lemma_nearest_is_number(false, n1 / b, n1 % b != 0, k - 118);
    let m2 = y.mant() * pow2(118);
    lemma_nearest_is_number(false, m2 / b, m2 % b != 0, y.unit() - d.unit() - 118);
    if y.mant() > 0 {
        lemma_quotient_scale(y.mant(), b, y.unit() - d.unit(), j);
    } else {
        lemma_pow2_pos(j);
        lemma_mul_basics(pow2(j) as int);
        lemma_mul_basics(pow2(118) as int);
        lemma_div_of0(b as int);
        lemma_small_mod(0, b);
        lemma_nearest_zero(false, k - 118);
        lemma_nearest_zero(false, y.unit() - d.unit() - 118);
    }
}

/// Nothing, as often as anything, rounds to nothing.
pub proof fn lemma_nothing_scaled(x: Real)
    ensures
        Real::of(0).times(x).to_nearest_int() == 0,
{
    let z = Real::of(0);
    lemma_nearest_zero(false, 0);
    assert(z.magnitude() == 0 && z.mant() == 0);
    lemma_mul_basics(x.mant() as int);
    lemma_nearest_zero(x.neg(), z.unit() + x.unit());
    let y = signed_bits(x.neg(), 0);
    assert(y.magnitude() == 0 && y.mant() == 0 && y.unit() == -1074);
    lemma_pow2_pos(1074);
    lemma_pow2_unfold(1075);
    assert((2 * 0 + pow2(1074)) as int / (2 * pow2(1074)) as int == 0) by (nonlinear_arith)
        requires
            pow2(1074) > 0,
    ;
}

/// A product of numbers that are not below zero rounds to no less than zero.
pub proof fn lemma_product_sign(n: int, x: Real)
    requires
        n >= 0,
        !x.at_most(Real::of(0)),
    ensures
        Real::of(n).times(x).to_nearest_int() >= 0,
{
    lemma_nearest_zero(false, 0);
    lemma_nearest_is_number(false, n as nat, false, 0);
    let a = Real::of(n);
    lemma_nearest_is_number(
        a.neg() != x.neg(),
        a.mant() * x.mant(),
        false,
        a.unit() + x.unit(),
    );
    lemma_parts(x);
    assert(!x.is_nan() ==> !x.neg());
}

} // verus!
