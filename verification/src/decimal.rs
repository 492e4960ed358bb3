//! Decimal text of real numbers: with a fixed count of decimals, and the
//! shortest text that names a number.

use vstd::arithmetic::div_mod::*;
use vstd::arithmetic::mul::*;
use vstd::arithmetic::power2::*;
use vstd::prelude::*;

use crate::float;
use crate::float::{round_off, Real, MANT_ONE, SIGN_BIT};
use crate::text;
use crate::text::{copy_text, digit};

verus! {

/// The value of decimal digits, the lowest first.
pub open spec fn value(d: Seq<u8>) -> nat
    decreases d.len(),
{
    if d.len() == 0 {
        0
    } else {
        d[0] as nat + 10 * value(d.drop_first())
    }
}

spec fn all_digits(d: Seq<u8>) -> bool {
    forall|i: int| 0 <= i < d.len() ==> d[i] < 10
}

/// `10^n`.
pub open spec fn ten(n: nat) -> nat
    decreases n,
{
    if n == 0 {
        1
    } else {
        10 * ten((n - 1) as nat)
    }
}

/// `5^n`.
pub open spec fn five(n: nat) -> nat
    decreases n,
{
    if n == 0 {
        1
    } else {
        5 * five((n - 1) as nat)
    }
}

proof fn lemma_value_push(d: Seq<u8>, x: u8)
    ensures
        value(d.push(x)) == value(d) + x * ten(d.len()),
    decreases d.len(),
{
    if d.len() == 0 {
        assert(d.push(x).drop_first() == Seq::<u8>::empty());
        assert(value(Seq::<u8>::empty()) == 0);
        assert(ten(0) == 1);
        lemma_mul_basics(x as int);
    } else {
        assert(d.push(x).drop_first() == d.drop_first().push(x));
        lemma_value_push(d.drop_first(), x);
        let t = ten((d.len() - 1) as nat);
        assert(10 * (x * t) == x * (10 * t)) by (nonlinear_arith);
    }
}

proof fn lemma_ten_pos(n: nat)
    ensures
        ten(n) > 0,
    decreases n,
{
    if n > 0 {
        lemma_ten_pos((n - 1) as nat);
    }
}

/// Multiplies a number in digits by a small factor.
fn scale(d: &Vec<u8>, f: u64) -> (r: Vec<u8>)
    requires
        all_digits(d@),
        f <= 10,
    ensures
        all_digits(r@),
        value(r@) == f * value(d@),
{
    let mut r: Vec<u8> = Vec::new();
    let mut carry: u64 = 0;
    let mut i: usize = 0;
    proof {
        assert(d@.take(0) == Seq::<u8>::empty());
        assert(value(Seq::<u8>::empty()) == 0);
        lemma_mul_basics(f as int);
    }
    while i < d.len()
        invariant
            all_digits(d@),
            f <= 10,
            i <= d.len(),
            r.len() == i,
            all_digits(r@),
            carry <= 10,
            value(r@) + carry * ten(i as nat) == f * value(d@.take(i as int)),
        decreases d.len() - i,
    {
        assert(f * d@[i as int] <= 90) by (nonlinear_arith)
            requires
                f <= 10,
                d@[i as int] < 10,
        ;
        let x: u64 = f * d[i] as u64 + carry;
        proof {
            assert(d@.take(i as int + 1) == d@.take(i as int).push(d@[i as int]));
            lemma_value_push(d@.take(i as int), d@[i as int]);
            lemma_value_push(r@, (x % 10) as u8);
            let t = ten(i as nat);
            let v = value(d@.take(i as int));
            let di = d@[i as int] as int;
            assert((x % 10) * t + (x / 10) * (10 * t) == x * t) by (nonlinear_arith);
            assert(f * (v + di * t) == f * v + (f * di) * t) by (nonlinear_arith);
            assert(x * t == (f * di) * t + carry * t) by (nonlinear_arith)
                requires
                    x == f * di + carry,
            ;
        }
        r.push((x % 10) as u8);
        carry = x / 10;
        i = i + 1;
    }
    assert(d@.take(d@.len() as int) == d@);
    while carry > 0
        invariant
            all_digits(r@),
            carry <= 10,
            value(r@) + carry * ten(r@.len()) == f * value(d@),
        decreases carry,
    {
        proof {
            lemma_value_push(r@, (carry % 10) as u8);
            let t = ten(r@.len());
            assert((carry % 10) * t + (carry / 10) * (10 * t) == carry * t) by (nonlinear_arith);
        }
        r.push((carry % 10) as u8);
        carry = carry / 10;
    }
    r
}

/// The digits of a small number.
fn digits_of(n: u128) -> (r: Vec<u8>)
    ensures
        all_digits(r@),
        value(r@) == n,
{
    let mut r: Vec<u8> = Vec::new();
    let mut x: u128 = n;
    assert(x as nat * ten(0) == x as nat) by {
        assert(ten(0) == 1);
        lemma_mul_basics(x as int);
    }
    while x > 0
        invariant
            all_digits(r@),
            value(r@) + x * ten(r@.len()) == n,
        decreases x,
    {
        proof {
            lemma_value_push(r@, (x % 10) as u8);
            let t = ten(r@.len());
            assert((x % 10) * t + (x / 10) * (10 * t) == x * t) by (nonlinear_arith);
        }
        r.push((x % 10) as u8);
        x = x / 10;
    }
    r
}

/// The digits of `n * 2^t * 5^s`.
fn scaled_digits(n: u64, t: u32, s: u32) -> (r: Vec<u8>)
    ensures
        all_digits(r@),
        value(r@) == n * pow2(t as nat) * five(s as nat),
{
    let mut r: Vec<u8> = digits_of(n as u128);
    let mut i: u32 = 0;
    proof {
        lemma2_to64();
        assert(n * pow2(0) == n) by {
            assert(pow2(0) == 1);
        }
    }
    while i < t
        invariant
            i <= t,
            all_digits(r@),
            value(r@) == n * pow2(i as nat),
        decreases t - i,
    {
        proof {
            lemma_pow2_unfold((i + 1) as nat);
            let p = pow2(i as nat);
            assert(2 * (n * p) == n * (2 * p)) by (nonlinear_arith);
        }
        r = scale(&r, 2);
        i = i + 1;
    }
    let mut j: u32 = 0;
    let ghost b = n * pow2(t as nat);
    assert(b * five(0) == b) by {
        assert(five(0) == 1);
        lemma_mul_basics(b);
    }
    while j < s
        invariant
            j <= s,
            all_digits(r@),
            value(r@) == b * five(j as nat),
        decreases s - j,
    {
        proof {
            let p = five(j as nat);
            assert(5 * (b * p) == b * (5 * p)) by (nonlinear_arith);
        }
        r = scale(&r, 5);
        j = j + 1;
    }
    r
}

/// Digits with the leading zeros taken away.
fn trimmed(d: &Vec<u8>) -> (r: Vec<u8>)
    requires
        all_digits(d@),
    ensures
        all_digits(r@),
        value(r@) == value(d@),
        r.len() > 0 ==> r@.last() != 0,
{
    let mut r: Vec<u8> = d.clone();
    assert(r@ == d@);
    while r.len() > 0 && r[r.len() - 1] == 0
        invariant
            all_digits(r@),
            value(r@) == value(d@),
        decreases r.len(),
    {
        proof {
            lemma_value_push(r@.drop_last(), 0);
            assert(r@.drop_last().push(0) == r@);
            lemma_mul_basics(ten((r@.len() - 1) as nat) as int);
        }
        r.pop();
    }
    r
}

proof fn lemma_value_bounds(d: Seq<u8>)
    requires
        all_digits(d),
    ensures
        value(d) < ten(d.len()),
        d.len() > 0 && d.last() != 0 ==> value(d) >= ten((d.len() - 1) as nat),
    decreases d.len(),
{
    if d.len() > 0 {
        let e = d.drop_last();
        assert(d == e.push(d.last()));
        lemma_value_push(e, d.last());
        lemma_value_bounds(e);
        let t = ten(e.len());
        let x = d.last() as int;
        assert(x * t <= 9 * t) by (nonlinear_arith)
            requires
                x <= 9,
                t >= 0,
        ;
        if x != 0 {
            assert(x * t >= t) by (nonlinear_arith)
                requires
                    x >= 1,
                    t >= 0,
            ;
        }
    }
}

proof fn lemma_ten_grows(a: nat, b: nat)
    requires
        a <= b,
    ensures
        ten(a) <= ten(b),
    decreases b,
{
    if a < b {
        lemma_ten_grows(a, (b - 1) as nat);
    }
}

/// Whether the first number is the smaller one.
fn below(a: &Vec<u8>, b: &Vec<u8>) -> (r: bool)
    requires
        all_digits(a@),
        all_digits(b@),
    ensures
        r == (value(a@) < value(b@)),
{
    let x: Vec<u8> = trimmed(a);
    let y: Vec<u8> = trimmed(b);
    proof {
        lemma_value_bounds(x@);
        lemma_value_bounds(y@);
    }
    if x.len() < y.len() {
        proof {
            lemma_ten_grows(x@.len(), (y@.len() - 1) as nat);
        }
        return true;
    }
    if y.len() < x.len() {
        proof {
            lemma_ten_grows(y@.len(), (x@.len() - 1) as nat);
        }
        return false;
    }
    let mut r: bool = false;
    let mut i: usize = 0;
    assert(x@.take(0) == Seq::<u8>::empty() && y@.take(0) == Seq::<u8>::empty());
    while i < x.len()
        invariant
            all_digits(x@),
            all_digits(y@),
            i <= x.len(),
            x.len() == y.len(),
            r == (value(x@.take(i as int)) < value(y@.take(i as int))),
        decreases x.len() - i,
    {
        proof {
            let xt = x@.take(i as int);
            let yt = y@.take(i as int);
            assert(x@.take(i as int + 1) == xt.push(x@[i as int]));
            assert(y@.take(i as int + 1) == yt.push(y@[i as int]));
            lemma_value_push(xt, x@[i as int]);
            lemma_value_push(yt, y@[i as int]);
            lemma_value_bounds(xt);
            lemma_value_bounds(yt);
            let t = ten(i as nat);
            let p = x@[i as int] as int;
            let q = y@[i as int] as int;
            if p < q {
                assert(p * t + t <= q * t) by (nonlinear_arith)
                    requires
                        p + 1 <= q,
                        t >= 0,
                ;
            } else if q < p {
                assert(q * t + t <= p * t) by (nonlinear_arith)
                    requires
                        q + 1 <= p,
                        t >= 0,
                ;
            }
        }
        if x[i] < y[i] {
            r = true;
        } else if y[i] < x[i] {
            r = false;
        }
        i = i + 1;
    }
    assert(x@.take(x@.len() as int) == x@ && y@.take(y@.len() as int) == y@);
    r
}

/// The number without its lowest `k` digits.
fn without_low(d: &Vec<u8>, k: usize) -> (r: Vec<u8>)
    requires
        all_digits(d@),
    ensures
        all_digits(r@),
        value(r@) == value(d@) / ten(k as nat),
{
    let mut r: Vec<u8> = Vec::new();
    let mut i: usize = k;
    if k <= d.len() {
        while i < d.len()
            invariant
                all_digits(d@),
                all_digits(r@),
                k <= i <= d.len(),
                r@ == d@.subrange(k as int, i as int),
            decreases d.len() - i,
        {
            r.push(d[i]);
            assert(r@ == d@.subrange(k as int, i as int + 1));
            i = i + 1;
        }
        proof {
            lemma_value_split(d@, k as nat);
        }
    } else {
        proof {
            lemma_value_bounds(d@);
            lemma_ten_grows(d@.len(), k as nat);
            lemma_basic_div(value(d@) as int, ten(k as nat) as int);
        }
    }
    r
}

proof fn lemma_value_split(d: Seq<u8>, k: nat)
    requires
        all_digits(d),
        k <= d.len(),
    ensures
        value(d) / ten(k) == value(d.subrange(k as int, d.len() as int)),
        value(d) % ten(k) == value(d.take(k as int)),
    decreases k,
{
    if k == 0 {
        assert(d.subrange(0, d.len() as int) == d);
        assert(d.take(0) == Seq::<u8>::empty());
        assert(value(d) / 1 == value(d));
    } else {
        let e = d.drop_first();
        lemma_value_split(e, (k - 1) as nat);
        let t = ten((k - 1) as nat) as int;
        lemma_ten_pos((k - 1) as nat);
        assert(e.subrange(k - 1, e.len() as int) == d.subrange(k as int, d.len() as int));
        assert(d.take(k as int).drop_first() == e.take(k - 1));
        assert(d.take(k as int)[0] == d[0]);
        let hi = value(d.subrange(k as int, d.len() as int)) as int;
        let lo = value(e.take(k - 1)) as int;
        lemma_fundamental_div_mod(value(e) as int, t);
        lemma_mod_pos_bound(value(e) as int, t);
        assert(value(e) == t * hi + lo);
        assert(10 * (t * hi + lo) == hi * (10 * t) + 10 * lo) by (nonlinear_arith);
        lemma_fundamental_div_mod_converse(value(d) as int, 10 * t, hi, d[0] + 10 * lo);
    }
}

/// The number with `k` zeros put behind it.
fn with_zeros(d: &Vec<u8>, k: usize) -> (r: Vec<u8>)
    requires
        all_digits(d@),
    ensures
        all_digits(r@),
        value(r@) == value(d@) * ten(k as nat),
{
    let mut r: Vec<u8> = Vec::new();
    let mut i: usize = 0;
    while i < k
        invariant
            i <= k,
            r@ == zeros(i as nat),
        decreases k - i,
    {
        r.push(0);
        assert(r@ == zeros((i + 1) as nat));
        i = i + 1;
    }
    let mut j: usize = 0;
    assert(zeros(k as nat) + d@.take(0) == zeros(k as nat));
    while j < d.len()
        invariant
            j <= d.len(),
            r@ == zeros(k as nat) + d@.take(j as int),
        decreases d.len() - j,
    {
        r.push(d[j]);
        assert(r@ == zeros(k as nat) + d@.take(j as int + 1));
        j = j + 1;
    }
    assert(d@.take(d@.len() as int) == d@);
    proof {
        lemma_value_zeros(d@, k as nat);
    }
    r
}

spec fn zeros(k: nat) -> Seq<u8> {
    Seq::new(k, |i: int| 0u8)
}

proof fn lemma_value_zeros(d: Seq<u8>, k: nat)
    ensures
        value(zeros(k) + d) == value(d) * ten(k),
    decreases k,
{
    if k == 0 {
        assert(zeros(0) + d == d);
        assert(ten(0) == 1);
        lemma_mul_basics(value(d) as int);
    } else {
        lemma_value_zeros(d, (k - 1) as nat);
        assert((zeros(k) + d).drop_first() == zeros((k - 1) as nat) + d);
        assert((zeros(k) + d)[0] == 0);
        let v = value(d);
        let t = ten((k - 1) as nat);
        assert(10 * (v * t) == v * (10 * t)) by (nonlinear_arith);
    }
}

/// The number one larger.
fn successor(d: &Vec<u8>) -> (r: Vec<u8>)
    requires
        all_digits(d@),
    ensures
        all_digits(r@),
        value(r@) == value(d@) + 1,
{
    let mut r: Vec<u8> = Vec::new();
    let mut carry: u8 = 1;
    let mut i: usize = 0;
    proof {
        assert(d@.take(0) == Seq::<u8>::empty());
        assert(value(Seq::<u8>::empty()) == 0);
    }
    while i < d.len()
        invariant
            all_digits(d@),
            all_digits(r@),
            i <= d.len(),
            r.len() == i,
            carry <= 1,
            value(r@) + carry * ten(i as nat) == value(d@.take(i as int)) + 1,
        decreases d.len() - i,
    {
        let x: u8 = d[i] + carry;
        proof {
            assert(d@.take(i as int + 1) == d@.take(i as int).push(d@[i as int]));
            lemma_value_push(d@.take(i as int), d@[i as int]);
            lemma_value_push(r@, (x % 10) as u8);
            let t = ten(i as nat);
            let di = d@[i as int] as int;
            assert((x % 10) * t + (x / 10) * (10 * t) == di * t + carry * t) by (nonlinear_arith)
                requires
                    x == di + carry,
            ;
        }
        r.push(x % 10);
        carry = x / 10;
        i = i + 1;
    }
    assert(d@.take(d@.len() as int) == d@);
    if carry == 1 {
        proof {
            lemma_value_push(r@, 1);
        }
        r.push(1);
    }
    r
}

proof fn lemma_digits_of_value(d: Seq<u8>)
    requires
        all_digits(d),
        d.len() > 0,
        d.last() != 0,
    ensures
        text::digits(value(d)) == Seq::new(
            d.len(),
            |i: int| text::digit_char(d[d.len() - 1 - i] as nat),
        ),
    decreases d.len(),
{
    let s = Seq::new(d.len(), |i: int| text::digit_char(d[d.len() - 1 - i] as nat));
    let e = d.drop_first();
    assert(value(d) == d[0] + 10 * value(e));
    if d.len() == 1 {
        assert(value(e) == 0);
        assert(text::digits(value(d)) == s);
    } else {
        assert(e.last() == d.last());
        lemma_digits_of_value(e);
        lemma_value_bounds(e);
        lemma_ten_pos((e.len() - 1) as nat);
        assert(value(d) >= 10);
        assert(value(d) / 10 == value(e) && value(d) % 10 == d[0]);
        assert(text::digits(value(d)) == s);
    }
}

/// The text of a number in digits.
fn digits_text(d: &Vec<u8>) -> (s: String)
    requires
        all_digits(d@),
    ensures
        s@ == text::digits(value(d@)),
{
    let t: Vec<u8> = trimmed(d);
    let mut s: String = String::new();
    if t.len() == 0 {
        s.push('0');
        assert(s@ == text::digits(0));
        return s;
    }
    let mut i: usize = t.len();
    let ghost full = Seq::new(t@.len(), |i: int| text::digit_char(t@[t@.len() - 1 - i] as nat));
    while i > 0
        invariant
            all_digits(t@),
            i <= t.len(),
            full == Seq::new(t@.len(), |i: int| text::digit_char(t@[t@.len() - 1 - i] as nat)),
            s@ == full.take(t@.len() - i),
        decreases i,
    {
        i = i - 1;
        s.push(digit(t[i]));
        assert(s@ == full.take(t@.len() - i));
    }
    proof {
        lemma_digits_of_value(t@);
        assert(full.take(t@.len() as int) == full);
    }
    s
}

/// The text of the lowest `k` digits, leading zeros kept.
fn low_text(d: &Vec<u8>, k: usize) -> (s: String)
    requires
        all_digits(d@),
    ensures
        s@ == text::padded(value(d@), k as nat),
    decreases k,
{
    if k == 0 {
        return String::new();
    }
    let rest: Vec<u8> = without_low(d, 1);
    assert(ten(1) == 10) by {
        assert(ten(0) == 1);
    }
    let mut s: String = low_text(&rest, k - 1);
    let c: u8 = if d.len() > 0 { d[0] } else { 0 };
    assert(value(d@) % 10 == c) by {
        if d@.len() > 0 {
            assert(value(d@) == d@[0] + 10 * value(d@.drop_first()));
        }
    }
    s.push(digit(c));
    s
}

/// A count of `10^-n` as decimal text with `n` decimals.
pub open spec fn point_text(v: nat, n: nat) -> Seq<char> {
    if n == 0 {
        text::digits(v)
    } else {
        text::digits(v / ten(n)) + seq!['.'] + text::padded(v, n)
    }
}

fn point(d: &Vec<u8>, n: usize) -> (s: String)
    requires
        all_digits(d@),
    ensures
        s@ == point_text(value(d@), n as nat),
{
    if n == 0 {
        return digits_text(d);
    }
    let whole: Vec<u8> = without_low(d, n);
    let mut s: String = digits_text(&whole);
    s.push('.');
    let frac: String = low_text(d, n);
    s.append(frac.as_str());
    assert(s@ == point_text(value(d@), n as nat));
    s
}

/// The text of what is no finite number.
pub open spec fn special_text(x: Real) -> Seq<char> {
    if x.is_nan() {
        "NaN"@
    } else if x.neg() {
        "-inf"@
    } else {
        "inf"@
    }
}

fn special(x: Real) -> (s: String)
    requires
        !x.is_finite(),
    ensures
        s@ == special_text(x),
{
    if x.not_a_number() {
        copy_text("NaN")
    } else if x.bits >= SIGN_BIT {
        copy_text("-inf")
    } else {
        copy_text("inf")
    }
}

/// The magnitude in whole steps of `10^-n`, to the nearest, ties to even.
pub open spec fn decimal_steps(x: Real, n: nat) -> nat {
    if x.unit() >= 0 {
        x.mant() * pow2(x.unit() as nat) * ten(n)
    } else {
        float::round_units(x.mant() * ten(n), false, (-x.unit()) as nat)
    }
}

/// The number with `n` decimals.
pub open spec fn fixed_text(x: Real, n: nat) -> Seq<char> {
    if !x.is_finite() {
        special_text(x)
    } else if x.neg() {
        seq!['-'] + point_text(decimal_steps(x, n), n)
    } else {
        point_text(decimal_steps(x, n), n)
    }
}

/// Writes a number with `n` decimals.
pub fn fixed(x: Real, n: usize) -> (s: String)
    requires
        n <= 6,
    ensures
        s@ == fixed_text(x, n as nat),
{
    if !x.finite() {
        return special(x);
    }
    let m: u64 = x.mantissa();
    let u: i32 = x.unit_of();
    let mut steps: Vec<u8>;
    if u >= 0 {
        let whole: Vec<u8> = scaled_digits(m, u as u32, 0);
        proof {
            assert(five(0) == 1);
            lemma_mul_basics(m * pow2(u as nat));
        }
        steps = with_zeros(&whole, n);
    } else {
        let mut t: u64 = 1;
        let mut i: usize = 0;
        while i < n
            invariant
                i <= n <= 6,
                t == ten(i as nat),
                t <= 1_000_000,
                i == 0 ==> t == 1,
                i == 1 ==> t == 10,
                i == 2 ==> t == 100,
                i == 3 ==> t == 1_000,
                i == 4 ==> t == 10_000,
                i == 5 ==> t == 100_000,
                i == 6 ==> t == 1_000_000,
            decreases n - i,
        {
            t = t * 10;
            i = i + 1;
        }
        assert(m * t <= 0x20_0000_0000_0000 * 1_000_000) by (nonlinear_arith)
            requires
                0 <= m <= 0x20_0000_0000_0000,
                0 <= t <= 1_000_000,
        ;
        assert(0 <= m * t) by (nonlinear_arith)
            requires
                0 <= m,
                0 <= t,
        ;
        let r: u128 = round_off(m as u128 * t as u128, (-u) as u32);
        steps = digits_of(r);
    }
    let body: String = point(&steps, n);
    if x.bits >= SIGN_BIT {
        let mut s: String = String::new();
        s.push('-');
        s.append(body.as_str());
        assert(s@ == fixed_text(x, n as nat));
        s
    } else {
        body
    }
}

/// `2^e / 10^s` times `c`, in steps of `10^-s`: the exact decimal value of
/// `c * 2^e` where `s` decimals hold it.
pub open spec fn exact_steps(c: nat, e: int) -> nat {
    if e >= 0 {
        c * pow2(e as nat) * five(0)
    } else {
        c * pow2(0) * five((-e) as nat)
    }
}

/// How many decimals the exact value of a multiple of `2^e` needs.
pub open spec fn exact_decimals(e: int) -> nat {
    if e >= 0 {
        0
    } else {
        (-e) as nat
    }
}

/// Whether a decimal value, in the steps of the exact values, reads back as
/// `x`: it lies between the midpoints to the neighbours of `x`, which belong
/// to the number of the two that is even.
pub open spec fn reads_back(x: Real, v: nat) -> bool {
    let m = x.mant();
    let e = x.unit() - 2;
    let down: int = if m == MANT_ONE && x.unit() > -1074 {
        1
    } else {
        2
    };
    let lo = exact_steps((4 * m - down) as nat, e);
    let hi = exact_steps(4 * m + 2, e);
    if m % 2 == 0 {
        lo <= v <= hi
    } else {
        lo < v < hi
    }
}

/// The magnitude of `x` in the steps of its exact decimal value.
pub open spec fn exact_magnitude(x: Real) -> nat {
    exact_steps(4 * x.mant(), x.unit() - 2)
}

/// The count of `10^k` steps at or below the magnitude.
pub open spec fn count_below(x: Real, k: nat) -> nat {
    exact_magnitude(x) / ten(k)
}

/// Whether a decimal value with the lowest `k` digits zero reads back as `x`.
pub open spec fn readable(x: Real, k: nat) -> bool {
    reads_back(x, count_below(x, k) * ten(k)) || reads_back(x, (count_below(x, k) + 1) * ten(k))
}

/// Of the two neighbours with the lowest `k` digits zero, the one that reads
/// back; where both do, the nearer one.
pub open spec fn readable_count(x: Real, k: nat) -> nat {
    let n = count_below(x, k);
    let down = reads_back(x, n * ten(k));
    let up = reads_back(x, (n + 1) * ten(k));
    if up && (!down || 2 * (exact_magnitude(x) - n * ten(k)) >= ten(k)) {
        n + 1
    } else {
        n
    }
}

/// The most digits, no more than `k`, that can be zero.
pub open spec fn spare_digits(x: Real, k: nat) -> nat
    decreases k,
{
    if k == 0 || readable(x, k) {
        k
    } else {
        spare_digits(x, (k - 1) as nat)
    }
}

/// A bound on the digits of exact values.
pub const MOST_DIGITS: u32 = 1100;

/// The shortest decimal text that reads back as the number.
pub open spec fn short_text(x: Real) -> Seq<char> {
    if !x.is_finite() {
        special_text(x)
    } else {
        let body = if x.is_zero() {
            seq!['0']
        } else {
            let k = spare_digits(x, MOST_DIGITS as nat);
            let s = exact_decimals(x.unit() - 2);
            let n = readable_count(x, k);
            if k >= s {
                text::digits(n * ten((k - s) as nat))
            } else {
                point_text(n, (s - k) as nat)
            }
        };
        if x.neg() {
            seq!['-'] + body
        } else {
            body
        }
    }
}

fn exact(c: u64, e: i32) -> (r: Vec<u8>)
    requires
        -1076 <= e <= 1000,
    ensures
        all_digits(r@),
        value(r@) == exact_steps(c as nat, e as int),
{
    if e >= 0 {
        scaled_digits(c, e as u32, 0)
    } else {
        scaled_digits(c, 0, (-e) as u32)
    }
}

/// The two ends between which a decimal value reads back as one number, and
/// whether the ends themselves do.
struct Span {
    lo: Vec<u8>,
    hi: Vec<u8>,
    closed: bool,
}

impl Span {
    spec fn of(self, x: Real) -> bool {
        &&& all_digits(self.lo@)
        &&& all_digits(self.hi@)
        &&& self.closed == (x.mant() % 2 == 0)
        &&& value(self.lo@) == exact_steps(
            (4 * x.mant() - (if x.mant() == MANT_ONE && x.unit() > -1074 {
                1int
            } else {
                2int
            })) as nat,
            x.unit() - 2,
        )
        &&& value(self.hi@) == exact_steps(4 * x.mant() + 2, x.unit() - 2)
    }

    fn holds(&self, v: &Vec<u8>, Ghost(x): Ghost<Real>) -> (r: bool)
        requires
            self.of(x),
            all_digits(v@),
        ensures
            r == reads_back(x, value(v@)),
    {
        if self.closed {
            !below(v, &self.lo) && !below(&self.hi, v)
        } else {
            below(&self.lo, v) && below(v, &self.hi)
        }
    }
}

/// Writes the shortest decimal text that reads back as the number.
pub fn shortest(x: Real) -> (s: String)
    ensures
        s@ == short_text(x),
{
    if !x.finite() {
        return special(x);
    }
    let body: String = if x.zero() {
        let mut z: String = String::new();
        z.push('0');
        assert(z@ == seq!['0']);
        z
    } else {
        shortest_magnitude(x)
    };
    if x.bits >= SIGN_BIT {
        let mut s: String = String::new();
        s.push('-');
        s.append(body.as_str());
        assert(s@ == seq!['-'] + body@);
        s
    } else {
        body
    }
}

fn shortest_magnitude(x: Real) -> (s: String)
    requires
        x.is_finite(),
        !x.is_zero(),
    ensures
        x.neg() ==> seq!['-'] + s@ == short_text(x),
        !x.neg() ==> s@ == short_text(x),
{
    let m: u64 = x.mantissa();
    let u: i32 = x.unit_of();
    let e: i32 = u - 2;
    let down: u64 = if m == MANT_ONE && u > -1074 { 1 } else { 2 };
    assert(m > 0);
    let mag: Vec<u8> = exact(4 * m, e);
    let span: Span = Span { lo: exact(4 * m - down, e), hi: exact(4 * m + 2, e), closed: m % 2 == 0 };
    let s: usize = if e >= 0 { 0 } else { (-e) as usize };
    let mut k: usize = MOST_DIGITS as usize;
    let mut found: bool = false;
    let mut count: Vec<u8> = without_low(&mag, 0);
    let ghost top = MOST_DIGITS as nat;
    while !found
        invariant
            x.is_finite(),
            span.of(x),
            all_digits(mag@),
            all_digits(count@),
            value(mag@) == exact_magnitude(x),
            top == MOST_DIGITS as nat,
            k <= MOST_DIGITS,
            spare_digits(x, top) == spare_digits(x, k as nat),
            found ==> spare_digits(x, k as nat) == k && value(count@) == readable_count(
                x,
                k as nat,
            ),
        decreases k + (if found { 0int } else { 1int }),
    {
        let n: Vec<u8> = without_low(&mag, k);
        let n1: Vec<u8> = successor(&n);
        let lo: Vec<u8> = with_zeros(&n, k);
        let hi: Vec<u8> = with_zeros(&n1, k);
        let down_ok: bool = span.holds(&lo, Ghost(x));
        let up_ok: bool = span.holds(&hi, Ghost(x));
        if down_ok || up_ok || k == 0 {
            // The nearer one: whether the magnitude lies above the middle.
            let twice: Vec<u8> = scale(&mag, 2);
            let mid: Vec<u8> = with_zeros(&successor(&scale(&n, 2)), k);
            let upper: bool = !below(&twice, &mid);
            proof {
                let nv = value(n@) as int;
                let t = ten(k as nat) as int;
                let mv = value(mag@) as int;
                assert((2 * nv + 1) * t == 2 * (nv * t) + t) by (nonlinear_arith);
                assert(upper == (2 * (mv - nv * t) >= t));
            }
            count = if up_ok && (!down_ok || upper) { n1 } else { n };
            found = true;
        } else {
            k = k - 1;
        }
    }
    if k >= s {
        let all: Vec<u8> = with_zeros(&count, k - s);
        digits_text(&all)
    } else {
        point(&count, s - k)
    }
}

} // verus!
