//! How long what ffmpeg is told to play lasts: numbers in filter chains are read
//! back, and the material that a chain takes, at the pace that it plays it, lasts
//! as long as the timeline says.

use vstd::arithmetic::div_mod::*;
use vstd::arithmetic::mul::*;
use vstd::arithmetic::power2::*;
use vstd::prelude::*;

use crate::decimal;
use crate::decimal::ten;
use crate::edl::SegmentV;
use crate::exact;
use crate::exact::{above_zero, apart, fine, one};
use crate::float;
use crate::float::{Real, MANT_ONE};
use crate::graph;
use crate::graph::{FrameV, GraphV, LayerSourceV, LayerV};
use crate::model::ProjectV;
use crate::ops;
use crate::paths;
use crate::render;
use crate::sound;
use crate::text;
use crate::time;
use crate::time::TimeUs;

verus! {

// ---- numbers in texts ----

/// The value of a digit.
pub open spec fn digit_value(c: char) -> nat {
    (c as int - '0' as int) as nat
}

/// A decimal number in a text: its digits as a whole number, how many of them
/// stand behind the point, and whether there is a point.
pub open spec fn read(s: Seq<char>) -> (nat, nat, bool)
    decreases s.len(),
{
    if s.len() == 0 {
        (0, 0, false)
    } else {
        let r = read(s.drop_last());
        if s.last() == '.' {
            (r.0, 0, true)
        } else {
            (
                r.0 * 10 + digit_value(s.last()),
                if r.2 {
                    r.1 + 1
                } else {
                    0
                },
                r.2,
            )
        }
    }
}

/// Whether a text has nothing but digits and points.
pub open spec fn numeric(s: Seq<char>) -> bool {
    forall|i: int| 0 <= i < s.len() ==> '0' <= #[trigger] s[i] <= '9' || s[i] == '.'
}

proof fn lemma_digit(d: nat)
    requires
        d < 10,
    ensures
        digit_value(text::digit_char(d)) == d,
        '0' <= text::digit_char(d) <= '9',
{
}

proof fn lemma_read_digits(n: nat)
    ensures
        read(text::digits(n)) == (n, 0nat, false),
        numeric(text::digits(n)),
        text::digits(n).len() > 0,
        forall|i: int| 0 <= i < text::digits(n).len() ==> #[trigger] text::digits(n)[i] != '.',
    decreases n,
{
    let s = text::digits(n);
    if n < 10 {
        lemma_digit(n);
        assert(s.drop_last() =~= Seq::<char>::empty());
        assert(read(s.drop_last()) == (0nat, 0nat, false));
    } else {
        lemma_read_digits(n / 10);
        lemma_digit(n % 10);
        assert(s.drop_last() =~= text::digits(n / 10));
    }
}

proof fn lemma_ten(n: nat)
    ensures
        ten(n) > 0,
    decreases n,
{
    if n > 0 {
        lemma_ten((n - 1) as nat);
    }
}

proof fn lemma_ten_adds(a: nat, b: nat)
    ensures
        ten(a + b) == ten(a) * ten(b),
    decreases a,
{
    if a == 0 {
        lemma_mul_basics(ten(b) as int);
    } else {
        lemma_ten_adds((a - 1) as nat, b);
        lemma_mul_is_associative(10, ten((a - 1) as nat) as int, ten(b) as int);
    }
}

proof fn lemma_read_padded(prefix: Seq<char>, v: nat, w: nat)
    requires
        read(prefix).2,
        numeric(prefix),
    ensures
        read(prefix + text::padded(v, w)) == (
            read(prefix).0 * ten(w) + v % ten(w),
            read(prefix).1 + w,
            true,
        ),
        numeric(prefix + text::padded(v, w)),
    decreases w,
{
    let s = prefix + text::padded(v, w);
    let x = read(prefix).0;
    if w == 0 {
        assert(s =~= prefix);
        lemma_mul_basics(x as int);
        assert(v % 1 == 0);
    } else {
        let u = (w - 1) as nat;
        lemma_read_padded(prefix, v / 10, u);
        lemma_digit(v % 10);
        lemma_ten(u);
        assert(s.drop_last() =~= prefix + text::padded(v / 10, u));
        assert(s.last() == text::digit_char(v % 10));
        lemma_mod_breakdown(v as int, 10, ten(u) as int);
        let q = ((v / 10) % ten(u)) as int;
        let t = ten(u) as int;
        let d = (v % 10) as int;
        assert((x * t + q) * 10 + d == x * (10 * t) + (10 * q + d)) by (nonlinear_arith);
        assert forall|i: int| 0 <= i < s.len() implies '0' <= #[trigger] s[i] <= '9' || s[i] == '.' by {
            if i < s.len() - 1 {
                assert(s.drop_last()[i] == s[i]);
            }
        }
    }
}

/// A count of decimal steps reads back.
proof fn lemma_read_point(v: nat, n: nat)
    ensures
        read(decimal::point_text(v, n)).0 == v,
        read(decimal::point_text(v, n)).1 == n,
        numeric(decimal::point_text(v, n)),
        decimal::point_text(v, n).len() > 0,
{
    if n == 0 {
        lemma_read_digits(v);
    } else {
        lemma_ten(n);
        let whole = text::digits(v / ten(n));
        lemma_read_digits(v / ten(n));
        let prefix = whole + seq!['.'];
        assert(prefix.drop_last() =~= whole);
        lemma_read_padded(prefix, v, n);
        lemma_fundamental_div_mod(v as int, ten(n) as int);
        lemma_mul_is_commutative(ten(n) as int, (v / ten(n)) as int);
    }
}

// ---- places in texts ----

/// The text behind the first place of a key.
pub open spec fn after(s: Seq<char>, key: Seq<char>) -> Seq<char>
    decreases s.len(),
{
    if s.len() == 0 || s.len() < key.len() {
        Seq::<char>::empty()
    } else if s.take(key.len() as int) == key {
        s.skip(key.len() as int)
    } else {
        after(s.drop_first(), key)
    }
}

/// The text in front of the first place of a character.
pub open spec fn upto(s: Seq<char>, c: char) -> Seq<char>
    decreases s.len(),
{
    if s.len() == 0 || s[0] == c {
        Seq::<char>::empty()
    } else {
        seq![s[0]] + upto(s.drop_first(), c)
    }
}

proof fn lemma_after(prefix: Seq<char>, key: Seq<char>, rest: Seq<char>)
    requires
        key.len() > 0,
        forall|i: int| 0 <= i < prefix.len() ==> #[trigger] prefix[i] != key[0],
    ensures
        after(prefix + key + rest, key) == rest,
    decreases prefix.len(),
{
    let s = prefix + key + rest;
    if prefix.len() == 0 {
        assert(s.take(key.len() as int) =~= key);
        assert(s.skip(key.len() as int) =~= rest);
    } else {
        assert(s[0] == prefix[0]);
        assert(s.take(key.len() as int)[0] != key[0]);
        assert(s.drop_first() =~= prefix.drop_first() + key + rest);
        lemma_after(prefix.drop_first(), key, rest);
    }
}

proof fn lemma_upto(a: Seq<char>, c: char, rest: Seq<char>)
    requires
        forall|i: int| 0 <= i < a.len() ==> #[trigger] a[i] != c,
        rest.len() > 0,
        rest[0] == c,
    ensures
        upto(a + rest, c) == a,
    decreases a.len(),
{
    let s = a + rest;
    if a.len() == 0 {
        assert(s[0] == rest[0]);
        assert(a =~= Seq::<char>::empty());
    } else {
        assert(s[0] == a[0]);
        assert(s.drop_first() =~= a.drop_first() + rest);
        lemma_upto(a.drop_first(), c, rest);
        assert(seq![a[0]] + a.drop_first() =~= a);
    }
}

// ---- what numbers say ----

/// A time in seconds, as it is written for ffmpeg, reads back as the time, to the
/// microsecond.
pub proof fn law_seconds_read_back(t: TimeUs)
    requires
        0 <= t < 8_589_934_592_000_000,
    ensures
        read(render::secs_text(t)).0 == t,
        read(render::secs_text(t)).1 == 6,
        numeric(render::secs_text(t)),
        render::secs_text(t).len() > 0,
{
    let m = Real::of(1_000_000);
    let x = render::in_seconds(t);
    let o = one() as int;
    lemma2_to64();
    lemma2_to64_rest();
    lemma_pow2_pos(1074);
    exact::lemma_whole_is_exact(1_000_000);
    float::lemma_parts(m);
    assert(above_zero(m));
    assert(t * o < pow2(33) * fine(m)) by (nonlinear_arith)
        requires
            t < 8_589_934_592_000_000,
            pow2(33) == 8_589_934_592,
            fine(m) == 1_000_000 * o,
            o > 0,
    ;
    exact::lemma_quotient_near(t as int, m, 33);
    let f = fine(x) as int;
    lemma_pow2_adds(1054, 20);
    lemma_pow2_pos(1054);
    let w = pow2(1054) as int;
    let d = f * 1_000_000 - t * o;
    assert(-o < 2 * d && 2 * d < o) by {
        assert(f * fine(m) == (f * 1_000_000) * o) by (nonlinear_arith)
            requires
                fine(m) == 1_000_000 * o,
        ;
        assert(fine(m) * w == (1_000_000 * w) * o) by (nonlinear_arith)
            requires
                fine(m) == 1_000_000 * o,
        ;
        let a = f * fine(m);
        let b = t * o * o;
        assert(2 * a - 2 * b == (2 * d) * o) by (nonlinear_arith)
            requires
                a == (f * 1_000_000) * o,
                b == t * o * o,
                d == f * 1_000_000 - t * o,
        ;
        assert(-(fine(m) * w) <= 2 * a - 2 * b <= fine(m) * w);
        assert(-(1_000_000 * w) <= 2 * d <= 1_000_000 * w) by (nonlinear_arith)
            requires
                -((1_000_000 * w) * o) <= (2 * d) * o <= (1_000_000 * w) * o,
                o > 0,
        ;
        assert(o == w * 1_048_576);
    }
    // in steps of microseconds
    float::lemma_parts(x);
    reveal_with_fuel(ten, 7);
    assert(ten(6) == 1_000_000);
    let r = decimal::decimal_steps(x, 6) as int;
    let e = r * o - f * 1_000_000;
    assert(-o <= 2 * e <= o) by {
        if x.unit() >= 0 {
            let a = pow2(x.unit() as nat) as int;
            lemma_pow2_adds(x.unit() as nat, 1074);
            assert(r * o == f * 1_000_000) by (nonlinear_arith)
                requires
                    r == x.mant() * a * 1_000_000,
                    f == x.mant() * (a * o),
            ;
        } else {
            let s: nat = (-x.unit()) as nat;
            let n = x.mant() * 1_000_000;
            exact::lemma_round_units_near(n, false, s);
            let b = pow2(s) as int;
            let c = pow2((1074 - s) as nat) as int;
            lemma_pow2_adds(s, (1074 - s) as nat);
            lemma_pow2_pos((1074 - s) as nat);
            let z = 2 * (r * b - n);
            assert(2 * e == z * c) by (nonlinear_arith)
                requires
                    e == r * o - f * 1_000_000,
                    o == b * c,
                    f == x.mant() * c,
                    n == x.mant() * 1_000_000,
                    z == 2 * (r * b - n),
            ;
            assert(-(b * c) <= z * c <= b * c) by (nonlinear_arith)
                requires
                    -b <= z <= b,
                    c > 0,
            ;
        }
    }
    assert(r == t) by (nonlinear_arith)
        requires
            -o <= 2 * (r * o - f * 1_000_000) <= o,
            -o < 2 * (f * 1_000_000 - t * o),
            2 * (f * 1_000_000 - t * o) < o,
            o > 0,
    ;
    lemma_read_point(t as nat, 6);
}

proof fn lemma_five(n: nat)
    ensures
        decimal::five(n) > 0,
        ten(n) == pow2(n) * decimal::five(n),
    decreases n,
{
    if n == 0 {
        lemma2_to64();
    } else {
        let m = (n - 1) as nat;
        lemma_five(m);
        lemma_pow2_unfold(n);
        assert((2 * pow2(m)) * (5 * decimal::five(m)) == 10 * (pow2(m) * decimal::five(m)))
            by (nonlinear_arith);
    }
}

proof fn lemma_spare(x: Real, k: nat)
    requires
        above_zero(x),
    ensures
        decimal::readable(x, decimal::spare_digits(x, k)),
    decreases k,
{
    if k == 0 {
        if !decimal::readable(x, 0) {
            float::lemma_parts(x);
            let m = x.mant();
            let e = x.unit() - 2;
            let mid = decimal::exact_magnitude(x);
            assert(ten(0) == 1);
            lemma_div_basics(mid as int);
            lemma_mul_basics(mid as int);
            lemma_steps(x);
        }
    } else if !decimal::readable(x, k) {
        lemma_spare(x, (k - 1) as nat);
    }
}

/// The steps in which a number is written exactly.
proof fn lemma_steps(x: Real)
    requires
        above_zero(x),
    ensures
        ({
            let m = x.mant();
            let e = x.unit() - 2;
            let down: int = if m == MANT_ONE && x.unit() > -1074 {
                1
            } else {
                2
            };
            let unit = decimal::exact_steps(1, e) as int;
            &&& m >= 1
            &&& unit > 0
            &&& decimal::exact_steps((4 * m - down) as nat, e) == (4 * m - down) * unit
            &&& decimal::exact_steps(4 * m + 2, e) == (4 * m + 2) * unit
            &&& decimal::exact_magnitude(x) == 4 * m * unit
            &&& (4 * m - down) * unit < 4 * m * unit < (4 * m + 2) * unit
            &&& fine(x) * ten(decimal::exact_decimals(e)) == 4 * m * unit * one()
            &&& ten(decimal::exact_decimals(e)) * pow2((x.unit() + 1074) as nat) == 4 * unit * one()
        }),
{
    float::lemma_parts(x);
    let m = x.mant() as int;
    let e = x.unit() - 2;
    let down: int = if m == MANT_ONE && x.unit() > -1074 {
        1
    } else {
        2
    };
    let unit = decimal::exact_steps(1, e) as int;
    let s = decimal::exact_decimals(e);
    let o = one() as int;
    let p = pow2((x.unit() + 1074) as nat) as int;
    lemma2_to64();
    lemma_five(s);
    if e >= 0 {
        let a = pow2(e as nat) as int;
        lemma_pow2_pos(e as nat);
        assert(decimal::five(0) == 1);
        assert(unit == a) by (nonlinear_arith)
            requires
                unit == 1 * a * 1,
        ;
        assert(decimal::exact_steps((4 * m - down) as nat, e) == (4 * m - down) * unit)
            by (nonlinear_arith)
            requires
                decimal::exact_steps((4 * m - down) as nat, e) == (4 * m - down) * a * 1,
                unit == a,
        ;
        assert(decimal::exact_steps((4 * m + 2) as nat, e) == (4 * m + 2) * unit)
            by (nonlinear_arith)
            requires
                decimal::exact_steps((4 * m + 2) as nat, e) == (4 * m + 2) * a * 1,
                unit == a,
        ;
        assert(decimal::exact_magnitude(x) == 4 * m * unit) by (nonlinear_arith)
            requires
                decimal::exact_magnitude(x) == (4 * m) * a * 1,
                unit == a,
        ;
        lemma_pow2_adds(2, e as nat);
        lemma_pow2_adds(x.unit() as nat, 1074);
        assert(p == 4 * unit * o) by (nonlinear_arith)
            requires
                p == (4 * a) * o,
                unit == a,
        ;
        assert(ten(s) == 1);
        lemma_mul_basics(p);
        lemma_mul_basics(fine(x) as int);
    } else {
        let a = decimal::five(s) as int;
        let b = pow2(s) as int;
        assert(s == -e);
        assert(unit == a) by (nonlinear_arith)
            requires
                unit == 1 * 1 * a,
        ;
        assert(decimal::exact_steps((4 * m - down) as nat, e) == (4 * m - down) * unit)
            by (nonlinear_arith)
            requires
                decimal::exact_steps((4 * m - down) as nat, e) == (4 * m - down) * 1 * a,
                unit == a,
        ;
        assert(decimal::exact_steps((4 * m + 2) as nat, e) == (4 * m + 2) * unit)
            by (nonlinear_arith)
            requires
                decimal::exact_steps((4 * m + 2) as nat, e) == (4 * m + 2) * 1 * a,
                unit == a,
        ;
        assert(decimal::exact_magnitude(x) == 4 * m * unit) by (nonlinear_arith)
            requires
                decimal::exact_magnitude(x) == (4 * m) * 1 * a,
                unit == a,
        ;
        lemma_pow2_adds(s, (x.unit() + 1074) as nat);
        lemma_pow2_adds(2, 1074);
        assert(b * p == 4 * o);
        assert(ten(s) * p == 4 * unit * o) by (nonlinear_arith)
            requires
                ten(s) == b * a,
                b * p == 4 * o,
                unit == a,
        ;
    }
    assert(fine(x) * ten(s) == 4 * m * unit * o) by (nonlinear_arith)
        requires
            fine(x) == m * p,
            ten(s) * p == 4 * unit * o,
    ;
    assert((4 * m - down) * unit < 4 * m * unit < (4 * m + 2) * unit) by (nonlinear_arith)
        requires
            unit > 0,
            down >= 1,
    ;
}

/// The text of a number above zero reads as the number, to within half of its
/// last binary place.
pub proof fn law_number_reads_back(x: Real)
    requires
        above_zero(x),
    ensures
        ({
            let s = decimal::short_text(x);
            let r = read(s);
            &&& numeric(s)
            &&& s.len() > 0
            &&& 2 * apart((r.0 * one()) as int, (fine(x) * ten(r.1)) as int) <= ten(r.1) * pow2(
                (x.unit() + 1074) as nat,
            )
        }),
{
    float::lemma_parts(x);
    lemma_steps(x);
    let k = decimal::spare_digits(x, decimal::MOST_DIGITS as nat);
    lemma_spare(x, decimal::MOST_DIGITS as nat);
    let m = x.mant() as int;
    let e = x.unit() - 2;
    let s = decimal::exact_decimals(e);
    let n = decimal::readable_count(x, k);
    let v = (n * ten(k)) as int;
    assert(decimal::reads_back(x, n * ten(k)));
    let unit = decimal::exact_steps(1, e) as int;
    let mid = 4 * m * unit;
    assert((4 * m + 2) * unit == mid + 2 * unit) by (nonlinear_arith)
        requires
            mid == 4 * m * unit,
    ;
    assert((4 * m - 2) * unit == mid - 2 * unit) by (nonlinear_arith)
        requires
            mid == 4 * m * unit,
    ;
    assert((4 * m - 1) * unit >= (4 * m - 2) * unit) by (nonlinear_arith)
        requires
            unit > 0,
    ;
    assert(-2 * unit <= v - mid <= 2 * unit);
    let o = one() as int;
    lemma_pow2_pos(1074);
    lemma_ten(k);
    lemma_ten(s);
    // the number that is read
    let text = decimal::short_text(x);
    let d: nat = if k >= s {
        0
    } else {
        (s - k) as nat
    };
    let c: nat = if k >= s {
        n * ten((k - s) as nat)
    } else {
        n
    };
    if k >= s {
        lemma_read_digits(c);
    } else {
        lemma_read_point(n, d);
    }
    assert(read(text).0 == c && read(text).1 == d);
    lemma_ten(d);
    assert(c * ten(s) == v * ten(d)) by {
        if k >= s {
            lemma_ten_adds((k - s) as nat, s);
            assert((n * ten((k - s) as nat)) * ten(s) == n * ten(k)) by (nonlinear_arith)
                requires
                    ten(k) == ten((k - s) as nat) * ten(s),
            ;
            lemma_mul_basics(v);
        } else {
            lemma_ten_adds(k, d);
            assert(n * (ten(k) * ten(d)) == (n * ten(k)) * ten(d)) by (nonlinear_arith);
        }
    }
    let f = fine(x) as int;
    let ts = ten(s) as int;
    let td = ten(d) as int;
    let p = pow2((x.unit() + 1074) as nat) as int;
    let a = c * o - f * td;
    let g = 2 * (v - mid) * o;
    assert((2 * a) * ts == td * g) by {
        assert((2 * a) * ts == 2 * ((c * ts) * o) - 2 * ((f * ts) * td)) by (nonlinear_arith)
            requires
                a == c * o - f * td,
        ;
        assert(2 * ((v * td) * o) - 2 * ((mid * o) * td) == td * g) by (nonlinear_arith)
            requires
                g == 2 * (v - mid) * o,
        ;
    }
    assert(-(4 * unit * o) <= g <= 4 * unit * o) by (nonlinear_arith)
        requires
            -2 * unit <= v - mid <= 2 * unit,
            o > 0,
            g == 2 * (v - mid) * o,
    ;
    assert(-(td * p) <= 2 * a <= td * p) by (nonlinear_arith)
        requires
            (2 * a) * ts == td * g,
            -(ts * p) <= g <= ts * p,
            ts > 0,
            td > 0,
    ;
}

/// A speed that is not told from one differs from it by a part in a hundred
/// million at the most.
#[verifier::spinoff_prover]
#[verifier::rlimit(60)]
pub proof fn lemma_near_one(x: Real)
    requires
        above_zero(x),
        !(Real { bits: sound::NEAR_BITS }).less(x.minus(Real::of(1)).magn()),
    ensures
        apart(fine(x) as int, one() as int) * 100_000_000 <= one(),
{
    let near = Real { bits: sound::NEAR_BITS };
    let u = Real::of(1);
    let v = u.negated();
    let o = one() as int;
    lemma2_to64();
    lemma2_to64_rest();
    lemma_pow2_pos(1074);
    exact::lemma_whole_is_exact(1);
    float::lemma_parts(x);
    float::lemma_parts(u);
    assert(v.neg() && v.magnitude() == u.magnitude());
    assert(v.mant() == u.mant() && v.unit() == u.unit());
    let k = if x.unit() < v.unit() {
        x.unit()
    } else {
        v.unit()
    };
    let a = (x.mant() * pow2((x.unit() - k) as nat)) as int;
    let b = (u.mant() * pow2((u.unit() - k) as nat)) as int;
    let w = pow2((k + 1074) as nat) as int;
    lemma_pow2_adds((x.unit() - k) as nat, (k + 1074) as nat);
    lemma_pow2_adds((u.unit() - k) as nat, (k + 1074) as nat);
    lemma_mul_is_associative(x.mant() as int, pow2((x.unit() - k) as nat) as int, w);
    lemma_mul_is_associative(u.mant() as int, pow2((u.unit() - k) as nat) as int, w);
    assert(fine(x) == a * w && fine(u) == b * w);
    assert(o == b * w);
    lemma_pow2_pos((k + 1074) as nat);
    let sum = a - b;
    let e = apart(fine(x) as int, o);
    let n = apart(a, b) as nat;
    assert(e == n * w) by (nonlinear_arith)
        requires
            fine(x) == a * w,
            o == b * w,
            e == (if fine(x) < o { o - fine(x) } else { fine(x) - o }),
            n == (if a < b { b - a } else { a - b }),
            w > 0 || a == b,
    {
        if a < b {
            assert(a * w <= b * w) by (nonlinear_arith)
                requires
                    a < b,
                    w > 0,
            ;
        } else {
            assert(a * w >= b * w) by (nonlinear_arith)
                requires
                    a >= b,
                    w > 0 || a == b,
            ;
        }
    }
    if sum == 0 {
        lemma_mul_basics(w);
    } else {
        let y = float::nearest(sum < 0, n, false, k);
        assert(x.minus(u) == y);
        float::lemma_nearest_is_number(sum < 0, n, false, k);
        let z = y.magn();
        assert(z.magnitude() == y.magnitude());
        assert(y.magnitude() <= sound::NEAR_BITS);
        let q = float::unit_exponent(n, k, 53, -1074);
        let m = float::units(n, false, k, q);
        if q > -1074 {
            exact::lemma_units_full(n, false, k);
        }
        assert(q <= 0) by {
            if q > 0 {
                assert((q + 1074) * MANT_ONE >= 1074 * MANT_ONE) by (nonlinear_arith)
                    requires
                        q > 0,
                ;
            }
        }
        exact::lemma_nearest_value(sum < 0, n, false, k);
        float::lemma_value_order(y, near);
        let f: nat = (q + 1074) as nat;
        lemma_pow2_pos(f);
        let p = pow2(f) as int;
        assert(fine(y) == m * p);
        assert(2 * apart(m * p, e) <= p) by {
            if q <= k {
                let d: nat = (k - q) as nat;
                lemma_pow2_adds(d, f);
                lemma_mul_is_associative(n as int, pow2(d) as int, p);
            } else {
                let d: nat = (q - k) as nat;
                let c = pow2(d) as int;
                exact::lemma_round_units_near(n, false, d);
                lemma_pow2_adds(d, (k + 1074) as nat);
                let g = 2 * (m * c - n);
                assert(2 * (m * p) - 2 * e == g * w) by (nonlinear_arith)
                    requires
                        p == c * w,
                        e == n * w,
                        g == 2 * (m * c - n),
                ;
                lemma_pow2_pos((k + 1074) as nat);
                assert(-(c * w) <= g * w <= c * w) by (nonlinear_arith)
                    requires
                        -c <= g <= c,
                        w > 0,
                ;
            }
        }
        assert(e <= 2 * fine(y)) by {
            if m == 0 {
                assert(q == -1074);
                lemma_mul_basics(p);
                assert(p == 1);
            } else {
                assert(p <= m * p) by (nonlinear_arith)
                    requires
                        m >= 1,
                        p > 0,
                ;
            }
        }
        // the bound itself
        let nm = near.mant() as int;
        assert(near.unit() == -82 && nm <= 4_900_000_000_000_000) by {
            assert(sound::NEAR_BITS as int / MANT_ONE as int == 993);
            assert(sound::NEAR_BITS as int % MANT_ONE as int <= 390_000_000_000_000);
        }
        let du: nat = (near.unit() - y.unit()) as nat;
        let yu = pow2((y.unit() + 1074) as nat) as int;
        lemma_pow2_adds(du, (y.unit() + 1074) as nat);
        lemma_pow2_pos((y.unit() + 1074) as nat);
        assert(fine(y) <= fine(near)) by (nonlinear_arith)
            requires
                fine(y) == y.mant() * yu,
                y.mant() <= nm * pow2(du),
                fine(near) == nm * (pow2(du) * yu),
                yu > 0,
        ;
        let t = pow2(992) as int;
        lemma_pow2_adds(992, 82);
        lemma_pow2_adds(64, 18);
        lemma_pow2_pos(992);
        assert(2 * fine(near) * 100_000_000 <= o) by (nonlinear_arith)
            requires
                fine(near) == nm * t,
                nm <= 4_900_000_000_000_000,
                o == t * pow2(82),
                pow2(82) == 0x1_0000_0000_0000_0000 * 262144,
                t > 0,
        ;
    }
}

// ---- chains of material ----

/// How far the material of a chain goes that starts with it, in seconds.
pub open spec fn material_of(chain: Seq<char>) -> (nat, nat) {
    let r = read(upto(after(chain, "trim=start=0:end="@), ','));
    (r.0, r.1)
}

/// What a chain does to the time stamps of its material.
pub open spec fn stamps_of(chain: Seq<char>) -> Seq<char> {
    upto(after(after(chain, "trim=start=0:end="@), ",setpts="@), ',')
}

/// What time stamps are multiplied with, as a ratio: from their start they are
/// taken as they are, or divided by a number, or multiplied with one.
pub open spec fn stretch_of(stamps: Seq<char>) -> Option<(nat, nat)> {
    let n = "(PTS-STARTPTS)/"@.len() as int;
    if stamps == "PTS-STARTPTS"@ {
        Some((1, 1))
    } else if text::starts(stamps, "(PTS-STARTPTS)/"@) {
        let r = read(stamps.skip(n));
        Some((ten(r.1), r.0))
    } else if text::starts(stamps, "(PTS-STARTPTS)*"@) {
        let r = read(stamps.skip(n));
        Some((r.0, ten(r.1)))
    } else {
        None
    }
}

/// Whether a chain plays its material in so many microseconds: to within three
/// microseconds and a part in ten million.
pub open spec fn lasts(chain: Seq<char>, length: int) -> bool {
    match stretch_of(stamps_of(chain)) {
        Some(x) => {
            let m = material_of(chain);
            let num = m.0 * 1_000_000 * x.0;
            let den = ten(m.1) * x.1;
            den > 0 && apart(num as int, length * den) * 10_000_000 <= 30_000_000 * den + num
        },
        None => false,
    }
}

/// The number of the input that a chain takes its material from.
pub open spec fn input_of(chain: Seq<char>) -> nat {
    read(upto(after(chain, "["@), ':')).0
}

proof fn lemma_no_char(s: Seq<char>, c: char)
    requires
        numeric(s),
        c != '.',
        !('0' <= c <= '9'),
    ensures
        forall|i: int| 0 <= i < s.len() ==> #[trigger] s[i] != c,
{
}

/// Material at a speed, and how long it takes.
proof fn lemma_time_taken(material: TimeUs, speed: Real)
    requires
        0 < material < pow2(53),
        above_zero(speed),
        material * one() < pow2(53) * fine(speed),
    ensures
        ({
            let r = read(decimal::short_text(speed));
            let l = ops::divided_time(material, speed) as int;
            &&& r.0 > 0
            &&& apart(material * ten(r.1), l * r.0) <= 3 * r.0
        }),
        !(Real { bits: sound::NEAR_BITS }).less(speed.minus(Real::of(1)).magn()) ==> apart(
            material as int,
            ops::divided_time(material, speed) as int,
        ) * 10_000_000 <= 10_000_000 + material,
{
    law_number_reads_back(speed);
    exact::law_divided_time(material, speed);
    exact::lemma_fine_positive(speed);
    float::lemma_parts(speed);
    lemma2_to64();
    lemma2_to64_rest();
    lemma_pow2_pos(1074);
    let r = read(decimal::short_text(speed));
    let o = one() as int;
    let s = fine(speed) as int;
    let v = r.0 as int;
    let t = ten(r.1) as int;
    let m = material as int;
    let l = ops::divided_time(material, speed) as int;
    lemma_ten(r.1);
    let p = pow2((speed.unit() + 1074) as nat) as int;
    lemma_pow2_pos((speed.unit() + 1074) as nat);
    // the speed is large enough to have all its digits
    assert(speed.mant() >= MANT_ONE) by {
        if speed.unit() == -1074 {
            assert(p == 1);
            lemma_mul_basics(speed.mant() as int);
            assert(s < pow2(53));
            lemma_pow2_adds(53, 53);
            lemma_pow2_strictly_increases(106, 1074);
            assert(m * o >= o) by (nonlinear_arith)
                requires
                    m >= 1,
                    o > 0,
            ;
            assert(pow2(53) * s < pow2(53) * pow2(53)) by (nonlinear_arith)
                requires
                    s < pow2(53),
                    pow2(53) > 0,
            ;
        }
    }
    assert(p * 0x10_0000_0000_0000 <= s) by (nonlinear_arith)
        requires
            s == speed.mant() * p,
            speed.mant() >= 0x10_0000_0000_0000,
            p > 0,
    ;
    let d = v * o - s * t;
    let big: int = 0x20_0000_0000_0000;
    assert(-(t * s) <= d * big <= t * s) by (nonlinear_arith)
        requires
            -(t * p) <= 2 * d <= t * p,
            p * 0x10_0000_0000_0000 <= s,
            t > 0,
            big == 0x20_0000_0000_0000,
    ;
    assert(t * s > 0) by (nonlinear_arith)
        requires
            t > 0,
            s > 0,
    ;
    assert(v * o * big >= t * s * (big - 1)) by (nonlinear_arith)
        requires
            -(t * s) <= d * big,
            d == v * o - s * t,
    ;
    assert(v > 0) by (nonlinear_arith)
        requires
            v * o * big >= t * s * (big - 1),
            t * s > 0,
            big == 0x20_0000_0000_0000,
            o > 0,
    ;
    // both sides in common units
    let ts = t * s;
    let x = m * t - l * v;
    let c = l * s - m * o;
    assert(x * o == -(c * t) - l * d) by {
        lemma_mul_is_distributive_sub_other_way(o, m * t, l * v);
        lemma_mul_is_distributive_sub_other_way(t, l * s, m * o);
        lemma_mul_is_distributive_sub(l, v * o, s * t);
        lemma_mul_is_associative(m, t, o);
        lemma_mul_is_associative(m, o, t);
        lemma_mul_is_commutative(t, o);
        lemma_mul_is_associative(l, v, o);
        lemma_mul_is_associative(l, s, t);
    }
    assert(-ts <= c * t <= ts) by (nonlinear_arith)
        requires
            -s <= c <= s,
            t > 0,
            ts == t * s,
    ;
    let y = l * d;
    assert(-(ts * (big + 1)) <= y * big <= ts * (big + 1)) by (nonlinear_arith)
        requires
            y == l * d,
            0 <= l <= big + 1,
            -ts <= d * big <= ts,
            ts > 0,
    ;
    let z = v * o;
    assert(-(3 * z * big) <= (x * o) * big <= 3 * z * big) by (nonlinear_arith)
        requires
            x * o == -(c * t) - y,
            -ts <= c * t <= ts,
            -(ts * (big + 1)) <= y * big <= ts * (big + 1),
            z * big >= ts * (big - 1),
            big == 0x20_0000_0000_0000,
            ts > 0,
    ;
    assert(-3 * v <= x <= 3 * v) by (nonlinear_arith)
        requires
            -(3 * z * big) <= (x * o) * big <= 3 * z * big,
            z == v * o,
            big > 0,
            o > 0,
    ;
    if !(Real { bits: sound::NEAR_BITS }).less(speed.minus(Real::of(1)).magn()) {
        lemma_near_one(speed);
        let h = l - m;
        assert(h * s == c + m * (o - s)) by (nonlinear_arith)
            requires
                h == l - m,
                c == l * s - m * o,
        ;
        let g = m * (o - s);
        assert(-(m * o) <= g * 100_000_000 <= m * o) by (nonlinear_arith)
            requires
                g == m * (o - s),
                -o <= (o - s) * 100_000_000 <= o,
                m > 0,
        ;
        assert(m * o <= 2 * (m * s)) by (nonlinear_arith)
            requires
                o <= 2 * s,
                m > 0,
        ;
        assert(-(100_000_000 + 2 * m) <= h * 100_000_000 <= 100_000_000 + 2 * m)
            by (nonlinear_arith)
            requires
                h * s == c + g,
                -s <= c <= s,
                -(2 * (m * s)) <= g * 100_000_000 <= 2 * (m * s),
                s > 0,
        ;
    }
}

/// A chain that takes an input, trims its start and sets its time stamps.
spec fn made(idx: nat, material: TimeUs, stamps: Seq<char>, tail: Seq<char>) -> Seq<char> {
    "["@ + text::digits(idx) + ":v]trim=start=0:end="@ + render::secs_text(material) + ","@ + (
    "setpts="@ + stamps) + ","@ + tail
}

/// Such a chain, read back.
proof fn lemma_chain(idx: nat, material: TimeUs, stamps: Seq<char>, tail: Seq<char>)
    requires
        0 <= material < 8_589_934_592_000_000,
        forall|i: int| 0 <= i < stamps.len() ==> #[trigger] stamps[i] != ',',
    ensures
        ({
            let chain = made(idx, material, stamps, tail);
            &&& input_of(chain) == idx
            &&& material_of(chain) == (material as nat, 6nat)
            &&& stamps_of(chain) == stamps
        }),
{
    let open = "["@;
    let mid = ":v]"@;
    let key = "trim=start=0:end="@;
    let both = ":v]trim=start=0:end="@;
    let comma = ","@;
    let sp = "setpts="@;
    let key2 = ",setpts="@;
    reveal_strlit("[");
    reveal_strlit(":v]");
    reveal_strlit("trim=start=0:end=");
    reveal_strlit(":v]trim=start=0:end=");
    reveal_strlit(",");
    reveal_strlit("setpts=");
    reveal_strlit(",setpts=");
    assert(both =~= mid + key);
    assert(key2 =~= comma + sp);
    let n = text::digits(idx);
    let secs = render::secs_text(material);
    law_seconds_read_back(material);
    lemma_read_digits(idx);
    let end = stamps + (comma + tail);
    let rest = secs + key2 + end;
    let chain = open + n + both + secs + comma + (sp + stamps) + comma + tail;
    let prefix = open + n + mid;
    assert(chain =~= prefix + key + rest);
    assert forall|i: int| 0 <= i < prefix.len() implies #[trigger] prefix[i] != key[0] by {
        if 1 <= i < 1 + n.len() {
            assert(prefix[i] == n[i - 1]);
        }
    }
    lemma_after(prefix, key, rest);
    lemma_no_char(secs, ',');
    assert(rest =~= secs + (key2 + end));
    assert((key2 + end)[0] == ',');
    lemma_upto(secs, ',', key2 + end);
    lemma_after(secs, key2, end);
    assert((comma + tail)[0] == ',');
    lemma_upto(stamps, ',', comma + tail);
    // the input
    let more = mid + key + rest;
    assert(chain =~= Seq::<char>::empty() + open + (n + more));
    lemma_after(Seq::<char>::empty(), open, n + more);
    lemma_no_char(n, ':');
    assert(more[0] == ':');
    lemma_upto(n, ':', more);
}

/// The time stamps of a chain that plays at a speed.
proof fn lemma_stamps(speed: Real)
    requires
        above_zero(speed),
    ensures
        ({
            let r = read(decimal::short_text(speed));
            let s = "(PTS-STARTPTS)/"@ + decimal::short_text(speed);
            &&& stretch_of(s) == Some((ten(r.1), r.0))
            &&& forall|i: int| 0 <= i < s.len() ==> #[trigger] s[i] != ','
        }),
        stretch_of("PTS-STARTPTS"@) == Some((1nat, 1nat)),
        forall|i: int|
            0 <= i < "PTS-STARTPTS"@.len() ==> #[trigger] "PTS-STARTPTS"@[i] != ',',
{
    let a = "(PTS-STARTPTS)/"@;
    let x = decimal::short_text(speed);
    let s = a + x;
    law_number_reads_back(speed);
    lemma_no_char(x, ',');
    reveal_strlit("(PTS-STARTPTS)/");
    reveal_strlit("PTS-STARTPTS");
    assert(s.skip(a.len() as int) =~= x);
    assert(s.take(a.len() as int) =~= a);
    assert(s[0] == '(' && "PTS-STARTPTS"@[0] == 'P');
    assert forall|i: int| 0 <= i < s.len() implies #[trigger] s[i] != ',' by {
        if i >= a.len() {
            assert(s[i] == x[i - a.len()]);
        }
    }
}

/// Whether material at a speed is neither empty nor longer than 272 years, before
/// and after.
pub open spec fn measured(material: int, speed: Real) -> bool {
    &&& above_zero(speed)
    &&& 0 < material < 8_589_934_592_000_000
    &&& material * one() < pow2(53) * fine(speed)
}

/// A number of an input of a graph, and what is there: the file from a time on.
pub open spec fn takes(g: GraphV, n: nat, path: Seq<char>, seek: TimeUs) -> bool {
    &&& n < g.inputs.len()
    &&& paths::same_path(g.inputs[n as int].path, path, g.windows)
    &&& g.inputs[n as int].seek == if paths::is_image(path, g.windows) {
        0
    } else {
        time::max_time(seek, 0)
    }
}

/// An input that is asked for is in the list then, in its place.
pub proof fn lemma_input(inputs: Seq<graph::InputV>, x: graph::InputV, windows: bool)
    ensures
        ({
            let i = graph::input_pos(inputs, x, windows);
            let all = graph::with_input(inputs, x, windows);
            &&& i < all.len()
            &&& paths::same_path(all[i as int].path, x.path, windows)
            &&& all[i as int].seek == x.seek
            &&& i <= inputs.len()
        }),
    decreases inputs.len(),
{
    if inputs.len() > 0 && !(paths::same_path(inputs[0].path, x.path, windows) && inputs[0].seek
        == x.seek) {
        let rest = inputs.drop_first();
        lemma_input(rest, x, windows);
        let i = graph::input_pos(rest, x, windows);
        if i < rest.len() {
            assert(rest[i as int] == inputs[i as int + 1]);
        }
    }
    paths::law_same_path(x.path, x.path, x.path, windows);
}

/// The chain of a segment plays the material of the segment for as long as the
/// segment lasts, at every speed: it takes the file of the asset from the first
/// place of the segment on, as much of it as the segment has, and what it does to
/// the time stamps makes that last as long as the segment does.
pub proof fn law_segment_lasts(
    g: GraphV,
    p: ProjectV,
    base: Seq<char>,
    f: FrameV,
    seg: SegmentV,
    k: nat,
)
    requires
        seg is Source,
        measured(seg->Source_src_out - seg->Source_src_in, seg->Source_speed),
    ensures
        ({
            let after = graph::segment_stage(g, p, base, f, seg, k);
            let chain = after.fc.last();
            &&& after.fc.len() == g.fc.len() + 1
            &&& after.fc.drop_last() == g.fc
            &&& takes(
                after,
                input_of(chain),
                graph::asset_file(p, base, seg->Source_asset_id, g.windows),
                seg->Source_src_in,
            )
            &&& material_of(chain) == (
                (seg->Source_src_out - seg->Source_src_in) as nat,
                6nat,
            )
            &&& lasts(chain, seg.length() as int)
        }),
{
    lemma2_to64();
    lemma2_to64_rest();
    if let SegmentV::Source { asset_id, src_in, src_out, speed, .. } = seg {
        let m = time::sooner(src_out, src_in);
        let file = graph::asset_file(p, base, asset_id, g.windows);
        let idx = g.number(file, src_in);
        lemma_input(g.inputs, graph::input_for(file, src_in, g.windows), g.windows);
        lemma_time_taken(m, speed);
        lemma_stamps(speed);
        lemma_segment_text(g, p, base, f, seg, k);
        let after = graph::segment_stage(g, p, base, f, seg, k);
        let chain = after.fc.last();
        let d = ops::divided_time(m, speed) as int;
        let r = read(decimal::short_text(speed));
        if graph::off_speed(speed) {
            let slash = "(PTS-STARTPTS)/"@ + decimal::short_text(speed);
            lemma_chain(idx, m, slash, segment_tail(f, seg, k));
            lemma_lasts(chain, m as int, ten(r.1), r.0, d);
        } else {
            lemma_chain(idx, m, "PTS-STARTPTS"@, segment_tail(f, seg, k));
            lemma_lasts_as_is(chain, m as int, d);
        }
    }
}

spec fn segment_tail(f: FrameV, seg: SegmentV, k: nat) -> Seq<char> {
    graph::leading(seg->Source_vf) + graph::norm_text(f) + "["@ + ("v"@ + text::digits(k)) + "]"@
}

proof fn lemma_regroup(
    a: Seq<char>,
    c: Seq<char>,
    st: Seq<char>,
    l: Seq<char>,
    n: Seq<char>,
    o: Seq<char>,
    v: Seq<char>,
    e: Seq<char>,
)
    ensures
        a + c + st + c + l + n + o + v + e == a + c + st + c + (l + n + o + v + e),
{
    assert(a + c + st + c + l + n + o + v + e =~= a + c + st + c + (l + n + o + v + e));
}

proof fn lemma_stamp_words()
    ensures
        "setpts=(PTS-STARTPTS)/"@ == "setpts="@ + "(PTS-STARTPTS)/"@,
        "setpts=PTS-STARTPTS"@ == "setpts="@ + "PTS-STARTPTS"@,
{
    reveal_strlit("setpts=(PTS-STARTPTS)/");
    reveal_strlit("setpts=PTS-STARTPTS");
    reveal_strlit("setpts=");
    reveal_strlit("(PTS-STARTPTS)/");
    reveal_strlit("PTS-STARTPTS");
    assert("setpts=(PTS-STARTPTS)/"@ =~= "setpts="@ + "(PTS-STARTPTS)/"@);
    assert("setpts=PTS-STARTPTS"@ =~= "setpts="@ + "PTS-STARTPTS"@);
}

proof fn lemma_segment_text(
    g: GraphV,
    p: ProjectV,
    base: Seq<char>,
    f: FrameV,
    seg: SegmentV,
    k: nat,
)
    requires
        seg is Source,
    ensures
        ({
            let after = graph::segment_stage(g, p, base, f, seg, k);
            let speed = seg->Source_speed;
            let file = graph::asset_file(p, base, seg->Source_asset_id, g.windows);
            let stamps = if graph::off_speed(speed) {
                "(PTS-STARTPTS)/"@ + decimal::short_text(speed)
            } else {
                "PTS-STARTPTS"@
            };
            &&& after.fc.len() == g.fc.len() + 1
            &&& after.fc.drop_last() == g.fc
            &&& after.inputs == g.taking(file, seg->Source_src_in).inputs
            &&& after.windows == g.windows
            &&& after.fc.last() == made(
                g.number(file, seg->Source_src_in),
                time::sooner(seg->Source_src_out, seg->Source_src_in),
                stamps,
                segment_tail(f, seg, k),
            )
        }),
{
    reveal(graph::segment_stage);
    let after = graph::segment_stage(g, p, base, f, seg, k);
    assert(after.fc.drop_last() =~= g.fc);
    if let SegmentV::Source { asset_id, src_in, src_out, speed, vf, .. } = seg {
        let m = time::sooner(src_out, src_in);
        let file = graph::asset_file(p, base, asset_id, g.windows);
        let idx = g.number(file, src_in);
        let head = "["@ + text::digits(idx) + ":v]trim=start=0:end="@ + render::secs_text(m);
        lemma_stamp_words();
        let x = decimal::short_text(speed);
        assert("setpts="@ + "(PTS-STARTPTS)/"@ + x =~= "setpts="@ + ("(PTS-STARTPTS)/"@ + x));
        let st = if graph::off_speed(speed) {
            "setpts=(PTS-STARTPTS)/"@ + x
        } else {
            "setpts=PTS-STARTPTS"@
        };
        lemma_regroup(
            head,
            ","@,
            st,
            graph::leading(vf),
            graph::norm_text(f),
            "["@,
            "v"@ + text::digits(k),
            "]"@,
        );
    }
}

proof fn lemma_lasts(chain: Seq<char>, m: int, t: nat, v: nat, l: int)
    requires
        m >= 0,
        material_of(chain) == (m as nat, 6nat),
        stretch_of(stamps_of(chain)) == Some((t, v)),
        v > 0,
        apart(m * t, l * v) <= 3 * v,
    ensures
        lasts(chain, l),
{
    reveal_with_fuel(ten, 7);
    assert(ten(6) == 1_000_000);
    lemma_ratio(
        m * t,
        l * v,
        v as int,
        m * 1_000_000 * t,
        l * (1_000_000 * v),
        m,
        t as int,
        l,
    );
}

proof fn lemma_lasts_as_is(chain: Seq<char>, m: int, l: int)
    requires
        m >= 0,
        material_of(chain) == (m as nat, 6nat),
        stretch_of(stamps_of(chain)) == Some((1nat, 1nat)),
        apart(m, l) * 10_000_000 <= 10_000_000 + m,
    ensures
        lasts(chain, l),
{
    reveal_with_fuel(ten, 7);
    assert(ten(6) == 1_000_000);
    let w = material_of(chain);
    let num = w.0 * 1_000_000 * 1nat;
    let den = ten(w.1) * 1nat;
    assert(num == m * 1_000_000 && den == 1_000_000);
    assert(l * den == l * 1_000_000);
    assert(apart(num as int, l * den) == apart(m, l) * 1_000_000);
}

proof fn lemma_ratio(a: int, b: int, v: int, num: int, den: int, m: int, t: int, l: int)
    requires
        a == m * t,
        b == l * v,
        num == m * 1_000_000 * t,
        den == l * (1_000_000 * v),
        apart(a, b) <= 3 * v,
        m >= 0,
        t >= 0,
    ensures
        apart(num, den) <= 3 * (1_000_000 * v),
        num >= 0,
{
    assert(num == 1_000_000 * a) by (nonlinear_arith)
        requires
            a == m * t,
            num == m * 1_000_000 * t,
    ;
    assert(den == 1_000_000 * b) by (nonlinear_arith)
        requires
            b == l * v,
            den == l * (1_000_000 * v),
    ;
    assert(a >= 0) by (nonlinear_arith)
        requires
            a == m * t,
            m >= 0,
            t >= 0,
    ;
}

/// The chain of a layer of material plays it for as long as the layer lasts, at
/// every speed.
pub proof fn law_layer_lasts(
    g: GraphV,
    p: ProjectV,
    base: Seq<char>,
    f: FrameV,
    l: LayerV,
    k: nat,
)
    requires
        l.source is Media,
        measured(
            l.source->Media_src_out - l.source->Media_src_in,
            l.source->Media_speed,
        ),
    ensures
        ({
            let after = graph::layer_source(g, p, base, f, l, k);
            let chain = after.fc.last();
            &&& after.fc.len() == g.fc.len() + 1
            &&& takes(
                after,
                input_of(chain),
                graph::asset_file(p, base, l.source->Media_asset_id, g.windows),
                l.source->Media_src_in,
            )
            &&& material_of(chain) == (
                (l.source->Media_src_out - l.source->Media_src_in) as nat,
                6nat,
            )
            &&& lasts(
                chain,
                ops::divided_time(
                    (l.source->Media_src_out - l.source->Media_src_in) as i64,
                    l.source->Media_speed,
                ) as int,
            )
        }),
{
    lemma2_to64();
    lemma2_to64_rest();
    let after = graph::layer_source(g, p, base, f, l, k);
    if let LayerSourceV::Media { asset_id, src_in, src_out, speed } = l.source {
        let m = time::sooner(src_out, src_in);
        let file = graph::asset_file(p, base, asset_id, g.windows);
        let idx = g.number(file, src_in);
        lemma_input(g.inputs, graph::input_for(file, src_in, g.windows), g.windows);
        lemma_time_taken(m, speed);
        lemma_stamps(speed);
        let r = read(decimal::short_text(speed));
        let slash = "(PTS-STARTPTS)/"@ + decimal::short_text(speed);
        let tail = "format=rgba,fps="@ + f.fps + "[ly"@ + text::digits(k) + "p]"@;
        lemma_layer_text(idx, m, decimal::short_text(speed), f.fps, text::digits(k));
        lemma_chain(idx, m, slash, tail);
        lemma_lasts(after.fc.last(), m as int, ten(r.1), r.0, ops::divided_time(m, speed) as int);
    }
}

proof fn lemma_layer_words()
    ensures
        ",setpts=(PTS-STARTPTS)/"@ == ","@ + ("setpts="@ + "(PTS-STARTPTS)/"@),
        ",format=rgba,fps="@ == ","@ + "format=rgba,fps="@,
{
    reveal_strlit(",setpts=(PTS-STARTPTS)/");
    reveal_strlit("setpts=");
    reveal_strlit("(PTS-STARTPTS)/");
    reveal_strlit(",format=rgba,fps=");
    reveal_strlit("format=rgba,fps=");
    reveal_strlit(",");
    assert(",setpts=(PTS-STARTPTS)/"@ =~= ","@ + ("setpts="@ + "(PTS-STARTPTS)/"@));
    assert(",format=rgba,fps="@ =~= ","@ + "format=rgba,fps="@);
}

proof fn lemma_regroup_layer(
    a: Seq<char>,
    c: Seq<char>,
    s: Seq<char>,
    q: Seq<char>,
    x: Seq<char>,
    y: Seq<char>,
    f: Seq<char>,
    l: Seq<char>,
    n: Seq<char>,
    e: Seq<char>,
)
    ensures
        a + (c + (s + q)) + x + (c + y) + f + l + n + e == a + c + (s + (q + x)) + c + (y + f + l + n
            + e),
{
    assert(a + (c + (s + q)) + x + (c + y) + f + l + n + e =~= a + c + (s + (q + x)) + c + (y + f + l
        + n + e));
}

proof fn lemma_layer_text(idx: nat, m: TimeUs, x: Seq<char>, fps: Seq<char>, n: Seq<char>)
    ensures
        "["@ + text::digits(idx) + ":v]trim=start=0:end="@ + render::secs_text(m)
            + ",setpts=(PTS-STARTPTS)/"@ + x + ",format=rgba,fps="@ + fps + "[ly"@ + n + "p]"@ == made(
            idx,
            m,
            "(PTS-STARTPTS)/"@ + x,
            "format=rgba,fps="@ + fps + "[ly"@ + n + "p]"@,
        ),
{
    lemma_layer_words();
    lemma_regroup_layer(
        "["@ + text::digits(idx) + ":v]trim=start=0:end="@ + render::secs_text(m),
        ","@,
        "setpts="@,
        "(PTS-STARTPTS)/"@,
        x,
        "format=rgba,fps="@,
        fps,
        "[ly"@,
        n,
        "p]"@,
    );
}

} // verus!
