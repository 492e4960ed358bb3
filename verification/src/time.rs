//! Timeline times in whole microseconds, and the frame grid.
//!
//! Sums and differences of times stay within the range of `TimeUs`: what would
//! leave it stops at its ends.

use vstd::arithmetic::div_mod::*;
use vstd::arithmetic::mul::*;
use vstd::prelude::*;

verus! {

/// A time or a duration in microseconds.
pub type TimeUs = i64;

/// Microseconds in a second.
pub const US_PER_SEC: i64 = 1_000_000;

/// The nearest time to an integer.
pub open spec fn held(x: int) -> i64 {
    if x < i64::MIN {
        i64::MIN
    } else if x > i64::MAX {
        i64::MAX
    } else {
        x as i64
    }
}

/// Turns an integer into the nearest time.
pub fn hold(x: i128) -> (r: i64)
    ensures
        r == held(x as int),
{
    if x < i64::MIN as i128 {
        i64::MIN
    } else if x > i64::MAX as i128 {
        i64::MAX
    } else {
        x as i64
    }
}

/// The sum of two times.
pub open spec fn later(a: i64, b: i64) -> i64 {
    held(a + b)
}

/// The difference of two times.
pub open spec fn sooner(a: i64, b: i64) -> i64 {
    held(a - b)
}

/// Adds two times.
pub fn plus(a: i64, b: i64) -> (r: i64)
    ensures
        r == later(a, b),
{
    hold(a as i128 + b as i128)
}

/// Subtracts two times.
pub fn minus(a: i64, b: i64) -> (r: i64)
    ensures
        r == sooner(a, b),
{
    hold(a as i128 - b as i128)
}

/// The later of two times.
pub open spec fn max_time(a: i64, b: i64) -> i64 {
    if a < b {
        b
    } else {
        a
    }
}

/// The earlier of two times.
pub open spec fn min_time(a: i64, b: i64) -> i64 {
    if b < a {
        b
    } else {
        a
    }
}

/// Picks the later of two times.
pub fn max2(a: i64, b: i64) -> (r: i64)
    ensures
        r == max_time(a, b),
{
    if a < b {
        b
    } else {
        a
    }
}

/// Picks the earlier of two times.
pub fn min2(a: i64, b: i64) -> (r: i64)
    ensures
        r == min_time(a, b),
{
    if b < a {
        b
    } else {
        a
    }
}

/// The integer nearest to `a / b` for a positive `b`, halves up.
pub open spec fn nearest_ratio(a: int, b: int) -> int {
    (2 * a + b) / (2 * b)
}

/// The exact start of a frame, rounded to the nearest microsecond. A frame
/// rate with a zero in it leaves the number as it is.
pub open spec fn frame_start(frame: int, fps: (u32, u32)) -> int {
    if fps.0 == 0 || fps.1 == 0 {
        frame
    } else {
        nearest_ratio(frame * (fps.1 * US_PER_SEC), fps.0 as int)
    }
}

/// The frame whose exact start is nearest to a time.
pub open spec fn nearest_frame(t: int, fps: (u32, u32)) -> int {
    if fps.0 == 0 || fps.1 == 0 {
        t
    } else {
        nearest_ratio(t * fps.0, fps.1 * US_PER_SEC)
    }
}

/// The time on the frame grid nearest to `t`.
pub open spec fn quantized(t: i64, fps: (u32, u32)) -> i64 {
    held(frame_start(nearest_frame(t as int, fps), fps))
}

/// The length of one frame.
pub open spec fn frame_length(fps: (u32, u32)) -> i64 {
    held(frame_start(1, fps))
}

proof fn lemma_ratio_bounds(a: int, b: int, m: int)
    requires
        b > 0,
        m >= 0,
        -(m * b) <= a <= m * b,
    ensures
        -m <= nearest_ratio(a, b) <= m,
{
    let q = nearest_ratio(a, b);
    lemma_fundamental_div_mod(2 * a + b, 2 * b);
    lemma_mod_bound(2 * a + b, 2 * b);
    let r = (2 * a + b) % (2 * b);
    assert(2 * a + b == (2 * b) * q + r);
    let t = (2 * b) * q;
    let k = m * b;
    if q > m {
        assert(t >= 2 * k + 2 * b) by (nonlinear_arith)
            requires
                t == (2 * b) * q,
                k == m * b,
                b > 0,
                q >= m + 1,
        ;
    }
    if q < -m {
        assert(t <= -(2 * k) - 2 * b) by (nonlinear_arith)
            requires
                t == (2 * b) * q,
                k == m * b,
                b > 0,
                q <= -m - 1,
        ;
    }
}

/// `a / b` to the nearest integer, halves up.
fn divide_nearest(a: i128, b: i128) -> (r: i128)
    requires
        0 < b < 0x1_0000_0000_0000_0000,
        -0x100_0000_0000_0000_0000_0000_0000_0000 < a < 0x100_0000_0000_0000_0000_0000_0000_0000,
    ensures
        r == nearest_ratio(a as int, b as int),
{
    let n: i128 = 2 * a + b;
    let d: i128 = 2 * b;
    // The exec quotient truncates: take one off where it went up.
    let m: i128 = if n >= 0 { n / d } else { -((-n + (d - 1)) / d) };
    proof {
        lemma_fundamental_div_mod(n as int, d as int);
        lemma_mod_bound(n as int, d as int);
        if n < 0 {
            let p = (-n + (d - 1)) as int;
            lemma_fundamental_div_mod(p, d as int);
            lemma_mod_bound(p, d as int);
            let q = p / d as int;
            let r = p % d as int;
            assert(p == d * q + r);
            assert(n == d * (-q) + (d - 1 - r)) by (nonlinear_arith)
                requires
                    p == -n + (d - 1),
                    p == d * q + r,
            ;
            lemma_fundamental_div_mod_converse(n as int, d as int, -q, d - 1 - r);
        }
    }
    m
}

/// The start of a frame.
pub fn frame_to_time(frame: i64, fps: (u32, u32)) -> (t: TimeUs)
    ensures
        t == held(frame_start(frame as int, fps)),
{
    if fps.0 == 0 || fps.1 == 0 {
        return frame;
    }
    assert(-0x100_0000_0000_0000_0000_0000_0000_0000 < frame * (fps.1 * 1_000_000)
        < 0x100_0000_0000_0000_0000_0000_0000_0000) by (nonlinear_arith)
        requires
            -0x8000_0000_0000_0000 <= frame <= 0x7FFF_FFFF_FFFF_FFFF,
            0 <= fps.1 <= 0xFFFF_FFFF,
    ;
    hold(frame_time(frame as i128, fps))
}

/// The start of a frame whose number may lie a little outside the range of
/// times.
fn frame_time(frame: i128, fps: (u32, u32)) -> (t: i128)
    requires
        fps.0 > 0,
        fps.1 > 0,
        -0x1_0000_0000_0000_0000_0000_0000 <= frame <= 0x1_0000_0000_0000_0000_0000_0000,
        -0x100_0000_0000_0000_0000_0000_0000_0000 < frame * (fps.1 * US_PER_SEC)
            < 0x100_0000_0000_0000_0000_0000_0000_0000,
    ensures
        t == frame_start(frame as int, fps),
{
    let step: i128 = fps.1 as i128 * 1_000_000;
    divide_nearest(frame * step, fps.0 as i128)
}

/// The time on the frame grid nearest to `t`. A frame rate with a zero in it
/// leaves times alone.
pub fn quantize_to_frame(t: TimeUs, fps: (u32, u32)) -> (r: TimeUs)
    ensures
        r == quantized(t, fps),
{
    if fps.0 == 0 || fps.1 == 0 {
        return t;
    }
    let step: i128 = fps.1 as i128 * 1_000_000;
    assert(-0x1_0000_0000_0000_0000_0000_0000 <= t * fps.0 <= 0x1_0000_0000_0000_0000_0000_0000)
        by (nonlinear_arith)
        requires
            -0x8000_0000_0000_0000 <= t <= 0x7FFF_FFFF_FFFF_FFFF,
            0 <= fps.0 <= 0xFFFF_FFFF,
    ;
    let n: i128 = t as i128 * fps.0 as i128;
    let frame: i128 = divide_nearest(n, step);
    proof {
        // |frame * step| stays close to |t * fps.0|.
        lemma_fundamental_div_mod(2 * n + step, 2 * step);
        lemma_mod_bound(2 * n + step, 2 * step);
        let r = (2 * n + step) % (2 * step);
        assert((2 * step) * frame == 2 * (frame * step)) by (nonlinear_arith);
        assert(2 * (frame * step) == 2 * n + step - r);
        assert(n <= 0x1_0000_0000_0000_0000_0000_0000 * step) by (nonlinear_arith)
            requires
                n <= 0x1_0000_0000_0000_0000_0000_0000,
                step >= 1,
        ;
        assert(n >= -(0x1_0000_0000_0000_0000_0000_0000 * step)) by (nonlinear_arith)
            requires
                n >= -0x1_0000_0000_0000_0000_0000_0000,
                step >= 1,
        ;
        lemma_ratio_bounds(n as int, step as int, 0x1_0000_0000_0000_0000_0000_0000);
    }
    hold(frame_time(frame, fps))
}

/// The length of one frame.
pub fn frame_duration_us(fps: (u32, u32)) -> (d: TimeUs)
    ensures
        d == frame_length(fps),
{
    frame_to_time(1, fps)
}

proof fn lemma_nearest(a: int, b: int, n: int)
    by (nonlinear_arith)
    requires
        b > 0,
        2 * b * n <= 2 * a + b,
        2 * a + b < 2 * b * n + 2 * b,
    ensures
        nearest_ratio(a, b) == n,
{
}

/// A time on the frame grid stays there: frames are further apart than a
/// microsecond, and the time of the frame fits.
pub proof fn law_grid_stays(t: i64, fps: (u32, u32))
    requires
        0 < fps.0 < fps.1 * US_PER_SEC,
        i64::MIN <= frame_start(nearest_frame(t as int, fps), fps) <= i64::MAX,
    ensures
        quantized(quantized(t, fps), fps) == quantized(t, fps),
{
    let n = nearest_frame(t as int, fps);
    let d: int = fps.1 * US_PER_SEC;
    let r: int = fps.0 as int;
    let q = frame_start(n, fps);
    assert(q == nearest_ratio(n * d, r));
    assert(2 * r * q <= 2 * (n * d) + r && 2 * (n * d) + r < 2 * r * q + 2 * r) by (nonlinear_arith)
        requires
            q == (2 * (n * d) + r) / (2 * r),
            r > 0,
    ;
    assert(2 * d * n <= 2 * (q * r) + d && 2 * (q * r) + d < 2 * d * n + 2 * d) by (nonlinear_arith)
        requires
            2 * r * q <= 2 * (n * d) + r,
            2 * (n * d) + r < 2 * r * q + 2 * r,
            0 < r < d,
    ;
    lemma_nearest(q * r, d, n);
}

/// How far a time is from the exact start of a frame, in microseconds times the
/// frames of a second.
pub open spec fn off_frame(t: int, frame: int, fps: (u32, u32)) -> int {
    let d = t * fps.0 - frame * (fps.1 * US_PER_SEC);
    if d < 0 {
        -d
    } else {
        d
    }
}

/// Whether no frame starts nearer to a time than one does.
pub open spec fn starts_nearest(t: int, frame: int, fps: (u32, u32)) -> bool {
    forall|m: int| off_frame(t, frame, fps) <= #[trigger] off_frame(t, m, fps)
}

/// A time is brought to the frame that starts nearest to it: no other frame
/// starts nearer, and the time on the grid is the start of that frame, rounded to
/// the nearest microsecond.
pub proof fn law_grid_is_nearest(t: i64, fps: (u32, u32))
    requires
        fps.0 > 0,
        fps.1 > 0,
        i64::MIN <= frame_start(nearest_frame(t as int, fps), fps) <= i64::MAX,
    ensures
        exists|n: int| #[trigger]
            starts_nearest(t as int, n, fps) && 2 * off_frame(quantized(t, fps) as int, n, fps)
                <= fps.0,
        -(fps.1 * US_PER_SEC + fps.0) <= 2 * ((quantized(t, fps) - t) * fps.0) <= fps.1 * US_PER_SEC
            + fps.0,
{
    let n = nearest_frame(t as int, fps);
    let d: int = fps.1 * US_PER_SEC;
    let r: int = fps.0 as int;
    let x: int = t as int;
    let q = frame_start(n, fps);
    assert(q == nearest_ratio(n * d, r));
    assert(-r <= 2 * (q * r - n * d) <= r) by (nonlinear_arith)
        requires
            q == (2 * (n * d) + r) / (2 * r),
            r > 0,
    ;
    assert(n == nearest_ratio(x * r, d));
    assert(-d <= 2 * (x * r - n * d) <= d) by (nonlinear_arith)
        requires
            n == (2 * (x * r) + d) / (2 * d),
            d > 0,
    ;
    assert(2 * off_frame(q, n, fps) <= fps.0);
    assert forall|m: int| off_frame(x, n, fps) <= #[trigger] off_frame(x, m, fps) by {
        assert(m == n || m * d - n * d >= d || n * d - m * d >= d) by (nonlinear_arith)
            requires
                d > 0,
        ;
    }
    assert(starts_nearest(x, n, fps));
    assert(quantized(t, fps) == q);
    assert((q - x) * r == q * r - x * r) by (nonlinear_arith);
}

/// A frame lasts as long as its share of a second, rounded to the nearest
/// microsecond.
pub proof fn law_frame_length(fps: (u32, u32))
    requires
        fps.0 > 0,
        fps.1 > 0,
    ensures
        0 <= frame_length(fps),
        2 * off_frame(frame_length(fps) as int, 1, fps) <= fps.0,
{
    let d: int = fps.1 * US_PER_SEC;
    let r: int = fps.0 as int;
    let q = frame_start(1, fps);
    assert(q == nearest_ratio(1 * d, r));
    assert(-r <= 2 * (q * r - 1 * d) <= r && 0 <= q <= d + 1) by (nonlinear_arith)
        requires
            q == (2 * (1 * d) + r) / (2 * r),
            r > 0,
            d > 0,
    ;
}

} // verus!
