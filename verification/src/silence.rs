//! Speech and silence in a sound, from the loudness of short windows.

use vstd::prelude::*;

use crate::float::Real;
use crate::fonts::HALF_BITS;
use crate::time;
use crate::time::{hold, max2, min2, minus, plus, TimeUs};
use crate::wave;
use crate::wave::{to_mono, Frame, Wave};

verus! {

/// What counts as speech.
#[derive(Debug, Clone, Copy)]
pub struct SilenceParams {
    /// Speech starts above this, in dBFS.
    pub threshold_db: Real,
    /// Speech ends this far below the threshold.
    pub hysteresis_db: Real,
    pub min_silence_us: TimeUs,
    pub min_speech_us: TimeUs,
    pub pad_pre_us: TimeUs,
    pub pad_post_us: TimeUs,
}

/// The bits of -38.
pub const THRESHOLD_BITS: u64 = 0xC043_0000_0000_0000;

/// The bits of 6.
pub const HYSTERESIS_BITS: u64 = 0x4018_0000_0000_0000;

impl Default for SilenceParams {
    fn default() -> (p: SilenceParams)
        ensures
            p == (SilenceParams {
                threshold_db: Real { bits: THRESHOLD_BITS },
                hysteresis_db: Real { bits: HYSTERESIS_BITS },
                min_silence_us: 400_000,
                min_speech_us: 150_000,
                pad_pre_us: 150_000,
                pad_post_us: 200_000,
            }),
    {
        SilenceParams {
            threshold_db: Real { bits: THRESHOLD_BITS },
            hysteresis_db: Real { bits: HYSTERESIS_BITS },
            min_silence_us: 400_000,
            min_speech_us: 150_000,
            pad_pre_us: 150_000,
            pad_post_us: 200_000,
        }
    }
}

/// How long a window is.
pub const WINDOW_US: TimeUs = 50_000;

/// How far the next window is.
pub const HOP_US: TimeUs = 10_000;

/// The end of a range in a sound of so many frames.
pub open spec fn end_within(to: TimeUs, frames: int, rate: int) -> TimeUs {
    time::min_time(to, time::held(frames * 1_000_000 / rate))
}

/// Cuts the end of a range to the length of a sound.
pub fn cut_end(to: TimeUs, frames: u64, rate: u32) -> (r: TimeUs)
    requires
        rate > 0,
    ensures
        r == end_within(to, frames as int, rate as int),
{
    let length: u128 = frames as u128 * 1_000_000 / rate as u128;
    let ghost all = frames as int * 1_000_000;
    assert(all / (rate as int) <= all) by (nonlinear_arith)
        requires
            all >= 0,
            rate > 0,
    ;
    min2(to, hold(length as i128))
}

/// How many windows fit into a range.
pub open spec fn window_count(from: TimeUs, to: TimeUs) -> nat {
    if to - from < WINDOW_US {
        0
    } else {
        ((to - from - WINDOW_US) / HOP_US as int + 1) as nat
    }
}

/// Where windows start in a range: one after the other, while they fit.
pub fn window_starts(from: TimeUs, to: TimeUs) -> (r: Vec<TimeUs>)
    ensures
        r@ == Seq::new(window_count(from, to), |i: int| (from + i * HOP_US) as TimeUs),
{
    let ghost n = window_count(from, to);
    let ghost all = Seq::new(n, |i: int| (from + i * HOP_US) as TimeUs);
    let mut r: Vec<TimeUs> = Vec::new();
    let mut t: i128 = from as i128;
    while t + WINDOW_US as i128 <= to as i128
        invariant
            n == window_count(from, to),
            all == Seq::new(n, |i: int| (from + i * HOP_US) as TimeUs),
            from <= t <= i64::MAX + 10_000,
            t == from + r@.len() * HOP_US,
            r@.len() <= n,
            r@ =~= all.take(r@.len() as int),
        decreases to - t,
    {
        proof {
            let k = r@.len() as int;
            assert(k * 10_000 <= to - from - 50_000);
            assert(k < n);
            assert(all.take(k + 1) =~= all.take(k).push(all[k]));
        }
        r.push(t as i64);
        t = t + HOP_US as i128;
    }
    proof {
        let k = r@.len() as int;
        assert(k == n);
        assert(all.take(k) =~= all);
    }
    r
}

/// The square of a frame's sound, both channels taken together.
pub open spec fn squared(f: Frame) -> Real {
    let m = Real { bits: HALF_BITS }.times(wave::mono(f));
    m.times(m)
}

/// The sum of the squares of frames from a place on.
pub open spec fn square_sum(frames: Seq<(i16, i16)>, at: int, n: nat) -> Real
    decreases n,
{
    if n == 0 {
        Real::of(0)
    } else {
        square_sum(frames, at, (n - 1) as nat).plus(squared(wave::frame_of(frames, at + n - 1)))
    }
}

/// The frame at a time, counted towards the start of the sound.
pub open spec fn frame_number(t: TimeUs, rate: int) -> int {
    if t >= 0 {
        t * rate / 1_000_000
    } else {
        -((-t) * rate / 1_000_000)
    }
}

/// The mean square of the frames of a window that starts at a time.
pub open spec fn mean_square(frames: Seq<(i16, i16)>, rate: int, t: TimeUs) -> Real {
    let n = WINDOW_US * rate / 1_000_000;
    square_sum(frames, frame_number(t, rate), n as nat).over(Real::of(n))
}

/// Finds how strong the sound of a window is that starts at a time: the mean
/// square of its frames.
pub fn window_power(w: &Wave, t: TimeUs) -> (r: Real)
    ensures
        r == mean_square(w.frames@, w.sample_rate as int, t),
{
    let rate: i128 = w.sample_rate as i128;
    let n: i128 = WINDOW_US as i128 * rate / 1_000_000;
    let size: i128 = if t >= 0 {
        t as i128
    } else {
        -(t as i128)
    };
    proof {
        let z = size * rate;
        assert(0 <= z <= 0x8000_0000_0000_0000 * 0xFFFF_FFFF) by (nonlinear_arith)
            requires
                z == size * rate,
                0 <= size <= 0x8000_0000_0000_0000,
                0 <= rate <= 0xFFFF_FFFF,
        ;
    }
    let start: i128 = if t >= 0 {
        size * rate / 1_000_000
    } else {
        -(size * rate / 1_000_000)
    };
    let mut sum: Real = Real::from_int(0);
    let mut k: i128 = 0;
    while k < n
        invariant
            0 <= k <= n <= 0xFFFF_FFFF,
            -0x8000_0000_0000_0000 * 0xFFFF_FFFF <= start <= 0x8000_0000_0000_0000 * 0xFFFF_FFFF,
            sum == square_sum(w.frames@, start as int, k as nat),
        decreases n - k,
    {
        let m: Real = (Real { bits: HALF_BITS }).mul(to_mono(w.read(start + k)));
        sum = sum.add(m.mul(m));
        k = k + 1;
    }
    sum.div(Real::from_int(n as i64))
}

/// A window: the time of its middle, and how loud it is in dBFS.
pub type Window = (TimeUs, Real);

/// Whether there is speech after a window: it starts above the threshold, and
/// ends only well below it.
pub open spec fn talks(talking: bool, db: Real, p: SilenceParams) -> bool {
    if talking {
        !db.less(p.threshold_db.minus(p.hysteresis_db))
    } else {
        p.threshold_db.less(db)
    }
}

/// Whether there is speech after the first windows.
pub open spec fn talking_after(w: Seq<Window>, p: SilenceParams, n: nat) -> bool
    decreases n,
{
    if n == 0 {
        w.len() > 0 && p.threshold_db.less(w[0].1)
    } else {
        talks(talking_after(w, p, (n - 1) as nat), w[n - 1].1, p)
    }
}

/// A stretch of time with speech or without: start, end, speech.
pub type Span = (TimeUs, TimeUs, bool);

/// Stretches with one more time: the last one grows where it is of the same
/// kind.
pub open spec fn grown(spans: Seq<Span>, from: TimeUs, to: TimeUs, speech: bool) -> Seq<Span> {
    if spans.len() > 0 && spans.last().2 == speech {
        spans.update(spans.len() - 1, (spans.last().0, to, speech))
    } else {
        spans.push((from, to, speech))
    }
}

/// The stretches of the first windows.
pub open spec fn raw_spans(w: Seq<Window>, p: SilenceParams, n: nat) -> Seq<Span>
    decreases n,
{
    if n == 0 {
        Seq::empty()
    } else {
        grown(
            raw_spans(w, p, (n - 1) as nat),
            w[n - 1].0,
            w[n - 1].0,
            talking_after(w, p, n),
        )
    }
}

/// The first stretches with silences that are too short taken for speech.
pub open spec fn merged_spans(spans: Seq<Span>, p: SilenceParams, n: nat) -> Seq<Span>
    decreases n,
{
    if n == 0 {
        Seq::empty()
    } else {
        let s = spans[n - 1];
        grown(
            merged_spans(spans, p, (n - 1) as nat),
            s.0,
            s.1,
            s.2 || time::sooner(s.1, s.0) < p.min_silence_us,
        )
    }
}

/// Ranges with one more: where it meets the last one, that grows.
pub open spec fn joined(speech: Seq<(TimeUs, TimeUs)>, s: TimeUs, e: TimeUs) -> Seq<(TimeUs, TimeUs)> {
    if speech.len() > 0 && s <= speech.last().1 {
        speech.update(speech.len() - 1, (speech.last().0, time::max_time(speech.last().1, e)))
    } else {
        speech.push((s, e))
    }
}

/// The speech of the first stretches: what is too short is dropped, the rest is
/// padded inside the range, and what then meets is joined.
pub open spec fn padded_speech(
    spans: Seq<Span>,
    from: TimeUs,
    to: TimeUs,
    p: SilenceParams,
    n: nat,
) -> Seq<(TimeUs, TimeUs)>
    decreases n,
{
    if n == 0 {
        Seq::empty()
    } else {
        let before = padded_speech(spans, from, to, p, (n - 1) as nat);
        let s = spans[n - 1];
        if !s.2 || time::sooner(s.1, s.0) < p.min_speech_us {
            before
        } else {
            joined(
                before,
                time::max_time(time::sooner(s.0, p.pad_pre_us), from),
                time::min_time(time::later(s.1, p.pad_post_us), to),
            )
        }
    }
}

/// The speech of a range.
pub open spec fn speech_of(w: Seq<Window>, from: TimeUs, to: TimeUs, p: SilenceParams) -> Seq<
    (TimeUs, TimeUs),
> {
    if to <= from {
        Seq::empty()
    } else {
        let raw = raw_spans(w, p, w.len());
        let merged = merged_spans(raw, p, raw.len());
        padded_speech(merged, from, to, p, merged.len())
    }
}

fn grow(spans: &mut Vec<Span>, from: TimeUs, to: TimeUs, speech: bool)
    ensures
        final(spans)@ == grown(old(spans)@, from, to, speech),
{
    let n: usize = spans.len();
    if n > 0 && spans[n - 1].2 == speech {
        let first: TimeUs = spans[n - 1].0;
        spans.set(n - 1, (first, to, speech));
    } else {
        spans.push((from, to, speech));
    }
}

fn find_raw(w: &Vec<Window>, p: &SilenceParams) -> (r: Vec<Span>)
    ensures
        r@ == raw_spans(w@, *p, w@.len()),
{
    let mut r: Vec<Span> = Vec::new();
    if w.len() == 0 {
        return r;
    }
    let off: Real = p.threshold_db.sub(p.hysteresis_db);
    let mut talking: bool = p.threshold_db.lt(w[0].1);
    let mut i: usize = 0;
    while i < w.len()
        invariant
            i <= w.len(),
            off == p.threshold_db.minus(p.hysteresis_db),
            talking == talking_after(w@, *p, i as nat),
            r@ == raw_spans(w@, *p, i as nat),
        decreases w.len() - i,
    {
        let (t, db): (TimeUs, Real) = w[i];
        talking = if talking {
            !db.lt(off)
        } else {
            p.threshold_db.lt(db)
        };
        grow(&mut r, t, t, talking);
        i = i + 1;
    }
    r
}

fn merge(spans: &Vec<Span>, p: &SilenceParams) -> (r: Vec<Span>)
    ensures
        r@ == merged_spans(spans@, *p, spans@.len()),
{
    let mut r: Vec<Span> = Vec::new();
    let mut i: usize = 0;
    while i < spans.len()
        invariant
            i <= spans.len(),
            r@ == merged_spans(spans@, *p, i as nat),
        decreases spans.len() - i,
    {
        let (s, e, f): (TimeUs, TimeUs, bool) = spans[i];
        grow(&mut r, s, e, f || minus(e, s) < p.min_silence_us);
        i = i + 1;
    }
    r
}

/// Finds the speech in a range of a sound from the loudness of its windows, as
/// ranges that follow each other and do not meet.
pub fn detect_speech(w: &Vec<Window>, from_us: TimeUs, to_us: TimeUs, params: &SilenceParams) -> (r: Vec<
    (TimeUs, TimeUs),
>)
    ensures
        r@ == speech_of(w@, from_us, to_us, *params),
{
    let mut r: Vec<(TimeUs, TimeUs)> = Vec::new();
    if to_us <= from_us {
        return r;
    }
    let raw: Vec<Span> = find_raw(w, params);
    let spans: Vec<Span> = merge(&raw, params);
    let mut i: usize = 0;
    while i < spans.len()
        invariant
            i <= spans.len(),
            r@ == padded_speech(spans@, from_us, to_us, *params, i as nat),
        decreases spans.len() - i,
    {
        let (s, e, f): (TimeUs, TimeUs, bool) = spans[i];
        if f && minus(e, s) >= params.min_speech_us {
            let s: TimeUs = max2(minus(s, params.pad_pre_us), from_us);
            let e: TimeUs = min2(plus(e, params.pad_post_us), to_us);
            let n: usize = r.len();
            if n > 0 && s <= r[n - 1].1 {
                let (first, last): (TimeUs, TimeUs) = r[n - 1];
                r.set(n - 1, (first, max2(last, e)));
            } else {
                r.push((s, e));
            }
        }
        i = i + 1;
    }
    r
}

/// Where the first ranges of speech have come to.
pub open spec fn reached(speech: Seq<(TimeUs, TimeUs)>, from: TimeUs, n: nat) -> TimeUs {
    if n == 0 {
        from
    } else {
        speech[n - 1].1
    }
}

/// The silences before the first ranges of speech end.
pub open spec fn gaps(speech: Seq<(TimeUs, TimeUs)>, from: TimeUs, n: nat) -> Seq<(TimeUs, TimeUs)>
    decreases n,
{
    if n == 0 {
        Seq::empty()
    } else {
        let before = gaps(speech, from, (n - 1) as nat);
        let c = reached(speech, from, (n - 1) as nat);
        if speech[n - 1].0 > c {
            before.push((c, speech[n - 1].0))
        } else {
            before
        }
    }
}

/// What is left of a range without its speech.
pub open spec fn silences_of(speech: Seq<(TimeUs, TimeUs)>, from: TimeUs, to: TimeUs) -> Seq<
    (TimeUs, TimeUs),
> {
    let c = reached(speech, from, speech.len());
    if c < to {
        gaps(speech, from, speech.len()).push((c, to))
    } else {
        gaps(speech, from, speech.len())
    }
}

/// Finds the silences in a range of a sound: what is not speech.
pub fn detect_silences(w: &Vec<Window>, from_us: TimeUs, to_us: TimeUs, params: &SilenceParams) -> (r: Vec<
    (TimeUs, TimeUs),
>)
    ensures
        r@ == silences_of(speech_of(w@, from_us, to_us, *params), from_us, to_us),
{
    let speech: Vec<(TimeUs, TimeUs)> = detect_speech(w, from_us, to_us, params);
    let mut r: Vec<(TimeUs, TimeUs)> = Vec::new();
    let mut cursor: TimeUs = from_us;
    let mut i: usize = 0;
    while i < speech.len()
        invariant
            i <= speech.len(),
            cursor == reached(speech@, from_us, i as nat),
            r@ == gaps(speech@, from_us, i as nat),
        decreases speech.len() - i,
    {
        let (s, e): (TimeUs, TimeUs) = speech[i];
        if s > cursor {
            r.push((cursor, s));
        }
        cursor = e;
        i = i + 1;
    }
    if cursor < to_us {
        r.push((cursor, to_us));
    }
    r
}

/// A range of a source on the timeline of a clip.
pub open spec fn on_timeline(clip_start: TimeUs, src_in: TimeUs, r: (TimeUs, TimeUs)) -> (TimeUs, TimeUs) {
    (
        time::later(clip_start, time::sooner(r.0, src_in)),
        time::later(clip_start, time::sooner(r.1, src_in)),
    )
}

/// Finds the silences of a clip on the timeline, ready to be cut.
pub fn clip_silences_on_timeline(
    w: &Vec<Window>,
    clip_start_us: TimeUs,
    src_in_us: TimeUs,
    src_out_us: TimeUs,
    params: &SilenceParams,
) -> (r: Vec<(TimeUs, TimeUs)>)
    ensures
        r@ == silences_of(
            speech_of(w@, src_in_us, src_out_us, *params),
            src_in_us,
            src_out_us,
        ).map_values(|x: (TimeUs, TimeUs)| on_timeline(clip_start_us, src_in_us, x)),
{
    let found: Vec<(TimeUs, TimeUs)> = detect_silences(w, src_in_us, src_out_us, params);
    let ghost all = found@.map_values(
        |x: (TimeUs, TimeUs)| on_timeline(clip_start_us, src_in_us, x),
    );
    let mut r: Vec<(TimeUs, TimeUs)> = Vec::new();
    let mut i: usize = 0;
    assert(r@ =~= all.take(0));
    while i < found.len()
        invariant
            i <= found.len(),
            all == found@.map_values(
                |x: (TimeUs, TimeUs)| on_timeline(clip_start_us, src_in_us, x),
            ),
            r@ == all.take(i as int),
        decreases found.len() - i,
    {
        let (s, e): (TimeUs, TimeUs) = found[i];
        assert(all.take(i + 1) =~= all.take(i as int).push(all[i as int]));
        r.push(
            (
                plus(clip_start_us, minus(s, src_in_us)),
                plus(clip_start_us, minus(e, src_in_us)),
            ),
        );
        i = i + 1;
    }
    assert(all.take(i as int) =~= all);
    r
}

// ---- laws ----

/// Whether ranges lie inside a range, one after the other with a gap between.
pub open spec fn apart(r: Seq<(TimeUs, TimeUs)>, from: TimeUs, to: TimeUs) -> bool {
    &&& forall|i: int| 0 <= i < r.len() ==> from <= #[trigger] r[i].0 <= r[i].1 <= to
    &&& forall|i: int, j: int| 0 <= i < j < r.len() ==> #[trigger] r[i].1 < #[trigger] r[j].0
}

/// Whether windows follow each other inside a range.
pub open spec fn in_order(w: Seq<Window>, from: TimeUs, to: TimeUs) -> bool {
    &&& forall|i: int| 0 <= i < w.len() ==> from <= #[trigger] w[i].0 <= to
    &&& forall|i: int, j: int| 0 <= i < j < w.len() ==> #[trigger] w[i].0 <= #[trigger] w[j].0
}

/// Whether stretches follow each other up to a time.
pub open spec fn in_line(s: Seq<Span>, from: TimeUs, to: TimeUs) -> bool {
    &&& forall|i: int| 0 <= i < s.len() ==> from <= #[trigger] s[i].0 <= s[i].1 <= to
    &&& forall|i: int, j: int| 0 <= i < j < s.len() ==> #[trigger] s[i].1 <= #[trigger] s[j].0
}

proof fn lemma_raw_in_line(w: Seq<Window>, from: TimeUs, to: TimeUs, p: SilenceParams, n: nat)
    requires
        in_order(w, from, to),
        n <= w.len(),
    ensures
        in_line(raw_spans(w, p, n), from, to),
        n > 0 ==> raw_spans(w, p, n).len() > 0 && raw_spans(w, p, n).last().1 == w[n - 1].0,
    decreases n,
{
    if n > 0 {
        lemma_raw_in_line(w, from, to, p, (n - 1) as nat);
        let before = raw_spans(w, p, (n - 1) as nat);
        if n > 1 {
            assert(w[n - 2].0 <= w[n - 1].0);
        }
        assert(from <= w[n - 1].0 <= to);
        assert forall|i: int| 0 <= i < before.len() implies before[i].1 <= w[n - 1].0 by {
            if n > 1 && i < before.len() - 1 {
                assert(before[i].1 <= before.last().0);
                assert(before.last().0 <= before.last().1);
            }
        }
    }
}

proof fn lemma_merged_in_line(s: Seq<Span>, from: TimeUs, to: TimeUs, p: SilenceParams, n: nat)
    requires
        in_line(s, from, to),
        n <= s.len(),
    ensures
        in_line(merged_spans(s, p, n), from, to),
        n > 0 ==> merged_spans(s, p, n).len() > 0 && merged_spans(s, p, n).last().1 == s[n - 1].1,
    decreases n,
{
    if n > 0 {
        lemma_merged_in_line(s, from, to, p, (n - 1) as nat);
        let before = merged_spans(s, p, (n - 1) as nat);
        assert(from <= s[n - 1].0 <= s[n - 1].1 <= to);
        if n > 1 {
            assert(s[n - 2].1 <= s[n - 1].0);
        }
        assert forall|i: int| 0 <= i < before.len() implies before[i].1 <= s[n - 1].0 by {
            if i < before.len() - 1 {
                assert(before[i].1 <= before.last().0);
                assert(before.last().0 <= before.last().1);
            }
        }
    }
}

proof fn lemma_padded_apart(
    s: Seq<Span>,
    from: TimeUs,
    to: TimeUs,
    p: SilenceParams,
    n: nat,
)
    requires
        in_line(s, from, to),
        p.pad_pre_us >= 0,
        p.pad_post_us >= 0,
        n <= s.len(),
    ensures
        apart(padded_speech(s, from, to, p, n), from, to),
    decreases n,
{
    if n > 0 {
        lemma_padded_apart(s, from, to, p, (n - 1) as nat);
        let before = padded_speech(s, from, to, p, (n - 1) as nat);
        let x = s[n - 1];
        assert(from <= x.0 <= x.1 <= to);
        if x.2 && time::sooner(x.1, x.0) >= p.min_speech_us {
            let a = time::max_time(time::sooner(x.0, p.pad_pre_us), from);
            let b = time::min_time(time::later(x.1, p.pad_post_us), to);
            assert(from <= a <= x.0 && x.1 <= b <= to);
            assert forall|i: int| 0 <= i < before.len() - 1 implies before[i].1 < before.last().0 by {
                assert(before[i].1 < before[before.len() - 1].0);
            }
            assert forall|i: int| 0 <= i < before.len() - 1 implies before[i].1 < a || a
                <= before.last().1 by {
                assert(before.last().0 <= before.last().1);
            }
        }
    }
}

/// The speech that is found lies inside the range, and its pieces follow each
/// other with silence between.
pub proof fn law_speech_is_apart(w: Seq<Window>, from: TimeUs, to: TimeUs, p: SilenceParams)
    requires
        in_order(w, from, to),
        p.pad_pre_us >= 0,
        p.pad_post_us >= 0,
    ensures
        apart(speech_of(w, from, to, p), from, to),
{
    if to > from {
        let raw = raw_spans(w, p, w.len());
        lemma_raw_in_line(w, from, to, p, w.len());
        lemma_merged_in_line(raw, from, to, p, raw.len());
        let merged = merged_spans(raw, p, raw.len());
        lemma_padded_apart(merged, from, to, p, merged.len());
    }
}

/// The stretches that are found follow each other inside the range.
pub proof fn lemma_found_in_line(w: Seq<Window>, from: TimeUs, to: TimeUs, p: SilenceParams)
    requires
        in_order(w, from, to),
    ensures
        ({
            let raw = raw_spans(w, p, w.len());
            in_line(merged_spans(raw, p, raw.len()), from, to)
        }),
{
    let raw = raw_spans(w, p, w.len());
    lemma_raw_in_line(w, from, to, p, w.len());
    lemma_merged_in_line(raw, from, to, p, raw.len());
}

/// Whether a time is in one of some ranges.
pub open spec fn in_one(r: Seq<(TimeUs, TimeUs)>, t: TimeUs) -> bool {
    exists|i: int| 0 <= i < r.len() && (#[trigger] r[i]).0 <= t < r[i].1
}

proof fn lemma_gaps(speech: Seq<(TimeUs, TimeUs)>, from: TimeUs, to: TimeUs, n: nat, t: TimeUs)
    requires
        apart(speech, from, to),
        n <= speech.len(),
        from <= t,
    ensures
        from <= reached(speech, from, n) <= time::max_time(to, from),
        in_one(gaps(speech, from, n), t) <==> t < reached(speech, from, n) && !in_one(
            speech.take(n as int),
            t,
        ),
    decreases n,
{
    if n == 0 {
        assert(!in_one(gaps(speech, from, 0), t));
    } else {
        let m = (n - 1) as nat;
        lemma_gaps(speech, from, to, m, t);
        let before = gaps(speech, from, m);
        let c = reached(speech, from, m);
        let s = speech[n - 1];
        let now = gaps(speech, from, n);
        assert(from <= s.0 <= s.1 <= to);
        if n > 1 {
            assert(speech[n - 2].1 < s.0);
        }
        assert(c <= s.0);
        assert(in_one(speech.take(n as int), t) <==> in_one(speech.take(m as int), t) || (s.0 <= t
            < s.1)) by {
            let a = speech.take(m as int);
            let b = speech.take(n as int);
            if in_one(a, t) {
                let i = choose|i: int| 0 <= i < a.len() && (#[trigger] a[i]).0 <= t < a[i].1;
                assert(b[i].0 <= t < b[i].1);
            }
            if s.0 <= t < s.1 {
                assert(b[n - 1].0 <= t < b[n - 1].1);
            }
            if in_one(b, t) {
                let i = choose|i: int| 0 <= i < b.len() && (#[trigger] b[i]).0 <= t < b[i].1;
                if i < m {
                    assert(a[i].0 <= t < a[i].1);
                }
            }
        }
        assert(in_one(speech.take(m as int), t) ==> t < c) by {
            let a = speech.take(m as int);
            if in_one(a, t) {
                let i = choose|i: int| 0 <= i < a.len() && (#[trigger] a[i]).0 <= t < a[i].1;
                if i < m - 1 {
                    assert(speech[i].1 < speech[m - 1].0);
                    assert(speech[m - 1].0 <= speech[m - 1].1);
                }
            }
        }
        assert(in_one(now, t) <==> in_one(before, t) || (c <= t < s.0)) by {
            if in_one(before, t) {
                let i = choose|i: int|
                    0 <= i < before.len() && (#[trigger] before[i]).0 <= t < before[i].1;
                assert(now[i].0 <= t < now[i].1);
            }
            if c <= t < s.0 {
                assert(now.last().0 <= t < now.last().1);
                assert(now[now.len() - 1].0 <= t < now[now.len() - 1].1);
            }
            if in_one(now, t) {
                let i = choose|i: int| 0 <= i < now.len() && (#[trigger] now[i]).0 <= t < now[i].1;
                if i < before.len() {
                    assert(before[i].0 <= t < before[i].1);
                }
            }
        }
    }
}

/// Speech and silence together make up the range: a time of it is in a silence
/// exactly where it is not in speech.
pub proof fn law_silence_is_the_rest(speech: Seq<(TimeUs, TimeUs)>, from: TimeUs, to: TimeUs, t: TimeUs)
    requires
        apart(speech, from, to),
        from <= t < to,
    ensures
        in_one(silences_of(speech, from, to), t) <==> !in_one(speech, t),
{
    let n = speech.len();
    lemma_gaps(speech, from, to, n, t);
    assert(speech.take(n as int) =~= speech);
    let c = reached(speech, from, n);
    let g = gaps(speech, from, n);
    let all = silences_of(speech, from, to);
    assert(in_one(speech, t) ==> t < c) by {
        if in_one(speech, t) {
            let i = choose|i: int|
                0 <= i < speech.len() && (#[trigger] speech[i]).0 <= t < speech[i].1;
            if i < n - 1 {
                assert(speech[i].1 < speech[n - 1].0);
                assert(speech[n - 1].0 <= speech[n - 1].1);
            }
        }
    }
    assert(in_one(all, t) <==> in_one(g, t) || (c <= t < to)) by {
        if in_one(g, t) {
            let i = choose|i: int| 0 <= i < g.len() && (#[trigger] g[i]).0 <= t < g[i].1;
            assert(all[i].0 <= t < all[i].1);
        }
        if c <= t < to {
            assert(all[all.len() - 1].0 <= t < all[all.len() - 1].1);
        }
        if in_one(all, t) {
            let i = choose|i: int| 0 <= i < all.len() && (#[trigger] all[i]).0 <= t < all[i].1;
            if i < g.len() {
                assert(g[i].0 <= t < g[i].1);
            }
        }
    }
}

// ---- a whole sound ----

/// The windows of a range, each as loud as is said.
pub open spec fn windows_of(from: TimeUs, to: TimeUs, loud: Seq<Real>) -> Seq<Window> {
    Seq::new(
        window_count(from, to),
        |i: int| ((from + i * HOP_US + WINDOW_US / 2) as TimeUs, loud[i]),
    )
}

proof fn lemma_windows(from: TimeUs, to: TimeUs, i: int)
    requires
        0 <= i < window_count(from, to),
    ensures
        from + i * HOP_US + WINDOW_US <= to,
{
    let n = (to - from - WINDOW_US) / HOP_US as int;
    assert(i * HOP_US <= n * HOP_US) by (nonlinear_arith)
        requires
            i <= n,
    ;
}

/// Windows follow each other inside their range.
pub proof fn law_windows_are_in_order(from: TimeUs, to: TimeUs, loud: Seq<Real>)
    ensures
        in_order(windows_of(from, to, loud), from, to),
{
    let w = windows_of(from, to, loud);
    assert forall|i: int| 0 <= i < w.len() implies from <= #[trigger] w[i].0 <= to by {
        lemma_windows(from, to, i);
        assert(0 <= i * HOP_US) by (nonlinear_arith)
            requires
                i >= 0,
        ;
    }
    assert forall|i: int, j: int| 0 <= i < j < w.len() implies #[trigger] w[i].0
        <= #[trigger] w[j].0 by {
        lemma_windows(from, to, i);
        lemma_windows(from, to, j);
        assert(0 <= i * HOP_US <= j * HOP_US) by (nonlinear_arith)
            requires
                0 <= i <= j,
        ;
    }
}

/// Makes the windows of a range from how loud each of them is, in the order of
/// their starts.
pub fn make_windows(from: TimeUs, to: TimeUs, loud: &Vec<Real>) -> (w: Vec<Window>)
    requires
        loud.len() == window_count(from, to),
    ensures
        w@ == windows_of(from, to, loud@),
        in_order(w@, from, to),
{
    proof {
        law_windows_are_in_order(from, to, loud@);
    }
    let starts: Vec<TimeUs> = window_starts(from, to);
    let ghost all = windows_of(from, to, loud@);
    let mut w: Vec<Window> = Vec::new();
    let mut i: usize = 0;
    while i < starts.len()
        invariant
            i <= starts.len(),
            starts@ == Seq::new(
                window_count(from, to),
                |i: int| (from + i * HOP_US) as TimeUs,
            ),
            loud.len() == window_count(from, to),
            all == windows_of(from, to, loud@),
            w@ == all.take(i as int),
        decreases starts.len() - i,
    {
        proof {
            lemma_windows(from, to, i as int);
            assert(0 <= i * HOP_US) by (nonlinear_arith);
            assert(starts@[i as int] == from + i * HOP_US);
        }
        w.push((starts[i] + WINDOW_US / 2, loud[i]));
        i = i + 1;
        assert(w@ =~= all.take(i as int));
    }
    assert(all.take(i as int) =~= all);
    w
}

/// The end of a range in a sound.
pub open spec fn heard_end(w: Wave, to: TimeUs) -> TimeUs {
    end_within(to, w.frames@.len() as int, w.sample_rate as int)
}

/// Finds the speech in a range of a sound, given how loud each window is up to
/// the end of the sound.
pub fn speech_in_sound(w: &Wave, from_us: TimeUs, to_us: TimeUs, loud: &Vec<Real>, params: &SilenceParams) -> (r:
    Vec<(TimeUs, TimeUs)>)
    requires
        w.sample_rate > 0,
        loud.len() == window_count(from_us, heard_end(*w, to_us)),
    ensures
        r@ == speech_of(
            windows_of(from_us, heard_end(*w, to_us), loud@),
            from_us,
            heard_end(*w, to_us),
            *params,
        ),
{
    let end: TimeUs = cut_end(to_us, w.frames.len() as u64, w.sample_rate);
    let windows: Vec<Window> = make_windows(from_us, end, loud);
    detect_speech(&windows, from_us, end, params)
}

/// Finds the silences in a range of a sound, given how loud each window is up to
/// the end of the sound.
pub fn silences_in_sound(
    w: &Wave,
    from_us: TimeUs,
    to_us: TimeUs,
    loud: &Vec<Real>,
    params: &SilenceParams,
) -> (r: Vec<(TimeUs, TimeUs)>)
    requires
        w.sample_rate > 0,
        loud.len() == window_count(from_us, heard_end(*w, to_us)),
    ensures
        r@ == silences_of(
            speech_of(
                windows_of(from_us, heard_end(*w, to_us), loud@),
                from_us,
                heard_end(*w, to_us),
                *params,
            ),
            from_us,
            heard_end(*w, to_us),
        ),
{
    let end: TimeUs = cut_end(to_us, w.frames.len() as u64, w.sample_rate);
    let windows: Vec<Window> = make_windows(from_us, end, loud);
    detect_silences(&windows, from_us, end, params)
}

/// Finds the silences of a clip on the timeline, given how loud each window of
/// its material is up to the end of the sound.
pub fn clip_silences_in_sound(
    w: &Wave,
    clip_start_us: TimeUs,
    src_in_us: TimeUs,
    src_out_us: TimeUs,
    loud: &Vec<Real>,
    params: &SilenceParams,
) -> (r: Vec<(TimeUs, TimeUs)>)
    requires
        w.sample_rate > 0,
        loud.len() == window_count(src_in_us, heard_end(*w, src_out_us)),
    ensures
        r@ == silences_of(
            speech_of(
                windows_of(src_in_us, heard_end(*w, src_out_us), loud@),
                src_in_us,
                heard_end(*w, src_out_us),
                *params,
            ),
            src_in_us,
            heard_end(*w, src_out_us),
        ).map_values(|x: (TimeUs, TimeUs)| on_timeline(clip_start_us, src_in_us, x)),
{
    let end: TimeUs = cut_end(src_out_us, w.frames.len() as u64, w.sample_rate);
    let windows: Vec<Window> = make_windows(src_in_us, end, loud);
    clip_silences_on_timeline(&windows, clip_start_us, src_in_us, end, params)
}

/// Whether no range is empty.
pub open spec fn filled(r: Seq<(TimeUs, TimeUs)>) -> bool {
    forall|i: int| 0 <= i < r.len() ==> (#[trigger] r[i]).0 < r[i].1
}

proof fn lemma_padded_filled(s: Seq<Span>, from: TimeUs, to: TimeUs, p: SilenceParams, n: nat)
    requires
        in_line(s, from, to),
        p.min_speech_us > 0,
        p.pad_pre_us >= 0,
        p.pad_post_us >= 0,
        n <= s.len(),
    ensures
        filled(padded_speech(s, from, to, p, n)),
    decreases n,
{
    if n > 0 {
        lemma_padded_filled(s, from, to, p, (n - 1) as nat);
        let before = padded_speech(s, from, to, p, (n - 1) as nat);
        let x = s[n - 1];
        assert(from <= x.0 <= x.1 <= to);
        if before.len() > 0 {
            assert(before[before.len() - 1].0 < before[before.len() - 1].1);
        }
    }
}

proof fn lemma_gaps_apart(speech: Seq<(TimeUs, TimeUs)>, from: TimeUs, to: TimeUs, n: nat)
    requires
        apart(speech, from, to),
        filled(speech),
        n <= speech.len(),
    ensures
        filled(gaps(speech, from, n)),
        apart(gaps(speech, from, n), from, to),
        forall|i: int|
            0 <= i < gaps(speech, from, n).len() ==> (#[trigger] gaps(speech, from, n)[i]).1
                < reached(speech, from, n),
        from <= reached(speech, from, n) <= time::max_time(to, from),
    decreases n,
{
    if n > 0 {
        let m: nat = (n - 1) as nat;
        lemma_gaps_apart(speech, from, to, m);
        let before = gaps(speech, from, m);
        let c = reached(speech, from, m);
        let s = speech[n - 1];
        assert(from <= s.0 < s.1 <= to);
        if n > 1 {
            assert(speech[n - 2].1 < s.0);
        }
        assert forall|i: int| 0 <= i < before.len() implies (#[trigger] before[i]).1 < s.1 by {}
    }
}

/// Speech and silence tile a range of a sound up to its end: no piece of either
/// is empty, no two of a kind meet, and each time is in exactly one of them.
/// Behind the end of the sound there is neither.
pub proof fn law_sound_is_tiled(
    w: Wave,
    from: TimeUs,
    to: TimeUs,
    loud: Seq<Real>,
    p: SilenceParams,
    t: TimeUs,
)
    requires
        p.min_speech_us > 0,
        p.pad_pre_us >= 0,
        p.pad_post_us >= 0,
    ensures
        ({
            let end = heard_end(w, to);
            let speech = speech_of(windows_of(from, end, loud), from, end, p);
            let rest = silences_of(speech, from, end);
            &&& end <= from ==> speech.len() == 0 && rest.len() == 0
            &&& apart(speech, from, end) && filled(speech)
            &&& apart(rest, from, end) && filled(rest)
            &&& from <= t < end ==> (in_one(rest, t) <==> !in_one(speech, t))
            &&& !(from <= t < end) ==> !in_one(rest, t) && !in_one(speech, t)
        }),
{
    let end = heard_end(w, to);
    let windows = windows_of(from, end, loud);
    let speech = speech_of(windows, from, end, p);
    let rest = silences_of(speech, from, end);
    law_windows_are_in_order(from, end, loud);
    law_speech_is_apart(windows, from, end, p);
    if end > from {
        let raw = raw_spans(windows, p, windows.len());
        lemma_raw_in_line(windows, from, end, p, windows.len());
        lemma_merged_in_line(raw, from, end, p, raw.len());
        let merged = merged_spans(raw, p, raw.len());
        lemma_padded_filled(merged, from, end, p, merged.len());
    }
    lemma_gaps_apart(speech, from, end, speech.len());
    if from <= t < end {
        law_silence_is_the_rest(speech, from, end, t);
    } else {
        if in_one(rest, t) {
            let i = choose|i: int| 0 <= i < rest.len() && (#[trigger] rest[i]).0 <= t < rest[i].1;
            assert(from <= rest[i].0 <= rest[i].1 <= end);
        }
        if in_one(speech, t) {
            let i = choose|i: int|
                0 <= i < speech.len() && (#[trigger] speech[i]).0 <= t < speech[i].1;
            assert(from <= speech[i].0 <= speech[i].1 <= end);
        }
    }
}

} // verus!
