//! What is taken for speech, and what for silence, in terms of the windows of a
//! sound: a window speaks from when it is loud until it is quiet, a short pause
//! belongs to the speech around it, a long one is a silence but for the padding
//! of the speech beside it, and speech that is too short is none.

use vstd::prelude::*;

use crate::silence;
use crate::silence::{in_one, in_order, speech_of, silences_of, SilenceParams, Span, Window};
use crate::time;
use crate::time::TimeUs;

verus! {

/// Whether a window speaks: it or one before it is louder than the threshold,
/// and none since then is quieter than the threshold less the hysteresis.
pub open spec fn speaks(w: Seq<Window>, p: SilenceParams, n: int) -> bool {
    exists|m: int|
        0 <= m <= n && p.threshold_db.less((#[trigger] w[m]).1) && (forall|k: int|
            m < k <= n ==> !(#[trigger] w[k]).1.less(p.threshold_db.minus(p.hysteresis_db)))
}

/// Whether the windows from one to another are a pause: none of them speaks, and
/// those beside them do.
pub open spec fn pause(w: Seq<Window>, p: SilenceParams, l: int, r: int) -> bool {
    &&& 0 <= l <= r < w.len()
    &&& forall|k: int| l <= k <= r ==> !#[trigger] speaks(w, p, k)
    &&& l == 0 || speaks(w, p, l - 1)
    &&& r == w.len() - 1 || speaks(w, p, r + 1)
}

/// Whether a pause is too short for a silence.
pub open spec fn short_pause(w: Seq<Window>, p: SilenceParams, l: int, r: int) -> bool {
    pause(w, p, l, r) && w[r].0 - w[l].0 < p.min_silence_us
}

/// Whether a window is taken for speech: it speaks, or is in a short pause.
pub open spec fn taken(w: Seq<Window>, p: SilenceParams, k: int) -> bool {
    speaks(w, p, k) || exists|l: int, r: int| #[trigger] short_pause(w, p, l, r) && l <= k <= r
}

/// Whether all windows from one to another are taken for speech, and last long
/// enough for it.
pub open spec fn voiced(w: Seq<Window>, p: SilenceParams, a: int, b: int) -> bool {
    &&& 0 <= a <= b < w.len()
    &&& forall|k: int| a <= k <= b ==> #[trigger] taken(w, p, k)
    &&& w[b].0 - w[a].0 >= p.min_speech_us
}

// ---- runs of windows ----

/// Windows from one to another, and whether they have a property.
type Run = (int, int, bool);

spec fn meets(s: Seq<Run>, i: int) -> bool {
    s[i - 1].1 + 1 == s[i].0 && s[i - 1].2 != s[i].2
}

spec fn all_are(x: Run, prop: spec_fn(int) -> bool) -> bool {
    forall|k: int| x.0 <= k <= x.1 ==> #[trigger] prop(k) == x.2
}

/// Whether runs tile the first windows by a property.
spec fn tiled(s: Seq<Run>, n: int, prop: spec_fn(int) -> bool) -> bool {
    &&& n == 0 ==> s.len() == 0
    &&& n > 0 ==> s.len() > 0 && s[0].0 == 0 && s.last().1 == n - 1
    &&& forall|i: int|
        0 <= i < s.len() ==> 0 <= (#[trigger] s[i]).0 <= s[i].1 < n && all_are(s[i], prop)
    &&& forall|i: int| 0 < i < s.len() ==> #[trigger] meets(s, i)
}

spec fn with_run(s: Seq<Run>, i: int, j: int, f: bool) -> Seq<Run> {
    if s.len() > 0 && s.last().2 == f {
        s.update(s.len() - 1, (s.last().0, j, f))
    } else {
        s.push((i, j, f))
    }
}

proof fn lemma_with_run(s: Seq<Run>, n: int, j: int, f: bool, prop: spec_fn(int) -> bool)
    requires
        0 <= n <= j,
        tiled(s, n, prop),
        all_are((n, j, f), prop),
    ensures
        tiled(with_run(s, n, j, f), j + 1, prop),
{
    let r = with_run(s, n, j, f);
    let z = r.len() - 1;
    assert forall|i: int| 0 <= i < r.len() implies 0 <= (#[trigger] r[i]).0 <= r[i].1 < j + 1
        && all_are(r[i], prop) by {
        if i < z {
            assert(r[i] == s[i]);
        } else if s.len() > 0 && s.last().2 == f {
            let old = s[s.len() - 1];
            assert(all_are(old, prop));
            assert forall|k: int| r[i].0 <= k <= r[i].1 implies #[trigger] prop(k) == r[i].2 by {
                if k < n {
                    assert(old.0 <= k <= old.1);
                }
            }
        }
    }
    assert forall|i: int| 0 < i < r.len() implies #[trigger] meets(r, i) by {
        if i < s.len() {
            assert(meets(s, i));
        }
        if i < z {
            assert(r[i] == s[i]);
        }
        assert(r[i - 1] == s[i - 1]);
    }
}

/// The run that a window is in.
proof fn lemma_find(s: Seq<Run>, n: int, prop: spec_fn(int) -> bool, k: int, m: int) -> (i: int)
    requires
        tiled(s, n, prop),
        0 <= k < n,
        0 <= m < s.len(),
        k <= s[m].1,
    ensures
        0 <= i < s.len(),
        s[i].0 <= k <= s[i].1,
    decreases m,
{
    if s[m].0 <= k {
        m
    } else {
        assert(m > 0);
        assert(meets(s, m));
        lemma_find(s, n, prop, k, m - 1)
    }
}

spec fn speaking(w: Seq<Window>, p: SilenceParams) -> spec_fn(int) -> bool {
    |k: int| speaks(w, p, k)
}

spec fn taking(w: Seq<Window>, p: SilenceParams) -> spec_fn(int) -> bool {
    |k: int| taken(w, p, k)
}

spec fn timed(w: Seq<Window>, s: Seq<Run>) -> Seq<Span> {
    s.map_values(|x: Run| (w[x.0].0, w[x.1].0, x.2))
}

proof fn lemma_timed_run(w: Seq<Window>, s: Seq<Run>, i: int, j: int, f: bool)
    ensures
        timed(w, with_run(s, i, j, f)) == silence::grown(timed(w, s), w[i].0, w[j].0, f),
{
    let a = timed(w, with_run(s, i, j, f));
    let b = silence::grown(timed(w, s), w[i].0, w[j].0, f);
    if s.len() > 0 {
        assert(timed(w, s).last() == (w[s.last().0].0, w[s.last().1].0, s.last().2));
    }
    assert(a =~= b);
}

// ---- windows that speak ----

proof fn lemma_speaks(w: Seq<Window>, p: SilenceParams, n: int)
    requires
        0 <= n < w.len(),
        !p.threshold_db.less(p.threshold_db.minus(p.hysteresis_db)),
    ensures
        silence::talking_after(w, p, (n + 1) as nat) == speaks(w, p, n),
    decreases n,
{
    let off = p.threshold_db.minus(p.hysteresis_db);
    let loud = p.threshold_db.less(w[n].1);
    if loud {
        assert(speaks(w, p, n)) by {
            assert(p.threshold_db.less(w[n].1));
        }
        assert(!w[n].1.less(off));
    }
    if n == 0 {
        assert(silence::talking_after(w, p, 0) == loud);
        assert(silence::talking_after(w, p, 1) == silence::talks(loud, w[0].1, p));
    } else {
        lemma_speaks(w, p, n - 1);
        let before = speaks(w, p, n - 1);
        assert(silence::talking_after(w, p, (n + 1) as nat) == silence::talks(before, w[n].1, p));
        if before && !w[n].1.less(off) {
            let m = choose|m: int|
                0 <= m <= n - 1 && p.threshold_db.less((#[trigger] w[m]).1) && (forall|k: int|
                    m < k <= n - 1 ==> !(#[trigger] w[k]).1.less(off));
            assert(forall|k: int| m < k <= n ==> !(#[trigger] w[k]).1.less(off));
            assert(speaks(w, p, n));
        }
        if speaks(w, p, n) && !loud {
            let m = choose|m: int|
                0 <= m <= n && p.threshold_db.less((#[trigger] w[m]).1) && (forall|k: int|
                    m < k <= n ==> !(#[trigger] w[k]).1.less(off));
            assert(m < n);
            assert(!w[n].1.less(off));
            assert(speaks(w, p, n - 1));
        }
    }
}

spec fn raw_runs(w: Seq<Window>, p: SilenceParams, n: nat) -> Seq<Run>
    decreases n,
{
    if n == 0 {
        Seq::empty()
    } else {
        with_run(raw_runs(w, p, (n - 1) as nat), n - 1, n - 1, speaks(w, p, n - 1))
    }
}

proof fn lemma_raw(w: Seq<Window>, p: SilenceParams, n: nat)
    requires
        n <= w.len(),
        !p.threshold_db.less(p.threshold_db.minus(p.hysteresis_db)),
    ensures
        silence::raw_spans(w, p, n) == timed(w, raw_runs(w, p, n)),
        tiled(raw_runs(w, p, n), n as int, speaking(w, p)),
    decreases n,
{
    if n == 0 {
        assert(timed(w, raw_runs(w, p, 0)) =~= Seq::<Span>::empty());
    } else {
        let m = (n - 1) as nat;
        lemma_raw(w, p, m);
        lemma_speaks(w, p, m as int);
        lemma_timed_run(w, raw_runs(w, p, m), m as int, m as int, speaks(w, p, m as int));
        lemma_with_run(
            raw_runs(w, p, m),
            m as int,
            m as int,
            speaks(w, p, m as int),
            speaking(w, p),
        );
    }
}

// ---- windows that are taken for speech ----

spec fn merged_runs(w: Seq<Window>, s: Seq<Run>, p: SilenceParams, n: nat) -> Seq<Run>
    decreases n,
{
    if n == 0 {
        Seq::empty()
    } else {
        let x = s[n - 1];
        with_run(
            merged_runs(w, s, p, (n - 1) as nat),
            x.0,
            x.1,
            x.2 || w[x.1].0 - w[x.0].0 < p.min_silence_us,
        )
    }
}

/// A run of windows that do not speak is a pause, the only one around them.
proof fn lemma_pause(w: Seq<Window>, s: Seq<Run>, p: SilenceParams, i: int)
    requires
        tiled(s, w.len() as int, speaking(w, p)),
        0 <= i < s.len(),
    ensures
        all_are(
            (s[i].0, s[i].1, s[i].2 || w[s[i].1].0 - w[s[i].0].0 < p.min_silence_us),
            taking(w, p),
        ),
{
    let x = s[i];
    let prop = speaking(w, p);
    let short = w[x.1].0 - w[x.0].0 < p.min_silence_us;
    assert(all_are(x, prop));
    assert forall|k: int| x.0 <= k <= x.1 implies speaks(w, p, k) == x.2 by {
        assert(prop(k) == x.2);
    }
    if !x.2 {
        if x.0 > 0 {
            if i == 0 {
                assert(s[0].0 == 0);
            }
            assert(meets(s, i));
            let y = s[i - 1];
            assert(all_are(y, prop));
            assert(prop(y.1) == y.2);
            assert(speaks(w, p, x.0 - 1));
        }
        if x.1 < w.len() - 1 {
            assert(i + 1 < s.len());
            assert(meets(s, i + 1));
            let y = s[i + 1];
            assert(all_are(y, prop));
            assert(prop(y.0) == y.2);
            assert(speaks(w, p, x.1 + 1));
        }
        assert(pause(w, p, x.0, x.1));
    }
    assert forall|k: int| x.0 <= k <= x.1 implies #[trigger] taking(w, p)(k) == (x.2 || short) by {
        if x.2 {
            assert(speaks(w, p, k));
        } else {
            if short {
                assert(short_pause(w, p, x.0, x.1));
            }
            if exists|l: int, r: int| #[trigger] short_pause(w, p, l, r) && l <= k <= r {
                let (l, r) = choose|l: int, r: int| #[trigger]
                    short_pause(w, p, l, r) && l <= k <= r;
                if l < x.0 {
                    assert(speaks(w, p, x.0 - 1));
                }
                if l > x.0 {
                    assert(speaks(w, p, l - 1));
                }
                if r > x.1 {
                    assert(speaks(w, p, x.1 + 1));
                }
                if r < x.1 {
                    assert(speaks(w, p, r + 1));
                }
            }
        }
    }
}

proof fn lemma_merged(w: Seq<Window>, s: Seq<Run>, from: TimeUs, to: TimeUs, p: SilenceParams, n: nat)
    requires
        in_order(w, from, to),
        tiled(s, w.len() as int, speaking(w, p)),
        n <= s.len(),
    ensures
        silence::merged_spans(timed(w, s), p, n) == timed(w, merged_runs(w, s, p, n)),
        tiled(
            merged_runs(w, s, p, n),
            if n == 0 {
                0
            } else {
                s[n - 1].1 + 1
            },
            taking(w, p),
        ),
    decreases n,
{
    if n == 0 {
        assert(timed(w, merged_runs(w, s, p, 0)) =~= Seq::<Span>::empty());
    } else {
        let m = (n - 1) as nat;
        lemma_merged(w, s, from, to, p, m);
        let x = s[n - 1];
        let f = x.2 || w[x.1].0 - w[x.0].0 < p.min_silence_us;
        assert(timed(w, s)[n - 1] == (w[x.0].0, w[x.1].0, x.2));
        if x.0 < x.1 {
            assert(w[x.0].0 <= w[x.1].0);
        }
        assert((time::sooner(w[x.1].0, w[x.0].0) < p.min_silence_us) == (w[x.1].0 - w[x.0].0
            < p.min_silence_us));
        lemma_timed_run(w, merged_runs(w, s, p, m), x.0, x.1, f);
        lemma_pause(w, s, p, n - 1);
        if m > 0 {
            assert(meets(s, m as int));
        }
        lemma_with_run(merged_runs(w, s, p, m), x.0, x.1, f, taking(w, p));
    }
}

// ---- padding ----

/// Whether a stretch is long enough for speech, and covers a time with its
/// padding.
spec fn reaches(x: Span, from: TimeUs, to: TimeUs, p: SilenceParams, t: TimeUs) -> bool {
    &&& x.2
    &&& x.1 - x.0 >= p.min_speech_us
    &&& from <= t < to
    &&& x.0 - p.pad_pre_us <= t < x.1 + p.pad_post_us
}

spec fn some_reaches(s: Seq<Span>, n: int, from: TimeUs, to: TimeUs, p: SilenceParams, t: TimeUs) -> bool {
    exists|i: int| 0 <= i < n && reaches(#[trigger] s[i], from, to, p, t)
}

proof fn lemma_padded(
    s: Seq<Span>,
    from: TimeUs,
    to: TimeUs,
    p: SilenceParams,
    n: nat,
    t: TimeUs,
)
    requires
        silence::in_line(s, from, to),
        p.pad_pre_us >= 0,
        p.pad_post_us >= 0,
        n <= s.len(),
    ensures
        in_one(silence::padded_speech(s, from, to, p, n), t) == some_reaches(
            s,
            n as int,
            from,
            to,
            p,
            t,
        ),
        n > 0 && silence::padded_speech(s, from, to, p, n).len() > 0
            ==> silence::padded_speech(s, from, to, p, n).last().0 <= time::max_time(
            time::sooner(s[n - 1].0, p.pad_pre_us),
            from,
        ),
    decreases n,
{
    let r = silence::padded_speech(s, from, to, p, n);
    if n == 0 {
        assert(!in_one(r, t));
        assert(!some_reaches(s, 0, from, to, p, t));
    } else {
        let m = (n - 1) as nat;
        lemma_padded(s, from, to, p, m, t);
        let before = silence::padded_speech(s, from, to, p, m);
        let x = s[n - 1];
        assert(from <= x.0 <= x.1 <= to);
        if m > 0 {
            assert(s[m - 1].1 <= s[n - 1].0);
            assert(s[m - 1].0 <= s[m - 1].1);
        } else {
            assert(before.len() == 0);
        }
        assert(some_reaches(s, n as int, from, to, p, t) == (some_reaches(
            s,
            m as int,
            from,
            to,
            p,
            t,
        ) || reaches(x, from, to, p, t))) by {
            if some_reaches(s, m as int, from, to, p, t) {
                let i = choose|i: int| 0 <= i < m && reaches(#[trigger] s[i], from, to, p, t);
                assert(reaches(s[i], from, to, p, t));
            }
            if reaches(x, from, to, p, t) {
                assert(reaches(s[n - 1], from, to, p, t));
            }
            if some_reaches(s, n as int, from, to, p, t) {
                let i = choose|i: int| 0 <= i < n && reaches(#[trigger] s[i], from, to, p, t);
                if i < m {
                    assert(reaches(s[i], from, to, p, t));
                }
            }
        }
        if x.2 && time::sooner(x.1, x.0) >= p.min_speech_us {
            let a = time::max_time(time::sooner(x.0, p.pad_pre_us), from);
            let b = time::min_time(time::later(x.1, p.pad_post_us), to);
            assert((a <= t < b) == reaches(x, from, to, p, t));
            let z = before.len() - 1;
            assert(in_one(r, t) == (in_one(before, t) || a <= t < b)) by {
                if before.len() > 0 && a <= before.last().1 {
                    let g = (before.last().0, time::max_time(before.last().1, b));
                    assert(r == before.update(z, g));
                    if in_one(before, t) {
                        let i = choose|i: int|
                            0 <= i < before.len() && (#[trigger] before[i]).0 <= t < before[i].1;
                        if i < z {
                            assert(r[i] == before[i]);
                        } else {
                            assert(r[z] == g);
                        }
                    }
                    if a <= t < b {
                        assert(r[z] == g);
                    }
                    if in_one(r, t) {
                        let i = choose|i: int|
                            0 <= i < r.len() && (#[trigger] r[i]).0 <= t < r[i].1;
                        if i < z {
                            assert(before[i].0 <= t < before[i].1);
                        } else if t < before.last().1 {
                            assert(before[z].0 <= t < before[z].1);
                        }
                    }
                } else {
                    assert(r == before.push((a, b)));
                    if in_one(before, t) {
                        let i = choose|i: int|
                            0 <= i < before.len() && (#[trigger] before[i]).0 <= t < before[i].1;
                        assert(r[i] == before[i]);
                    }
                    if a <= t < b {
                        assert(r[z + 1] == (a, b));
                    }
                    if in_one(r, t) {
                        let i = choose|i: int|
                            0 <= i < r.len() && (#[trigger] r[i]).0 <= t < r[i].1;
                        if i <= z {
                            assert(before[i].0 <= t < before[i].1);
                        }
                    }
                }
            }
        }
    }
}

// ---- the laws ----

/// Whether a time is in the speech of some windows, or in the padding around it.
pub open spec fn said(w: Seq<Window>, p: SilenceParams, a: int, b: int, t: TimeUs) -> bool {
    voiced(w, p, a, b) && w[a].0 - p.pad_pre_us <= t < w[b].0 + p.pad_post_us
}

/// What is found to be speech: a time of the range is in it exactly where windows
/// that are taken for speech, one after the other and for long enough, have it
/// between them or in the padding around them.
#[verifier::spinoff_prover]
pub proof fn law_speech_is_what_is_said(
    w: Seq<Window>,
    from: TimeUs,
    to: TimeUs,
    p: SilenceParams,
    t: TimeUs,
)
    requires
        from <= t < to,
        in_order(w, from, to),
        p.pad_pre_us >= 0,
        p.pad_post_us >= 0,
        !p.threshold_db.less(p.threshold_db.minus(p.hysteresis_db)),
    ensures
        in_one(speech_of(w, from, to, p), t) <==> exists|a: int, b: int| #[trigger] said(w, p, a, b, t),
{
    let raw = raw_runs(w, p, w.len());
    lemma_raw(w, p, w.len());
    let merged = merged_runs(w, raw, p, raw.len());
    lemma_merged(w, raw, from, to, p, raw.len());
    let spans = timed(w, merged);
    let n = spans.len();
    assert(timed(w, raw).len() == raw.len());
    assert forall|i: int| 0 <= i < spans.len() implies from <= #[trigger] spans[i].0 <= spans[i].1
        <= to by {
        let x = merged[i];
        assert(from <= w[x.0].0 <= to && from <= w[x.1].0 <= to);
        if x.0 < x.1 {
            assert(w[x.0].0 <= w[x.1].0);
        }
    }
    let prop = taking(w, p);
    assert(tiled(merged, w.len() as int, prop));
    assert(silence::in_line(spans, from, to)) by {
        silence::lemma_found_in_line(w, from, to, p);
    }
    lemma_padded(spans, from, to, p, n, t);
    if some_reaches(spans, n as int, from, to, p, t) {
        let i = choose|i: int| 0 <= i < n && reaches(#[trigger] spans[i], from, to, p, t);
        let x = merged[i];
        assert(all_are(x, prop));
        assert forall|k: int| x.0 <= k <= x.1 implies #[trigger] taken(w, p, k) by {
            assert(prop(k) == x.2);
        }
        assert(said(w, p, x.0, x.1, t));
    }
    if exists|a: int, b: int| #[trigger] said(w, p, a, b, t) {
        let (a, b) = choose|a: int, b: int| #[trigger] said(w, p, a, b, t);
        let i = lemma_find(merged, w.len() as int, prop, a, merged.len() - 1);
        let x = merged[i];
        assert(all_are(x, prop));
        assert(prop(a) == x.2);
        assert(taken(w, p, a));
        if b > x.1 {
            assert(i + 1 < merged.len());
            assert(meets(merged, i + 1));
            let y = merged[i + 1];
            assert(all_are(y, prop));
            assert(prop(y.0) == y.2);
            assert(taken(w, p, y.0));
        }
        if x.0 < a {
            assert(w[x.0].0 <= w[a].0);
        }
        if b < x.1 {
            assert(w[b].0 <= w[x.1].0);
        }
        assert(reaches(spans[i], from, to, p, t));
    }
}

/// A pause between two windows that speak which is shorter than the least silence
/// is kept as speech, for every value of it, where the speech around it lasts
/// long enough.
pub proof fn law_short_pause_is_kept(
    w: Seq<Window>,
    from: TimeUs,
    to: TimeUs,
    p: SilenceParams,
    i: int,
    j: int,
    t: TimeUs,
)
    requires
        in_order(w, from, to),
        p.pad_pre_us >= 0,
        p.pad_post_us >= 0,
        !p.threshold_db.less(p.threshold_db.minus(p.hysteresis_db)),
        0 <= i,
        i + 1 < j < w.len(),
        speaks(w, p, i),
        speaks(w, p, j),
        forall|k: int| i < k < j ==> !#[trigger] speaks(w, p, k),
        w[j - 1].0 - w[i + 1].0 < p.min_silence_us,
        w[j].0 - w[i].0 >= p.min_speech_us,
        from <= t < to,
        w[i].0 <= t < w[j].0,
    ensures
        in_one(speech_of(w, from, to, p), t),
        !in_one(silences_of(speech_of(w, from, to, p), from, to), t),
{
    assert(short_pause(w, p, i + 1, j - 1));
    assert forall|k: int| i <= k <= j implies #[trigger] taken(w, p, k) by {
        if i < k < j {
            assert(short_pause(w, p, i + 1, j - 1) && i + 1 <= k <= j - 1);
        }
    }
    assert(said(w, p, i, j, t));
    law_speech_is_what_is_said(w, from, to, p, t);
    silence::law_speech_is_apart(w, from, to, p);
    silence::law_silence_is_the_rest(speech_of(w, from, to, p), from, to, t);
}

/// A pause between two windows that speak which is as long as the least silence
/// or longer is one: all of it but the paddings is in a silence, for every value
/// of the least silence.
pub proof fn law_long_pause_is_cut(
    w: Seq<Window>,
    from: TimeUs,
    to: TimeUs,
    p: SilenceParams,
    i: int,
    j: int,
    t: TimeUs,
)
    requires
        in_order(w, from, to),
        p.pad_pre_us >= 0,
        p.pad_post_us >= 0,
        !p.threshold_db.less(p.threshold_db.minus(p.hysteresis_db)),
        0 <= i,
        i + 1 < j < w.len(),
        speaks(w, p, i),
        speaks(w, p, j),
        forall|k: int| i < k < j ==> !#[trigger] speaks(w, p, k),
        w[j - 1].0 - w[i + 1].0 >= p.min_silence_us,
        from <= t < to,
        w[i].0 + p.pad_post_us <= t < w[j].0 - p.pad_pre_us,
    ensures
        !in_one(speech_of(w, from, to, p), t),
        in_one(silences_of(speech_of(w, from, to, p), from, to), t),
{
    law_speech_is_what_is_said(w, from, to, p, t);
    if exists|a: int, b: int| #[trigger] said(w, p, a, b, t) {
        let (a, b) = choose|a: int, b: int| #[trigger] said(w, p, a, b, t);
        if b <= i {
            if b < i {
                assert(w[b].0 <= w[i].0);
            }
        } else if a >= j {
            if j < a {
                assert(w[j].0 <= w[a].0);
            }
        } else {
            let k = if a <= i {
                i + 1
            } else {
                a
            };
            assert(taken(w, p, k));
            assert(!speaks(w, p, k));
            let (l, r) = choose|l: int, r: int| #[trigger] short_pause(w, p, l, r) && l <= k <= r;
            if l < i + 1 {
                assert(!speaks(w, p, i));
            }
            if l > i + 1 {
                assert(speaks(w, p, l - 1));
            }
            if r > j - 1 {
                assert(!speaks(w, p, j));
            }
            if r < j - 1 {
                assert(speaks(w, p, r + 1));
            }
        }
    }
    silence::law_speech_is_apart(w, from, to, p);
    silence::law_silence_is_the_rest(speech_of(w, from, to, p), from, to, t);
}

} // verus!
