//! What is heard of a sequence: each clip with sound on a track that is on, once,
//! from where it starts and from where its source does.

use vstd::arithmetic::mul::*;
use vstd::arithmetic::power2::*;
use vstd::prelude::*;

use crate::decimal;
use crate::exact;
use crate::exact::{above_zero, apart, fine, one};
use crate::float;
use crate::float::Real;
use crate::fonts;
use crate::graph;
use crate::graph::GraphV;
use crate::ident::Id;
use crate::keyframe::ParamV;
use crate::model;
use crate::model::{ClipV, ProjectV, TrackV};
use crate::ops;
use crate::pacing;
use crate::paths;
use crate::render;
use crate::seqs;
use crate::sound;
use crate::sound::AudioItemV;
use crate::speeding::playable;
use crate::text;
use crate::time;
use crate::time::TimeUs;

verus! {

/// Whether the sound of a track is on: it is not muted, and it is solo if any
/// track is.
pub open spec fn is_on(tracks: Seq<TrackV>, i: int) -> bool {
    &&& !tracks[i].muted
    &&& (exists|k: int| 0 <= k < tracks.len() && (#[trigger] tracks[k]).solo) ==> tracks[i].solo
}

/// Whether a clip has a sound that is not muted.
pub open spec fn has_sound(p: ProjectV, c: ClipV) -> bool {
    &&& c.payload is Media
    &&& !c.audio.muted
    &&& model::asset_of(p, c.payload->Media_asset_id) is Some
    &&& model::asset_of(p, c.payload->Media_asset_id)->Some_0.probe.audio_channels > 0
}

/// Whether an item is a clip as it sounds: its source, its start and its speed,
/// its gain on top of the volume of its track, its fades, and its denoised file
/// where one is wanted and there.
pub open spec fn sounds(
    p: ProjectV,
    t: TrackV,
    c: ClipV,
    present: Seq<Seq<char>>,
    windows: bool,
    x: AudioItemV,
) -> bool {
    let a = model::asset_of(p, c.payload->Media_asset_id)->Some_0;
    &&& x.asset_id == c.payload->Media_asset_id
    &&& x.src_in == c.payload->Media_src_in
    &&& x.src_out == c.payload->Media_src_out
    &&& x.start == c.start
    &&& x.speed == c.speed
    &&& match c.audio.gain_db {
        ParamV::Const(v) => x.gain_db == v.plus(t.volume_db) && x.gain_curve is None,
        ParamV::Curve(keys) => x.gain_db == Real::of(0).plus(t.volume_db) && x.gain_curve == Some(
            keys,
        ),
    }
    &&& x.pan == c.audio.pan.at(0).within(Real::of(-1), Real::of(1))
    &&& x.fade_in_us == c.audio.fade_in_us
    &&& x.fade_out_us == c.audio.fade_out_us
    &&& x.denoise == c.audio.denoise
    &&& x.input_override is Some <==> c.audio.denoise && a.audio_conform is Some
        && present.contains(paths::denoised_of(a.audio_conform->Some_0@, windows))
    &&& x.input_override is Some ==> x.input_override->Some_0 == paths::denoised_of(
        a.audio_conform->Some_0@,
        windows,
    )
}

/// A place of a track and a clip on it.
pub type Spot = (int, int);

/// Whether a place comes before another.
pub open spec fn comes_before(a: Spot, b: Spot) -> bool {
    a.0 < b.0 || (a.0 == b.0 && a.1 < b.1)
}

/// Whether items are what is heard at places of tracks: all the places at which
/// something sounds, once each and in their order.
pub open spec fn is_heard(
    p: ProjectV,
    tracks: Seq<TrackV>,
    present: Seq<Seq<char>>,
    windows: bool,
    items: Seq<AudioItemV>,
    spots: Seq<Spot>,
) -> bool {
    &&& spots.len() == items.len()
    &&& forall|k: int|
        0 <= k < items.len() ==> {
            let s = #[trigger] spots[k];
            &&& 0 <= s.0 < tracks.len() && 0 <= s.1 < tracks[s.0].clips.len()
            &&& is_on(tracks, s.0) && has_sound(p, tracks[s.0].clips[s.1])
            &&& sounds(p, tracks[s.0], tracks[s.0].clips[s.1], present, windows, items[k])
        }
    &&& forall|k: int, l: int|
        0 <= k < l < spots.len() ==> comes_before(#[trigger] spots[k], #[trigger] spots[l])
    &&& forall|i: int, j: int|
        0 <= i < tracks.len() && 0 <= j < tracks[i].clips.len() && is_on(tracks, i) && has_sound(
            p,
            #[trigger] tracks[i].clips[j],
        ) ==> spots.contains((i, j))
}

proof fn lemma_heard(p: ProjectV, t: TrackV, c: ClipV, present: Seq<Seq<char>>, windows: bool)
    ensures
        match sound::heard(p, t, c, present, windows) {
            Some(x) => has_sound(p, c) && sounds(p, t, c, present, windows, x),
            None => !has_sound(p, c),
        },
{
}

/// What is heard of the first clips of a track.
proof fn lemma_clips(
    p: ProjectV,
    t: TrackV,
    i: int,
    n: nat,
    present: Seq<Seq<char>>,
    windows: bool,
) -> (spots: Seq<Spot>)
    requires
        n <= t.clips.len(),
    ensures
        ({
            let items = sound::heard_clips(p, t, t.clips.take(n as int), present, windows);
            &&& spots.len() == items.len()
            &&& forall|k: int|
                0 <= k < items.len() ==> {
                    let s = #[trigger] spots[k];
                    &&& s.0 == i && 0 <= s.1 < n
                    &&& has_sound(p, t.clips[s.1])
                    &&& sounds(p, t, t.clips[s.1], present, windows, items[k])
                }
            &&& forall|k: int, l: int|
                0 <= k < l < spots.len() ==> (#[trigger] spots[k]).1 < (#[trigger] spots[l]).1
            &&& forall|j: int|
                0 <= j < n && has_sound(p, #[trigger] t.clips[j]) ==> spots.contains((i, j))
        }),
    decreases n,
{
    let all = t.clips.take(n as int);
    if n == 0 {
        Seq::<Spot>::empty()
    } else {
        let before = lemma_clips(p, t, i, (n - 1) as nat, present, windows);
        assert(all.drop_last() =~= t.clips.take(n - 1));
        assert(all.last() == t.clips[n - 1]);
        lemma_heard(p, t, t.clips[n - 1], present, windows);
        match sound::heard(p, t, t.clips[n - 1], present, windows) {
            Some(x) => {
                let spots = before.push((i, n - 1));
                assert(spots[before.len() as int] == (i, n - 1));
                assert forall|j: int| 0 <= j < n && has_sound(p, #[trigger] t.clips[j]) implies spots.contains(
                    (i, j),
                ) by {
                    if j < n - 1 {
                        let k = choose|k: int| 0 <= k < before.len() && before[k] == (i, j);
                        assert(spots[k] == (i, j));
                    }
                }
                spots
            },
            None => before,
        }
    }
}

/// What is heard of the first tracks.
proof fn lemma_tracks(
    p: ProjectV,
    tracks: Seq<TrackV>,
    n: nat,
    present: Seq<Seq<char>>,
    windows: bool,
) -> (spots: Seq<Spot>)
    requires
        n <= tracks.len(),
    ensures
        ({
            let items = sound::heard_tracks(
                p,
                tracks.take(n as int),
                sound::any_solo(tracks),
                present,
                windows,
            );
            &&& spots.len() == items.len()
            &&& forall|k: int|
                0 <= k < items.len() ==> {
                    let s = #[trigger] spots[k];
                    &&& 0 <= s.0 < n && 0 <= s.1 < tracks[s.0].clips.len()
                    &&& is_on(tracks, s.0) && has_sound(p, tracks[s.0].clips[s.1])
                    &&& sounds(p, tracks[s.0], tracks[s.0].clips[s.1], present, windows, items[k])
                }
            &&& forall|k: int, l: int|
                0 <= k < l < spots.len() ==> comes_before(#[trigger] spots[k], #[trigger] spots[l])
            &&& forall|i: int, j: int|
                0 <= i < n && 0 <= j < tracks[i].clips.len() && is_on(tracks, i) && has_sound(
                    p,
                    #[trigger] tracks[i].clips[j],
                ) ==> spots.contains((i, j))
        }),
    decreases n,
{
    let all = tracks.take(n as int);
    if n == 0 {
        Seq::<Spot>::empty()
    } else {
        let m = n - 1;
        let before = lemma_tracks(p, tracks, m as nat, present, windows);
        assert(all.drop_last() =~= tracks.take(m));
        let t = tracks[m];
        assert(all.last() == t);
        if is_on(tracks, m) {
            let more = lemma_clips(p, t, m, t.clips.len(), present, windows);
            assert(t.clips.take(t.clips.len() as int) =~= t.clips);
            let spots = before + more;
            assert forall|i: int, j: int|
                0 <= i < n && 0 <= j < tracks[i].clips.len() && is_on(tracks, i) && has_sound(
                    p,
                    #[trigger] tracks[i].clips[j],
                ) implies spots.contains((i, j)) by {
                if i < m {
                    let k = choose|k: int| 0 <= k < before.len() && before[k] == (i, j);
                    assert(spots[k] == (i, j));
                } else {
                    assert(has_sound(p, t.clips[j]));
                    let k = choose|k: int| 0 <= k < more.len() && more[k] == (i, j);
                    assert(spots[before.len() + k] == (i, j));
                }
            }
            spots
        } else {
            before
        }
    }
}

/// Every clip with sound on a track that is on is heard once, as it is; nothing
/// else is. A muted track is not heard, nor with a solo track one that is not.
pub proof fn law_what_is_heard(
    p: ProjectV,
    sequence_id: Id,
    present: Seq<Seq<char>>,
    windows: bool,
)
    requires
        seqs::holds(p.sequences, sequence_id),
    ensures
        exists|spots: Seq<Spot>| #[trigger]
            is_heard(
                p,
                p.sequences[seqs::pos(p.sequences, sequence_id) as int].tracks,
                present,
                windows,
                sound::audio_of(p, sequence_id, present, windows),
                spots,
            ),
{
    let tracks = p.sequences[seqs::pos(p.sequences, sequence_id) as int].tracks;
    let spots = lemma_tracks(p, tracks, tracks.len(), present, windows);
    assert(tracks.take(tracks.len() as int) =~= tracks);
    assert(is_heard(
        p,
        tracks,
        present,
        windows,
        sound::audio_of(p, sequence_id, present, windows),
        spots,
    ));
}

// ---- tempo ----

/// The bits of `0.001`.
pub const THOUSANDTH_BITS: u64 = 0x3f50_624d_d2f1_a9fc;

/// The bits of `1e-9`.
pub const BILLIONTH_BITS: u64 = 0x3e11_2e0b_e826_d695;

/// Whether a speed lies between a thousandth and a thousand.
pub open spec fn usual(speed: Real) -> bool {
    above_zero(speed) && one() <= 1000 * fine(speed) && fine(speed) <= 1000 * one()
}

proof fn lemma_usual_parts(x: Real)
    requires
        above_zero(x),
        one() <= 1000 * fine(x),
        fine(x) <= 1000 * one(),
    ensures
        -100 <= x.unit() <= 0,
{
    float::lemma_parts(x);
    lemma2_to64();
    lemma2_to64_rest();
    lemma_pow2_pos(1074);
    let e: nat = (x.unit() + 1074) as nat;
    let p = pow2(e) as int;
    lemma_pow2_pos(e);
    if x.unit() < -100 {
        lemma_pow2_strictly_increases(e, 974);
        lemma_pow2_adds(974, 100);
        lemma_pow2_adds(63, 37);
        lemma_pow2_pos(974);
        lemma_pow2_pos(37);
        assert(pow2(63) <= pow2(100)) by (nonlinear_arith)
            requires
                pow2(100) == pow2(63) * pow2(37),
                pow2(37) >= 1,
        ;
        let q = pow2(974) as int;
        assert(1000 * (x.mant() * p) < pow2(100) * q) by (nonlinear_arith)
            requires
                x.mant() < 9_007_199_254_740_992,
                0 < p < q,
                9_223_372_036_854_775_808 <= pow2(100),
        ;
        assert(pow2(100) * q == one()) by (nonlinear_arith)
            requires
                one() == q * pow2(100),
        ;
    }
    if x.unit() > 0 {
        lemma_pow2_strictly_increases(1074, e);
        assert(x.mant() * p > 1000 * one()) by (nonlinear_arith)
            requires
                x.mant() >= 4_503_599_627_370_496,
                p > one(),
        ;
    }
}

proof fn lemma_two()
    ensures
        above_zero(Real::of(2)),
        fine(Real::of(2)) == 2 * one(),
        Real::of(2).mant() == float::MANT_ONE,
        Real::of(2).unit() == -51,
{
    lemma2_to64();
    lemma2_to64_rest();
    exact::lemma_whole_is_exact(2);
    let x = Real::of(2);
    float::lemma_parts(x);
    lemma_pow2_unfold(1075);
    lemma_pow2_pos(1075);
    if x.unit() == -1074 {
        lemma_mul_basics(x.mant() as int);
        lemma_pow2_strictly_increases(53, 1075);
    }
    exact::lemma_power_parts(x, 1075);
}

proof fn lemma_a_half()
    ensures
        above_zero(Real { bits: fonts::HALF_BITS }),
        2 * fine(Real { bits: fonts::HALF_BITS }) == one(),
        (Real { bits: fonts::HALF_BITS }).mant() == float::MANT_ONE,
        (Real { bits: fonts::HALF_BITS }).unit() == -53,
{
    lemma2_to64();
    lemma2_to64_rest();
    let x = Real { bits: fonts::HALF_BITS };
    assert(x.mant() == float::MANT_ONE && x.unit() == -53);
    lemma_pow2_adds(52, 1021);
    lemma_pow2_unfold(1074);
}

/// Half of a usual speed, and twice one, are exact.
proof fn lemma_halves(x: Real)
    requires
        above_zero(x),
        -100 <= x.unit() <= 0,
    ensures
        above_zero(x.over(Real::of(2))),
        2 * fine(x.over(Real::of(2))) == fine(x),
        above_zero(x.over(Real { bits: fonts::HALF_BITS })),
        fine(x.over(Real { bits: fonts::HALF_BITS })) == 2 * fine(x),
{
    lemma_two();
    lemma_a_half();
    let e: nat = (x.unit() + 1074) as nat;
    let m = x.mant();
    exact::lemma_over_power(x, Real::of(2));
    exact::lemma_over_power(x, Real { bits: fonts::HALF_BITS });
    lemma_pow2_unfold(e);
    lemma_pow2_unfold(e + 1);
    let a = pow2((e - 1) as nat) as int;
    let b = pow2(e) as int;
    assert(2 * (m * a) == m * b) by (nonlinear_arith)
        requires
            b == 2 * a,
    ;
    assert(m * (2 * b) == 2 * (m * b)) by (nonlinear_arith);
}

/// So many times the same filter.
pub open spec fn repeated(filter: Seq<char>, n: nat) -> Seq<Seq<char>> {
    Seq::new(n, |i: int| filter)
}

proof fn lemma_slowed(x: Real, steps: nat) -> (m: nat)
    requires
        usual(x),
        fine(x) <= 2 * (pow2(steps) * one()),
    ensures
        ({
            let r = sound::slowed(x, steps);
            &&& r.0 == repeated("atempo=2"@, m)
            &&& usual(r.1)
            &&& fine(x) == pow2(m) * fine(r.1)
            &&& fine(r.1) <= 2 * one()
            &&& m > 0 ==> fine(r.1) >= one()
            &&& m == 0 ==> r.1 == x
        }),
    decreases steps,
{
    lemma_two();
    lemma2_to64();
    lemma_pow2_pos(1074);
    let two = Real::of(2);
    let r = sound::slowed(x, steps);
    if steps == 0 || !two.less(x) {
        if two.less(x) {
            lemma_mul_basics(one() as int);
        } else {
            exact::lemma_fine_order(x, two);
        }
        assert(r.0 =~= repeated("atempo=2"@, 0));
        lemma_mul_basics(fine(x) as int);
        0
    } else {
        exact::lemma_fine_order(two, x);
        lemma_usual_parts(x);
        lemma_halves(x);
        let y = x.over(two);
        lemma_pow2_unfold(steps);
        let a = pow2((steps - 1) as nat) as int;
        let o = one() as int;
        assert(pow2(steps) * one() == 2 * (a * o)) by (nonlinear_arith)
            requires
                pow2(steps) == 2 * a,
                o == one(),
        ;
        assert(usual(y));
        let m = lemma_slowed(y, (steps - 1) as nat);
        lemma_pow2_unfold(m + 1);
        let z = sound::slowed(y, (steps - 1) as nat);
        assert(r.0 =~= repeated("atempo=2"@, m + 1));
        assert(fine(x) == pow2(m + 1) * fine(z.1)) by (nonlinear_arith)
            requires
                fine(x) == 2 * fine(y),
                fine(y) == pow2(m) * fine(z.1),
                pow2(m + 1) == 2 * pow2(m),
        ;
        m + 1
    }
}

proof fn lemma_hurried(x: Real, steps: nat) -> (m: nat)
    requires
        usual(x),
        fine(x) <= 2 * one(),
        one() <= 2 * (pow2(steps) * fine(x)),
    ensures
        ({
            let r = sound::hurried(x, steps);
            &&& r.0 == repeated("atempo=0.5"@, m)
            &&& fine(r.1) == pow2(m) * fine(x)
            &&& one() <= 2 * fine(r.1) && fine(r.1) <= 2 * one()
        }),
    decreases steps,
{
    lemma_a_half();
    lemma2_to64();
    lemma_pow2_pos(1074);
    let half = Real { bits: fonts::HALF_BITS };
    let r = sound::hurried(x, steps);
    if steps == 0 || !x.less(half) {
        if x.less(half) {
            lemma_mul_basics(fine(x) as int);
        } else {
            exact::lemma_fine_order(half, x);
        }
        assert(r.0 =~= repeated("atempo=0.5"@, 0));
        lemma_mul_basics(fine(x) as int);
        0
    } else {
        exact::lemma_fine_order(x, half);
        lemma_usual_parts(x);
        lemma_halves(x);
        let y = x.over(half);
        lemma_pow2_unfold(steps);
        let a = pow2((steps - 1) as nat) as int;
        assert(pow2(steps) * fine(x) == a * fine(y)) by (nonlinear_arith)
            requires
                pow2(steps) == 2 * a,
                fine(y) == 2 * fine(x),
        ;
        assert(usual(y));
        let m = lemma_hurried(y, (steps - 1) as nat);
        lemma_pow2_unfold(m + 1);
        let z = sound::hurried(y, (steps - 1) as nat);
        assert(r.0 =~= repeated("atempo=0.5"@, m + 1));
        assert(fine(z.1) == pow2(m + 1) * fine(x)) by (nonlinear_arith)
            requires
                fine(y) == 2 * fine(x),
                fine(z.1) == pow2(m) * fine(y),
                pow2(m + 1) == 2 * pow2(m),
        ;
        m + 1
    }
}

/// The filter for what is left of a speed: none where that is next to one, and
/// else the speed to four digits.
pub open spec fn last_tempo(rest: Real) -> Seq<Seq<char>> {
    if (Real { bits: BILLIONTH_BITS }).less(rest.minus(Real::of(1)).magn()) {
        seq![
            "atempo="@ + decimal::short_text(
                rest.times(Real::of(10000)).rounded().over(Real::of(10000)),
            ),
        ]
    } else {
        Seq::<Seq<char>>::empty()
    }
}

/// Whether tempo filters make a speed: so often twice as fast, so often half as
/// fast, and the rest, which lies between a half and two. Together they are the
/// speed exactly.
pub open spec fn makes_speed(speed: Real, chain: Seq<char>, fast: nat, slow: nat, rest: Real) -> bool {
    &&& fine(speed) * pow2(slow) == pow2(fast) * fine(rest)
    &&& one() <= 2 * fine(rest) && fine(rest) <= 2 * one()
    &&& chain == text::joined(
        repeated("atempo=2"@, fast) + repeated("atempo=0.5"@, slow) + last_tempo(rest),
        ","@,
    )
}

/// The tempo filters of a speed multiply to the speed.
pub proof fn law_tempo(speed: Real)
    requires
        usual(speed),
    ensures
        exists|fast: nat, slow: nat, rest: Real| #[trigger]
            makes_speed(speed, sound::tempo_chain(speed), fast, slow, rest),
{
    let n = sound::TEMPO_STEPS as nat;
    lemma2_to64();
    lemma_pow2_pos(1074);
    lemma_pow2_strictly_increases(10, n);
    let o = one() as int;
    let p = pow2(n) as int;
    assert(1000 * o <= p * o) by (nonlinear_arith)
        requires
            p >= 1000,
            o > 0,
    ;
    let fast = lemma_slowed(speed, n);
    let a = sound::slowed(speed, n);
    assert(1000 * fine(a.1) <= p * fine(a.1)) by (nonlinear_arith)
        requires
            p >= 1000,
    ;
    let slow = lemma_hurried(a.1, n);
    let b = sound::hurried(a.1, n);
    let rest = b.1;
    assert(fine(speed) * pow2(slow) == pow2(fast) * fine(rest)) by (nonlinear_arith)
        requires
            fine(speed) == pow2(fast) * fine(a.1),
            fine(rest) == pow2(slow) * fine(a.1),
    ;
    let parts = a.0 + b.0;
    assert(parts + Seq::<Seq<char>>::empty() =~= parts);
    let tail = "atempo="@ + decimal::short_text(
        rest.times(Real::of(10000)).rounded().over(Real::of(10000)),
    );
    assert(parts.push(tail) =~= parts + seq![tail]);
    assert(makes_speed(speed, sound::tempo_chain(speed), fast, slow, rest));
}

// ---- chains ----

/// Whether a text is the filters for the fades of a sound: it fades in from its
/// beginning, and fades out until its end, which comes when its material is over
/// at its speed, to within a microsecond.
pub open spec fn fades(x: AudioItemV, s: Seq<char>) -> bool {
    exists|a: Seq<char>, b: Seq<char>|
        {
            &&& s == #[trigger] (a + b)
            &&& if x.fade_in_us > 0 {
                a == ",afade=t=in:st=0:d="@ + render::secs_text(x.fade_in_us)
            } else {
                a == Seq::<char>::empty()
            }
            &&& if x.fade_out_us > 0 {
                exists|from: TimeUs|
                    {
                        &&& b == ",afade=t=out:st="@ + #[trigger] render::secs_text(from) + ":d="@
                            + render::secs_text(x.fade_out_us)
                        &&& playable(x.src_out - x.src_in, x.speed) && x.fade_out_us < pow2(61)
                            ==> apart(
                            (from + x.fade_out_us) * fine(x.speed),
                            (x.src_out - x.src_in) * one(),
                        ) <= fine(x.speed)
                    }
            } else {
                b == Seq::<char>::empty()
            }
        }
}

/// Whether a text is the filter that delays a sound to its start, in whole
/// milliseconds.
pub open spec fn delays(x: AudioItemV, s: Seq<char>) -> bool {
    if x.start > 0 {
        exists|ms: int|
            0 <= x.start - 1000 * ms < 1000 && s == ",adelay="@ + #[trigger] text::int_text(ms)
                + ":all=1"@
    } else {
        s == Seq::<char>::empty()
    }
}

/// Whether a text is the filter for the gain of a sound in decibels; a curve is
/// reckoned for each frame, on top of the volume.
pub open spec fn gains(x: AudioItemV, s: Seq<char>) -> bool {
    match x.gain_curve {
        Some(keys) => s == ",volume=volume='"@ + sound::gain_expr(keys, x.gain_db) + "':eval=frame"@,
        None => if (Real { bits: BILLIONTH_BITS }).less(x.gain_db.magn()) {
            s == ",volume="@ + decimal::fixed_text(x.gain_db, 2) + "dB"@
        } else {
            s == Seq::<char>::empty()
        },
    }
}

/// Whether a text is the filters for the speed of a sound.
pub open spec fn tempos(x: AudioItemV, s: Seq<char>) -> bool {
    if (Real { bits: BILLIONTH_BITS }).less(x.speed.minus(Real::of(1)).magn()) {
        exists|chain: Seq<char>|
            s == #[trigger] (","@ + chain) && (usual(x.speed) ==> exists|
                fast: nat,
                slow: nat,
                rest: Real,
            | #[trigger] makes_speed(x.speed, chain, fast, slow, rest))
    } else {
        s == Seq::<char>::empty()
    }
}

/// Whether a text is the filter for the balance of a sound: the side that it
/// leans away from gets quieter, the other stays.
pub open spec fn pans(x: AudioItemV, s: Seq<char>) -> bool {
    if (Real { bits: THOUSANDTH_BITS }).less(x.pan.magn()) {
        s == ",pan=stereo|c0="@ + decimal::fixed_text(
            Real::of(1).minus(x.pan).smaller(Real::of(1)),
            4,
        ) + "*c0|c1="@ + decimal::fixed_text(Real::of(1).plus(x.pan).smaller(Real::of(1)), 4)
            + "*c1"@
    } else {
        s == Seq::<char>::empty()
    }
}

/// The parts of the chain of a sound.
pub struct PartsV {
    pub noise: Seq<char>,
    pub tempo: Seq<char>,
    pub gain: Seq<char>,
    pub pan: Seq<char>,
    pub fade: Seq<char>,
    pub delay: Seq<char>,
}

/// Whether a chain is a head with the parts of a sound behind it.
pub open spec fn treats(
    x: AudioItemV,
    head: Seq<char>,
    label: Seq<char>,
    chain: Seq<char>,
    y: PartsV,
) -> bool {
    &&& chain == head + y.noise + y.tempo + y.gain + y.pan + y.fade + y.delay + "["@ + label + "]"@
    &&& if x.denoise && x.input_override is None {
        y.noise == ","@ + sound::DENOISE_FILTER@
    } else {
        y.noise == Seq::<char>::empty()
    }
    &&& tempos(x, y.tempo)
    &&& gains(x, y.gain)
    &&& pans(x, y.pan)
    &&& fades(x, y.fade)
    &&& delays(x, y.delay)
}

/// The parts of the chain that is made of a sound.
spec fn parts_of(x: AudioItemV) -> PartsV {
    let none = Seq::<char>::empty();
    PartsV {
        noise: sound::denoise_stage(none, x),
        tempo: sound::tempo_stage(none, x),
        gain: sound::gain_stage(none, x),
        pan: sound::pan_stage(none, x),
        fade: sound::fade_stage(none, x),
        delay: sound::delay_stage(none, x),
    }
}

proof fn lemma_regroup(s: Seq<char>, a: Seq<char>, b: Seq<char>)
    ensures
        (s + a) + b == s + (a + b),
{
    assert((s + a) + b =~= s + (a + b));
}

proof fn lemma_nothing(s: Seq<char>)
    ensures
        s + Seq::<char>::empty() == s,
        Seq::<char>::empty() + s == s,
{
    assert(s + Seq::<char>::empty() =~= s);
    assert(Seq::<char>::empty() + s =~= s);
}

proof fn lemma_noise_appends(s: Seq<char>, x: AudioItemV)
    ensures
        sound::denoise_stage(s, x) == s + parts_of(x).noise,
        x.denoise && x.input_override is None ==> parts_of(x).noise == ","@ + sound::DENOISE_FILTER@,
{
    lemma_nothing(s);
    lemma_nothing(","@);
    lemma_regroup(s, ","@, sound::DENOISE_FILTER@);
}

proof fn lemma_tempo_appends(s: Seq<char>, x: AudioItemV)
    ensures
        sound::tempo_stage(s, x) == s + parts_of(x).tempo,
{
    lemma_nothing(s);
    lemma_nothing(","@);
    lemma_regroup(s, ","@, sound::tempo_chain(x.speed));
}

proof fn lemma_gain_appends(s: Seq<char>, x: AudioItemV)
    ensures
        sound::gain_stage(s, x) == s + parts_of(x).gain,
{
    lemma_nothing(s);
    match x.gain_curve {
        Some(keys) => {
            let a = ",volume=volume='"@;
            let b = sound::gain_expr(keys, x.gain_db);
            lemma_nothing(a);
            lemma_regroup(s, a, b);
            lemma_regroup(s, a + b, "':eval=frame"@);
        },
        None => {
            let a = ",volume="@;
            let b = decimal::fixed_text(x.gain_db, 2);
            lemma_nothing(a);
            lemma_regroup(s, a, b);
            lemma_regroup(s, a + b, "dB"@);
        },
    }
}

proof fn lemma_pan_appends(s: Seq<char>, x: AudioItemV)
    ensures
        sound::pan_stage(s, x) == s + parts_of(x).pan,
{
    lemma_nothing(s);
    let a = ",pan=stereo|c0="@;
    let b = decimal::fixed_text(Real::of(1).minus(x.pan).smaller(Real::of(1)), 4);
    let c = "*c0|c1="@;
    let d = decimal::fixed_text(Real::of(1).plus(x.pan).smaller(Real::of(1)), 4);
    lemma_nothing(a);
    lemma_regroup(s, a, b);
    lemma_regroup(s, a + b, c);
    lemma_regroup(s, a + b + c, d);
    lemma_regroup(s, a + b + c + d, "*c1"@);
}

/// The filter for fading in.
spec fn in_part(x: AudioItemV) -> Seq<char> {
    if x.fade_in_us > 0 {
        ",afade=t=in:st=0:d="@ + render::secs_text(x.fade_in_us)
    } else {
        Seq::<char>::empty()
    }
}

/// The filter for fading out.
spec fn out_part(x: AudioItemV) -> Seq<char> {
    if x.fade_out_us > 0 {
        ",afade=t=out:st="@ + render::secs_text(
            time::sooner(sound::heard_length(x), x.fade_out_us),
        ) + ":d="@ + render::secs_text(x.fade_out_us)
    } else {
        Seq::<char>::empty()
    }
}

proof fn lemma_fade_splits(s: Seq<char>, x: AudioItemV)
    ensures
        sound::fade_stage(s, x) == (s + in_part(x)) + out_part(x),
{
    lemma_nothing(s);
    let a = ",afade=t=in:st=0:d="@;
    lemma_regroup(s, a, render::secs_text(x.fade_in_us));
    let t = s + in_part(x);
    lemma_nothing(t);
    let b = ",afade=t=out:st="@;
    let c = render::secs_text(time::sooner(sound::heard_length(x), x.fade_out_us));
    lemma_regroup(t, b, c);
    lemma_regroup(t, b + c, ":d="@);
    lemma_regroup(t, b + c + ":d="@, render::secs_text(x.fade_out_us));
}

proof fn lemma_fade_appends(s: Seq<char>, x: AudioItemV)
    ensures
        sound::fade_stage(s, x) == s + parts_of(x).fade,
        parts_of(x).fade == in_part(x) + out_part(x),
{
    let none = Seq::<char>::empty();
    lemma_fade_splits(s, x);
    lemma_fade_splits(none, x);
    lemma_nothing(in_part(x));
    lemma_regroup(s, in_part(x), out_part(x));
}

proof fn lemma_delay_appends(s: Seq<char>, x: AudioItemV)
    ensures
        sound::delay_stage(s, x) == s + parts_of(x).delay,
{
    lemma_nothing(s);
    let a = ",adelay="@;
    let b = text::int_text(x.start as int / 1000);
    lemma_nothing(a);
    lemma_regroup(s, a, b);
    lemma_regroup(s, a + b, ":all=1"@);
}

proof fn lemma_fades(x: AudioItemV)
    ensures
        fades(x, parts_of(x).fade),
{
    let a = in_part(x);
    let b = out_part(x);
    lemma_fade_appends(Seq::<char>::empty(), x);
    let from = time::sooner(sound::heard_length(x), x.fade_out_us);
    if x.fade_out_us > 0 {
        assert(b == ",afade=t=out:st="@ + render::secs_text(from) + ":d="@ + render::secs_text(
            x.fade_out_us,
        ));
        if playable(x.src_out - x.src_in, x.speed) && x.fade_out_us < pow2(61) {
            lemma2_to64();
            lemma2_to64_rest();
            let length = x.src_out - x.src_in;
            assert(time::sooner(x.src_out, x.src_in) == length);
            exact::law_divided_time(length as TimeUs, x.speed);
            assert(from + x.fade_out_us == ops::divided_time(length as TimeUs, x.speed));
        }
    }
    assert(parts_of(x).fade == a + b);
}

proof fn lemma_tempos(x: AudioItemV)
    ensures
        tempos(x, parts_of(x).tempo),
{
    if (Real { bits: BILLIONTH_BITS }).less(x.speed.minus(Real::of(1)).magn()) {
        let chain = sound::tempo_chain(x.speed);
        assert(parts_of(x).tempo =~= ","@ + chain);
        if usual(x.speed) {
            law_tempo(x.speed);
        }
    }
}

proof fn lemma_others(x: AudioItemV)
    ensures
        gains(x, parts_of(x).gain),
        pans(x, parts_of(x).pan),
        delays(x, parts_of(x).delay),
{
    lemma_nothing(",volume=volume='"@);
    lemma_nothing(",volume="@);
    lemma_nothing(",pan=stereo|c0="@);
    lemma_nothing(",adelay="@);
    if x.start > 0 {
        let ms = x.start as int / 1000;
        assert(parts_of(x).delay == ",adelay="@ + text::int_text(ms) + ":all=1"@);
    }
}

/// What takes a stretch of the whole file of a sound, counted from its first
/// sample.
pub open spec fn whole_head(idx: nat, from: TimeUs, to: TimeUs) -> Seq<char> {
    "["@ + text::digits(idx) + ":a]atrim=start="@ + render::secs_text(from) + ":end="@
        + render::secs_text(to)
        + ",asetpts=PTS-STARTPTS,aresample=48000,aformat=channel_layouts=stereo"@
}

/// What takes the first so many microseconds of an input.
pub open spec fn seeked_head(idx: nat, length: TimeUs) -> Seq<char> {
    "["@ + text::digits(idx) + ":a]atrim=start=0:end="@ + render::secs_text(length)
        + ",asetpts=PTS-STARTPTS,aresample=48000,aformat=channel_layouts=stereo"@
}

/// The chain of a sound treats it as its clip says: it takes the material of the
/// clip, from the whole file or from an input that starts there; then comes what
/// its noise, speed, gain, balance, fades and start ask for.
pub proof fn law_sound_is_treated(idx: nat, x: AudioItemV, label: Seq<char>)
    requires
        0 <= x.src_in <= x.src_out,
    ensures
        exists|y: PartsV| #[trigger]
            treats(
                x,
                whole_head(idx, x.src_in, x.src_out),
                label,
                sound::trimmed_chain(idx, x, label),
                y,
            ),
        exists|y: PartsV| #[trigger]
            treats(
                x,
                seeked_head(idx, (x.src_out - x.src_in) as TimeUs),
                label,
                sound::seeked_chain(idx, x, label),
                y,
            ),
{
    let length = (x.src_out - x.src_in) as TimeUs;
    assert(time::sooner(x.src_out, x.src_in) == length);
    let a = whole_head(idx, x.src_in, x.src_out);
    let b = seeked_head(idx, length);
    lemma_treated(x, a, label);
    lemma_treated(x, b, label);
    assert(sound::trimmed_chain(idx, x, label) == sound::item_chain(a, x, label));
    assert(sound::seeked_chain(idx, x, label) == sound::item_chain(b, x, label));
}

proof fn lemma_treated(x: AudioItemV, head: Seq<char>, label: Seq<char>)
    ensures
        treats(x, head, label, sound::item_chain(head, x, label), parts_of(x)),
{
    reveal(sound::item_chain);
    let y = parts_of(x);
    let a = head + y.noise;
    let b = a + y.tempo;
    let c = b + y.gain;
    let d = c + y.pan;
    let e = d + y.fade;
    lemma_noise_appends(head, x);
    lemma_tempo_appends(a, x);
    lemma_gain_appends(b, x);
    lemma_pan_appends(c, x);
    lemma_fade_appends(d, x);
    lemma_delay_appends(e, x);
    lemma_tempos(x);
    lemma_fades(x);
    lemma_others(x);
}

/// Each sound of an export takes its file from the first place of its source on:
/// the denoised file where there is one, and else that of its asset. Its chain is
/// the one for an input that starts there.
pub proof fn law_sound_takes_its_file(
    g: GraphV,
    p: ProjectV,
    base: Seq<char>,
    items: Seq<AudioItemV>,
    n: nat,
)
    requires
        0 < n <= items.len(),
    ensures
        ({
            let before = graph::sound_stages(g, p, base, items, (n - 1) as nat);
            let after = graph::sound_stages(g, p, base, items, n);
            let x = items[n - 1];
            let file = match x.input_override {
                Some(f) => f,
                None => match model::asset_of(p, x.asset_id) {
                    Some(a) => paths::path_in(base, a.path@, g.windows),
                    None => ""@,
                },
            };
            &&& after.current == g.current && after.windows == g.windows
            &&& after.fc.len() == before.fc.len() + 1 && after.fc.drop_last() == before.fc
            &&& exists|idx: nat|
                pacing::takes(after, idx, file, x.src_in) && after.fc.last()
                    == #[trigger] sound::seeked_chain(
                    idx,
                    x,
                    "a"@ + text::digits((n - 1) as nat),
                )
        }),
    decreases n,
{
    if n > 1 {
        law_sound_takes_its_file(g, p, base, items, (n - 1) as nat);
    }
    let before = graph::sound_stages(g, p, base, items, (n - 1) as nat);
    let after = graph::sound_stages(g, p, base, items, n);
    let x = items[n - 1];
    let file = sound::heard_file(p, base, x, g.windows);
    assert(before.windows == g.windows && before.current == g.current);
    let idx = before.number(file, x.src_in);
    pacing::lemma_input(
        before.inputs,
        graph::input_for(file, x.src_in, g.windows),
        g.windows,
    );
    assert(after.fc.drop_last() =~= before.fc);
    assert(pacing::takes(after, idx, file, x.src_in));
    assert(after.fc.last() == sound::seeked_chain(
        idx,
        x,
        "a"@ + text::digits((n - 1) as nat),
    ));
}

} // verus!
