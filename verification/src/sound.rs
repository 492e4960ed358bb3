//! The sound of a sequence as ffmpeg filter chains.

use vstd::prelude::*;

use crate::decimal;
use crate::decimal::{fixed, shortest};
use crate::export;
use crate::float::Real;
use crate::ident::Id;
use crate::keyframe::{Interp, Keyframe, KeyframeCurve, Param, ParamV};
use crate::model;
use crate::model::{Clip, ClipPayload, ClipV, MediaAsset, PayloadV, Project, ProjectV, Sequence, Track, TrackV};
use crate::ops;
use crate::ops::divide_time;
use crate::paths;
use crate::paths::{denoised_path, resolve_path_pub};
use crate::render;
use crate::render::secs;
use crate::seqs;
use crate::text;
use crate::text::{copy_text, int_to_text, join, nat_to_text, push_text, same_text};
use crate::time;
use crate::time::{max2, minus, plus, TimeUs};

verus! {

/// 1e-9
pub const NEAR_BITS: u64 = 0x3e11_2e0b_e826_d695;

/// 0.001
pub const PAN_BITS: u64 = 0x3f50_624d_d2f1_a9fc;

/// The filter that takes noise out of a sound, live and in an export.
pub const DENOISE_FILTER: &'static str = "afftdn=nr=30:nf=-25:tn=1";

/// A clip that is heard.
#[derive(Debug)]
pub struct AudioItem {
    pub asset_id: Id,
    pub src_in: TimeUs,
    pub src_out: TimeUs,
    pub start: TimeUs,
    pub speed: Real,
    /// The constant gain of the clip and its track.
    pub gain_db: Real,
    /// The curve of the gain.
    pub gain_curve: Option<KeyframeCurve>,
    pub pan: Real,
    pub denoise: bool,
    /// A denoised file to take the sound from.
    pub input_override: Option<String>,
    pub fade_in_us: TimeUs,
    pub fade_out_us: TimeUs,
}

/// The contents of an `AudioItem`.
#[verifier::ext_equal]
pub struct AudioItemV {
    pub asset_id: Id,
    pub src_in: TimeUs,
    pub src_out: TimeUs,
    pub start: TimeUs,
    pub speed: Real,
    pub gain_db: Real,
    pub gain_curve: Option<Seq<Keyframe>>,
    pub pan: Real,
    pub denoise: bool,
    pub input_override: Option<Seq<char>>,
    pub fade_in_us: TimeUs,
    pub fade_out_us: TimeUs,
}

impl View for AudioItem {
    type V = AudioItemV;

    open spec fn view(&self) -> AudioItemV {
        AudioItemV {
            asset_id: self.asset_id,
            src_in: self.src_in,
            src_out: self.src_out,
            start: self.start,
            speed: self.speed,
            gain_db: self.gain_db,
            gain_curve: match self.gain_curve {
                Some(c) => Some(c.keys@),
                None => None,
            },
            pan: self.pan,
            denoise: self.denoise,
            input_override: model::opt_text(self.input_override),
            fade_in_us: self.fade_in_us,
            fade_out_us: self.fade_out_us,
        }
    }
}

// ---- what is heard ----

/// Whether a list of texts holds one.
pub fn holds_text(list: &Vec<String>, s: &str) -> (b: bool)
    ensures
        b == text::texts(list@).contains(s@),
{
    let mut i: usize = 0;
    while i < list.len()
        invariant
            i <= list.len(),
            forall|k: int| 0 <= k < i ==> list@[k]@ != s@,
        decreases list.len() - i,
    {
        assert(text::texts(list@)[i as int] == list@[i as int]@);
        if same_text(list[i].as_str(), s) {
            return true;
        }
        i = i + 1;
    }
    proof {
        assert forall|k: int| 0 <= k < text::texts(list@).len() implies text::texts(list@)[k] != s@ by {
            assert(text::texts(list@)[k] == list@[k]@);
        }
    }
    false
}

/// The denoised file of an asset, where it is wanted and there.
pub open spec fn denoised_file(a: MediaAsset, denoise: bool, present: Seq<Seq<char>>, windows: bool) -> Option<Seq<char>> {
    match a.audio_conform {
        Some(c) => if denoise && present.contains(paths::denoised_of(c@, windows)) {
            Some(paths::denoised_of(c@, windows))
        } else {
            None
        },
        None => None,
    }
}

/// A clip as it is heard; none where it is not.
pub open spec fn heard(p: ProjectV, t: TrackV, c: ClipV, present: Seq<Seq<char>>, windows: bool) -> Option<AudioItemV> {
    match c.payload {
        PayloadV::Media { asset_id, src_in, src_out } => match model::asset_of(p, asset_id) {
            Some(a) => if c.audio.muted || a.probe.audio_channels == 0 {
                None
            } else {
                let constant = match c.audio.gain_db {
                    ParamV::Const(v) => v,
                    ParamV::Curve(keys) => Real::of(0),
                };
                Some(
                    AudioItemV {
                        asset_id,
                        src_in,
                        src_out,
                        start: c.start,
                        speed: c.speed,
                        gain_db: constant.plus(t.volume_db),
                        gain_curve: match c.audio.gain_db {
                            ParamV::Const(v) => None,
                            ParamV::Curve(keys) => Some(keys),
                        },
                        pan: c.audio.pan.at(0).within(Real::of(-1), Real::of(1)),
                        denoise: c.audio.denoise,
                        input_override: denoised_file(a, c.audio.denoise, present, windows),
                        fade_in_us: c.audio.fade_in_us,
                        fade_out_us: c.audio.fade_out_us,
                    },
                )
            },
            None => None,
        },
        _ => None,
    }
}

fn hear(project: &Project, t: &Track, c: &Clip, present: &Vec<String>, windows: bool) -> (r: Option<AudioItem>)
    ensures
        match heard(project@, t@, c@, text::texts(present@), windows) {
            Some(x) => r is Some && r->Some_0@ == x,
            None => r is None,
        },
{
    if c.audio.muted {
        return None;
    }
    if let ClipPayload::Media { asset_id, src_in, src_out } = &c.payload {
        let asset: &MediaAsset = match project.asset(*asset_id) {
            Some(a) => a,
            None => {
                return None;
            },
        };
        if asset.probe.audio_channels == 0 {
            return None;
        }
        let (constant, curve): (Real, Option<KeyframeCurve>) = match &c.audio.gain_db {
            Param::Const(v) => (*v, None),
            Param::Curve(k) => (Real::from_int(0), Some(k.clone())),
        };
        let file: Option<String> = match &asset.audio_conform {
            Some(x) => {
                let d: String = denoised_path(x.as_str(), windows);
                if c.audio.denoise && holds_text(present, d.as_str()) {
                    Some(d)
                } else {
                    None
                }
            },
            None => None,
        };
        return Some(
            AudioItem {
                asset_id: *asset_id,
                src_in: *src_in,
                src_out: *src_out,
                start: c.start,
                speed: c.speed,
                gain_db: constant.add(t.volume_db),
                gain_curve: curve,
                pan: c.audio.pan.eval(0).clamp(Real::from_int(-1), Real::from_int(1)),
                denoise: c.audio.denoise,
                input_override: file,
                fade_in_us: c.audio.fade_in_us,
                fade_out_us: c.audio.fade_out_us,
            },
        );
    }
    None
}

/// The clips of a track that are heard.
pub open spec fn heard_clips(p: ProjectV, t: TrackV, clips: Seq<ClipV>, present: Seq<Seq<char>>, windows: bool) -> Seq<
    AudioItemV,
>
    decreases clips.len(),
{
    if clips.len() == 0 {
        Seq::<AudioItemV>::empty()
    } else {
        let r = heard_clips(p, t, clips.drop_last(), present, windows);
        match heard(p, t, clips.last(), present, windows) {
            Some(x) => r.push(x),
            None => r,
        }
    }
}

/// Whether some track is solo.
pub open spec fn any_solo(tracks: Seq<TrackV>) -> bool {
    exists|i: int| 0 <= i < tracks.len() && (#[trigger] tracks[i]).solo
}

/// The clips of tracks that are heard: with a solo track the others are not.
pub open spec fn heard_tracks(p: ProjectV, tracks: Seq<TrackV>, solo: bool, present: Seq<Seq<char>>, windows: bool) -> Seq<
    AudioItemV,
>
    decreases tracks.len(),
{
    if tracks.len() == 0 {
        Seq::<AudioItemV>::empty()
    } else {
        let r = heard_tracks(p, tracks.drop_last(), solo, present, windows);
        let t = tracks.last();
        if t.muted || (solo && !t.solo) {
            r
        } else {
            r + heard_clips(p, t, t.clips, present, windows)
        }
    }
}

/// All clips of a sequence that are heard.
pub open spec fn audio_of(p: ProjectV, sequence_id: Id, present: Seq<Seq<char>>, windows: bool) -> Seq<AudioItemV> {
    if seqs::holds(p.sequences, sequence_id) {
        let s = p.sequences[seqs::pos(p.sequences, sequence_id) as int];
        heard_tracks(p, s.tracks, any_solo(s.tracks), present, windows)
    } else {
        Seq::<AudioItemV>::empty()
    }
}

fn find_solo(s: &Sequence) -> (b: bool)
    ensures
        b == any_solo(s@.tracks),
{
    let mut i: usize = 0;
    while i < s.tracks.len()
        invariant
            i <= s.tracks.len(),
            forall|k: int| 0 <= k < i ==> !(#[trigger] s@.tracks[k]).solo,
        decreases s.tracks.len() - i,
    {
        assert(s@.tracks[i as int] == s.tracks@[i as int]@);
        if s.tracks[i].solo {
            return true;
        }
        i = i + 1;
    }
    false
}

fn hear_clips(items: &mut Vec<AudioItem>, project: &Project, t: &Track, present: &Vec<String>, windows: bool)
    ensures
        seqs::views(final(items)@) == seqs::views(old(items)@) + heard_clips(
            project@,
            t@,
            t@.clips,
            text::texts(present@),
            windows,
        ),
{
    let ghost all = t@.clips;
    let ghost pr = text::texts(present@);
    let ghost start = seqs::views(items@);
    let mut i: usize = 0;
    assert(all.take(0) =~= Seq::<ClipV>::empty());
    assert(start + Seq::<AudioItemV>::empty() =~= start);
    while i < t.clips.len()
        invariant
            i <= t.clips.len(),
            all == t@.clips,
            pr == text::texts(present@),
            seqs::views(items@) == start + heard_clips(project@, t@, all.take(i as int), pr, windows),
        decreases t.clips.len() - i,
    {
        proof {
            assert(all.take(i as int + 1).drop_last() =~= all.take(i as int));
            assert(all.take(i as int + 1).last() == t.clips@[i as int]@);
        }
        if let Some(x) = hear(project, t, &t.clips[i], present, windows) {
            let ghost before = items@;
            let ghost xv = x@;
            items.push(x);
            assert(seqs::views(items@) =~= seqs::views(before).push(xv));
        }
        assert(seqs::views(items@) =~= start + heard_clips(project@, t@, all.take(i as int + 1), pr, windows));
        i = i + 1;
    }
    assert(all.take(i as int) =~= all);
}

/// Collects the clips of a sequence that are heard: those of assets with sound
/// that no mute or solo silences. `present` names the denoised files that are
/// there.
pub fn collect_audio(project: &Project, sequence_id: Id, present: &Vec<String>, windows: bool) -> (r: Vec<AudioItem>)
    ensures
        seqs::views(r@) == audio_of(project@, sequence_id, text::texts(present@), windows),
{
    let mut items: Vec<AudioItem> = Vec::new();
    assert(seqs::views(items@) =~= Seq::<AudioItemV>::empty());
    let seq: &Sequence = match project.sequence(sequence_id) {
        Some(s) => s,
        None => {
            return items;
        },
    };
    let solo: bool = find_solo(seq);
    let ghost all = seq@.tracks;
    let ghost pr = text::texts(present@);
    let mut i: usize = 0;
    assert(all.take(0) =~= Seq::<TrackV>::empty());
    while i < seq.tracks.len()
        invariant
            i <= seq.tracks.len(),
            all == seq@.tracks,
            pr == text::texts(present@),
            seqs::views(items@) == heard_tracks(project@, all.take(i as int), solo, pr, windows),
        decreases seq.tracks.len() - i,
    {
        let t: &Track = &seq.tracks[i];
        proof {
            assert(all.take(i as int + 1).drop_last() =~= all.take(i as int));
            assert(all.take(i as int + 1).last() == t@);
        }
        if !(t.muted || (solo && !t.solo)) {
            hear_clips(&mut items, project, t, present, windows);
        }
        i = i + 1;
    }
    assert(all.take(i as int) =~= all);
    items
}

// ---- chains ----

/// A gain as a factor.
pub open spec fn gain_factor(db: Real, offset: Real) -> Seq<char> {
    "pow(10,"@ + decimal::fixed_text(db.plus(offset), 4) + "/20)"@
}

fn gain_text(db: Real, offset: Real) -> (r: String)
    ensures
        r@ == gain_factor(db, offset),
{
    let x: String = fixed(db.add(offset), 4);
    let mut r: String = copy_text("pow(10,");
    r.append(x.as_str());
    r.append("/20)");
    r
}

/// The gain between a key and the next.
pub open spec fn gain_segment(a: Keyframe, b: Keyframe, offset: Real) -> Seq<char> {
    match a.interp {
        Interp::Hold => gain_factor(a.value, offset),
        _ => "pow(10,("@ + decimal::fixed_text(a.value.plus(offset), 4) + "+("@ + decimal::fixed_text(b.value.minus(a.value), 4) + ")*(t-"@ + render::secs_text(a.t) + ")/("@ + render::secs_text(time::max_time(time::sooner(b.t, a.t), 1)) + "))/20)"@,
    }
}

/// The gain from a key on.
pub open spec fn gain_from(keys: Seq<Keyframe>, i: int, offset: Real) -> Seq<char>
    decreases keys.len() - i,
{
    if i + 1 >= keys.len() {
        gain_factor(keys.last().value, offset)
    } else {
        "if(lt(t,"@ + render::secs_text(keys[i + 1].t) + "),"@ + gain_segment(keys[i], keys[i + 1], offset) + ","@ + gain_from(keys, i + 1, offset) + ")"@
    }
}

/// The gain of a curve over the time of its clip, as a factor.
pub open spec fn gain_expr(keys: Seq<Keyframe>, offset: Real) -> Seq<char> {
    if keys.len() == 0 {
        "1"@
    } else {
        "if(lt(t,"@ + render::secs_text(keys[0].t) + "),"@ + gain_factor(keys[0].value, offset) + ","@ + gain_from(keys, 0, offset) + ")"@
    }
}

fn gain_between(a: Keyframe, b: Keyframe, offset: Real) -> (r: String)
    ensures
        r@ == gain_segment(a, b, offset),
{
    match a.interp {
        Interp::Hold => gain_text(a.value, offset),
        _ => {
            let x: String = fixed(a.value.add(offset), 4);
            let y: String = fixed(b.value.sub(a.value), 4);
            let mut r: String = copy_text("pow(10,(");
            r.append(x.as_str());
            r.append("+(");
            r.append(y.as_str());
            r.append(")*(t-");
            let d1: String = secs(a.t);
            r.append(d1.as_str());
            r.append(")/(");
            let d2: String = secs(max2(minus(b.t, a.t), 1));
            r.append(d2.as_str());
            r.append("))/20)");
            r
        },
    }
}

/// Writes a gain curve as an expression for the volume filter: held and linear
/// pieces are exact, smooth ones become linear.
pub fn volume_expr(curve: &KeyframeCurve, offset: Real) -> (r: String)
    ensures
        r@ == gain_expr(curve.keys@, offset),
{
    let n: usize = curve.keys.len();
    if n == 0 {
        return copy_text("1");
    }
    let mut expr: String = gain_text(curve.keys[n - 1].value, offset);
    let mut i: usize = n - 1;
    while i > 0
        invariant
            i < n,
            n == curve.keys.len(),
            expr@ == gain_from(curve.keys@, i as int, offset),
        decreases i,
    {
        i = i - 1;
        let seg: String = gain_between(curve.keys[i], curve.keys[i + 1], offset);
        let mut next: String = copy_text("if(lt(t,");
        let d1: String = secs(curve.keys[i + 1].t);
        next.append(d1.as_str());
        next.append("),");
        next.append(seg.as_str());
        next.append(",");
        next.append(expr.as_str());
        next.append(")");
        expr = next;
    }
    let first: String = gain_text(curve.keys[0].value, offset);
    let mut r: String = copy_text("if(lt(t,");
    let d2: String = secs(curve.keys[0].t);
    r.append(d2.as_str());
    r.append("),");
    r.append(first.as_str());
    r.append(",");
    r.append(expr.as_str());
    r.append(")");
    r
}

/// More steps than any finite speed needs.
pub const TEMPO_STEPS: u32 = 2200;

/// A speed brought down to two by steps of two.
pub open spec fn slowed(x: Real, steps: nat) -> (Seq<Seq<char>>, Real)
    decreases steps,
{
    if steps == 0 || !Real::of(2).less(x) {
        (Seq::<Seq<char>>::empty(), x)
    } else {
        let r = slowed(x.over(Real::of(2)), (steps - 1) as nat);
        (seq!["atempo=2"@] + r.0, r.1)
    }
}

/// A speed brought up to a half by steps of two.
pub open spec fn hurried(x: Real, steps: nat) -> (Seq<Seq<char>>, Real)
    decreases steps,
{
    let half = Real { bits: crate::fonts::HALF_BITS };
    if steps == 0 || !x.less(half) {
        (Seq::<Seq<char>>::empty(), x)
    } else {
        let r = hurried(x.over(half), (steps - 1) as nat);
        (seq!["atempo=0.5"@] + r.0, r.1)
    }
}

/// The tempo filters of a speed. One filter takes factors from a half to two,
/// so several stand one behind the other.
pub open spec fn tempo_chain(speed: Real) -> Seq<char> {
    let a = slowed(speed, TEMPO_STEPS as nat);
    let b = hurried(a.1, TEMPO_STEPS as nat);
    let parts = a.0 + b.0;
    let rest = b.1;
    let left = if (Real { bits: NEAR_BITS }).less(rest.minus(Real::of(1)).magn()) {
        parts.push(
            "atempo="@ + decimal::short_text(
                rest.times(Real::of(10000)).rounded().over(Real::of(10000)),
            ),
        )
    } else {
        parts
    };
    text::joined(left, ","@)
}

/// Writes the tempo filters of a speed; the pitch stays.
pub fn atempo_chain(speed: Real) -> (r: String)
    ensures
        r@ == tempo_chain(speed),
{
    let two: Real = Real::from_int(2);
    let half: Real = Real { bits: crate::fonts::HALF_BITS };
    let mut parts: Vec<String> = Vec::new();
    let mut rest: Real = speed;
    let mut n: u32 = TEMPO_STEPS;
    let ghost a = slowed(speed, TEMPO_STEPS as nat);
    assert(text::texts(parts@) =~= Seq::<Seq<char>>::empty());
    assert(a.0 =~= Seq::<Seq<char>>::empty() + a.0);
    while n > 0 && two.lt(rest)
        invariant
            n <= TEMPO_STEPS,
            two == Real::of(2),
            a.0 == text::texts(parts@) + slowed(rest, n as nat).0,
            a.1 == slowed(rest, n as nat).1,
        decreases n,
    {
        let ghost before = text::texts(parts@);
        let ghost r = slowed(rest.over(two), (n - 1) as nat);
        push_text(&mut parts, copy_text("atempo=2"));
        assert(before + (seq!["atempo=2"@] + r.0) =~= before.push("atempo=2"@) + r.0);
        rest = rest.div(two);
        n = n - 1;
    }
    assert(text::texts(parts@) + Seq::<Seq<char>>::empty() =~= text::texts(parts@));
    let ghost b = hurried(rest, TEMPO_STEPS as nat);
    let mut k: u32 = TEMPO_STEPS;
    while k > 0 && rest.lt(half)
        invariant
            k <= TEMPO_STEPS,
            half == (Real { bits: crate::fonts::HALF_BITS }),
            a.0 + b.0 == text::texts(parts@) + hurried(rest, k as nat).0,
            b.1 == hurried(rest, k as nat).1,
        decreases k,
    {
        let ghost before = text::texts(parts@);
        let ghost r = hurried(rest.over(half), (k - 1) as nat);
        push_text(&mut parts, copy_text("atempo=0.5"));
        assert(before + (seq!["atempo=0.5"@] + r.0) =~= before.push("atempo=0.5"@) + r.0);
        rest = rest.div(half);
        k = k - 1;
    }
    assert(text::texts(parts@) + Seq::<Seq<char>>::empty() =~= text::texts(parts@));
    let near: Real = Real { bits: NEAR_BITS };
    if near.lt(rest.sub(Real::from_int(1)).abs()) {
        let tail: String = shortest(
            rest.mul(Real::from_int(10000)).round().div(Real::from_int(10000)),
        );
        let mut s1: String = copy_text("atempo=");
        s1.append(tail.as_str());
        push_text(&mut parts, s1);
    }
    join(&parts, ",")
}

/// How long a clip is heard.
pub open spec fn heard_length(x: AudioItemV) -> TimeUs {
    ops::divided_time(time::sooner(x.src_out, x.src_in), x.speed)
}

/// Then noise is taken out, where no denoised file does that.
pub open spec fn denoise_stage(s: Seq<char>, x: AudioItemV) -> Seq<char> {
    if x.denoise && x.input_override is None {
        s + ","@ + DENOISE_FILTER@
    } else {
        s
    }
}

/// Then the tempo is changed.
pub open spec fn tempo_stage(s: Seq<char>, x: AudioItemV) -> Seq<char> {
    if (Real { bits: NEAR_BITS }).less(x.speed.minus(Real::of(1)).magn()) {
        s + ","@ + tempo_chain(x.speed)
    } else {
        s
    }
}

/// Then the gain.
pub open spec fn gain_stage(s: Seq<char>, x: AudioItemV) -> Seq<char> {
    match x.gain_curve {
        Some(keys) => s + ",volume=volume='"@ + gain_expr(keys, x.gain_db) + "':eval=frame"@,
        None => if (Real { bits: NEAR_BITS }).less(x.gain_db.magn()) {
            s + ",volume="@ + decimal::fixed_text(x.gain_db, 2) + "dB"@
        } else {
            s
        },
    }
}

/// Then the balance.
pub open spec fn pan_stage(s: Seq<char>, x: AudioItemV) -> Seq<char> {
    if (Real { bits: PAN_BITS }).less(x.pan.magn()) {
        let l = Real::of(1).minus(x.pan).smaller(Real::of(1));
        let r = Real::of(1).plus(x.pan).smaller(Real::of(1));
        s + ",pan=stereo|c0="@ + decimal::fixed_text(l, 4) + "*c0|c1="@ + decimal::fixed_text(r, 4) + "*c1"@
    } else {
        s
    }
}

/// Then the fades.
pub open spec fn fade_stage(s: Seq<char>, x: AudioItemV) -> Seq<char> {
    let a = if x.fade_in_us > 0 {
        s + ",afade=t=in:st=0:d="@ + render::secs_text(x.fade_in_us)
    } else {
        s
    };
    if x.fade_out_us > 0 {
        a + ",afade=t=out:st="@ + render::secs_text(time::sooner(heard_length(x), x.fade_out_us)) + ":d="@ + render::secs_text(x.fade_out_us)
    } else {
        a
    }
}

/// Then the delay to its start.
pub open spec fn delay_stage(s: Seq<char>, x: AudioItemV) -> Seq<char> {
    if x.start > 0 {
        s + ",adelay="@ + text::int_text(x.start as int / 1000) + ":all=1"@
    } else {
        s
    }
}

/// The chain of a clip behind what takes it from its file.
#[verifier::opaque]
pub open spec fn item_chain(head: Seq<char>, x: AudioItemV, label: Seq<char>) -> Seq<char> {
    let a = denoise_stage(head, x);
    let b = tempo_stage(a, x);
    let c = gain_stage(b, x);
    let d = pan_stage(c, x);
    let e = fade_stage(d, x);
    let f = delay_stage(e, x);
    f + "["@ + label + "]"@
}

fn add_gain(s: &mut String, x: &AudioItem)
    ensures
        final(s)@ == gain_stage(old(s)@, x@),
{
    let near: Real = Real { bits: NEAR_BITS };
    match &x.gain_curve {
        Some(curve) => {
            let e: String = volume_expr(curve, x.gain_db);
            s.append(",volume=volume='");
            s.append(e.as_str());
            s.append("':eval=frame");
        },
        None => {
            if near.lt(x.gain_db.abs()) {
                let g: String = fixed(x.gain_db, 2);
                s.append(",volume=");
                s.append(g.as_str());
                s.append("dB");
            }
        },
    }
}

fn add_pan(s: &mut String, x: &AudioItem)
    ensures
        final(s)@ == pan_stage(old(s)@, x@),
{
    let limit: Real = Real { bits: PAN_BITS };
    if limit.lt(x.pan.abs()) {
        let one: Real = Real::from_int(1);
        let l: String = fixed(one.sub(x.pan).min(one), 4);
        let r: String = fixed(one.add(x.pan).min(one), 4);
        s.append(",pan=stereo|c0=");
        s.append(l.as_str());
        s.append("*c0|c1=");
        s.append(r.as_str());
        s.append("*c1");
    }
}

fn add_fades(s: &mut String, x: &AudioItem)
    ensures
        final(s)@ == fade_stage(old(s)@, x@),
{
    if x.fade_in_us > 0 {
        let d: String = secs(x.fade_in_us);
        s.append(",afade=t=in:st=0:d=");
        s.append(d.as_str());
    }
    if x.fade_out_us > 0 {
        let length: TimeUs = divide_time(minus(x.src_out, x.src_in), x.speed);
        let st: String = secs(minus(length, x.fade_out_us));
        let d: String = secs(x.fade_out_us);
        s.append(",afade=t=out:st=");
        s.append(st.as_str());
        s.append(":d=");
        s.append(d.as_str());
    }
}

fn finish_chain(head: String, x: &AudioItem, label: &str) -> (r: String)
    ensures
        r@ == item_chain(head@, x@, label@),
{
    reveal(item_chain);
    let mut s: String = head;
    if x.denoise && x.input_override.is_none() {
        s.append(",");
        s.append(DENOISE_FILTER);
    }
    let near: Real = Real { bits: NEAR_BITS };
    if near.lt(x.speed.sub(Real::from_int(1)).abs()) {
        let t: String = atempo_chain(x.speed);
        s.append(",");
        s.append(t.as_str());
    }
    add_gain(&mut s, x);
    add_pan(&mut s, x);
    add_fades(&mut s, x);
    if x.start > 0 {
        let ms: String = int_to_text(x.start / 1000);
        s.append(",adelay=");
        s.append(ms.as_str());
        s.append(":all=1");
    }
    s.append("[");
    s.append(label);
    s.append("]");
    s
}

/// The file that a clip is heard from.
pub open spec fn heard_file(p: ProjectV, base: Seq<char>, x: AudioItemV, windows: bool) -> Seq<char> {
    match x.input_override {
        Some(f) => f,
        None => match model::asset_of(p, x.asset_id) {
            Some(a) => paths::path_in(base, a.path@, windows),
            None => ""@,
        },
    }
}

/// Finds the file that a clip is heard from.
pub fn file_heard(project: &Project, base: &str, x: &AudioItem, windows: bool) -> (r: String)
    ensures
        r@ == heard_file(project@, base@, x@, windows),
{
    match &x.input_override {
        Some(f) => f.clone(),
        None => match project.asset(x.asset_id) {
            Some(a) => resolve_path_pub(base, a.path.as_str(), windows),
            None => copy_text(""),
        },
    }
}

/// The chain of a clip whose input starts with its material.
pub open spec fn seeked_chain(idx: nat, x: AudioItemV, label: Seq<char>) -> Seq<char> {
    item_chain(
        "["@ + text::digits(idx) + ":a]atrim=start=0:end="@ + render::secs_text(time::sooner(x.src_out, x.src_in)) + ",asetpts=PTS-STARTPTS,aresample=48000,aformat=channel_layouts=stereo"@,
        x,
        label,
    )
}

/// Writes the chain of a clip whose input starts with its material.
pub fn chain_seeked(idx: usize, x: &AudioItem, label: &str) -> (r: String)
    ensures
        r@ == seeked_chain(idx as nat, x@, label@),
{
    let mut head: String = copy_text("[");
    let d1: String = nat_to_text((idx) as u128);
    head.append(d1.as_str());
    head.append(":a]atrim=start=0:end=");
    let d2: String = secs(minus(x.src_out, x.src_in));
    head.append(d2.as_str());
    head.append(",asetpts=PTS-STARTPTS,aresample=48000,aformat=channel_layouts=stereo");
    finish_chain(head, x, label)
}

/// The chain of a clip whose input is its whole file.
pub open spec fn trimmed_chain(idx: nat, x: AudioItemV, label: Seq<char>) -> Seq<char> {
    item_chain(
        "["@ + text::digits(idx) + ":a]atrim=start="@ + render::secs_text(x.src_in) + ":end="@ + render::secs_text(x.src_out) + ",asetpts=PTS-STARTPTS,aresample=48000,aformat=channel_layouts=stereo"@,
        x,
        label,
    )
}

/// Writes the chain of a clip whose input is its whole file.
pub fn chain_trimmed(idx: usize, x: &AudioItem, label: &str) -> (r: String)
    ensures
        r@ == trimmed_chain(idx as nat, x@, label@),
{
    let mut head: String = copy_text("[");
    let d1: String = nat_to_text((idx) as u128);
    head.append(d1.as_str());
    head.append(":a]atrim=start=");
    let d2: String = secs(x.src_in);
    head.append(d2.as_str());
    head.append(":end=");
    let d3: String = secs(x.src_out);
    head.append(d3.as_str());
    head.append(",asetpts=PTS-STARTPTS,aresample=48000,aformat=channel_layouts=stereo");
    finish_chain(head, x, label)
}

/// What all sounds are mixed with.
pub open spec fn mix_text(labels: Seq<Seq<char>>, total: TimeUs, loudnorm: bool) -> Seq<char> {
    let master = if loudnorm {
        ",loudnorm=I=-14:TP=-1.5:LRA=11,aresample=48000"@
    } else {
        ""@
    };
    let all = text::joined(labels, ""@);
    all + "amix=inputs="@ + text::digits(labels.len()) + ":duration=longest:normalize=0,atrim=0:"@ + render::secs_text(total) + master + "[aout]"@
}

/// Writes what all sounds are mixed with.
pub fn mix(labels: &Vec<String>, total: TimeUs, loudnorm: bool) -> (r: String)
    ensures
        r@ == mix_text(text::texts(labels@), total, loudnorm),
{
    let all: String = join(labels, "");
    let master: &str = if loudnorm {
        ",loudnorm=I=-14:TP=-1.5:LRA=11,aresample=48000"
    } else {
        ""
    };
    assert(text::texts(labels@).len() == labels.len());
    let mut r: String = copy_text(all.as_str());
    r.append("amix=inputs=");
    let d1: String = nat_to_text((labels.len()) as u128);
    r.append(d1.as_str());
    r.append(":duration=longest:normalize=0,atrim=0:");
    let d2: String = secs(total);
    r.append(d2.as_str());
    r.append(master);
    r.append("[aout]");
    r
}

} // verus!
