//! One frame of a sequence as the export shows it: the ffmpeg command that
//! composes it.

use vstd::prelude::*;

use crate::decimal;
use crate::decimal::fixed;
use crate::edl;
use crate::edl::{find_covering, find_source, track_shows, Drawn, DrawnV, SegmentV};
use crate::export::{ExportErrV, ExportError, ExportResult};
use crate::float;
use crate::float::Real;
use crate::fonts::HALF_BITS;
use crate::graph;
use crate::fonts::{Fonts, FontsV};
use crate::graph::{
    find_base, find_title, Script, ScriptV, SurroundV, Surroundings, TitleImage, TitleV,
};
use crate::ident::Id;
use crate::model;
use crate::model::{
    Clip, ClipPayload, ClipV, MediaAsset, MediaKind, PayloadV, Project, ProjectV, Sequence,
    SequenceV, Track, TrackV,
};
use crate::ops;
use crate::ops::{clamp_time, scale_time};
use crate::overlays;
use crate::overlays::{text_clip_chain, text_is_styled_pub, text_overlays_at};
use crate::paths;
use crate::paths::{is_image_path, resolve_path_pub};
use crate::render;
use crate::render::{
    clip_vf_sampled_ex, effects_fit, merge_registries, secs, EffectDef, EffectDefV, Labels,
};
use crate::seqs;
use crate::seqs::duplicate_all;
use crate::text;
use crate::text::{blank, copy_text, int_to_text, join, nat_to_text, push_text, trim};
use crate::time;
use crate::time::{hold, max2, min2, minus, plus, TimeUs};
use crate::transitions;
use crate::transitions::{circle_mask, xfade_kind};

verus! {

// ---- transitions in progress ----

/// Where the material of a clip ends at the end of the clip, as the export takes
/// it.
pub open spec fn last_source(c: ClipV, src_in: TimeUs, src_out: TimeUs) -> TimeUs {
    time::min_time(
        time::later(src_in, ops::scaled_time(time::sooner(c.finish(), c.start), c.speed)),
        src_out,
    )
}

/// Half of the transition from a clip to the next, as the export makes it; none
/// where it cannot be one.
pub open spec fn xfade_half(p: ProjectV, prev: ClipV, c: ClipV) -> Option<TimeUs> {
    match (prev.payload, c.payload, c.transition_in) {
        (
            PayloadV::Media { asset_id, src_in: i1, src_out },
            PayloadV::Media { asset_id: a2, src_in, src_out: o2 },
            Some(t),
        ) => if prev.finish() != c.start || model::asset_of(p, asset_id) is None {
            None
        } else {
            let left = edl::whole_over(
                time::max_time(
                    time::sooner(
                        edl::asset_length(p, asset_id),
                        last_source(prev, i1, src_out),
                    ),
                    0,
                ),
                prev.speed,
            );
            let right = edl::whole_over(src_in, c.speed);
            let half = time::min_time(time::min_time(edl::halved(t.duration), left), right);
            if edl::doubled(half) < edl::MIN_TRANSITION {
                None
            } else {
                Some(half)
            }
        },
        _ => None,
    }
}

fn find_half(project: &Project, prev: &Clip, c: &Clip) -> (r: Option<TimeUs>)
    ensures
        r == xfade_half(project@, prev@, c@),
{
    match (&prev.payload, &c.payload, &c.transition_in) {
        (
            ClipPayload::Media { asset_id, src_in: first, src_out },
            ClipPayload::Media { src_in, .. },
            Some(t),
        ) => {
            if prev.end() != c.start {
                return None;
            }
            let last: TimeUs = min2(
                plus(*first, scale_time(minus(prev.end(), prev.start), prev.speed)),
                *src_out,
            );
            let length: TimeUs = match project.asset(*asset_id) {
                Some(a) => a.probe.duration_us,
                None => {
                    return None;
                },
            };
            let left: TimeUs = edl::divide_whole(max2(minus(length, last), 0), prev.speed);
            let right: TimeUs = edl::divide_whole(*src_in, c.speed);
            let half: TimeUs = min2(min2(edl::halve(t.duration), left), right);
            if hold((half as i128) * 2) < edl::MIN_TRANSITION {
                None
            } else {
                Some(half)
            }
        },
        _ => None,
    }
}

/// Whether a time falls into the transition to a clip.
pub open spec fn in_xfade(p: ProjectV, prev: ClipV, c: ClipV, t: TimeUs) -> bool {
    match xfade_half(p, prev, c) {
        Some(half) => time::sooner(c.start, half) <= t && t < time::later(c.start, half),
        None => false,
    }
}

/// The first clip of some whose transition a time falls into; their number
/// where there is none.
pub open spec fn xfade_clip(p: ProjectV, clips: Seq<ClipV>, t: TimeUs, from: int) -> int
    decreases clips.len() - from,
{
    if from >= clips.len() {
        clips.len() as int
    } else if in_xfade(p, clips[from - 1], clips[from], t) {
        from
    } else {
        xfade_clip(p, clips, t, from + 1)
    }
}

fn find_xfade(project: &Project, clips: &Vec<Clip>, t: TimeUs) -> (r: Option<(usize, TimeUs)>)
    ensures
        match r {
            Some(x) => 1 <= x.0 < clips.len() && x.0 == xfade_clip(
                project@,
                seqs::views(clips@),
                t,
                1,
            ) && xfade_half(project@, clips@[x.0 - 1]@, clips@[x.0 as int]@) == Some(x.1),
            None => xfade_clip(project@, seqs::views(clips@), t, 1) >= clips.len(),
        },
{
    let ghost all = seqs::views(clips@);
    let mut i: usize = 1;
    while i < clips.len()
        invariant
            1 <= i,
            i <= clips.len() || i == 1,
            all == seqs::views(clips@),
            xfade_clip(project@, all, t, 1) == xfade_clip(project@, all, t, i as int),
        decreases clips.len() - i,
    {
        assert(all[i - 1] == clips@[i - 1]@);
        assert(all[i as int] == clips@[i as int]@);
        if let Some(half) = find_half(project, &clips[i - 1], &clips[i]) {
            if minus(clips[i].start, half) <= t && t < plus(clips[i].start, half) {
                return Some((i, half));
            }
        }
        i = i + 1;
    }
    None
}

/// A transition in progress: its kind, its duration and how far it is, in
/// seconds.
pub type Moving = (Seq<char>, Real, Real);

/// Whether the transition into a clip is one from the clip before, in its track.
pub open spec fn xfade_applies(p: ProjectV, clips: Seq<ClipV>, c: ClipV) -> bool {
    let i = seqs::pos(clips, c.id) as int;
    0 < i < clips.len() && xfade_half(p, clips[i - 1], c) is Some
}

/// The entrance in progress at a time of a clip.
pub open spec fn entrance_of(p: ProjectV, clips: Seq<ClipV>, c: ClipV, rel: TimeUs, base: bool) -> Option<
    Moving,
> {
    match c.transition_in {
        None => None,
        Some(t) => {
            let d = graph::held_cross(t.duration, c.duration);
            if (base && xfade_applies(p, clips, c)) || rel >= d {
                None
            } else {
                Some(
                    (
                        transitions::kind_of(transitions::kinds(), t.effect_id),
                        render::in_seconds(d),
                        render::in_seconds(time::max_time(rel, 0)),
                    ),
                )
            }
        },
    }
}

/// The exit in progress at a time of a clip.
pub open spec fn exit_of(c: ClipV, rel: TimeUs) -> Option<Moving> {
    match c.transition_out {
        None => None,
        Some(t) => {
            let d = graph::held_cross(t.duration, c.duration);
            let from = time::sooner(c.duration, d);
            if rel < from {
                None
            } else {
                Some(
                    (
                        transitions::kind_of(transitions::kinds(), t.effect_id),
                        render::in_seconds(d),
                        render::in_seconds(time::max_time(time::sooner(rel, from), 0)),
                    ),
                )
            }
        },
    }
}

/// The contents of a transition in progress.
pub open spec fn moving_view(m: Option<(&'static str, Real, Real)>) -> Option<Moving> {
    match m {
        Some(x) => Some((x.0@, x.1, x.2)),
        None => None,
    }
}

fn seconds(t: TimeUs) -> (x: Real)
    ensures
        x == render::in_seconds(t),
{
    Real::from_int(t).div(Real::from_int(1_000_000))
}

fn xfade_would_apply(project: &Project, clips: &Vec<Clip>, c: &Clip) -> (b: bool)
    ensures
        b == xfade_applies(project@, seqs::views(clips@), c@),
{
    match seqs::find(clips, c.id) {
        Some(i) => {
            if i == 0 {
                return false;
            }
            assert(seqs::views(clips@)[i - 1] == clips@[i - 1]@);
            find_half(project, &clips[i - 1], c).is_some()
        },
        None => false,
    }
}

fn entrance_at(project: &Project, clips: &Vec<Clip>, c: &Clip, rel: TimeUs, base: bool) -> (r: Option<
    (&'static str, Real, Real),
>)
    ensures
        moving_view(r) == entrance_of(project@, seqs::views(clips@), c@, rel, base),
{
    match &c.transition_in {
        None => None,
        Some(t) => {
            if base && xfade_would_apply(project, clips, c) {
                return None;
            }
            let d: TimeUs = max2(min2(t.duration, c.duration), edl::MIN_TRANSITION);
            if rel >= d {
                return None;
            }
            Some((xfade_kind(t.effect_id.as_str()), seconds(d), seconds(max2(rel, 0))))
        },
    }
}

fn exit_at(c: &Clip, rel: TimeUs) -> (r: Option<(&'static str, Real, Real)>)
    ensures
        moving_view(r) == exit_of(c@, rel),
{
    match &c.transition_out {
        None => None,
        Some(t) => {
            let d: TimeUs = max2(min2(t.duration, c.duration), edl::MIN_TRANSITION);
            let from: TimeUs = minus(c.duration, d);
            if rel < from {
                return None;
            }
            Some(
                (
                    xfade_kind(t.effect_id.as_str()),
                    seconds(d),
                    seconds(max2(minus(rel, from), 0)),
                ),
            )
        },
    }
}

// ---- what shows at a time ----

/// Where the picture of a clip comes from.
enum Shot {
    Media { path: String, src_time: TimeUs },
    Gen { source: String },
}

/// The contents of where a picture comes from.
#[verifier::ext_equal]
pub enum ShotV {
    Media { path: Seq<char>, src_time: TimeUs },
    Gen { source: Seq<char> },
}

/// A clip that shows at a time.
struct Active {
    shot: Shot,
    chain: Option<String>,
    /// It fills the frame.
    base: bool,
    entrance: Option<(&'static str, Real, Real)>,
    exit: Option<(&'static str, Real, Real)>,
}

/// The contents of a clip that shows.
#[verifier::ext_equal]
pub struct ActiveV {
    pub shot: ShotV,
    pub chain: Option<Seq<char>>,
    pub base: bool,
    pub entrance: Option<Moving>,
    pub exit: Option<Moving>,
}

impl View for Active {
    type V = ActiveV;

    closed spec fn view(&self) -> ActiveV {
        ActiveV {
            shot: match self.shot {
                Shot::Media { path, src_time } => ShotV::Media { path: path@, src_time },
                Shot::Gen { source } => ShotV::Gen { source: source@ },
            },
            chain: model::opt_text(self.chain),
            base: self.base,
            entrance: moving_view(self.entrance),
            exit: moving_view(self.exit),
        }
    }
}

/// What a frame is composed of: the clips that show, the transition of the base
/// where one is in progress, and the labels after them.
#[verifier::ext_equal]
pub struct SceneV {
    pub layers: Seq<ActiveV>,
    pub xfade: Option<Moving>,
    pub labels: Labels,
}

struct Scene {
    layers: Vec<Active>,
    xfade: Option<(&'static str, Real, Real)>,
    labels: Labels,
}

impl View for Scene {
    type V = SceneV;

    closed spec fn view(&self) -> SceneV {
        SceneV {
            layers: seqs::views(self.layers@),
            xfade: moving_view(self.xfade),
            labels: self.labels,
        }
    }
}

/// What frames of a sequence are made with.
#[verifier::ext_equal]
pub struct ViewerV {
    pub project: ProjectV,
    pub seq: SequenceV,
    pub base_dir: Seq<char>,
    pub registry: Seq<EffectDefV>,
    pub drawn: Seq<DrawnV>,
    pub t: TimeUs,
    pub windows: bool,
}

struct Viewer<'a> {
    project: &'a Project,
    seq: &'a Sequence,
    base_dir: &'a str,
    registry: &'a Vec<EffectDef>,
    drawn: &'a Vec<Drawn>,
    t: TimeUs,
    windows: bool,
}

impl<'a> Viewer<'a> {
    spec fn shown(self) -> ViewerV {
        ViewerV {
            project: self.project@,
            seq: self.seq@,
            base_dir: self.base_dir@,
            registry: seqs::views(self.registry@),
            drawn: seqs::views(self.drawn@),
            t: self.t,
            windows: self.windows,
        }
    }
}

/// The chain of a clip as it is at a time.
pub open spec fn still_chain(v: ViewerV, c: ClipV, at: TimeUs, transparent: bool, labels: Labels) -> Option<
    Seq<char>,
> {
    render::clip_chain(
        v.registry,
        c.effects,
        at,
        c.transform.sampled(at),
        Some(v.seq.resolution),
        transparent,
        "t"@,
        true,
        labels,
    )
}

/// The labels after the chain of a clip.
pub open spec fn still_labels(v: ViewerV, c: ClipV, at: TimeUs, labels: Labels) -> Labels {
    render::clip_labels(
        v.registry,
        c.effects,
        at,
        c.transform.sampled(at),
        Some(v.seq.resolution),
        labels,
    )
}

fn still(v: &Viewer, c: &Clip, at: TimeUs, transparent: bool, labels: &mut Labels) -> (r: Option<String>)
    requires
        render::fitting(seqs::views(v.registry@), c@.effects),
    ensures
        model::opt_text(r) == still_chain(v.shown(), c@, at, transparent, *old(labels)),
        *final(labels) == still_labels(v.shown(), c@, at, *old(labels)),
{
    clip_vf_sampled_ex(
        v.registry,
        &c.effects,
        &c.transform,
        Some(v.seq.resolution),
        at,
        transparent,
        labels,
    )
}

/// A scene with one side of a transition of the base.
#[verifier::opaque]
pub open spec fn side_step(x: SceneV, v: ViewerV, c: ClipV) -> Result<SceneV, ExportErrV> {
    let rel = time::sooner(v.t, c.start);
    let at = ops::clamped(rel, 0, c.duration);
    match c.payload {
        PayloadV::Media { asset_id, src_in, src_out } => match model::asset_of(v.project, asset_id) {
            None => Err(ExportErrV::MissingAsset(asset_id)),
            Some(a) => Ok(
                SceneV {
                    layers: x.layers.push(
                        ActiveV {
                            shot: ShotV::Media {
                                path: paths::path_in(v.base_dir, a.path@, v.windows),
                                src_time: time::max_time(
                                    time::later(src_in, ops::scaled_time(rel, c.speed)),
                                    0,
                                ),
                            },
                            chain: still_chain(v, c, at, false, x.labels),
                            base: true,
                            entrance: None,
                            exit: None,
                        },
                    ),
                    xfade: x.xfade,
                    labels: still_labels(v, c, at, x.labels),
                },
            ),
        },
        _ => Ok(x),
    }
}

fn add_side(x: &mut Scene, v: &Viewer, c: &Clip) -> (r: ExportResult<()>)
    requires
        render::fitting(seqs::views(v.registry@), c@.effects),
    ensures
        match side_step(old(x)@, v.shown(), c@) {
            Ok(y) => r is Ok && final(x)@ == y,
            Err(e) => r is Err && r->Err_0@ == e,
        },
{
    reveal(side_step);
    let ghost before = seqs::views(x.layers@);
    let rel: TimeUs = minus(v.t, c.start);
    let at: TimeUs = clamp_time(rel, 0, c.duration);
    if let ClipPayload::Media { asset_id, src_in, .. } = &c.payload {
        let asset: &MediaAsset = match v.project.asset(*asset_id) {
            Some(a) => a,
            None => {
                return Err(ExportError::MissingAsset(*asset_id));
            },
        };
        let chain: Option<String> = still(v, c, at, false, &mut x.labels);
        let l: Active = Active {
            shot: Shot::Media {
                path: resolve_path_pub(v.base_dir, asset.path.as_str(), v.windows),
                src_time: max2(plus(*src_in, scale_time(rel, c.speed)), 0),
            },
            chain,
            base: true,
            entrance: None,
            exit: None,
        };
        let ghost lv = l@;
        x.layers.push(l);
        assert(seqs::views(x.layers@) =~= before.push(lv));
    }
    Ok(())
}

/// A scene with the clip of a track that shows at its time.
#[verifier::opaque]
pub open spec fn clip_step(x: SceneV, v: ViewerV, t: TrackV, c: ClipV, base: bool) -> Result<SceneV, ExportErrV> {
    let rel = time::sooner(v.t, c.start);
    let chain = still_chain(v, c, rel, !base, x.labels);
    let labels = still_labels(v, c, rel, x.labels);
    let entrance = entrance_of(v.project, t.clips, c, rel, base);
    let exit = exit_of(c, rel);
    match c.payload {
        PayloadV::Media { asset_id, src_in, src_out } => match model::asset_of(v.project, asset_id) {
            None => Err(ExportErrV::MissingAsset(asset_id)),
            Some(a) => Ok(
                SceneV {
                    layers: x.layers.push(
                        ActiveV {
                            shot: ShotV::Media {
                                path: paths::path_in(v.base_dir, a.path@, v.windows),
                                src_time: if a.kind == MediaKind::Image {
                                    0
                                } else {
                                    time::later(src_in, ops::scaled_time(rel, c.speed))
                                },
                            },
                            chain,
                            base,
                            entrance,
                            exit,
                        },
                    ),
                    xfade: x.xfade,
                    labels,
                },
            ),
        },
        PayloadV::Generator { .. } => match edl::source_for(v.drawn, c.id, c.duration) {
            Some(source) => Ok(
                SceneV {
                    layers: x.layers.push(
                        ActiveV { shot: ShotV::Gen { source }, chain, base, entrance, exit },
                    ),
                    xfade: x.xfade,
                    labels,
                },
            ),
            None => Ok(SceneV { labels, ..x }),
        },
        _ => Ok(SceneV { labels, ..x }),
    }
}

fn add_clip(x: &mut Scene, v: &Viewer, t: &Track, c: &Clip, base: bool) -> (r: ExportResult<()>)
    requires
        render::fitting(seqs::views(v.registry@), c@.effects),
    ensures
        match clip_step(old(x)@, v.shown(), t@, c@, base) {
            Ok(y) => r is Ok && final(x)@ == y,
            Err(e) => r is Err && r->Err_0@ == e,
        },
{
    reveal(clip_step);
    let ghost before = seqs::views(x.layers@);
    let rel: TimeUs = minus(v.t, c.start);
    let chain: Option<String> = still(v, c, rel, !base, &mut x.labels);
    match &c.payload {
        ClipPayload::Media { asset_id, src_in, .. } => {
            let asset: &MediaAsset = match v.project.asset(*asset_id) {
                Some(a) => a,
                None => {
                    return Err(ExportError::MissingAsset(*asset_id));
                },
            };
            let src_time: TimeUs = if asset.kind == MediaKind::Image {
                0
            } else {
                plus(*src_in, scale_time(rel, c.speed))
            };
            let l: Active = Active {
                shot: Shot::Media {
                    path: resolve_path_pub(v.base_dir, asset.path.as_str(), v.windows),
                    src_time,
                },
                chain,
                base,
                entrance: entrance_at(v.project, &t.clips, c, rel, base),
                exit: exit_at(c, rel),
            };
            let ghost lv = l@;
            x.layers.push(l);
            assert(seqs::views(x.layers@) =~= before.push(lv));
        },
        ClipPayload::Generator { .. } => {
            if let Some(source) = find_source(v.drawn, c.id, c.duration) {
                let l: Active = Active {
                    shot: Shot::Gen { source },
                    chain,
                    base,
                    entrance: entrance_at(v.project, &t.clips, c, rel, base),
                    exit: exit_at(c, rel),
                };
                let ghost lv = l@;
                x.layers.push(l);
                assert(seqs::views(x.layers@) =~= before.push(lv));
            }
        },
        _ => {},
    }
    Ok(())
}

/// The base of a sequence by its identifier.
pub open spec fn base_id(s: SequenceV) -> Option<Id> {
    if graph::base_track(s.tracks) < s.tracks.len() {
        Some(s.tracks[graph::base_track(s.tracks) as int].id)
    } else {
        None
    }
}

/// Whether a frame at a time needs the chain of a clip: of one that is there, and
/// of both sides of a transition of the base.
pub open spec fn in_frame(p: ProjectV, s: SequenceV, t: TrackV, k: int, at: TimeUs) -> bool {
    let x = xfade_clip(p, t.clips, at, 1);
    ||| there(t.clips[k], at)
    ||| base_id(s) == Some(t.id) && x < t.clips.len() && (k == x - 1 || k == x)
}

/// Whether the chains of the clips of a track can be written that a frame needs.
pub open spec fn track_drawable(
    p: ProjectV,
    s: SequenceV,
    registry: Seq<EffectDefV>,
    t: TrackV,
    at: TimeUs,
) -> bool {
    forall|k: int|
        0 <= k < t.clips.len() && #[trigger] in_frame(p, s, t, k, at) ==> render::fitting(
            registry,
            t.clips[k].effects,
        )
}

/// Whether all chains can be written that a frame needs.
pub open spec fn frame_drawable(
    p: ProjectV,
    s: SequenceV,
    registry: Seq<EffectDefV>,
    at: TimeUs,
) -> bool {
    forall|i: int|
        0 <= i < s.tracks.len() && edl::shows(#[trigger] s.tracks[i]) ==> track_drawable(
            p,
            s,
            registry,
            s.tracks[i],
            at,
        )
}

/// Whether the chains of the clips can be written that are there at a time.
pub open spec fn texts_drawable(registry: Seq<EffectDefV>, clips: Seq<ClipV>, at: TimeUs) -> bool {
    forall|k: int|
        0 <= k < clips.len() && there(#[trigger] clips[k], at) ==> render::fitting(
            registry,
            clips[k].effects,
        )
}

fn track_fits(
    project: &Project,
    seq: &Sequence,
    registry: &Vec<EffectDef>,
    t: &Track,
    base: Option<Id>,
    at: TimeUs,
) -> (b: bool)
    requires
        base == base_id(seq@),
    ensures
        b == track_drawable(project@, seq@, seqs::views(registry@), t@, at),
{
    let found: Option<(usize, TimeUs)> = find_xfade(project, &t.clips, at);
    let own: bool = match base {
        Some(id) => id == t.id,
        None => false,
    };
    let mut i: usize = 0;
    while i < t.clips.len()
        invariant
            i <= t.clips.len(),
            base == base_id(seq@),
            own == (base == Some(t@.id)),
            match found {
                Some(x) => 1 <= x.0 < t.clips.len() && x.0 == xfade_clip(
                    project@,
                    t@.clips,
                    at,
                    1,
                ),
                None => xfade_clip(project@, t@.clips, at, 1) >= t.clips.len(),
            },
            forall|k: int|
                0 <= k < i && #[trigger] in_frame(project@, seq@, t@, k, at) ==> render::fitting(
                    seqs::views(registry@),
                    t@.clips[k].effects,
                ),
        decreases t.clips.len() - i,
    {
        assert(t@.clips[i as int] == t.clips@[i as int]@);
        let side: bool = own && match found {
            Some(x) => i == x.0 - 1 || i == x.0,
            None => false,
        };
        assert(in_frame(project@, seq@, t@, i as int, at) == (side || there(t.clips@[i as int]@, at)));
        if (side || is_there(&t.clips[i], at)) && !effects_fit(registry, &t.clips[i].effects) {
            return false;
        }
        i = i + 1;
    }
    true
}

fn frame_fits(project: &Project, seq: &Sequence, registry: &Vec<EffectDef>, at: TimeUs) -> (b: bool)
    ensures
        b == frame_drawable(project@, seq@, seqs::views(registry@), at),
{
    let base: Option<Id> = find_base_id(seq);
    let ghost all = seq@.tracks;
    let mut i: usize = 0;
    while i < seq.tracks.len()
        invariant
            i <= seq.tracks.len(),
            all == seq@.tracks,
            base == base_id(seq@),
            forall|k: int|
                0 <= k < i && edl::shows(#[trigger] all[k]) ==> track_drawable(
                    project@,
                    seq@,
                    seqs::views(registry@),
                    all[k],
                    at,
                ),
        decreases seq.tracks.len() - i,
    {
        assert(all[i as int] == seq.tracks@[i as int]@);
        if track_shows(&seq.tracks[i]) && !track_fits(
            project,
            seq,
            registry,
            &seq.tracks[i],
            base,
            at,
        ) {
            return false;
        }
        i = i + 1;
    }
    true
}

fn find_base_id(seq: &Sequence) -> (r: Option<Id>)
    ensures
        r == base_id(seq@),
{
    let b: usize = find_base(seq);
    if b < seq.tracks.len() {
        assert(seq@.tracks[b as int] == seq.tracks@[b as int]@);
        Some(seq.tracks[b].id)
    } else {
        None
    }
}

/// A scene with what a track shows.
#[verifier::opaque]
pub open spec fn track_step(x: SceneV, v: ViewerV, t: TrackV) -> Result<SceneV, ExportErrV> {
    let base = base_id(v.seq) == Some(t.id);
    let k = xfade_clip(v.project, t.clips, v.t, 1);
    if !edl::shows(t) {
        Ok(x)
    } else if base && k < t.clips.len() {
        let half = xfade_half(v.project, t.clips[k - 1], t.clips[k])->Some_0;
        match side_step(x, v, t.clips[k - 1]) {
            Err(e) => Err(e),
            Ok(y) => match side_step(y, v, t.clips[k]) {
                Err(e) => Err(e),
                Ok(z) => Ok(
                    SceneV {
                        xfade: Some(
                            (
                                transitions::kind_of(
                                    transitions::kinds(),
                                    t.clips[k].transition_in->Some_0.effect_id,
                                ),
                                render::in_seconds(edl::doubled(half)),
                                render::in_seconds(
                                    time::sooner(v.t, time::sooner(t.clips[k].start, half)),
                                ),
                            ),
                        ),
                        ..z
                    },
                ),
            },
        }
    } else {
        match edl::covering(t.clips, v.t) {
            Some(c) => clip_step(x, v, t, c, base),
            None => Ok(x),
        }
    }
}

fn add_track(x: &mut Scene, v: &Viewer, t: &Track, base: Option<Id>) -> (r: ExportResult<()>)
    requires
        edl::shows(t@) ==> track_drawable(
            v.project@,
            v.seq@,
            seqs::views(v.registry@),
            t@,
            v.t,
        ),
        base == base_id(v.seq@),
    ensures
        match track_step(old(x)@, v.shown(), t@) {
            Ok(y) => r is Ok && final(x)@ == y,
            Err(e) => r is Err && r->Err_0@ == e,
        },
{
    reveal(track_step);
    if !track_shows(t) {
        return Ok(());
    }
    let own: bool = match base {
        Some(id) => id == t.id,
        None => false,
    };
    if own {
        if let Some(found) = find_xfade(v.project, &t.clips, v.t) {
            let (k, half): (usize, TimeUs) = found;
            assert(t@.clips[k - 1] == t.clips@[k - 1]@);
            assert(t@.clips[k as int] == t.clips@[k as int]@);
            assert(in_frame(v.project@, v.seq@, t@, k - 1, v.t));
            assert(in_frame(v.project@, v.seq@, t@, k as int, v.t));
            if let Err(e) = add_side(x, v, &t.clips[k - 1]) {
                return Err(e);
            }
            if let Err(e) = add_side(x, v, &t.clips[k]) {
                return Err(e);
            }
            let kind: &'static str = match &t.clips[k].transition_in {
                Some(tr) => xfade_kind(tr.effect_id.as_str()),
                None => "fade",
            };
            x.xfade = Some(
                (
                    kind,
                    seconds(hold((half as i128) * 2)),
                    seconds(minus(v.t, minus(t.clips[k].start, half))),
                ),
            );
            return Ok(());
        }
    }
    match find_covering(&t.clips, v.t) {
        Some(i) => {
            assert(t@.clips[i as int] == t.clips@[i as int]@);
            assert(in_frame(v.project@, v.seq@, t@, i as int, v.t));
            add_clip(x, v, t, &t.clips[i], own)
        },
        None => Ok(()),
    }
}

/// A scene with what tracks show.
pub open spec fn track_steps(x: SceneV, v: ViewerV, tracks: Seq<TrackV>) -> Result<SceneV, ExportErrV>
    decreases tracks.len(),
{
    if tracks.len() == 0 {
        Ok(x)
    } else {
        match track_step(x, v, tracks[0]) {
            Err(e) => Err(e),
            Ok(y) => track_steps(y, v, tracks.drop_first()),
        }
    }
}

/// What a sequence shows at a time.
pub open spec fn scene_of(v: ViewerV, labels: Labels) -> Result<SceneV, ExportErrV> {
    track_steps(
        SceneV { layers: Seq::<ActiveV>::empty(), xfade: None, labels },
        v,
        v.seq.tracks,
    )
}

fn find_scene(v: &Viewer, labels: Labels) -> (r: ExportResult<Scene>)
    requires
        frame_drawable(v.project@, v.seq@, seqs::views(v.registry@), v.t),
    ensures
        match scene_of(v.shown(), labels) {
            Ok(y) => r is Ok && r->Ok_0@ == y,
            Err(e) => r is Err && r->Err_0@ == e,
        },
{
    let base: Option<Id> = find_base_id(v.seq);
    let ghost all = v.seq@.tracks;
    let mut x: Scene = Scene { layers: Vec::new(), xfade: None, labels };
    let ghost x0 = x@;
    let mut i: usize = 0;
    proof {
        assert(seqs::views(x.layers@) =~= Seq::<ActiveV>::empty());
        assert(all.skip(0) =~= all);
    }
    while i < v.seq.tracks.len()
        invariant
            i <= v.seq.tracks.len(),
            all == v.seq@.tracks,
            base == base_id(v.seq@),
            frame_drawable(v.project@, v.seq@, seqs::views(v.registry@), v.t),
            x0 == (SceneV { layers: Seq::<ActiveV>::empty(), xfade: None, labels }),
            track_steps(x0, v.shown(), all) == track_steps(x@, v.shown(), all.skip(i as int)),
        decreases v.seq.tracks.len() - i,
    {
        assert(all.skip(i as int)[0] == v.seq.tracks@[i as int]@);
        assert(all[i as int] == v.seq.tracks@[i as int]@);
        assert(all.skip(i as int).drop_first() =~= all.skip(i as int + 1));
        if let Err(e) = add_track(&mut x, v, &v.seq.tracks[i], base) {
            return Err(e);
        }
        i = i + 1;
    }
    assert(all.skip(i as int) =~= Seq::<TrackV>::empty());
    Ok(x)
}

/// A paused frame runs a transition of the base exactly where the export does,
/// and for as long. Where two media clips meet, the export makes a segment of
/// each that reaches up to the seam, and settles the transition between them: it
/// runs between the two for as long as the frame shows it, and it comes from
/// black where the frame shows an entrance.
pub proof fn law_preview_transition_is_the_exports(
    p: ProjectV,
    prev: ClipV,
    c: ClipV,
    a: TimeUs,
    b: TimeUs,
    v1: Option<Seq<char>>,
    v2: Option<Seq<char>>,
    list: Seq<SegmentV>,
    i: int,
)
    requires
        prev.finish() == c.start,
        c.transition_in is Some,
        prev.payload is Media,
        c.payload is Media,
        model::asset_of(p, prev.payload->Media_asset_id) is Some,
        0 < i < list.len(),
        seam_left(list[i - 1], prev, a, v1),
        list[i] == edl::source_segment(
            c,
            c.payload->Media_asset_id,
            c.payload->Media_src_in,
            c.payload->Media_src_out,
            c.start,
            b,
            v2,
        ),
    ensures
        ({
            let after = edl::settled_at(p, list, i)[i];
            match xfade_half(p, prev, c) {
                Some(half) => edl::cross_in(after) == Some(
                    (edl::doubled(half), c.transition_in->Some_0.effect_id),
                ) && edl::cross_from_black(after) is None,
                None => edl::cross_in(after) is None && edl::cross_from_black(after)
                    == edl::cross_of(c.transition_in),
            }
        }),
{
    reveal(edl::settled_at);
    float::lemma_nothing_scaled(c.speed);
}

/// Whether a segment ends where a clip does, with the material of the clip: the
/// one of its last window, or one that goes on into it.
pub open spec fn seam_left(x: SegmentV, c: ClipV, a: TimeUs, vf: Option<Seq<char>>) -> bool {
    let y = edl::source_segment(
        c,
        c.payload->Media_asset_id,
        c.payload->Media_src_in,
        c.payload->Media_src_out,
        a,
        c.finish(),
        vf,
    );
    match (x, y) {
        (
            SegmentV::Source { asset_id: a1, src_out: o1, speed: s1, .. },
            SegmentV::Source { asset_id: a2, src_out: o2, speed: s2, .. },
        ) => a1 == a2 && o1 == o2 && s1 == s2,
        _ => false,
    }
}

// ---- the command ----

/// A command that is being written: arguments, chains, the name of the picture
/// so far, how many inputs there are, labels, texts and files of their pictures.
#[verifier::ext_equal]
pub struct FrameGraphV {
    pub args: Seq<Seq<char>>,
    pub fc: Seq<Seq<char>>,
    pub current: Seq<char>,
    pub inputs: nat,
    pub labels: Labels,
    pub texts: nat,
    pub files: Seq<Seq<char>>,
    pub windows: bool,
}

struct FrameGraph {
    args: Vec<String>,
    fc: Vec<String>,
    current: String,
    inputs: usize,
    labels: Labels,
    texts: usize,
    files: Vec<String>,
    windows: bool,
}

impl View for FrameGraph {
    type V = FrameGraphV;

    closed spec fn view(&self) -> FrameGraphV {
        FrameGraphV {
            args: text::texts(self.args@),
            fc: text::texts(self.fc@),
            current: self.current@,
            inputs: self.inputs as nat,
            labels: self.labels,
            texts: self.texts as nat,
            files: text::texts(self.files@),
            windows: self.windows,
        }
    }
}

impl FrameGraphV {
    /// One more chain.
    pub open spec fn with(self, chain: Seq<char>) -> FrameGraphV {
        FrameGraphV { fc: self.fc.push(chain), ..self }
    }

    /// One more argument.
    pub open spec fn arg(self, a: Seq<char>) -> FrameGraphV {
        FrameGraphV { args: self.args.push(a), ..self }
    }

    /// Another picture so far.
    pub open spec fn now(self, current: Seq<char>) -> FrameGraphV {
        FrameGraphV { current, ..self }
    }

    /// One more input.
    pub open spec fn took(self) -> FrameGraphV {
        FrameGraphV { inputs: self.inputs + 1, ..self }
    }
}

impl FrameGraph {
    /// Every input has an argument of its own, and every text a chain.
    spec fn counted(self) -> bool {
        self.inputs <= self@.args.len() && self.texts <= self@.fc.len()
    }

    fn push(&mut self, chain: String)
        ensures
            final(self)@ == old(self)@.with(chain@),
            final(self).inputs == old(self).inputs,
            final(self).texts == old(self).texts,
    {
        push_text(&mut self.fc, chain);
    }

    fn arg(&mut self, a: &str)
        ensures
            final(self)@ == old(self)@.arg(a@),
            final(self).inputs == old(self).inputs,
            final(self).texts == old(self).texts,
    {
        push_text(&mut self.args, copy_text(a));
    }

    fn set_current(&mut self, current: String)
        ensures
            final(self)@ == old(self)@.now(current@),
            final(self).inputs == old(self).inputs,
            final(self).texts == old(self).texts,
    {
        self.current = current;
    }
}

/// The command with the input of a clip.
pub open spec fn shot_stage(g: FrameGraphV, l: ActiveV) -> FrameGraphV {
    match l.shot {
        ShotV::Media { path, src_time } => {
            let a = if paths::is_image(path, g.windows) {
                g.arg("-loop"@).arg("1"@)
            } else {
                g
            };
            a.arg("-ss"@).arg(render::secs_text(src_time)).arg("-i"@).arg(path).took()
        },
        ShotV::Gen { source } => g,
    }
}

/// The command with the inputs of the first clips.
pub open spec fn shot_stages(g: FrameGraphV, layers: Seq<ActiveV>, n: nat) -> FrameGraphV
    decreases n,
{
    if n == 0 {
        g
    } else {
        shot_stage(shot_stages(g, layers, (n - 1) as nat), layers[n - 1])
    }
}

/// How many inputs the first clips have.
pub open spec fn shots_before(layers: Seq<ActiveV>, n: nat) -> nat
    decreases n,
{
    if n == 0 {
        0
    } else {
        shots_before(layers, (n - 1) as nat) + if layers[n - 1].shot is Media {
            1nat
        } else {
            0
        }
    }
}

fn add_shots(g: &mut FrameGraph, layers: &Vec<Active>) -> (idx: Vec<usize>)
    requires
        old(g).counted(),
        old(g)@.inputs == 0,
    ensures
        final(g)@ == shot_stages(old(g)@, seqs::views(layers@), layers@.len()),
        final(g).counted(),
        idx.len() == layers.len(),
        forall|k: int|
            0 <= k < idx.len() ==> #[trigger] idx@[k] == shots_before(
                seqs::views(layers@),
                k as nat,
            ),
{
    let ghost all = seqs::views(layers@);
    let ghost g0 = g@;
    let mut idx: Vec<usize> = Vec::new();
    let mut i: usize = 0;
    while i < layers.len()
        invariant
            i <= layers.len(),
            all == seqs::views(layers@),
            g.counted(),
            g@ == shot_stages(g0, all, i as nat),
            g@.inputs == shots_before(all, i as nat),
            idx.len() == i,
            forall|k: int| 0 <= k < i ==> #[trigger] idx@[k] == shots_before(all, k as nat),
        decreases layers.len() - i,
    {
        assert(all[i as int] == layers@[i as int]@);
        idx.push(g.inputs);
        if let Shot::Media { path, src_time } = &layers[i].shot {
            if is_image_path(path.as_str(), g.windows) {
                g.arg("-loop");
                g.arg("1");
            }
            let ss: String = secs(*src_time);
            g.arg("-ss");
            g.arg(ss.as_str());
            g.arg("-i");
            g.arg(path.as_str());
            assert(g@.args.len() == g.args@.len() && g.args.len() <= usize::MAX);
            assert(g.inputs + 4 <= g@.args.len());
            g.inputs = g.inputs + 1;
        }
        i = i + 1;
    }
    idx
}

/// The least whole number that is not below another.
pub open spec fn ceiling(x: Real) -> int {
    let w = x.to_whole_int();
    if Real::of(w).less(x) {
        w + 1
    } else {
        w
    }
}

/// How often a still is repeated for a transition.
pub open spec fn repeats(d: Real, rate: Real) -> TimeUs {
    time::held(time::held(ceiling(d.times(rate))) + 2)
}

fn find_repeats(d: Real, rate: Real) -> (n: TimeUs)
    ensures
        n == repeats(d, rate),
{
    let x: Real = d.mul(rate);
    let w: i64 = x.to_int();
    let up: i128 = if Real::from_int(w).lt(x) {
        w as i128 + 1
    } else {
        w as i128
    };
    hold(hold(up) as i128 + 2)
}

/// The frames in a second.
pub open spec fn rate_of(fps: (u32, u32)) -> Real {
    Real::of(fps.0 as int).over(
        Real::of(
            if fps.1 < 1 {
                1
            } else {
                fps.1 as int
            },
        ),
    )
}

fn find_rate(fps: (u32, u32)) -> (x: Real)
    ensures
        x == rate_of(fps),
{
    let d: u32 = if fps.1 < 1 {
        1
    } else {
        fps.1
    };
    Real::from_int(fps.0 as i64).div(Real::from_int(d as i64))
}

/// A place inside a transition, at least half a frame from its end.
pub open spec fn inside(d: Real, pos: Real, rate: Real) -> Real {
    pos.smaller(d.minus((Real { bits: HALF_BITS }).over(rate).smaller(d))).larger(Real::of(0))
}

fn place_inside(d: Real, pos: Real, rate: Real) -> (x: Real)
    ensures
        x == inside(d, pos, rate),
{
    let half: Real = Real { bits: HALF_BITS };
    pos.min(d.sub(half.div(rate).min(d))).max(Real::from_int(0))
}

/// A still repeated so that a transition can run over it.
pub open spec fn looped(n: TimeUs, fps: Seq<char>) -> Seq<char> {
    "settb=AVTB,loop=loop="@ + text::int_text(n as int) + ":size=1:start=0,setpts=N/("@ + fps + ")/TB"@
}

fn loop_text(n: TimeUs, fps: &str) -> (r: String)
    ensures
        r@ == looped(n, fps@),
{
    let mut r: String = copy_text("settb=AVTB,loop=loop=");
    let d1: String = int_to_text(n);
    r.append(d1.as_str());
    r.append(":size=1:start=0,setpts=N/(");
    r.append(fps);
    r.append(")/TB");
    r
}

/// The frame of a preview.
#[verifier::ext_equal]
pub struct StageV {
    pub w: u32,
    pub h: u32,
    pub fps: Seq<char>,
    pub rate: Real,
    pub norm: Seq<char>,
    pub fit: Seq<char>,
}

struct Stage {
    w: u32,
    h: u32,
    fps: String,
    rate: Real,
    norm: String,
    fit: String,
}

impl View for Stage {
    type V = StageV;

    closed spec fn view(&self) -> StageV {
        StageV {
            w: self.w,
            h: self.h,
            fps: self.fps@,
            rate: self.rate,
            norm: self.norm@,
            fit: self.fit@,
        }
    }
}

/// The frame of a preview of a sequence.
pub open spec fn stage_of(s: SequenceV) -> StageV {
    let (w, h) = s.resolution;
    let fps = text::digits(s.fps.0 as nat) + "/"@ + text::digits(s.fps.1 as nat);
    StageV {
        w,
        h,
        fps,
        rate: rate_of(s.fps),
        norm: "fps="@ + fps + ",scale="@ + text::digits(w as nat) + ":"@ + text::digits(h as nat) + ":force_original_aspect_ratio=decrease,pad="@ + text::digits(w as nat) + ":"@ + text::digits(h as nat) + ":(ow-iw)/2:(oh-ih)/2,setsar=1,format=yuv420p"@,
        fit: "scale='min("@ + text::digits(w as nat) + ",iw)':'min("@ + text::digits(h as nat) + ",ih)':force_original_aspect_ratio=decrease"@,
    }
}

fn make_stage(s: &Sequence) -> (r: Stage)
    ensures
        r@ == stage_of(s@),
{
    let (w, h): (u32, u32) = s.resolution;
    let d1: String = nat_to_text((s.fps.0) as u128);
    let mut fps: String = copy_text(d1.as_str());
    fps.append("/");
    let d2: String = nat_to_text((s.fps.1) as u128);
    fps.append(d2.as_str());
    let mut norm: String = copy_text("fps=");
    norm.append(fps.as_str());
    norm.append(",scale=");
    let d3: String = nat_to_text((w) as u128);
    norm.append(d3.as_str());
    norm.append(":");
    let d4: String = nat_to_text((h) as u128);
    norm.append(d4.as_str());
    norm.append(":force_original_aspect_ratio=decrease,pad=");
    let d5: String = nat_to_text((w) as u128);
    norm.append(d5.as_str());
    norm.append(":");
    let d6: String = nat_to_text((h) as u128);
    norm.append(d6.as_str());
    norm.append(":(ow-iw)/2:(oh-ih)/2,setsar=1,format=yuv420p");
    let mut fit: String = copy_text("scale='min(");
    let d7: String = nat_to_text((w) as u128);
    fit.append(d7.as_str());
    fit.append(",iw)':'min(");
    let d8: String = nat_to_text((h) as u128);
    fit.append(d8.as_str());
    fit.append(",ih)':force_original_aspect_ratio=decrease");
    Stage { w, h, fps, rate: find_rate(s.fps), norm, fit }
}

/// A chain to be followed by another.
pub open spec fn leading(vf: Option<Seq<char>>) -> Seq<char> {
    graph::leading(vf)
}

/// The command with one side of the transition of the base.
pub open spec fn side_stage(g: FrameGraphV, st: StageV, l: ActiveV, j: nat, idx: nat, n: TimeUs) -> FrameGraphV {
    let k = text::digits(j);
    match l.shot {
        ShotV::Media { path, src_time } => g.with(
            "["@ + text::digits(idx as nat) + ":v]"@ + leading(l.chain) + st.norm + "[xs"@ + k + "]"@,
        ).with("[xs"@ + k + "]"@ + looped(n, st.fps) + "[xl"@ + k + "]"@),
        ShotV::Gen { source } => g,
    }
}

/// The command with the transition of the base.
#[verifier::opaque]
pub open spec fn xfade_stage(g: FrameGraphV, st: StageV, layers: Seq<ActiveV>, m: Moving) -> FrameGraphV {
    let n = repeats(m.1, st.rate);
    let a = if layers.len() > 0 {
        side_stage(g, st, layers[0], 0, 0, n)
    } else {
        g
    };
    let b = if layers.len() > 1 {
        side_stage(a, st, layers[1], 1, shots_before(layers, 1), n)
    } else {
        a
    };
    b.with(
        "[xl0][xl1]xfade=transition="@ + m.0 + ":duration="@ + decimal::fixed_text(m.1, 6) + ":offset=0[xfo]"@,
    ).with(
        "[xfo]trim=start="@ + decimal::fixed_text(inside(m.1, m.2, st.rate), 6) + ",setpts=PTS-STARTPTS[c0]"@,
    ).now("c0"@)
}

fn lead(vf: &Option<String>) -> (r: String)
    ensures
        r@ == leading(model::opt_text(*vf)),
{
    match vf {
        Some(c) => {
            let mut r: String = copy_text(c.as_str());
            r.append(",");
            r
        },
        None => copy_text(""),
    }
}

fn add_xfade_side(g: &mut FrameGraph, st: &Stage, l: &Active, j: usize, idx: usize, n: TimeUs)
    requires
        old(g).counted(),
    ensures
        final(g)@ == side_stage(old(g)@, st@, l@, j as nat, idx as nat, n),
        final(g).counted(),
{
    if let Shot::Media { path, src_time } = &l.shot {
        let k: String = nat_to_text(j as u128);
        let chain: String = lead(&l.chain);
        let again: String = loop_text(n, st.fps.as_str());
        let mut a: String = copy_text("[");
        let d1: String = nat_to_text((idx) as u128);
        a.append(d1.as_str());
        a.append(":v]");
        a.append(chain.as_str());
        a.append(st.norm.as_str());
        a.append("[xs");
        a.append(k.as_str());
        a.append("]");
        g.push(a);
        let mut b: String = copy_text("[xs");
        b.append(k.as_str());
        b.append("]");
        b.append(again.as_str());
        b.append("[xl");
        b.append(k.as_str());
        b.append("]");
        g.push(b);
    }
}

fn add_xfade(
    g: &mut FrameGraph,
    st: &Stage,
    layers: &Vec<Active>,
    idx: &Vec<usize>,
    m: (&'static str, Real, Real),
)
    requires
        old(g).counted(),
        idx.len() == layers.len(),
        forall|k: int|
            0 <= k < idx.len() ==> #[trigger] idx@[k] == shots_before(
                seqs::views(layers@),
                k as nat,
            ),
    ensures
        final(g)@ == xfade_stage(old(g)@, st@, seqs::views(layers@), (m.0@, m.1, m.2)),
        final(g).counted(),
{
    reveal(xfade_stage);
    let ghost all = seqs::views(layers@);
    let n: TimeUs = find_repeats(m.1, st.rate);
    if layers.len() > 0 {
        assert(all[0] == layers@[0]@);
        assert(shots_before(all, 0) == 0);
        add_xfade_side(g, st, &layers[0], 0, idx[0], n);
    }
    if layers.len() > 1 {
        assert(all[1] == layers@[1]@);
        add_xfade_side(g, st, &layers[1], 1, idx[1], n);
    }
    let d: String = fixed(m.1, 6);
    let at: String = fixed(place_inside(m.1, m.2, st.rate), 6);
    let kind: &str = m.0;
    let mut a: String = copy_text("[xl0][xl1]xfade=transition=");
    a.append(kind);
    a.append(":duration=");
    a.append(d.as_str());
    a.append(":offset=0[xfo]");
    g.push(a);
    let mut b: String = copy_text("[xfo]trim=start=");
    b.append(at.as_str());
    b.append(",setpts=PTS-STARTPTS[c0]");
    g.push(b);
    g.set_current(copy_text("c0"));
}

/// The command with a transition of one still: from a source, or from nothing
/// where there is none.
#[verifier::opaque]
pub open spec fn still_stage(
    g: FrameGraphV,
    st: StageV,
    input: Seq<char>,
    from: Seq<char>,
    m: Moving,
    leaving: bool,
    out: Seq<char>,
) -> FrameGraphV {
    let again = looped(repeats(m.1, st.rate), st.fps);
    let a = if from.len() == 0 {
        g.with("["@ + input + "]split=2["@ + input + "a]["@ + input + "b]"@).with(
            "["@ + input + "a]colorchannelmixer=aa=0,"@ + again + "["@ + input + "t]"@,
        ).with("["@ + input + "b]"@ + again + "["@ + input + "s]"@)
    } else {
        g.with(from + ","@ + again + "["@ + input + "t]"@).with("["@ + input + "]"@ + again + "["@ + input + "s]"@)
    };
    let x = if leaving {
        input + "s"@
    } else {
        input + "t"@
    };
    let y = if leaving {
        input + "t"@
    } else {
        input + "s"@
    };
    a.with(
        "["@ + x + "]["@ + y + "]xfade=transition="@ + m.0 + ":duration="@ + decimal::fixed_text(m.1, 6) + ":offset=0["@ + input + "x]"@,
    ).with(
        "["@ + input + "x]trim=start="@ + decimal::fixed_text(inside(m.1, m.2, st.rate), 6) + ",setpts=PTS-STARTPTS["@ + out + "]"@,
    )
}

fn add_still(
    g: &mut FrameGraph,
    st: &Stage,
    input: &str,
    from: &str,
    m: (&'static str, Real, Real),
    leaving: bool,
    out: &str,
)
    requires
        old(g).counted(),
    ensures
        final(g)@ == still_stage(
            old(g)@,
            st@,
            input@,
            from@,
            (m.0@, m.1, m.2),
            leaving,
            out@,
        ),
        final(g).counted(),
{
    reveal(still_stage);
    let again: String = loop_text(find_repeats(m.1, st.rate), st.fps.as_str());
    let bare: Vec<char> = text::chars_of(from);
    if bare.len() == 0 {
        let mut a: String = copy_text("[");
        a.append(input);
        a.append("]split=2[");
        a.append(input);
        a.append("a][");
        a.append(input);
        a.append("b]");
        g.push(a);
        let mut b: String = copy_text("[");
        b.append(input);
        b.append("a]colorchannelmixer=aa=0,");
        b.append(again.as_str());
        b.append("[");
        b.append(input);
        b.append("t]");
        g.push(b);
        let mut c: String = copy_text("[");
        c.append(input);
        c.append("b]");
        c.append(again.as_str());
        c.append("[");
        c.append(input);
        c.append("s]");
        g.push(c);
    } else {
        let mut a: String = copy_text(from);
        a.append(",");
        a.append(again.as_str());
        a.append("[");
        a.append(input);
        a.append("t]");
        g.push(a);
        let mut b: String = copy_text("[");
        b.append(input);
        b.append("]");
        b.append(again.as_str());
        b.append("[");
        b.append(input);
        b.append("s]");
        g.push(b);
    }
    let mut still: String = copy_text(input);
    still.append("s");
    let mut nothing: String = copy_text(input);
    nothing.append("t");
    let (x, y): (String, String) = if leaving {
        (still, nothing)
    } else {
        (nothing, still)
    };
    let d: String = fixed(m.1, 6);
    let at: String = fixed(place_inside(m.1, m.2, st.rate), 6);
    let kind: &str = m.0;
    let mut a: String = copy_text("[");
    a.append(x.as_str());
    a.append("][");
    a.append(y.as_str());
    a.append("]xfade=transition=");
    a.append(kind);
    a.append(":duration=");
    a.append(d.as_str());
    a.append(":offset=0[");
    a.append(input);
    a.append("x]");
    g.push(a);
    let mut b: String = copy_text("[");
    b.append(input);
    b.append("x]trim=start=");
    b.append(at.as_str());
    b.append(",setpts=PTS-STARTPTS[");
    b.append(out);
    b.append("]");
    g.push(b);
}

/// The transition of a clip in progress, and whether the clip leaves: an
/// entrance goes before an exit.
pub open spec fn moving_of(l: ActiveV) -> Option<(Moving, bool)> {
    match l.entrance {
        Some(m) => Some((m, false)),
        None => match l.exit {
            Some(m) => Some((m, true)),
            None => None,
        },
    }
}

/// What the chain of a clip starts with.
pub open spec fn shot_text(l: ActiveV, idx: nat) -> Seq<char> {
    match l.shot {
        ShotV::Media { path, src_time } => "["@ + text::digits(idx) + ":v]"@,
        ShotV::Gen { source } => source + ","@,
    }
}

/// How far a transition is, as a fraction.
pub open spec fn progress(m: Moving) -> Seq<char> {
    decimal::fixed_text(m.2.over(m.1).within(Real::of(0), Real::of(1)), 6)
}

/// The command with the base.
#[verifier::opaque]
pub open spec fn base_stage(g: FrameGraphV, st: StageV, l: ActiveV, k: nat, idx: nat) -> FrameGraphV {
    let n = text::digits(k);
    let src = shot_text(l, idx);
    let chain = leading(l.chain);
    let done = match moving_of(l) {
        None => g.with(src + chain + st.norm + "[c0]"@),
        Some(x) => match transitions::mask_of(x.0.0, progress(x.0), x.1) {
            Some(mask) => g.with(src + chain + st.norm + ","@ + mask + "[ebm"@ + n + "]"@).with(
                "color=black:s="@ + text::digits(st.w as nat) + "x"@ + text::digits(st.h as nat) + ":r="@ + st.fps + ":d=1,format=yuv420p[ebb"@ + n + "]"@,
            ).with("[ebb"@ + n + "][ebm"@ + n + "]overlay=eof_action=pass,format=yuv420p[c0]"@),
            None => still_stage(
                g.with(src + chain + st.norm + "[eb"@ + n + "]"@),
                st,
                "eb"@ + n,
                "color=black:s="@ + text::digits(st.w as nat) + "x"@ + text::digits(st.h as nat) + ":r="@ + st.fps + ":d=1,format=yuv420p"@,
                x.0,
                x.1,
                "c0"@,
            ),
        },
    };
    done.now("c0"@)
}

fn find_moving(l: &Active) -> (r: Option<((&'static str, Real, Real), bool)>)
    ensures
        match moving_of(l@) {
            Some(x) => r is Some && (r->Some_0.0.0@, r->Some_0.0.1, r->Some_0.0.2) == x.0
                && r->Some_0.1 == x.1,
            None => r is None,
        },
{
    match l.entrance {
        Some(m) => Some((m, false)),
        None => match l.exit {
            Some(m) => Some((m, true)),
            None => None,
        },
    }
}

fn start_text(l: &Active, idx: usize) -> (r: String)
    ensures
        r@ == shot_text(l@, idx as nat),
{
    match &l.shot {
        Shot::Media { path, src_time } => {
            let mut r: String = copy_text("[");
            let d1: String = nat_to_text((idx) as u128);
            r.append(d1.as_str());
            r.append(":v]");
            r
        },
        Shot::Gen { source } => {
            let mut r: String = copy_text(source.as_str());
            r.append(",");
            r
        },
    }
}

fn progress_text(m: (&'static str, Real, Real)) -> (r: String)
    ensures
        r@ == progress((m.0@, m.1, m.2)),
{
    fixed(m.2.div(m.1).clamp(Real::from_int(0), Real::from_int(1)), 6)
}

fn add_base(g: &mut FrameGraph, st: &Stage, l: &Active, k: usize, idx: usize)
    requires
        old(g).counted(),
    ensures
        final(g)@ == base_stage(old(g)@, st@, l@, k as nat, idx as nat),
        final(g).counted(),
{
    reveal(base_stage);
    let n: String = nat_to_text(k as u128);
    let src: String = start_text(l, idx);
    let chain: String = lead(&l.chain);
    match find_moving(l) {
        None => {
            let mut a: String = copy_text(src.as_str());
            a.append(chain.as_str());
            a.append(st.norm.as_str());
            a.append("[c0]");
            g.push(a);
        },
        Some(found) => {
            let (m, leaving): ((&'static str, Real, Real), bool) = found;
            let p: String = progress_text(m);
            match circle_mask(m.0, p.as_str(), leaving) {
                Some(mask) => {
                    let mut a: String = copy_text(src.as_str());
                    a.append(chain.as_str());
                    a.append(st.norm.as_str());
                    a.append(",");
                    a.append(mask.as_str());
                    a.append("[ebm");
                    a.append(n.as_str());
                    a.append("]");
                    g.push(a);
                    let mut b: String = copy_text("color=black:s=");
                    let d1: String = nat_to_text((st.w) as u128);
                    b.append(d1.as_str());
                    b.append("x");
                    let d2: String = nat_to_text((st.h) as u128);
                    b.append(d2.as_str());
                    b.append(":r=");
                    b.append(st.fps.as_str());
                    b.append(":d=1,format=yuv420p[ebb");
                    b.append(n.as_str());
                    b.append("]");
                    g.push(b);
                    let mut c: String = copy_text("[ebb");
                    c.append(n.as_str());
                    c.append("][ebm");
                    c.append(n.as_str());
                    c.append("]overlay=eof_action=pass,format=yuv420p[c0]");
                    g.push(c);
                },
                None => {
                    let mut a: String = copy_text(src.as_str());
                    a.append(chain.as_str());
                    a.append(st.norm.as_str());
                    a.append("[eb");
                    a.append(n.as_str());
                    a.append("]");
                    g.push(a);
                    let mut input: String = copy_text("eb");
                    input.append(n.as_str());
                    let mut black: String = copy_text("color=black:s=");
                    let d3: String = nat_to_text((st.w) as u128);
                    black.append(d3.as_str());
                    black.append("x");
                    let d4: String = nat_to_text((st.h) as u128);
                    black.append(d4.as_str());
                    black.append(":r=");
                    black.append(st.fps.as_str());
                    black.append(":d=1,format=yuv420p");
                    add_still(g, st, input.as_str(), black.as_str(), m, leaving, "c0");
                },
            }
        },
    }
    g.set_current(copy_text("c0"));
}

/// The command with a layer over the picture so far.
#[verifier::opaque]
pub open spec fn layer_stage(g: FrameGraphV, st: StageV, l: ActiveV, k: nat, idx: nat) -> FrameGraphV {
    let n = text::digits(k);
    let src = shot_text(l, idx);
    let chain = leading(l.chain);
    let a = match moving_of(l) {
        None => g.with(src + chain + st.fit + ",format=rgba[l"@ + n + "]"@),
        Some(x) => {
            let b = match transitions::mask_of(x.0.0, progress(x.0), x.1) {
                Some(mask) => g.with(src + mask + "[l"@ + n + "t]"@),
                None => still_stage(
                    g.with(src + "format=rgba[l"@ + n + "r]"@),
                    st,
                    "l"@ + n + "r"@,
                    ""@,
                    x.0,
                    x.1,
                    "l"@ + n + "t"@,
                ),
            };
            b.with("[l"@ + n + "t]"@ + chain + st.fit + ",format=rgba[l"@ + n + "]"@)
        },
    };
    let out = "c"@ + text::digits(k + 1);
    a.with(
        "["@ + g.current + "][l"@ + n + "]overlay=x=(W-w)/2:y=(H-h)/2:eof_action=pass["@ + out + "]"@,
    ).now(out)
}

fn add_layer(g: &mut FrameGraph, st: &Stage, l: &Active, k: usize, idx: usize)
    requires
        old(g).counted(),
    ensures
        final(g)@ == layer_stage(old(g)@, st@, l@, k as nat, idx as nat),
        final(g).counted(),
{
    reveal(layer_stage);
    proof {
        reveal_strlit("");
    }
    let n: String = nat_to_text(k as u128);
    let under: String = g.current.clone();
    let src: String = start_text(l, idx);
    let chain: String = lead(&l.chain);
    match find_moving(l) {
        None => {
            let mut a: String = copy_text(src.as_str());
            a.append(chain.as_str());
            a.append(st.fit.as_str());
            a.append(",format=rgba[l");
            a.append(n.as_str());
            a.append("]");
            g.push(a);
        },
        Some(found) => {
            let (m, leaving): ((&'static str, Real, Real), bool) = found;
            let p: String = progress_text(m);
            match circle_mask(m.0, p.as_str(), leaving) {
                Some(mask) => {
                    let mut a: String = copy_text(src.as_str());
                    a.append(mask.as_str());
                    a.append("[l");
                    a.append(n.as_str());
                    a.append("t]");
                    g.push(a);
                },
                None => {
                    let mut a: String = copy_text(src.as_str());
                    a.append("format=rgba[l");
                    a.append(n.as_str());
                    a.append("r]");
                    g.push(a);
                    let mut input: String = copy_text("l");
                    input.append(n.as_str());
                    input.append("r");
                    let mut out: String = copy_text("l");
                    out.append(n.as_str());
                    out.append("t");
                    add_still(g, st, input.as_str(), "", m, leaving, out.as_str());
                },
            }
            let mut b: String = copy_text("[l");
            b.append(n.as_str());
            b.append("t]");
            b.append(chain.as_str());
            b.append(st.fit.as_str());
            b.append(",format=rgba[l");
            b.append(n.as_str());
            b.append("]");
            g.push(b);
        },
    }
    let m: String = nat_to_text(k as u128 + 1);
    let mut out: String = copy_text("c");
    out.append(m.as_str());
    let mut o: String = copy_text("[");
    o.append(under.as_str());
    o.append("][l");
    o.append(n.as_str());
    o.append("]overlay=x=(W-w)/2:y=(H-h)/2:eof_action=pass[");
    o.append(out.as_str());
    o.append("]");
    g.push(o);
    g.set_current(out);
}

/// The command over a black frame.
pub open spec fn black_stage(g: FrameGraphV, st: StageV) -> FrameGraphV {
    g.with("color=c=black:s="@ + text::digits(st.w as nat) + "x"@ + text::digits(st.h as nat) + ":d=1,format=yuv420p[c0]"@).now("c0"@)
}

fn add_black(g: &mut FrameGraph, st: &Stage)
    requires
        old(g).counted(),
    ensures
        final(g)@ == black_stage(old(g)@, st@),
        final(g).counted(),
{
    let mut a: String = copy_text("color=c=black:s=");
    let d1: String = nat_to_text((st.w) as u128);
    a.append(d1.as_str());
    a.append("x");
    let d2: String = nat_to_text((st.h) as u128);
    a.append(d2.as_str());
    a.append(":d=1,format=yuv420p[c0]");
    g.push(a);
    g.set_current(copy_text("c0"));
}

/// The command with the clips from one on: the first of the base fills the
/// frame where nothing does yet, and the rest go over it.
pub open spec fn picture_stages(g: FrameGraphV, st: StageV, layers: Seq<ActiveV>, from: nat, started: bool) -> FrameGraphV
    decreases layers.len() - from,
{
    if from >= layers.len() {
        if started {
            g
        } else {
            black_stage(g, st)
        }
    } else {
        let l = layers[from as int];
        let idx = shots_before(layers, from);
        if l.base && !started {
            picture_stages(base_stage(g, st, l, from, idx), st, layers, from + 1, true)
        } else {
            picture_stages(layer_stage(g, st, l, from, idx), st, layers, from + 1, true)
        }
    }
}

/// The command with the picture of a scene.
pub open spec fn scene_stage(g: FrameGraphV, st: StageV, x: SceneV) -> FrameGraphV {
    let a = shot_stages(g, x.layers, x.layers.len());
    match x.xfade {
        Some(m) => picture_stages(xfade_stage(a, st, x.layers, m), st, x.layers, 2, true),
        None => if x.layers.len() > 0 && !x.layers[0].base {
            picture_stages(black_stage(a, st), st, x.layers, 0, true)
        } else {
            picture_stages(a, st, x.layers, 0, false)
        },
    }
}

fn add_scene(g: &mut FrameGraph, st: &Stage, x: &Scene)
    requires
        old(g).counted(),
        old(g)@.inputs == 0,
    ensures
        final(g)@ == scene_stage(old(g)@, st@, x@),
        final(g).counted(),
{
    let ghost all = x@.layers;
    let ghost goal = scene_stage(g@, st@, x@);
    assert(all == seqs::views(x.layers@));
    let idx: Vec<usize> = add_shots(g, &x.layers);
    let mut started: bool = false;
    let mut k: usize = 0;
    match x.xfade {
        Some(m) => {
            add_xfade(g, st, &x.layers, &idx, m);
            started = true;
            k = 2;
        },
        None => {
            if x.layers.len() > 0 {
                assert(all[0] == x.layers@[0]@);
                if !x.layers[0].base {
                    add_black(g, st);
                    started = true;
                }
            }
        },
    }
    while k < x.layers.len()
        invariant
            all == seqs::views(x.layers@),
            idx.len() == x.layers.len(),
            forall|j: int| 0 <= j < idx.len() ==> #[trigger] idx@[j] == shots_before(all, j as nat),
            g.counted(),
            goal == picture_stages(g@, st@, all, k as nat, started),
        decreases x.layers.len() - k,
    {
        assert(all[k as int] == x.layers@[k as int]@);
        let l: &Active = &x.layers[k];
        if l.base && !started {
            add_base(g, st, l, k, idx[k]);
        } else {
            add_layer(g, st, l, k, idx[k]);
        }
        started = true;
        k = k + 1;
    }
    if !started {
        add_black(g, st);
    }
}

// ---- texts over the picture ----

/// Whether a clip is there at a time.
pub open spec fn there(c: ClipV, t: TimeUs) -> bool {
    c.start <= t < c.finish()
}

fn is_there(c: &Clip, t: TimeUs) -> (b: bool)
    ensures
        b == there(c@, t),
{
    c.start <= t && t < c.end()
}

/// Whether a clip is a text at a time that is drawn as a layer of its own.
pub open spec fn styled_there(c: ClipV, t: TimeUs) -> bool {
    there(c, t) && (c.payload is Text || c.payload is Subtitles) && overlays::is_styled(c)
}

/// Whether a track shows such a text.
pub open spec fn track_styled(track: TrackV, t: TimeUs) -> bool {
    edl::shows(track) && exists|j: int|
        0 <= j < track.clips.len() && styled_there(#[trigger] track.clips[j], t)
}

/// Whether a sequence shows such a text.
pub open spec fn any_styled(s: SequenceV, t: TimeUs) -> bool {
    exists|i: int| 0 <= i < s.tracks.len() && track_styled(#[trigger] s.tracks[i], t)
}

fn is_styled_there(c: &Clip, t: TimeUs) -> (b: bool)
    ensures
        b == styled_there(c@, t),
{
    let fits: bool = match &c.payload {
        ClipPayload::Text { .. } => true,
        ClipPayload::Subtitles { .. } => true,
        _ => false,
    };
    fits && is_there(c, t) && text_is_styled_pub(c)
}

fn is_track_styled(track: &Track, t: TimeUs) -> (b: bool)
    ensures
        b == track_styled(track@, t),
{
    if !track_shows(track) {
        return false;
    }
    let ghost all = track@.clips;
    let mut j: usize = 0;
    while j < track.clips.len()
        invariant
            j <= track.clips.len(),
            all == track@.clips,
            edl::shows(track@),
            forall|k: int| 0 <= k < j ==> !styled_there(#[trigger] all[k], t),
        decreases track.clips.len() - j,
    {
        assert(all[j as int] == track.clips@[j as int]@);
        if is_styled_there(&track.clips[j], t) {
            return true;
        }
        j = j + 1;
    }
    false
}

fn has_styled(s: &Sequence, t: TimeUs) -> (b: bool)
    ensures
        b == any_styled(s@, t),
{
    let ghost all = s@.tracks;
    let mut i: usize = 0;
    while i < s.tracks.len()
        invariant
            i <= s.tracks.len(),
            all == s@.tracks,
            forall|k: int| 0 <= k < i ==> !track_styled(#[trigger] all[k], t),
        decreases s.tracks.len() - i,
    {
        assert(all[i as int] == s.tracks@[i as int]@);
        if is_track_styled(&s.tracks[i], t) {
            return true;
        }
        i = i + 1;
    }
    false
}

/// The command with a layer of text over the picture so far.
pub open spec fn text_stage(g: FrameGraphV, head: Seq<char>) -> FrameGraphV {
    let n = text::digits(g.texts);
    FrameGraphV {
        texts: g.texts + 1,
        ..g.with(head + "format=rgba[tl"@ + n + "]"@).with(
            "["@ + g.current + "][tl"@ + n + "]overlay=x=(W-w)/2:y=(H-h)/2:eof_action=pass[tc"@ + n + "]"@,
        ).now("tc"@ + n)
    }
}

fn add_text(g: &mut FrameGraph, head: &str)
    requires
        old(g).counted(),
    ensures
        final(g)@ == text_stage(old(g)@, head@),
        final(g).counted(),
{
    let n: String = nat_to_text(g.texts as u128);
    let under: String = g.current.clone();
    let mut a: String = copy_text(head);
    a.append("format=rgba[tl");
    a.append(n.as_str());
    a.append("]");
    g.push(a);
    let mut b: String = copy_text("[");
    b.append(under.as_str());
    b.append("][tl");
    b.append(n.as_str());
    b.append("]overlay=x=(W-w)/2:y=(H-h)/2:eof_action=pass[tc");
    b.append(n.as_str());
    b.append("]");
    g.push(b);
    let mut out: String = copy_text("tc");
    out.append(n.as_str());
    g.set_current(out);
    assert(g@.fc.len() == g.fc@.len() && g.fc.len() <= usize::MAX);
    assert(g.texts + 2 <= g@.fc.len());
    g.texts = g.texts + 1;
}

/// What texts of a frame are drawn with.
#[verifier::ext_equal]
pub struct BrushV {
    pub viewer: ViewerV,
    pub titles: Seq<TitleV>,
    pub fonts: FontsV,
}

struct Brush<'a> {
    viewer: &'a Viewer<'a>,
    titles: &'a Vec<TitleImage>,
    fonts: &'a Fonts,
}

impl<'a> Brush<'a> {
    spec fn shown(self) -> BrushV {
        BrushV {
            viewer: self.viewer.shown(),
            titles: seqs::views(self.titles@),
            fonts: self.fonts@,
        }
    }
}

/// The command with a title: its picture, where one was drawn.
#[verifier::opaque]
pub open spec fn title_stage(g: FrameGraphV, b: BrushV, c: ClipV) -> FrameGraphV {
    let at = time::sooner(b.viewer.t, c.start);
    match c.payload {
        PayloadV::Text { content, style } => if !there(c, b.viewer.t) || text::is_blank(content) {
            g
        } else {
            match graph::title_of(b.titles, c.id) {
                Err(e) => g,
                Ok(file) => {
                    let a = g.arg("-loop"@).arg("1"@).arg("-i"@).arg(file).took();
                    text_stage(
                        FrameGraphV {
                            files: g.files.push(file),
                            labels: still_labels(b.viewer, c, at, g.labels),
                            ..a
                        },
                        "["@ + text::digits(g.inputs) + ":v]"@ + leading(still_chain(b.viewer, c, at, true, g.labels)),
                    )
                },
            }
        },
        _ => g,
    }
}

fn add_title(g: &mut FrameGraph, b: &Brush, c: &Clip)
    requires
        there(c@, b.viewer.t) ==> render::fitting(
            seqs::views(b.viewer.registry@),
            c@.effects,
        ),
        old(g).counted(),
    ensures
        final(g)@ == title_stage(old(g)@, b.shown(), c@),
        final(g).counted(),
{
    reveal(title_stage);
    if let ClipPayload::Text { content, style } = &c.payload {
        if !is_there(c, b.viewer.t) || blank(content.as_str()) {
            return;
        }
        if let Ok(file) = find_title(b.titles, c.id) {
            let at: TimeUs = minus(b.viewer.t, c.start);
            let vf: Option<String> = still(b.viewer, c, at, true, &mut g.labels);
            let chain: String = lead(&vf);
            g.arg("-loop");
            g.arg("1");
            g.arg("-i");
            g.arg(file.as_str());
            let idx: usize = g.inputs;
            assert(g@.args.len() == g.args@.len() && g.args.len() <= usize::MAX);
            assert(g.inputs + 4 <= g@.args.len());
            g.inputs = g.inputs + 1;
            push_text(&mut g.files, file);
            let mut head: String = copy_text("[");
            let d1: String = nat_to_text((idx) as u128);
            head.append(d1.as_str());
            head.append(":v]");
            head.append(chain.as_str());
            add_text(g, head.as_str());
        }
    }
}

/// The command with subtitles that have effects or a transform.
#[verifier::opaque]
pub open spec fn subtitle_stage(g: FrameGraphV, b: BrushV, c: ClipV) -> FrameGraphV {
    let v = b.viewer;
    let at = time::sooner(v.t, c.start);
    let (w, h) = v.seq.resolution;
    let drawn = overlays::overlay_chain(
        v.project,
        v.seq,
        b.fonts,
        h,
        w,
        Some(v.t),
        Seq::<(TimeUs, TimeUs)>::empty(),
        Some(c.id),
        false,
    );
    if there(c, v.t) && c.payload is Subtitles && overlays::is_styled(c) && drawn is Some {
        text_stage(
            FrameGraphV { labels: still_labels(v, c, at, g.labels), ..g },
            "color=c=black@0:s="@ + text::digits(w as nat) + "x"@ + text::digits(h as nat) + ":d=1,format=rgba,"@ + drawn->Some_0 + ","@ + leading(still_chain(v, c, at, true, g.labels)),
        )
    } else {
        g
    }
}

fn add_subtitles(g: &mut FrameGraph, b: &Brush, c: &Clip)
    requires
        there(c@, b.viewer.t) ==> render::fitting(
            seqs::views(b.viewer.registry@),
            c@.effects,
        ),
        old(g).counted(),
    ensures
        final(g)@ == subtitle_stage(old(g)@, b.shown(), c@),
        final(g).counted(),
{
    reveal(subtitle_stage);
    let v: &Viewer = b.viewer;
    let fits: bool = match &c.payload {
        ClipPayload::Subtitles { .. } => true,
        _ => false,
    };
    if !fits || !is_there(c, v.t) || !text_is_styled_pub(c) {
        return;
    }
    let (w, h): (u32, u32) = v.seq.resolution;
    let none: Vec<(TimeUs, TimeUs)> = Vec::new();
    assert(none@ =~= Seq::<(TimeUs, TimeUs)>::empty());
    if let Some(drawn) = text_clip_chain(v.project, v.seq, b.fonts, c.id, h, w, Some(v.t), &none) {
        let at: TimeUs = minus(v.t, c.start);
        let vf: Option<String> = still(v, c, at, true, &mut g.labels);
        let chain: String = lead(&vf);
        let mut head: String = copy_text("color=c=black@0:s=");
        let d1: String = nat_to_text((w) as u128);
        head.append(d1.as_str());
        head.append("x");
        let d2: String = nat_to_text((h) as u128);
        head.append(d2.as_str());
        head.append(":d=1,format=rgba,");
        head.append(drawn.as_str());
        head.append(",");
        head.append(chain.as_str());
        add_text(g, head.as_str());
    }
}

/// The command with the titles of clips.
pub open spec fn title_clips(g: FrameGraphV, b: BrushV, clips: Seq<ClipV>, n: nat) -> FrameGraphV
    decreases n,
{
    if n == 0 {
        g
    } else {
        title_stage(title_clips(g, b, clips, (n - 1) as nat), b, clips[n - 1])
    }
}

/// The command with the titles of tracks.
pub open spec fn title_tracks(g: FrameGraphV, b: BrushV, tracks: Seq<TrackV>, n: nat) -> FrameGraphV
    decreases n,
{
    if n == 0 {
        g
    } else {
        let before = title_tracks(g, b, tracks, (n - 1) as nat);
        if edl::shows(tracks[n - 1]) {
            title_clips(before, b, tracks[n - 1].clips, tracks[n - 1].clips.len())
        } else {
            before
        }
    }
}

/// The command with the styled subtitles of clips.
pub open spec fn subtitle_clips(g: FrameGraphV, b: BrushV, clips: Seq<ClipV>, n: nat) -> FrameGraphV
    decreases n,
{
    if n == 0 {
        g
    } else {
        subtitle_stage(subtitle_clips(g, b, clips, (n - 1) as nat), b, clips[n - 1])
    }
}

/// The command with the styled subtitles of tracks.
pub open spec fn subtitle_tracks(g: FrameGraphV, b: BrushV, tracks: Seq<TrackV>, n: nat) -> FrameGraphV
    decreases n,
{
    if n == 0 {
        g
    } else {
        let before = subtitle_tracks(g, b, tracks, (n - 1) as nat);
        if edl::shows(tracks[n - 1]) {
            subtitle_clips(before, b, tracks[n - 1].clips, tracks[n - 1].clips.len())
        } else {
            before
        }
    }
}

fn add_clip_texts(g: &mut FrameGraph, b: &Brush, clips: &Vec<Clip>, titles: bool)
    requires
        texts_drawable(seqs::views(b.viewer.registry@), seqs::views(clips@), b.viewer.t),
        old(g).counted(),
    ensures
        final(g)@ == if titles {
            title_clips(old(g)@, b.shown(), seqs::views(clips@), clips@.len())
        } else {
            subtitle_clips(old(g)@, b.shown(), seqs::views(clips@), clips@.len())
        },
        final(g).counted(),
{
    let ghost all = seqs::views(clips@);
    let ghost g0 = g@;
    let mut i: usize = 0;
    while i < clips.len()
        invariant
            i <= clips.len(),
            all == seqs::views(clips@),
            texts_drawable(seqs::views(b.viewer.registry@), all, b.viewer.t),
            g.counted(),
            g@ == if titles {
                title_clips(g0, b.shown(), all, i as nat)
            } else {
                subtitle_clips(g0, b.shown(), all, i as nat)
            },
        decreases clips.len() - i,
    {
        assert(all[i as int] == clips@[i as int]@);
        if titles {
            add_title(g, b, &clips[i]);
        } else {
            add_subtitles(g, b, &clips[i]);
        }
        i = i + 1;
    }
}

fn add_texts(g: &mut FrameGraph, b: &Brush, titles: bool)
    requires
        frame_drawable(
            b.viewer.project@,
            b.viewer.seq@,
            seqs::views(b.viewer.registry@),
            b.viewer.t,
        ),
        old(g).counted(),
    ensures
        final(g)@ == if titles {
            title_tracks(
                old(g)@,
                b.shown(),
                b.viewer.seq@.tracks,
                b.viewer.seq@.tracks.len(),
            )
        } else {
            subtitle_tracks(
                old(g)@,
                b.shown(),
                b.viewer.seq@.tracks,
                b.viewer.seq@.tracks.len(),
            )
        },
        final(g).counted(),
{
    let tracks: &Vec<Track> = &b.viewer.seq.tracks;
    let ghost all = b.viewer.seq@.tracks;
    let ghost g0 = g@;
    let mut i: usize = 0;
    while i < tracks.len()
        invariant
            i <= tracks.len(),
            tracks@ == b.viewer.seq.tracks@,
            all == b.viewer.seq@.tracks,
            frame_drawable(
                b.viewer.project@,
                b.viewer.seq@,
                seqs::views(b.viewer.registry@),
                b.viewer.t,
            ),
            g.counted(),
            g@ == if titles {
                title_tracks(g0, b.shown(), all, i as nat)
            } else {
                subtitle_tracks(g0, b.shown(), all, i as nat)
            },
        decreases tracks.len() - i,
    {
        assert(all[i as int] == tracks@[i as int]@);
        if track_shows(&tracks[i]) {
            assert forall|k: int|
                0 <= k < all[i as int].clips.len() && there(
                    #[trigger] all[i as int].clips[k],
                    b.viewer.t,
                ) implies render::fitting(
                seqs::views(b.viewer.registry@),
                all[i as int].clips[k].effects,
            ) by {
                assert(in_frame(
                    b.viewer.project@,
                    b.viewer.seq@,
                    all[i as int],
                    k,
                    b.viewer.t,
                ));
            }
            add_clip_texts(g, b, &tracks[i].clips, titles);
        }
        i = i + 1;
    }
}

// ---- the whole frame ----

/// A call of ffmpeg that makes one frame.
#[derive(Debug)]
pub struct FramePlan {
    pub args: Vec<String>,
    /// The subtitle script of this frame, to be deleted behind it.
    pub subs_file: Option<String>,
    /// Pictures of titles of this frame, to be deleted behind it.
    pub temp_files: Vec<String>,
}

/// The contents of a `FramePlan`.
#[verifier::ext_equal]
pub struct FramePlanV {
    pub args: Seq<Seq<char>>,
    pub subs_file: Option<Seq<char>>,
    pub temp_files: Seq<Seq<char>>,
}

impl View for FramePlan {
    type V = FramePlanV;

    open spec fn view(&self) -> FramePlanV {
        FramePlanV {
            args: text::texts(self.args@),
            subs_file: model::opt_text(self.subs_file),
            temp_files: text::texts(self.temp_files@),
        }
    }
}

/// The command before anything is in it.
pub open spec fn bare(labels: Labels, windows: bool) -> FrameGraphV {
    FrameGraphV {
        args: seq!["-v"@, "error"@],
        fc: Seq::empty(),
        current: ""@,
        inputs: 0,
        labels,
        texts: 0,
        files: Seq::empty(),
        windows,
    }
}

/// The command with the script of the subtitles burned in, at the time of the
/// frame.
pub open spec fn script_stage(g: FrameGraphV, script: ScriptV, t: TimeUs) -> Result<
    (FrameGraphV, Option<Seq<char>>),
    ExportErrV,
> {
    match script {
        ScriptV::Nothing => Ok((g, None)),
        ScriptV::Written { path, filter } => Ok(
            (
                g.with(
                    "["@ + g.current + "]setpts=PTS+"@ + render::secs_text(t) + "/TB,"@ + filter + ",setpts=PTS-STARTPTS[txt]"@,
                ).now("txt"@),
                Some(path),
            ),
        ),
        ScriptV::Failed(e) => Err(ExportErrV::Ffmpeg("could not write the subtitles: "@ + e)),
    }
}

/// The arguments of a command that is complete but for its size.
pub open spec fn frame_args(g: FrameGraphV, max_width: u32) -> Seq<Seq<char>> {
    g.args.push("-filter_complex"@).push(
        text::joined(
            g.fc.push("["@ + g.current + "]scale='min("@ + text::digits(max_width as nat) + ",iw)':-2[out]"@),
            ";"@,
        ),
    ).push("-map"@).push("[out]"@).push("-frames:v"@).push("1"@).push("-f"@).push("image2"@).push(
        "-c:v"@,
    ).push("mjpeg"@).push("-q:v"@).push("4"@).push("pipe:1"@)
}

/// The call of ffmpeg for a frame of a scene: none where nothing shows.
#[verifier::opaque]
pub open spec fn composed(
    b: BrushV,
    x: SceneV,
    script: ScriptV,
    max_width: u32,
) -> Result<Option<FramePlanV>, ExportErrV> {
    let v = b.viewer;
    let st = stage_of(v.seq);
    let plain = overlays::overlay_chain(
        v.project,
        v.seq,
        b.fonts,
        st.h,
        st.w,
        Some(v.t),
        Seq::<(TimeUs, TimeUs)>::empty(),
        None,
        true,
    );
    if x.layers.len() == 0 && plain is None && !any_styled(v.seq, v.t) {
        Ok(None)
    } else {
        let a = scene_stage(bare(x.labels, b.viewer.windows), st, x);
        let c = title_tracks(a, b, v.seq.tracks, v.seq.tracks.len());
        let d = subtitle_tracks(c, b, v.seq.tracks, v.seq.tracks.len());
        match script_stage(d, script, v.t) {
            Err(e) => Err(e),
            Ok(done) => Ok(
                Some(
                    FramePlanV {
                        args: frame_args(done.0, max_width),
                        subs_file: done.1,
                        temp_files: done.0.files,
                    },
                ),
            ),
        }
    }
}

/// The call of ffmpeg for a frame of a sequence.
pub open spec fn preview_spec(
    p: ProjectV,
    sequence_id: Id,
    base_dir: Seq<char>,
    t: TimeUs,
    max_width: u32,
    extra_packs: Seq<EffectDefV>,
    env: SurroundV,
    labels: Labels,
) -> Result<Option<FramePlanV>, ExportErrV> {
    if !seqs::holds(p.sequences, sequence_id) {
        Err(ExportErrV::NoSequence(sequence_id))
    } else {
        let v = ViewerV {
            project: p,
            seq: p.sequences[seqs::pos(p.sequences, sequence_id) as int],
            base_dir,
            registry: render::merged(env.core, extra_packs),
            drawn: env.drawn,
            t,
            windows: env.windows,
        };
        match scene_of(v, labels) {
            Err(e) => Err(e),
            Ok(x) => composed(
                BrushV { viewer: v, titles: env.titles, fonts: env.fonts },
                x,
                env.script,
                max_width,
            ),
        }
    }
}

fn add_script(g: &mut FrameGraph, script: &Script, t: TimeUs) -> (r: ExportResult<Option<String>>)
    ensures
        match script_stage(old(g)@, script@, t) {
            Ok(y) => r is Ok && final(g)@ == y.0 && model::opt_text(r->Ok_0) == y.1,
            Err(e) => r is Err && r->Err_0@ == e,
        },
{
    match script {
        Script::Nothing => Ok(None),
        Script::Written { path, filter } => {
            let under: String = g.current.clone();
            let mut c: String = copy_text("[");
            c.append(under.as_str());
            c.append("]setpts=PTS+");
            let d1: String = secs(t);
            c.append(d1.as_str());
            c.append("/TB,");
            c.append(filter.as_str());
            c.append(",setpts=PTS-STARTPTS[txt]");
            g.push(c);
            g.set_current(copy_text("txt"));
            Ok(Some(path.clone()))
        },
        Script::Failed(e) => {
            let mut m: String = copy_text("could not write the subtitles: ");
            m.append(e.as_str());
            Err(ExportError::Ffmpeg(m))
        },
    }
}

fn new_frame(labels: Labels, windows: bool) -> (g: FrameGraph)
    ensures
        g@ == bare(labels, windows),
        g.counted(),
{
    let mut g: FrameGraph = FrameGraph {
        args: Vec::new(),
        fc: Vec::new(),
        current: copy_text(""),
        inputs: 0,
        labels,
        texts: 0,
        files: Vec::new(),
        windows,
    };
    assert(text::texts(g.args@) =~= Seq::<Seq<char>>::empty());
    assert(text::texts(g.fc@) =~= Seq::<Seq<char>>::empty());
    assert(text::texts(g.files@) =~= Seq::<Seq<char>>::empty());
    g.arg("-v");
    g.arg("error");
    assert(g@.args =~= bare(labels, windows).args);
    g
}

fn finish_frame(g: &mut FrameGraph, max_width: u32)
    ensures
        final(g)@.args == frame_args(old(g)@, max_width),
        final(g)@.files == old(g)@.files,
{
    let under: String = g.current.clone();
    let mut c: String = copy_text("[");
    c.append(under.as_str());
    c.append("]scale='min(");
    let d1: String = nat_to_text((max_width) as u128);
    c.append(d1.as_str());
    c.append(",iw)':-2[out]");
    g.push(c);
    let all: String = join(&g.fc, ";");
    g.arg("-filter_complex");
    g.arg(all.as_str());
    g.arg("-map");
    g.arg("[out]");
    g.arg("-frames:v");
    g.arg("1");
    g.arg("-f");
    g.arg("image2");
    g.arg("-c:v");
    g.arg("mjpeg");
    g.arg("-q:v");
    g.arg("4");
    g.arg("pipe:1");
}

fn compose(b: &Brush, x: &Scene, script: &Script, max_width: u32) -> (r: ExportResult<
    Option<FramePlan>,
>)
    requires
        frame_drawable(
            b.viewer.project@,
            b.viewer.seq@,
            seqs::views(b.viewer.registry@),
            b.viewer.t,
        ),
    ensures
        match composed(b.shown(), x@, script@, max_width) {
            Ok(None) => r is Ok && r->Ok_0 is None,
            Ok(Some(y)) => r is Ok && r->Ok_0 is Some && r->Ok_0->Some_0@ == y,
            Err(e) => r is Err && r->Err_0@ == e,
        },
{
    reveal(composed);
    let v: &Viewer = b.viewer;
    let st: Stage = make_stage(v.seq);
    assert(x@.layers.len() == x.layers.len());
    if x.layers.len() == 0 {
        let plain: Option<String> = text_overlays_at(
            v.project,
            v.seq,
            b.fonts,
            st.h,
            st.w,
            v.t,
        );
        if plain.is_none() && !has_styled(v.seq, v.t) {
            return Ok(None);
        }
    }
    let mut g: FrameGraph = new_frame(x.labels, v.windows);
    add_scene(&mut g, &st, x);
    add_texts(&mut g, b, true);
    add_texts(&mut g, b, false);
    let subs_file: Option<String> = match add_script(&mut g, script, v.t) {
        Ok(f) => f,
        Err(e) => {
            return Err(e);
        },
    };
    finish_frame(&mut g, max_width);
    Ok(Some(FramePlan { args: g.args, subs_file, temp_files: g.files }))
}

/// Whether all chains can be written that a frame of a sequence needs.
pub open spec fn previewable(
    p: ProjectV,
    sequence_id: Id,
    t: TimeUs,
    extra_packs: Seq<EffectDefV>,
    env: SurroundV,
) -> bool {
    seqs::holds(p.sequences, sequence_id) ==> frame_drawable(
        p,
        p.sequences[seqs::pos(p.sequences, sequence_id) as int],
        render::merged(env.core, extra_packs),
        t,
    )
}

/// Tells whether a frame of a sequence can be planned: a value can be made of
/// every parameter of the effects that it needs.
pub fn can_preview(
    project: &Project,
    sequence_id: Id,
    t_us: TimeUs,
    extra_packs: &Vec<EffectDef>,
    env: &Surroundings,
) -> (b: bool)
    ensures
        b == previewable(project@, sequence_id, t_us, seqs::views(extra_packs@), env@),
{
    let registry: Vec<EffectDef> = merge_registries(
        duplicate_all(&env.core),
        duplicate_all(extra_packs),
    );
    match project.sequence(sequence_id) {
        Some(seq) => frame_fits(project, seq, &registry, t_us),
        None => true,
    }
}

/// Plans the call of ffmpeg that makes one frame of a sequence, at most so many
/// pixels wide. There is none where nothing shows at the time.
pub fn plan_preview_frame(
    project: &Project,
    sequence_id: Id,
    base_dir: &str,
    t_us: TimeUs,
    max_width: u32,
    extra_packs: &Vec<EffectDef>,
    env: &Surroundings,
    labels: Labels,
) -> (r: ExportResult<Option<FramePlan>>)
    requires
        previewable(project@, sequence_id, t_us, seqs::views(extra_packs@), env@),
    ensures
        match preview_spec(
            project@,
            sequence_id,
            base_dir@,
            t_us,
            max_width,
            seqs::views(extra_packs@),
            env@,
            labels,
        ) {
            Ok(None) => r is Ok && r->Ok_0 is None,
            Ok(Some(y)) => r is Ok && r->Ok_0 is Some && r->Ok_0->Some_0@ == y,
            Err(e) => r is Err && r->Err_0@ == e,
        },
{
    let seq: &Sequence = match project.sequence(sequence_id) {
        Some(s) => s,
        None => {
            return Err(ExportError::NoSequence(sequence_id));
        },
    };
    let registry: Vec<EffectDef> = merge_registries(
        duplicate_all(&env.core),
        duplicate_all(extra_packs),
    );
    let v: Viewer = Viewer {
        project,
        seq,
        base_dir,
        registry: &registry,
        drawn: &env.drawn,
        t: t_us,
        windows: env.windows,
    };
    let x: Scene = match find_scene(&v, labels) {
        Ok(x) => x,
        Err(e) => {
            return Err(e);
        },
    };
    let b: Brush = Brush { viewer: &v, titles: &env.titles, fonts: &env.fonts };
    compose(&b, &x, &env.script, max_width)
}

/// What becomes of a frame that was made: its picture, nothing where ffmpeg gave
/// none, or what ffmpeg said against it.
pub fn judge_frame(success: bool, stdout: Vec<u8>, stderr: &str) -> (r: ExportResult<Option<Vec<u8>>>)
    ensures
        !success ==> r is Err && r->Err_0@ == ExportErrV::Ffmpeg(text::trimmed(stderr@)),
        success ==> r is Ok && (match r->Ok_0 {
            Some(x) => x@ == stdout@ && stdout@.len() > 0,
            None => stdout@.len() == 0,
        }),
{
    if !success {
        Err(ExportError::Ffmpeg(trim(stderr)))
    } else if stdout.len() == 0 {
        Ok(None)
    } else {
        Ok(Some(stdout))
    }
}

/// Why a frame that took too long was given up.
pub fn describe_timeout(seconds: u64) -> (r: String)
    ensures
        r@ == "the preview frame took longer than "@ + text::digits(seconds as nat) + "s and was killed"@,
{
    let mut r: String = copy_text("the preview frame took longer than ");
    let d1: String = nat_to_text((seconds) as u128);
    r.append(d1.as_str());
    r.append("s and was killed");
    r
}

} // verus!
