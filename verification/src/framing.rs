//! What a frame of the preview is made of: the clips that are there at its time,
//! and how far their transitions are.

use vstd::prelude::*;

use crate::crossing::{moderate, run_of};
use crate::edl;
use crate::export::ExportErrV;
use crate::graph;
use crate::model;
use crate::model::{ClipV, MediaKind, ProjectV, TrackKind, TrackV};
use crate::paths;
use crate::preview;
use crate::preview::{Moving, SceneV, ShotV, ViewerV};
use crate::render;
use crate::time;
use crate::time::TimeUs;
use crate::transitions;

verus! {

/// Whether a transition is in progress: it runs for so long, and so much of it is
/// over.
pub open spec fn in_progress(m: Option<Moving>, effect_id: Seq<char>, length: int, over: int) -> bool {
    &&& m is Some
    &&& m->Some_0.0 == transitions::kind_of(transitions::kinds(), effect_id)
    &&& m->Some_0.1 == render::in_seconds(length as TimeUs)
    &&& m->Some_0.2 == render::in_seconds(over as TimeUs)
}

/// A clip comes in from its start on, for as long as its transition runs; on the
/// base only where it does not cross from the clip before. It goes out at its end:
/// what is over of that is what is past of its last part.
pub proof fn law_clip_moves(p: ProjectV, clips: Seq<ClipV>, c: ClipV, rel: TimeUs, base: bool)
    requires
        0 <= rel < c.duration,
        moderate(c.duration),
    ensures
        match c.transition_in {
            Some(t) => exists|d: TimeUs|
                {
                    &&& #[trigger] run_of(d, t.duration, c.duration)
                    &&& if rel < d && !(base && preview::xfade_applies(p, clips, c)) {
                        in_progress(
                            preview::entrance_of(p, clips, c, rel, base),
                            t.effect_id,
                            d as int,
                            rel as int,
                        )
                    } else {
                        preview::entrance_of(p, clips, c, rel, base) is None
                    }
                },
            None => preview::entrance_of(p, clips, c, rel, base) is None,
        },
        match c.transition_out {
            Some(t) => exists|d: TimeUs|
                {
                    &&& #[trigger] run_of(d, t.duration, c.duration)
                    &&& if c.duration - d <= rel {
                        in_progress(
                            preview::exit_of(c, rel),
                            t.effect_id,
                            d as int,
                            rel - (c.duration - d),
                        )
                    } else {
                        preview::exit_of(c, rel) is None
                    }
                },
            None => preview::exit_of(c, rel) is None,
        },
{
    if let Some(t) = c.transition_in {
        let d = graph::held_cross(t.duration, c.duration);
        assert(run_of(d, t.duration, c.duration));
    }
    if let Some(t) = c.transition_out {
        let d = graph::held_cross(t.duration, c.duration);
        assert(run_of(d, t.duration, c.duration));
    }
}

/// A layer of a frame is the clip that is there, at its time: the file of its asset
/// or the source that was drawn for it, with its effects as they are so far behind
/// its start, and with its transitions as they are then. A still picture has no
/// time. An asset that is missing is an error, and other clips give no layer.
pub proof fn law_layer_is_the_clip(x: SceneV, v: ViewerV, t: TrackV, c: ClipV, base: bool)
    requires
        c.start <= v.t < c.start + c.duration,
        moderate(c.start),
        moderate(c.duration),
    ensures
        ({
            let rel = (v.t - c.start) as TimeUs;
            let r = preview::clip_step(x, v, t, c, base);
            let media = c.payload is Media;
            let asset = model::asset_of(v.project, c.payload->Media_asset_id);
            let source = edl::source_for(v.drawn, c.id, c.duration);
            if media && asset is None {
                r == Err::<SceneV, ExportErrV>(
                    ExportErrV::MissingAsset(c.payload->Media_asset_id),
                )
            } else if media || (c.payload is Generator && source is Some) {
                &&& r is Ok
                &&& {
                    let y = r->Ok_0;
                    let l = y.layers.last();
                    &&& y.layers == x.layers.push(l)
                    &&& y.xfade == x.xfade
                    &&& l.base == base
                    &&& l.chain == preview::still_chain(v, c, rel, !base, x.labels)
                    &&& l.entrance == preview::entrance_of(v.project, t.clips, c, rel, base)
                    &&& l.exit == preview::exit_of(c, rel)
                    &&& match l.shot {
                        ShotV::Media { path, src_time } => {
                            &&& media
                            &&& path == paths::path_in(v.base_dir, asset->Some_0.path@, v.windows)
                            &&& asset->Some_0.kind == MediaKind::Image ==> src_time == 0
                        },
                        ShotV::Gen { source: drawn } => !media && source == Some(drawn),
                    }
                }
            } else {
                r is Ok && r->Ok_0.layers == x.layers && r->Ok_0.xfade == x.xfade
            }
        }),
{
    reveal(preview::clip_step);
    let rel = (v.t - c.start) as TimeUs;
    assert(time::sooner(v.t, c.start) == rel);
    if let Ok(y) = preview::clip_step(x, v, t, c, base) {
        if y.layers.len() > x.layers.len() {
            assert(y.layers =~= x.layers.push(y.layers.last()));
        }
    }
}

/// A track gives a frame what it shows at its time. One of sound, or one that is
/// muted, gives nothing. The base, where it crosses from one clip to the next,
/// gives both sides, the one that goes first; the crossing starts half its length
/// before the second starts. Else a track gives the clip that is there.
pub proof fn law_track_gives(x: SceneV, v: ViewerV, t: TrackV, k: int)
    requires
        moderate(v.t),
        0 < k < t.clips.len() ==> moderate(t.clips[k].start),
    ensures
        ({
            let r = preview::track_step(x, v, t);
            let base = preview::base_id(v.seq) == Some(t.id);
            let crosses = |i: int|
                0 < i < t.clips.len() && preview::in_xfade(
                    v.project,
                    t.clips[i - 1],
                    t.clips[i],
                    v.t,
                );
            &&& t.kind != TrackKind::Video || t.muted ==> r == Ok::<SceneV, ExportErrV>(x)
            &&& t.kind == TrackKind::Video && !t.muted ==> {
                &&& base && crosses(k) && (forall|i: int| 0 < i < k ==> !#[trigger] crosses(i)) ==> {
                    let half = preview::xfade_half(v.project, t.clips[k - 1], t.clips[k])->Some_0;
                    match preview::side_step(x, v, t.clips[k - 1]) {
                        Err(e) => r == Err::<SceneV, ExportErrV>(e),
                        Ok(y) => match preview::side_step(y, v, t.clips[k]) {
                            Err(e) => r == Err::<SceneV, ExportErrV>(e),
                            Ok(z) => {
                                &&& r is Ok
                                &&& r->Ok_0.layers == z.layers
                                &&& moderate(half) ==> in_progress(
                                    r->Ok_0.xfade,
                                    t.clips[k].transition_in->Some_0.effect_id,
                                    2 * half,
                                    v.t - (t.clips[k].start - half),
                                )
                            },
                        },
                    }
                }
                &&& !base || (forall|i: int| 0 < i < t.clips.len() ==> !#[trigger] crosses(i))
                    ==> match edl::covering(t.clips, v.t) {
                    Some(c) => r == preview::clip_step(x, v, t, c, base),
                    None => r == Ok::<SceneV, ExportErrV>(x),
                }
            }
        }),
{
    reveal(preview::track_step);
    lemma_crossing(v.project, t.clips, v.t, 1);
    let crosses = |i: int|
        0 < i < t.clips.len() && preview::in_xfade(v.project, t.clips[i - 1], t.clips[i], v.t);
    let n = preview::xfade_clip(v.project, t.clips, v.t, 1);
    if 0 < n < t.clips.len() {
        assert(crosses(n));
    }
    if crosses(k) && (forall|i: int| 0 < i < k ==> !#[trigger] crosses(i)) {
        if n < k {
            assert(!crosses(n));
        }
        assert(n == k);
    }
    if forall|i: int| 0 < i < t.clips.len() ==> !#[trigger] crosses(i) {
        assert(n >= t.clips.len());
    }
}

proof fn lemma_crossing(p: ProjectV, clips: Seq<ClipV>, t: TimeUs, from: int)
    requires
        from >= 1,
    ensures
        ({
            let n = preview::xfade_clip(p, clips, t, from);
            &&& n < clips.len() ==> from <= n && preview::in_xfade(p, clips[n - 1], clips[n], t)
            &&& n >= clips.len() ==> n == clips.len()
            &&& forall|i: int|
                from <= i < n ==> !preview::in_xfade(p, clips[i - 1], #[trigger] clips[i], t)
        }),
    decreases clips.len() - from,
{
    if from < clips.len() && !preview::in_xfade(p, clips[from - 1], clips[from], t) {
        lemma_crossing(p, clips, t, from + 1);
    }
}

} // verus!
