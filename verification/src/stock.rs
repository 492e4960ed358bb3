//! Clips that are in order one by one: that they stay so under the actions that
//! editing is made of.

use vstd::prelude::*;

use crate::action;
use crate::action::ActionV;
use crate::float;
use crate::float::Real;
use crate::ident::Id;
use crate::keyframe;
use crate::keyframe::ParamV;
use crate::laws;
use crate::model;
use crate::model::{ClipV, MediaKind, PayloadV, ProjectV};
use crate::ops;
use crate::seqs;
use crate::time;
use crate::time::TimeUs;
use crate::validate;

verus! {

/// Whether a clip is at the given indices.
pub open spec fn clip_is(p: ProjectV, s: int, t: int, i: int, x: ClipV) -> bool {
    0 <= s < p.sequences.len() && 0 <= t < p.sequences[s].tracks.len() && 0 <= i
        < p.sequences[s].tracks[t].clips.len() && p.sequences[s].tracks[t].clips[i] == x
}

/// Whether a clip is in a project.
pub open spec fn in_project(p: ProjectV, x: ClipV) -> bool {
    exists|s: int, t: int, i: int| #[trigger] clip_is(p, s, t, i, x)
}

/// Whether every clip of a project is in order by itself.
#[verifier::opaque]
pub open spec fn stocked(p: ProjectV) -> bool {
    forall|x: ClipV| #[trigger] in_project(p, x) ==> validate::valid_clip(p, x)
}

/// Whether two payloads show material of the same asset, or none at all.
pub open spec fn alike(a: PayloadV, b: PayloadV) -> bool {
    match (a, b) {
        (
            PayloadV::Media { asset_id: x, src_in: i, src_out: o },
            PayloadV::Media { asset_id: y, src_in: j, src_out: u },
        ) => x == y,
        _ => !(a is Media) && !(b is Media),
    }
}

/// Whether clips that a project shares with another show the same assets.
#[verifier::opaque]
pub open spec fn descends(q: ProjectV, p: ProjectV) -> bool {
    &&& q.assets == p.assets
    &&& forall|x: ClipV, y: ClipV|
        #[trigger] in_project(q, x) && #[trigger] in_project(p, y) && x.id == y.id ==> alike(
            x.payload,
            y.payload,
        )
}

/// A clip with another part of its source.
pub open spec fn with_part(c: ClipV, src_in: Option<TimeUs>, src_out: Option<TimeUs>) -> ClipV {
    ClipV { payload: action::with_source(c.payload, src_in, src_out), ..c }
}

/// Whether bounds give both ends of the source of a clip that has one.
pub open spec fn both_ends(c: ClipV, src_in: Option<TimeUs>, src_out: Option<TimeUs>) -> bool {
    c.payload is Media ==> src_in is Some && src_out is Some
}

/// Whether an action brings only clips that are in order by themselves, and
/// leaves those that it bounds so.
pub open spec fn fits(p: ProjectV, a: ActionV) -> bool {
    match a {
        ActionV::InsertClip { track_id, clip } => validate::valid_clip(p, clip),
        ActionV::ReplaceClips { track_id, remove_ids, insert } => forall|i: int|
            0 <= i < insert.len() ==> validate::valid_clip(p, #[trigger] insert[i]),
        ActionV::SetClipBounds { clip_id, start, duration, src_in, src_out } => forall|x: ClipV|
            #[trigger] in_project(p, x) && x.id == clip_id ==> validate::valid_source(
                p,
                with_part(x, src_in, src_out),
            ),
        _ => true,
    }
}

/// Whether an action inserts no clip that is not in order by itself, leaves no
/// piece without material, and gives no clip a source that reaches past its
/// material.
pub open spec fn in_reach(p: ProjectV, a: ActionV) -> bool {
    match a {
        ActionV::InsertClip { track_id, clip } => validate::valid_clip(p, clip),
        ActionV::ReplaceClips { track_id, remove_ids, insert } => forall|i: int|
            0 <= i < insert.len() ==> !action::empty_source((#[trigger] insert[i]).payload),
        ActionV::SetClipBounds { clip_id, start, duration, src_in, src_out: Some(end) } => forall|
            x: ClipV,
        |
            #[trigger] in_project(p, x) && x.id == clip_id ==> reaches(p, x.payload, end),
        _ => true,
    }
}

/// Whether the material of a payload lasts until a time.
pub open spec fn reaches(p: ProjectV, payload: PayloadV, end: TimeUs) -> bool {
    match payload {
        PayloadV::Media { asset_id, src_in, src_out } => match model::asset_of(p, asset_id) {
            None => false,
            Some(a) => a.kind == MediaKind::Image || end <= a.probe.duration_us
                || a.probe.duration_us <= 0,
        },
        _ => true,
    }
}

/// Whether each action of a list stays within the material when its turn comes.
pub open spec fn in_reach_run(p: ProjectV, actions: Seq<ActionV>) -> bool
    decreases actions.len(),
{
    if actions.len() == 0 {
        true
    } else {
        &&& in_reach_run(p, actions.drop_last())
        &&& match laws::run(p, actions.drop_last()) {
            Err(e) => true,
            Ok(x) => in_reach(x.0, actions.last()),
        }
    }
}

/// Whether an action leaves the sources of the clips that it bounds.
pub open spec fn leaves_sources(a: ActionV) -> bool {
    match a {
        ActionV::SetClipBounds { clip_id, start, duration, src_in, src_out } => src_in is None
            && src_out is None,
        ActionV::RemoveClip { .. } => true,
        ActionV::MoveClipToTrack { .. } => true,
        ActionV::SetClipSpeed { .. } => true,
        _ => false,
    }
}

/// An action that leaves the sources fits.
pub proof fn lemma_leaving_fits(p: ProjectV, a: ActionV)
    requires
        stocked(p),
        leaves_sources(a),
    ensures
        fits(p, a),
{
    reveal(stocked);
    if let ActionV::SetClipBounds { clip_id, start, duration, src_in, src_out } = a {
        assert forall|x: ClipV|
            #[trigger] in_project(p, x) && x.id == clip_id implies validate::valid_source(
            p,
            with_part(x, src_in, src_out),
        ) by {
            assert(validate::valid_clip(p, x));
            assert(with_part(x, src_in, src_out).payload == x.payload);
        }
    }
}

/// Whether an action will fit a project that descends from another.
pub open spec fn will_fit(p: ProjectV, a: ActionV) -> bool {
    match a {
        ActionV::SetClipBounds { clip_id, start, duration, src_in, src_out } => exists|y: ClipV|
            #[trigger] in_project(p, y) && y.id == clip_id && both_ends(y, src_in, src_out)
                && validate::valid_source(p, with_part(y, src_in, src_out)),
        _ => fits(p, a),
    }
}

/// Whether an action is one that editing is made of.
pub open spec fn edits(a: ActionV) -> bool {
    match a {
        ActionV::InsertClip { .. } => true,
        ActionV::ReplaceClips { .. } => true,
        ActionV::RemoveClip { .. } => true,
        ActionV::SetClipBounds { .. } => true,
        ActionV::MoveClipToTrack { .. } => true,
        ActionV::SetClipSpeed { .. } => true,
        _ => false,
    }
}

/// Whether an action brings a clip.
pub open spec fn brought(a: ActionV, x: ClipV) -> bool {
    match a {
        ActionV::InsertClip { track_id, clip } => clip == x,
        ActionV::ReplaceClips { track_id, remove_ids, insert } => insert.contains(x),
        _ => false,
    }
}

/// A clip after an action that changes it in its place.
pub open spec fn altered(a: ActionV, y: ClipV) -> Option<ClipV> {
    match a {
        ActionV::SetClipBounds { clip_id, start, duration, src_in, src_out } => if y.id == clip_id
            && duration > 0 {
            Some(ClipV { start, duration, ..with_part(y, src_in, src_out) })
        } else {
            None
        },
        ActionV::MoveClipToTrack { clip_id, to_track, to_start } => if y.id == clip_id {
            Some(ClipV { start: to_start, ..y })
        } else {
            None
        },
        ActionV::SetClipSpeed { clip_id, speed, duration } => if y.id == clip_id && duration > 0
            && !speed.at_most(Real::of(0)) {
            Some(ClipV { speed, duration, ..y })
        } else {
            None
        },
        _ => None,
    }
}

/// Whether a clip comes from a project by an action.
spec fn comes(p: ProjectV, a: ActionV, x: ClipV) -> bool {
    in_project(p, x) || brought(a, x) || exists|y: ClipV|
        #[trigger] in_project(p, y) && altered(a, y) == Some(x)
}

proof fn lemma_in_with(p: ProjectV, s: int, t: int, clips: Seq<ClipV>, x: ClipV)
    requires
        0 <= s < p.sequences.len(),
        0 <= t < p.sequences[s].tracks.len(),
        in_project(model::with_clips(p, (s, t), clips), x),
    ensures
        clips.contains(x) || in_project(p, x),
{
    let q = model::with_clips(p, (s, t), clips);
    let (a, b, c) = choose|a: int, b: int, c: int| #[trigger] clip_is(q, a, b, c, x);
    if a == s && b == t {
        assert(clips[c] == x);
    } else {
        assert(clip_is(p, a, b, c, x));
    }
}

proof fn lemma_on_track(p: ProjectV, s: int, t: int, clips: Seq<ClipV>, x: ClipV)
    requires
        0 <= s < p.sequences.len(),
        0 <= t < p.sequences[s].tracks.len(),
        clips == p.sequences[s].tracks[t].clips,
        clips.contains(x),
    ensures
        in_project(p, x),
{
    let i = choose|i: int| 0 <= i < clips.len() && clips[i] == x;
    assert(clip_is(p, s, t, i, x));
}

proof fn lemma_taken(clips: Seq<ClipV>, ids: Seq<Id>, x: ClipV)
    requires
        action::take_off(clips, ids) is Ok,
        action::take_off(clips, ids)->Ok_0.0.contains(x),
    ensures
        clips.contains(x),
    decreases ids.len(),
{
    if ids.len() > 0 {
        let y = action::take_off(clips, ids.drop_last())->Ok_0;
        let i = seqs::pos(y.0, ids.last()) as int;
        let after = action::take_off(clips, ids)->Ok_0.0;
        seqs::lemma_pos(y.0, ids.last());
        assert(after == y.0.remove(i));
        let k = choose|k: int| 0 <= k < after.len() && after[k] == x;
        if k < i {
            assert(y.0[k] == x);
        } else {
            assert(y.0[k + 1] == x);
        }
        lemma_taken(clips, ids.drop_last(), x);
    }
}

proof fn lemma_put(clips: Seq<ClipV>, list: Seq<ClipV>, x: ClipV)
    requires
        action::put_all(clips, list).contains(x),
    ensures
        clips.contains(x) || list.contains(x),
    decreases list.len(),
{
    if list.len() > 0 {
        let before = action::put_all(clips, list.drop_last());
        laws::lemma_put_in_contains(before, list.last());
        if x == list.last() {
            assert(list[list.len() - 1] == x);
        } else {
            assert(before.contains(x));
            lemma_put(clips, list.drop_last(), x);
            if list.drop_last().contains(x) {
                let i = choose|i: int| 0 <= i < list.drop_last().len() && list.drop_last()[i] == x;
                assert(list[i] == x);
            }
        }
    }
}

/// Every clip after an action was there before, or is brought, or is a changed
/// one.
proof fn lemma_comes_insert_clip(p: ProjectV, track_id: Id, clip: ClipV, x: ClipV)
    requires
        action::step(p, (ActionV::InsertClip { track_id, clip })) is Ok,
        in_project(action::step(p, (ActionV::InsertClip { track_id, clip }))->Ok_0.0, x),
    ensures
        comes(p, (ActionV::InsertClip { track_id, clip }), x),
        action::step(p, (ActionV::InsertClip { track_id, clip }))->Ok_0.0.assets == p.assets,
{
    let a = ActionV::InsertClip { track_id, clip };
    laws::lemma_track_found(p, track_id);
    let at = model::track_place(p, track_id)->Some_0;
    let clips = model::track_at(p, at).clips;
    lemma_in_with(p, at.0, at.1, action::put_in(clips, clip), x);
    laws::lemma_put_in_contains(clips, clip);
    if clips.contains(x) {
        lemma_on_track(p, at.0, at.1, clips, x);
    }
}

proof fn lemma_comes_replace_clips(p: ProjectV, track_id: Id, remove_ids: Seq<Id>, insert: Seq<ClipV>, x: ClipV)
    requires
        action::step(p, (ActionV::ReplaceClips { track_id, remove_ids, insert })) is Ok,
        in_project(action::step(p, (ActionV::ReplaceClips { track_id, remove_ids, insert }))->Ok_0.0, x),
    ensures
        comes(p, (ActionV::ReplaceClips { track_id, remove_ids, insert }), x),
        action::step(p, (ActionV::ReplaceClips { track_id, remove_ids, insert }))->Ok_0.0.assets == p.assets,
{
    let a = ActionV::ReplaceClips { track_id, remove_ids, insert };
    laws::lemma_track_found(p, track_id);
    let at = model::track_place(p, track_id)->Some_0;
    let clips = model::track_at(p, at).clips;
    let kept = action::take_off(clips, remove_ids)->Ok_0.0;
    lemma_in_with(p, at.0, at.1, action::put_all(kept, insert), x);
    if action::put_all(kept, insert).contains(x) {
        lemma_put(kept, insert, x);
        if kept.contains(x) {
            lemma_taken(clips, remove_ids, x);
            lemma_on_track(p, at.0, at.1, clips, x);
        }
    }
}

proof fn lemma_comes_remove_clip(p: ProjectV, clip_id: Id, x: ClipV)
    requires
        action::step(p, (ActionV::RemoveClip { clip_id })) is Ok,
        in_project(action::step(p, (ActionV::RemoveClip { clip_id }))->Ok_0.0, x),
    ensures
        comes(p, (ActionV::RemoveClip { clip_id }), x),
        action::step(p, (ActionV::RemoveClip { clip_id }))->Ok_0.0.assets == p.assets,
{
    let a = ActionV::RemoveClip { clip_id };
    laws::lemma_clip_found(p, clip_id);
    let at = model::clip_place(p, clip_id)->Some_0;
    let clips = model::track_at(p, (at.0, at.1)).clips;
    lemma_in_with(p, at.0, at.1, clips.remove(at.2), x);
    if clips.remove(at.2).contains(x) {
        let k = choose|k: int|
            0 <= k < clips.remove(at.2).len() && clips.remove(at.2)[k] == x;
        if k < at.2 {
            assert(clips[k] == x);
        } else {
            assert(clips[k + 1] == x);
        }
        lemma_on_track(p, at.0, at.1, clips, x);
    }
}

proof fn lemma_comes_set_clip_bounds(p: ProjectV, clip_id: Id, start: TimeUs, duration: TimeUs, src_in: Option<TimeUs>, src_out: Option<TimeUs>, x: ClipV)
    requires
        action::step(p, (ActionV::SetClipBounds { clip_id, start, duration, src_in, src_out })) is Ok,
        in_project(action::step(p, (ActionV::SetClipBounds { clip_id, start, duration, src_in, src_out }))->Ok_0.0, x),
    ensures
        comes(p, (ActionV::SetClipBounds { clip_id, start, duration, src_in, src_out }), x),
        action::step(p, (ActionV::SetClipBounds { clip_id, start, duration, src_in, src_out }))->Ok_0.0.assets == p.assets,
{
    let a = ActionV::SetClipBounds { clip_id, start, duration, src_in, src_out };
    laws::lemma_clip_found(p, clip_id);
    let at = model::clip_place(p, clip_id)->Some_0;
    let clips = model::track_at(p, (at.0, at.1)).clips;
    let c = model::clip_at(p, at);
    let payload = action::with_source(c.payload, src_in, src_out);
    let changed = ClipV { start, duration, payload, ..c };
    let after = clips.update(at.2, changed);
    lemma_in_with(p, at.0, at.1, action::sorted_clips(after), x);
    if action::sorted_clips(after).contains(x) {
        laws::lemma_sorted_contains(after);
        assert(after.contains(x));
        lemma_updated(p, at, changed, x);
        assert(clip_is(p, at.0, at.1, at.2, c));
        assert(in_project(p, c));
        assert(altered(a, c) == Some(changed));
    }
}

proof fn lemma_comes_move_clip_to_track(p: ProjectV, clip_id: Id, to_track: Id, to_start: TimeUs, x: ClipV)
    requires
        action::step(p, (ActionV::MoveClipToTrack { clip_id, to_track, to_start })) is Ok,
        in_project(action::step(p, (ActionV::MoveClipToTrack { clip_id, to_track, to_start }))->Ok_0.0, x),
    ensures
        comes(p, (ActionV::MoveClipToTrack { clip_id, to_track, to_start }), x),
        action::step(p, (ActionV::MoveClipToTrack { clip_id, to_track, to_start }))->Ok_0.0.assets == p.assets,
{
    let a = ActionV::MoveClipToTrack { clip_id, to_track, to_start };
    laws::lemma_clip_found(p, clip_id);
    laws::lemma_track_found(p, to_track);
    let at = model::clip_place(p, clip_id)->Some_0;
    let to = model::track_place(p, to_track)->Some_0;
    let clips = model::track_at(p, (at.0, at.1)).clips;
    let c = model::clip_at(p, at);
    let q = model::with_clips(p, (at.0, at.1), clips.remove(at.2));
    let moved = ClipV { start: to_start, ..c };
    let there = model::track_at(q, to).clips;
    assert(clip_is(p, at.0, at.1, at.2, c));
    assert(in_project(p, c));
    assert(altered(a, c) == Some(moved));
    lemma_in_with(q, to.0, to.1, action::put_in(there, moved), x);
    laws::lemma_put_in_contains(there, moved);
    if x != moved {
        if there.contains(x) {
            lemma_on_track(q, to.0, to.1, there, x);
        }
        lemma_in_with(p, at.0, at.1, clips.remove(at.2), x);
        if clips.remove(at.2).contains(x) {
            let k = choose|k: int|
                0 <= k < clips.remove(at.2).len() && clips.remove(at.2)[k] == x;
            if k < at.2 {
                assert(clips[k] == x);
            } else {
                assert(clips[k + 1] == x);
            }
            lemma_on_track(p, at.0, at.1, clips, x);
        }
    }
}

proof fn lemma_comes_set_clip_speed(p: ProjectV, clip_id: Id, speed: Real, duration: TimeUs, x: ClipV)
    requires
        action::step(p, (ActionV::SetClipSpeed { clip_id, speed, duration })) is Ok,
        in_project(action::step(p, (ActionV::SetClipSpeed { clip_id, speed, duration }))->Ok_0.0, x),
    ensures
        comes(p, (ActionV::SetClipSpeed { clip_id, speed, duration }), x),
        action::step(p, (ActionV::SetClipSpeed { clip_id, speed, duration }))->Ok_0.0.assets == p.assets,
{
    let a = ActionV::SetClipSpeed { clip_id, speed, duration };
    laws::lemma_clip_found(p, clip_id);
    let at = model::clip_place(p, clip_id)->Some_0;
    let clips = model::track_at(p, (at.0, at.1)).clips;
    let c = model::clip_at(p, at);
    let changed = ClipV { speed, duration, ..c };
    lemma_in_with(p, at.0, at.1, clips.update(at.2, changed), x);
    if clips.update(at.2, changed).contains(x) {
        lemma_updated(p, at, changed, x);
        assert(clip_is(p, at.0, at.1, at.2, c));
        assert(in_project(p, c));
        assert(altered(a, c) == Some(changed));
    }
}

proof fn lemma_comes(p: ProjectV, a: ActionV, x: ClipV)
    requires
        edits(a),
        action::step(p, a) is Ok,
        in_project(action::step(p, a)->Ok_0.0, x),
    ensures
        comes(p, a, x),
        action::step(p, a)->Ok_0.0.assets == p.assets,
{
    match a {
        ActionV::InsertClip { track_id, clip } => {
            lemma_comes_insert_clip(p, track_id, clip, x);
        },
        ActionV::ReplaceClips { track_id, remove_ids, insert } => {
            lemma_comes_replace_clips(p, track_id, remove_ids, insert, x);
        },
        ActionV::RemoveClip { clip_id } => {
            lemma_comes_remove_clip(p, clip_id, x);
        },
        ActionV::SetClipBounds { clip_id, start, duration, src_in, src_out } => {
            lemma_comes_set_clip_bounds(p, clip_id, start, duration, src_in, src_out, x);
        },
        ActionV::MoveClipToTrack { clip_id, to_track, to_start } => {
            lemma_comes_move_clip_to_track(p, clip_id, to_track, to_start, x);
        },
        ActionV::SetClipSpeed { clip_id, speed, duration } => {
            lemma_comes_set_clip_speed(p, clip_id, speed, duration, x);
        },
        _ => {},
    }
}

/// Every clip after an action is brought, or has the identifier of one before.
pub proof fn lemma_id_comes(p: ProjectV, a: ActionV, x: ClipV)
    requires
        edits(a),
        action::step(p, a) is Ok,
        in_project(action::step(p, a)->Ok_0.0, x),
    ensures
        brought(a, x) || exists|y: ClipV| #[trigger] in_project(p, y) && y.id == x.id,
{
    lemma_comes(p, a, x);
}

proof fn lemma_updated(p: ProjectV, at: (int, int, int), changed: ClipV, x: ClipV)
    requires
        0 <= at.0 < p.sequences.len(),
        0 <= at.1 < p.sequences[at.0].tracks.len(),
        0 <= at.2 < p.sequences[at.0].tracks[at.1].clips.len(),
        p.sequences[at.0].tracks[at.1].clips.update(at.2, changed).contains(x),
    ensures
        x == changed || in_project(p, x),
{
    let clips = p.sequences[at.0].tracks[at.1].clips;
    let after = clips.update(at.2, changed);
    let k = choose|k: int| 0 <= k < after.len() && after[k] == x;
    if k != at.2 {
        assert(clips[k] == x);
        lemma_on_track(p, at.0, at.1, clips, x);
    }
}

/// Actions that fit keep the clips in order.
pub proof fn lemma_stays_stocked(p: ProjectV, a: ActionV)
    requires
        stocked(p),
        edits(a),
        fits(p, a),
        action::step(p, a) is Ok,
    ensures
        stocked(action::step(p, a)->Ok_0.0),
{
    reveal(stocked);
    let q = action::step(p, a)->Ok_0.0;
    assert forall|x: ClipV| #[trigger] in_project(q, x) implies validate::valid_clip(q, x) by {
        lemma_comes(p, a, x);
        assert(q.assets == p.assets);
        if in_project(p, x) {
            assert(validate::valid_clip(p, x));
        } else if !brought(a, x) {
            let y = choose|y: ClipV| #[trigger] in_project(p, y) && altered(a, y) == Some(x);
            assert(validate::valid_clip(p, y));
            assert(validate::valid_clip(p, x));
        } else {
            if let ActionV::ReplaceClips { track_id, remove_ids, insert } = a {
                let i = choose|i: int| 0 <= i < insert.len() && insert[i] == x;
                assert(validate::valid_clip(p, insert[i]));
            }
        }
    }
}

/// Actions keep a project a descendant, where what they bring is new to the
/// ancestor.
pub proof fn lemma_still_descends(q: ProjectV, p: ProjectV, a: ActionV)
    requires
        descends(q, p),
        edits(a),
        forall|x: ClipV| #[trigger] brought(a, x) ==> laws::fresh_clip(p, x.id),
        action::step(q, a) is Ok,
    ensures
        descends(action::step(q, a)->Ok_0.0, p),
{
    reveal(descends);
    let r = action::step(q, a)->Ok_0.0;
    lemma_assets(q, a);
    assert forall|x: ClipV, y: ClipV|
        #[trigger] in_project(r, x) && #[trigger] in_project(p, y) && x.id == y.id implies alike(
        x.payload,
        y.payload,
    ) by {
        lemma_comes(q, a, x);
        if brought(a, x) {
            let (s, t, i) = choose|s: int, t: int, i: int| #[trigger] clip_is(p, s, t, i, y);
            assert(laws::has_clip(p, s, t, i, x.id));
        } else if !in_project(q, x) {
            let z = choose|z: ClipV| #[trigger] in_project(q, z) && altered(a, z) == Some(x);
            assert(alike(z.payload, y.payload));
        }
    }
}

proof fn lemma_assets(p: ProjectV, a: ActionV)
    requires
        edits(a),
        action::step(p, a) is Ok,
    ensures
        action::step(p, a)->Ok_0.0.assets == p.assets,
{
}

/// A project descends from itself, where clips have identifiers of their own.
pub proof fn lemma_descends_self(p: ProjectV)
    requires
        laws::unique_clips(p),
    ensures
        descends(p, p),
{
    reveal(descends);
    assert forall|x: ClipV, y: ClipV|
        #[trigger] in_project(p, x) && #[trigger] in_project(p, y) && x.id == y.id implies alike(
        x.payload,
        y.payload,
    ) by {
        lemma_one_clip(p, x, y);
    }
}

/// Clips with one identifier are one clip.
pub proof fn lemma_one_clip(p: ProjectV, x: ClipV, y: ClipV)
    requires
        laws::unique_clips(p),
        in_project(p, x),
        in_project(p, y),
        x.id == y.id,
    ensures
        x == y,
{
    let (a, b, c) = choose|a: int, b: int, c: int| #[trigger] clip_is(p, a, b, c, x);
    let (d, e, f) = choose|d: int, e: int, f: int| #[trigger] clip_is(p, d, e, f, y);
    assert(laws::has_clip(p, a, b, c, x.id) && laws::has_clip(p, d, e, f, x.id));
}

/// What was to fit a project fits those that descend from it.
pub proof fn lemma_fits_later(q: ProjectV, p: ProjectV, a: ActionV)
    requires
        descends(q, p),
        will_fit(p, a),
    ensures
        fits(q, a),
{
    reveal(descends);
    match a {
        ActionV::SetClipBounds { clip_id, start, duration, src_in, src_out } => {
            let y = choose|y: ClipV|
                #[trigger] in_project(p, y) && y.id == clip_id && both_ends(y, src_in, src_out)
                    && validate::valid_source(p, with_part(y, src_in, src_out));
            assert forall|x: ClipV|
                #[trigger] in_project(q, x) && x.id == clip_id implies validate::valid_source(
                q,
                with_part(x, src_in, src_out),
            ) by {
                assert(alike(x.payload, y.payload));
            }
        },
        ActionV::ReplaceClips { track_id, remove_ids, insert } => {
            assert forall|i: int| 0 <= i < insert.len() implies validate::valid_clip(
                q,
                #[trigger] insert[i],
            ) by {
                assert(validate::valid_clip(p, insert[i]));
            }
        },
        _ => {},
    }
}

// ---- pieces ----

proof fn lemma_param(p: ParamV, offset: TimeUs)
    requires
        validate::valid_param(p),
        offset >= 0,
    ensures
        validate::valid_param(p.split_left(offset)),
        validate::valid_param(p.split_right(offset)),
{
    if let ParamV::Curve(keys) = p {
        keyframe::law_halves_meet(keys, offset);
    }
}

/// The time of an offset in a source does not point backwards.
pub proof fn lemma_scaled_forward(t: TimeUs, speed: Real)
    requires
        t >= 0,
        !speed.at_most(Real::of(0)),
    ensures
        ops::scaled_time(t, speed) >= 0,
{
    float::lemma_product_sign(t as int, speed);
}

/// Both halves of a clip in order are in order.
pub proof fn lemma_halves_stocked(p: ProjectV, c: ClipV, offset: TimeUs, left: Id, right: Id)
    requires
        validate::valid_clip(p, c),
        0 < offset < c.duration,
        !action::empty_source(ops::left_half(c, offset, left).payload),
    ensures
        validate::valid_clip(p, ops::left_half(c, offset, left)),
        validate::valid_clip(p, ops::right_half(c, offset, right)),
{
    let l = ops::left_half(c, offset, left);
    let r = ops::right_half(c, offset, right);
    lemma_param(c.transform.opacity, offset);
    lemma_param(c.transform.rotation, offset);
    lemma_param(c.transform.position.0, offset);
    lemma_param(c.transform.position.1, offset);
    lemma_param(c.transform.scale.0, offset);
    lemma_param(c.transform.scale.1, offset);
    lemma_param(c.audio.gain_db, offset);
    lemma_param(c.audio.pan, offset);
    assert forall|e: int, i: int|
        0 <= e < l.effects.len() && 0 <= i < l.effects[e].params.len() implies validate::valid_param(
        (#[trigger] l.effects[e].params[i]).1,
    ) by {
        assert(validate::valid_param(c.effects[e].params[i].1));
        assert(r.effects[e].params[i].1 == c.effects[e].params[i].1.split_right(offset));
        assert(l.effects[e].params[i].1 == c.effects[e].params[i].1.split_left(offset));
        lemma_param(c.effects[e].params[i].1, offset);
    }
    assert forall|e: int, i: int|
        0 <= e < r.effects.len() && 0 <= i < r.effects[e].params.len() implies validate::valid_param(
        (#[trigger] r.effects[e].params[i]).1,
    ) by {
        assert(validate::valid_param(c.effects[e].params[i].1));
        assert(r.effects[e].params[i].1 == c.effects[e].params[i].1.split_right(offset));
        assert(l.effects[e].params[i].1 == c.effects[e].params[i].1.split_left(offset));
        lemma_param(c.effects[e].params[i].1, offset);
    }
}

/// What an overwriting range leaves of a clip behind it is in order.
pub proof fn lemma_behind_stocked(p: ProjectV, c: ClipV, r: ClipV, delta: TimeUs, start: TimeUs)
    requires
        validate::valid_clip(p, r),
        !c.speed.at_most(Real::of(0)),
        delta >= 0,
        time::sooner(r.duration, delta) > 0,
        !action::empty_source(ops::advanced(r.payload, ops::scaled_time(delta, c.speed))),
    ensures
        validate::valid_clip(
            p,
            (ClipV {
                start,
                duration: time::sooner(r.duration, delta),
                payload: ops::advanced(r.payload, ops::scaled_time(delta, c.speed)),
                ..r
            }),
        ),
{
    lemma_scaled_forward(delta, c.speed);
}

/// A clip that is cut back at one side fits, as long as its source stays within
/// the material.
pub proof fn lemma_cut_back_fits(q: ProjectV, p: ProjectV, c: ClipV, track_id: Id, from: TimeUs, to: TimeUs, left: Id, right: Id)
    requires
        descends(q, p),
        laws::unique_clips(p),
        in_project(p, c),
        validate::valid_clip(p, c),
        c.start < to,
        !ops::wraps(c, from, to),
        action::step(q, ops::carve_action(c, track_id, from, to, left, right)) is Ok,
        in_reach(q, ops::carve_action(c, track_id, from, to, left, right)),
    ensures
        fits(q, ops::carve_action(c, track_id, from, to, left, right)),
{
    reveal(descends);
    let a = ops::carve_action(c, track_id, from, to, left, right);
    if let ActionV::SetClipBounds { clip_id, start, duration, src_in, src_out } = a {
        let delta = time::sooner(to, c.start);
        lemma_scaled_forward(delta, c.speed);
        laws::lemma_clip_found(q, clip_id);
        let at = model::clip_place(q, clip_id)->Some_0;
        assert(clip_is(q, at.0, at.1, at.2, model::clip_at(q, at)));
        assert(in_project(q, model::clip_at(q, at)));
        assert forall|x: ClipV|
            #[trigger] in_project(q, x) && x.id == clip_id implies validate::valid_source(
            q,
            with_part(x, src_in, src_out),
        ) by {
            assert(alike(x.payload, c.payload));
            assert(alike(model::clip_at(q, at).payload, c.payload));
        }
    }
}

/// A trim fits: it keeps to the material.
pub proof fn lemma_trim_fits(p: ProjectV, at: (int, int, int), left: bool, edge: TimeUs)
    requires
        stocked(p),
        laws::unique_clips(p),
        0 <= at.0 < p.sequences.len(),
        0 <= at.1 < p.sequences[at.0].tracks.len(),
        0 <= at.2 < p.sequences[at.0].tracks[at.1].clips.len(),
        ({
            let c = model::clip_at(p, at);
            action::step(p, ops::trim_action(c, left, edge, ops::material_length(p, c))) is Ok
        }),
    ensures
        ({
            let c = model::clip_at(p, at);
            let a = ops::trim_action(c, left, edge, ops::material_length(p, c));
            fits(p, a) && in_reach(p, a) && will_fit(p, a)
        }),
{
    reveal(stocked);
    let c = model::clip_at(p, at);
    let a = ops::trim_action(c, left, edge, ops::material_length(p, c));
    assert(clip_is(p, at.0, at.1, at.2, c));
    assert(in_project(p, c));
    assert(validate::valid_clip(p, c));
    laws::lemma_clip_found(p, c.id);
    let to = model::clip_place(p, c.id)->Some_0;
    assert(clip_is(p, to.0, to.1, to.2, model::clip_at(p, to)));
    assert(in_project(p, model::clip_at(p, to)));
    lemma_one_clip(p, c, model::clip_at(p, to));
    if let ActionV::SetClipBounds { clip_id, start, duration, src_in, src_out } = a {
        assert(validate::valid_source(p, with_part(c, src_in, src_out)));
        assert forall|x: ClipV| #[trigger] in_project(p, x) && x.id == clip_id implies x == c by {
            lemma_one_clip(p, x, c);
        }
    }
}

} // verus!
