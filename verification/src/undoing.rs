//! What holds of every editing operation: a plan leaves a sound project, and
//! undoing it restores exactly the project before it.

use vstd::prelude::*;

use crate::action;
use crate::action::ActionV;
use crate::error::ErrV;
use crate::history::EntryV;
use crate::float::Real;
use crate::ident::Id;
use crate::keyframe;
use crate::keyframe::ParamV;
use crate::laws;
use crate::model;
use crate::model::{ClipV, PayloadV, ProjectV};
use crate::ops;
use crate::ops::{InsertMode, PlanV};
use crate::ranges;
use crate::ranges::{Shift, Taken};
use crate::seqs;
use crate::stock;
use crate::store;
use crate::store::StoreV;
use crate::strmap;
use crate::time;
use crate::time::TimeUs;
use crate::validate;

verus! {

// ---- what an operation needs ----

/// Whether an action keeps clips within the range of times, and gives no clip
/// without material another place: what holds no material cannot be asked for
/// again.
pub open spec fn feasible(p: ProjectV, a: ActionV) -> bool {
    match a {
        ActionV::InsertClip { track_id, clip } => clip.start + clip.duration <= i64::MAX,
        ActionV::SetClipBounds { clip_id, start, duration, src_in, src_out } => {
            &&& start + duration <= i64::MAX
            &&& match model::clip_place(p, clip_id) {
                Some(at) => !action::empty_source(model::clip_at(p, at).payload),
                None => true,
            }
        },
        ActionV::MoveClipToTrack { clip_id, to_track, to_start } => match model::clip_place(p, clip_id) {
            Some(at) => to_start + model::clip_at(p, at).duration <= i64::MAX,
            None => true,
        },
        ActionV::SetClipSpeed { clip_id, speed, duration } => match model::clip_place(p, clip_id) {
            Some(at) => model::clip_at(p, at).start + duration <= i64::MAX,
            None => true,
        },
        _ => true,
    }
}

/// Whether each action of a list is feasible when its turn comes.
pub open spec fn feasible_run(p: ProjectV, actions: Seq<ActionV>) -> bool
    decreases actions.len(),
{
    if actions.len() == 0 {
        true
    } else {
        &&& feasible_run(p, actions.drop_last())
        &&& match laws::run(p, actions.drop_last()) {
            Err(e) => true,
            Ok(x) => feasible(x.0, actions.last()),
        }
    }
}

/// Whether a supply holds different identifiers, none of which a clip of the
/// project has.
pub open spec fn new_ids(p: ProjectV, ids: Seq<Id>) -> bool {
    &&& ids.no_duplicates()
    &&& forall|k: int| 0 <= k < ids.len() ==> laws::fresh_clip(p, #[trigger] ids[k])
}

/// Whether a plan is feasible, and a supply of new identifiers is enough for
/// it.
pub open spec fn ready(p: ProjectV, plan: PlanV, ids: Seq<Id>) -> bool {
    &&& feasible_run(p, plan.actions)
    &&& 2 * plan.actions.len() + 1 <= ids.len()
}

/// Whether the clips that replace others have identifiers of a supply.
pub open spec fn from_supply(actions: Seq<ActionV>, ids: Seq<Id>) -> bool {
    forall|i: int, x: ClipV|
        0 <= i < actions.len() && !(actions[i] is InsertClip) && #[trigger] stock::brought(
            actions[i],
            x,
        ) ==> ids.contains(x.id)
}

/// Whether a plan leads to a sound project, and its inverses in reverse order
/// lead back. Where the clips are in order by themselves, they stay so, as long
/// as no source is made to reach past its material.
pub open spec fn restores(p: ProjectV, plan: PlanV) -> bool {
    &&& laws::admissible_run(p, plan.actions)
    &&& laws::sound(plan.proj)
    &&& stock::stocked(p) && stock::in_reach_run(p, plan.actions) ==> stock::stocked(plan.proj)
    &&& forall|i: int| 0 <= i < plan.actions.len() ==> stock::edits(#[trigger] plan.actions[i])
    &&& match laws::run(p, plan.actions) {
        Ok(x) => x.0 == plan.proj && laws::run_back(x.0, x.1) == Ok::<ProjectV, ErrV>(p),
        Err(e) => false,
    }
}

// ---- identifiers that stay new ----

/// Whether an operation plans actions of this kind.
spec fn edits(a: ActionV) -> bool {
    match a {
        ActionV::InsertClip { .. } => true,
        ActionV::ReplaceClips { .. } => true,
        _ => quiet(a),
    }
}

/// Whether an action only takes clips off or gives them another place or
/// speed.
spec fn quiet(a: ActionV) -> bool {
    match a {
        ActionV::RemoveClip { .. } => true,
        ActionV::SetClipBounds { .. } => true,
        ActionV::MoveClipToTrack { .. } => true,
        ActionV::SetClipSpeed { .. } => true,
        _ => false,
    }
}

/// Whether an action brings a clip with an identifier.
spec fn brings(a: ActionV, id: Id) -> bool {
    match a {
        ActionV::InsertClip { track_id, clip } => clip.id == id,
        ActionV::ReplaceClips { track_id, remove_ids, insert } => exists|i: int|
            0 <= i < insert.len() && (#[trigger] insert[i]).id == id,
        _ => false,
    }
}

spec fn without(clips: Seq<ClipV>, id: Id) -> bool {
    forall|c: ClipV| #[trigger] clips.contains(c) ==> c.id != id
}

proof fn lemma_fresh_without(p: ProjectV, s: int, t: int, id: Id)
    requires
        laws::fresh_clip(p, id),
        0 <= s < p.sequences.len(),
        0 <= t < p.sequences[s].tracks.len(),
    ensures
        without(model::track_at(p, (s, t)).clips, id),
{
    let clips = model::track_at(p, (s, t)).clips;
    assert forall|c: ClipV| #[trigger] clips.contains(c) implies c.id != id by {
        let k = choose|k: int| 0 <= k < clips.len() && clips[k] == c;
        assert(!laws::has_clip(p, s, t, k, id));
    }
}

proof fn lemma_fresh_with(p: ProjectV, s: int, t: int, clips: Seq<ClipV>, id: Id)
    requires
        laws::fresh_clip(p, id),
        0 <= s < p.sequences.len(),
        0 <= t < p.sequences[s].tracks.len(),
        without(clips, id),
    ensures
        laws::fresh_clip(model::with_clips(p, (s, t), clips), id),
{
    laws::lemma_with_clips(p, s, t, clips);
    let q = model::with_clips(p, (s, t), clips);
    assert forall|a: int, b: int, c: int| !#[trigger] laws::has_clip(q, a, b, c, id) by {
        if a == s && b == t && 0 <= c < clips.len() {
            assert(clips.contains(clips[c]));
        }
        assert(!laws::has_clip(p, a, b, c, id));
    }
}

proof fn lemma_take_off_without(clips: Seq<ClipV>, ids: Seq<Id>, id: Id)
    requires
        without(clips, id),
        action::take_off(clips, ids) is Ok,
    ensures
        without(action::take_off(clips, ids)->Ok_0.0, id),
    decreases ids.len(),
{
    if ids.len() > 0 {
        lemma_take_off_without(clips, ids.drop_last(), id);
        let x = action::take_off(clips, ids.drop_last())->Ok_0.0;
        seqs::lemma_pos(x, ids.last());
        let i = seqs::pos(x, ids.last()) as int;
        let r = x.remove(i);
        assert forall|c: ClipV| #[trigger] r.contains(c) implies c.id != id by {
            let k = choose|k: int| 0 <= k < r.len() && r[k] == c;
            assert(x.contains(if k < i {
                x[k]
            } else {
                x[k + 1]
            }));
        }
    }
}

proof fn lemma_put_all_without(clips: Seq<ClipV>, list: Seq<ClipV>, id: Id)
    requires
        without(clips, id),
        forall|i: int| 0 <= i < list.len() ==> (#[trigger] list[i]).id != id,
    ensures
        without(action::put_all(clips, list), id),
    decreases list.len(),
{
    if list.len() > 0 {
        assert forall|i: int| 0 <= i < list.drop_last().len() implies (
        #[trigger] list.drop_last()[i]).id != id by {
            assert(list.drop_last()[i] == list[i]);
        }
        lemma_put_all_without(clips, list.drop_last(), id);
        laws::lemma_put_in_contains(action::put_all(clips, list.drop_last()), list.last());
    }
}

proof fn lemma_update_without(clips: Seq<ClipV>, k: int, c: ClipV, id: Id)
    requires
        without(clips, id),
        0 <= k < clips.len(),
        c.id != id,
    ensures
        without(clips.update(k, c), id),
{
    let r = clips.update(k, c);
    assert forall|x: ClipV| #[trigger] r.contains(x) implies x.id != id by {
        let i = choose|i: int| 0 <= i < r.len() && r[i] == x;
        if i != k {
            assert(clips.contains(clips[i]));
        }
    }
}

proof fn lemma_remove_without(clips: Seq<ClipV>, k: int, id: Id)
    requires
        without(clips, id),
        0 <= k < clips.len(),
    ensures
        without(clips.remove(k), id),
{
    let r = clips.remove(k);
    assert forall|x: ClipV| #[trigger] r.contains(x) implies x.id != id by {
        let i = choose|i: int| 0 <= i < r.len() && r[i] == x;
        assert(clips.contains(if i < k {
            clips[i]
        } else {
            clips[i + 1]
        }));
    }
}

proof fn lemma_still_fresh(p: ProjectV, a: ActionV, id: Id)
    requires
        laws::fresh_clip(p, id),
        edits(a),
        !brings(a, id),
        action::step(p, a) is Ok,
    ensures
        laws::fresh_clip(action::step(p, a)->Ok_0.0, id),
{
    match a {
        ActionV::InsertClip { track_id, clip } => {
            laws::lemma_track_found(p, track_id);
            let at = model::track_place(p, track_id)->Some_0;
            let clips = model::track_at(p, at).clips;
            lemma_fresh_without(p, at.0, at.1, id);
            laws::lemma_put_in_contains(clips, clip);
            lemma_fresh_with(p, at.0, at.1, action::put_in(clips, clip), id);
        },
        ActionV::ReplaceClips { track_id, remove_ids, insert } => {
            laws::lemma_track_found(p, track_id);
            let at = model::track_place(p, track_id)->Some_0;
            let clips = model::track_at(p, at).clips;
            lemma_fresh_without(p, at.0, at.1, id);
            lemma_take_off_without(clips, remove_ids, id);
            let rest = action::take_off(clips, remove_ids)->Ok_0.0;
            lemma_put_all_without(rest, insert, id);
            lemma_fresh_with(p, at.0, at.1, action::put_all(rest, insert), id);
        },
        ActionV::RemoveClip { clip_id } => {
            laws::lemma_clip_found(p, clip_id);
            let at = model::clip_place(p, clip_id)->Some_0;
            let clips = model::track_at(p, (at.0, at.1)).clips;
            lemma_fresh_without(p, at.0, at.1, id);
            lemma_remove_without(clips, at.2, id);
            lemma_fresh_with(p, at.0, at.1, clips.remove(at.2), id);
        },
        ActionV::SetClipBounds { clip_id, start, duration, src_in, src_out } => {
            laws::lemma_clip_found(p, clip_id);
            let at = model::clip_place(p, clip_id)->Some_0;
            let clips = model::track_at(p, (at.0, at.1)).clips;
            let c = model::clip_at(p, at);
            let payload = action::with_source(c.payload, src_in, src_out);
            let changed = ClipV { start, duration, payload, ..c };
            lemma_fresh_without(p, at.0, at.1, id);
            assert(clips.contains(c));
            lemma_update_without(clips, at.2, changed, id);
            laws::lemma_sorted_contains(clips.update(at.2, changed));
            lemma_fresh_with(p, at.0, at.1, action::sorted_clips(clips.update(at.2, changed)), id);
        },
        ActionV::MoveClipToTrack { clip_id, to_track, to_start } => {
            laws::lemma_clip_found(p, clip_id);
            laws::lemma_track_found(p, to_track);
            let at = model::clip_place(p, clip_id)->Some_0;
            let to = model::track_place(p, to_track)->Some_0;
            let clips = model::track_at(p, (at.0, at.1)).clips;
            let c = model::clip_at(p, at);
            lemma_fresh_without(p, at.0, at.1, id);
            assert(clips.contains(c));
            lemma_remove_without(clips, at.2, id);
            laws::lemma_with_clips(p, at.0, at.1, clips.remove(at.2));
            let q = model::with_clips(p, (at.0, at.1), clips.remove(at.2));
            lemma_fresh_with(p, at.0, at.1, clips.remove(at.2), id);
            lemma_fresh_without(q, to.0, to.1, id);
            let target = model::track_at(q, to).clips;
            let moved = ClipV { start: to_start, ..c };
            laws::lemma_put_in_contains(target, moved);
            lemma_fresh_with(q, to.0, to.1, action::put_in(target, moved), id);
        },
        ActionV::SetClipSpeed { clip_id, speed, duration } => {
            laws::lemma_clip_found(p, clip_id);
            let at = model::clip_place(p, clip_id)->Some_0;
            let clips = model::track_at(p, (at.0, at.1)).clips;
            let c = model::clip_at(p, at);
            lemma_fresh_without(p, at.0, at.1, id);
            assert(clips.contains(c));
            let changed = ClipV { speed, duration, ..c };
            lemma_update_without(clips, at.2, changed, id);
            lemma_fresh_with(p, at.0, at.1, clips.update(at.2, changed), id);
        },
        _ => {},
    }
}

// ---- the halves of a clip ----

proof fn lemma_param_halves(p: ParamV, offset: TimeUs)
    requires
        p.tidy(),
        offset >= 0,
    ensures
        p.split_left(offset).tidy(),
        p.split_right(offset).tidy(),
{
    if let ParamV::Curve(keys) = p {
        if keys.len() > 0 {
            keyframe::law_halves_meet(keys, offset);
        }
    }
}

proof fn lemma_params_halves(m: Seq<(Seq<char>, ParamV)>, offset: TimeUs)
    requires
        strmap::tidy_params(m),
        offset >= 0,
    ensures
        strmap::tidy_params(strmap::left_params(m, offset)),
        strmap::tidy_params(strmap::right_params(m, offset)),
{
    assert forall|i: int| 0 <= i < m.len() implies (#[trigger] strmap::left_params(
        m,
        offset,
    )[i]).1.tidy() && strmap::right_params(m, offset)[i].1.tidy() by {
        assert(m[i].1.tidy());
        lemma_param_halves(m[i].1, offset);
    }
    assert forall|i: int| 0 <= i < m.len() implies (#[trigger] strmap::right_params(
        m,
        offset,
    )[i]).1.tidy() by {
        assert(strmap::left_params(m, offset)[i].1.tidy());
    }
}

/// The halves of a sound clip that is cut inside are sound and take up the time
/// of the clip, and those of a tidy one are tidy.
pub proof fn law_halves_are_sound(c: ClipV, offset: TimeUs, left: Id, right: Id)
    requires
        laws::sound_clip(c),
        0 < offset < c.duration,
    ensures
        laws::sound_clip(ops::left_half(c, offset, left)),
        laws::sound_clip(ops::right_half(c, offset, right)),
        ops::left_half(c, offset, left).start == c.start,
        ops::left_half(c, offset, left).finish() == ops::right_half(c, offset, right).start,
        ops::right_half(c, offset, right).finish() == c.finish(),
        laws::tidy_clip(c) ==> laws::tidy_clip(ops::left_half(c, offset, left)),
        laws::tidy_clip(c) ==> laws::tidy_clip(ops::right_half(c, offset, right)),
{
    if laws::tidy_clip(c) {
        lemma_halves_tidy(c, offset, left, right);
    }
}

proof fn lemma_halves_tidy(c: ClipV, offset: TimeUs, left: Id, right: Id)
    requires
        laws::tidy_clip(c),
        offset >= 0,
    ensures
        laws::tidy_clip(ops::left_half(c, offset, left)),
        laws::tidy_clip(ops::right_half(c, offset, right)),
{
    let l = ops::left_half(c, offset, left);
    let r = ops::right_half(c, offset, right);
    let t = c.transform;
    lemma_param_halves(t.position.0, offset);
    lemma_param_halves(t.position.1, offset);
    lemma_param_halves(t.scale.0, offset);
    lemma_param_halves(t.scale.1, offset);
    lemma_param_halves(t.rotation, offset);
    lemma_param_halves(t.crop.0, offset);
    lemma_param_halves(t.crop.1, offset);
    lemma_param_halves(t.crop.2, offset);
    lemma_param_halves(t.crop.3, offset);
    lemma_param_halves(t.opacity, offset);
    lemma_param_halves(c.audio.gain_db, offset);
    lemma_param_halves(c.audio.pan, offset);
    assert forall|i: int| 0 <= i < l.effects.len() implies strmap::tidy_params(
        (#[trigger] l.effects[i]).params,
    ) by {
        lemma_params_halves(c.effects[i].params, offset);
    }
    assert forall|i: int| 0 <= i < r.effects.len() implies strmap::tidy_params(
        (#[trigger] r.effects[i]).params,
    ) by {
        lemma_params_halves(c.effects[i].params, offset);
    }
}

// ---- plans step by step ----

/// What is known of a feasible plan: its actions are admissible, it shows a
/// sound project, and neither what is left of the supply nor the kept
/// identifiers are in use.
spec fn settled(p: ProjectV, plan: PlanV, ids: Seq<Id>, used: nat, kept: Seq<Id>) -> bool {
    &&& laws::admissible_run(p, plan.actions)
    &&& laws::sound(plan.proj)
    &&& rooted(p, plan) ==> stock::stocked(plan.proj)
    &&& forall|i: int| 0 <= i < plan.actions.len() ==> stock::edits(#[trigger] plan.actions[i])
    &&& from_supply(plan.actions, ids)
    &&& forall|k: int| used <= k < ids.len() ==> laws::fresh_clip(plan.proj, #[trigger] ids[k])
    &&& forall|i: int| 0 <= i < kept.len() ==> laws::fresh_clip(plan.proj, #[trigger] kept[i])
    &&& forall|i: int, k: int|
        0 <= i < kept.len() && used <= k < ids.len() ==> #[trigger] kept[i] != #[trigger] ids[k]
}

/// Whether the clips of a project are in order, and a plan keeps to their
/// material.
spec fn rooted(p: ProjectV, plan: PlanV) -> bool {
    stock::stocked(p) && stock::in_reach_run(p, plan.actions)
}

/// Whether a plan is feasible so far, and the supply has held what was taken.
spec fn going(p: ProjectV, plan: PlanV, ids: Seq<Id>, used: nat) -> bool {
    feasible_run(p, plan.actions) && used <= ids.len()
}

/// The state of an operation: the plan replays, two identifiers at most were
/// taken for each action, and a feasible plan is settled.
#[verifier::opaque]
spec fn careful(p: ProjectV, plan: PlanV, ids: Seq<Id>, used: nat, kept: Seq<Id>) -> bool {
    &&& ops::replays(p, plan)
    &&& used <= 2 * plan.actions.len() + 1
    &&& going(p, plan, ids, used) ==> settled(p, plan, ids, used, kept)
}

proof fn lemma_start(p: ProjectV, ids: Seq<Id>, used: nat, kept: Seq<Id>)
    requires
        laws::sound(p),
        new_ids(p, ids),
        used <= 1,
        forall|i: int| 0 <= i < kept.len() ==> laws::fresh_clip(p, #[trigger] kept[i]),
        forall|i: int| 0 <= i < kept.len() ==> !ids.contains(#[trigger] kept[i]),
    ensures
        careful(p, ops::start_plan(p), ids, used, kept),
{
    reveal(ops::replays);
    reveal(careful);
    assert forall|i: int, k: int|
        0 <= i < kept.len() && used <= k < ids.len() implies #[trigger] kept[i]
        != #[trigger] ids[k] by {
        assert(ids.contains(ids[k]));
    }
}

proof fn lemma_end(p: ProjectV, plan: PlanV, ids: Seq<Id>, used: nat, kept: Seq<Id>)
    requires
        laws::sound(p),
        careful(p, plan, ids, used, kept),
        going(p, plan, ids, used) || ready(p, plan, ids),
    ensures
        restores(p, plan),
        from_supply(plan.actions, ids),
{
    reveal(ops::replays);
    reveal(careful);
    laws::law_transaction_undoes(p, plan.actions);
}

proof fn lemma_more_supply(actions: Seq<ActionV>, a: ActionV, ids: Seq<Id>)
    requires
        from_supply(actions, ids),
        a is InsertClip || forall|id: Id|
            brings(a, id) ==> (exists|k: int| 0 <= k < ids.len() && #[trigger] ids[k] == id),
    ensures
        from_supply(actions.push(a), ids),
{
    let all = actions.push(a);
    assert forall|i: int, x: ClipV|
        0 <= i < all.len() && !(all[i] is InsertClip) && #[trigger] stock::brought(
            all[i],
            x,
        ) implies ids.contains(x.id) by {
        if i < actions.len() {
            assert(all[i] == actions[i]);
            assert(stock::brought(actions[i], x));
        } else {
            if let ActionV::ReplaceClips { track_id, remove_ids, insert } = a {
                let k = choose|k: int| 0 <= k < insert.len() && insert[k] == x;
                assert(insert[k].id == x.id);
            }
            assert(brings(a, x.id));
            let k = choose|k: int| 0 <= k < ids.len() && #[trigger] ids[k] == x.id;
            assert(ids.contains(ids[k]));
        }
    }
}

/// One more action that is admissible where the plan so far is settled.
proof fn lemma_next(p: ProjectV, plan: PlanV, a: ActionV, ids: Seq<Id>, used: nat, kept: Seq<Id>, used2: nat)
    requires
        careful(p, plan, ids, used, kept),
        ops::planned(plan, a) is Ok,
        edits(a),
        used <= used2 <= used + 2,
        forall|id: Id|
            brings(a, id) ==> (exists|k: int|
                used <= k < used2 && 0 <= k < ids.len() && #[trigger] ids[k] == id),
        going(p, plan, ids, used) && settled(p, plan, ids, used, kept) && feasible(plan.proj, a)
            && used2 <= ids.len() ==> laws::admissible(plan.proj, a),
        going(p, plan, ids, used) && settled(p, plan, ids, used, kept) && feasible(plan.proj, a)
            && used2 <= ids.len() && rooted(p, plan) && stock::stocked(plan.proj) && stock::in_reach(plan.proj, a)
            ==> stock::fits(plan.proj, a),
        ids.no_duplicates(),
    ensures
        careful(p, ops::planned(plan, a)->Ok_0, ids, used2, kept),
        going(p, ops::planned(plan, a)->Ok_0, ids, used2) ==> going(p, plan, ids, used),
        rooted(p, ops::planned(plan, a)->Ok_0) ==> rooted(p, plan),
{
    reveal(ops::planned);
    reveal(ops::replays);
    reveal(careful);
    let q = ops::planned(plan, a)->Ok_0;
    assert(q.actions.drop_last() =~= plan.actions);
    assert(q.actions.last() == a);
    if going(p, q, ids, used2) {
        assert(laws::admissible(plan.proj, a));
        laws::law_inverse_restores(plan.proj, a);
        assert(laws::sound(q.proj)) by {
            reveal(laws::undone);
        }
        if rooted(p, q) {
            stock::lemma_stays_stocked(plan.proj, a);
        }
        assert(from_supply(q.actions, ids)) by {
            lemma_more_supply(plan.actions, a, ids);
        }
        assert forall|k: int| used2 <= k < ids.len() implies laws::fresh_clip(
            q.proj,
            #[trigger] ids[k],
        ) by {
            if brings(a, ids[k]) {
                let j = choose|j: int|
                    used <= j < used2 && 0 <= j < ids.len() && #[trigger] ids[j] == ids[k];
                assert(false);
            }
            lemma_still_fresh(plan.proj, a, ids[k]);
        }
        assert forall|i: int| 0 <= i < kept.len() implies laws::fresh_clip(
            q.proj,
            #[trigger] kept[i],
        ) by {
            if brings(a, kept[i]) {
                let j = choose|j: int|
                    used <= j < used2 && 0 <= j < ids.len() && #[trigger] ids[j] == kept[i];
                assert(false);
            }
            lemma_still_fresh(plan.proj, a, kept[i]);
        }
    }
}

proof fn lemma_quiet(p: ProjectV, plan: PlanV, a: ActionV, ids: Seq<Id>, used: nat, kept: Seq<Id>)
    requires
        careful(p, plan, ids, used, kept),
        ops::planned(plan, a) is Ok,
        quiet(a),
        stock::leaves_sources(a) || (going(p, plan, ids, used) && rooted(p, plan)
            && stock::in_reach(plan.proj, a) ==> stock::fits(plan.proj, a)),
        ids.no_duplicates(),
    ensures
        careful(p, ops::planned(plan, a)->Ok_0, ids, used, kept),
        going(p, ops::planned(plan, a)->Ok_0, ids, used) ==> going(p, plan, ids, used),
        rooted(p, ops::planned(plan, a)->Ok_0) ==> rooted(p, plan),
{
    if stock::leaves_sources(a) && stock::stocked(plan.proj) {
        stock::lemma_leaving_fits(plan.proj, a);
    }
    lemma_next(p, plan, a, ids, used, kept, used);
}

proof fn lemma_quiet_all(p: ProjectV, plan: PlanV, list: Seq<ActionV>, ids: Seq<Id>, used: nat, kept: Seq<Id>)
    requires
        careful(p, plan, ids, used, kept),
        ops::planned_all(plan, list) is Ok,
        forall|i: int| 0 <= i < list.len() ==> stock::leaves_sources(#[trigger] list[i]),
        ids.no_duplicates(),
    ensures
        careful(p, ops::planned_all(plan, list)->Ok_0, ids, used, kept),
        going(p, ops::planned_all(plan, list)->Ok_0, ids, used) ==> going(p, plan, ids, used),
    decreases list.len(),
{
    if list.len() > 0 {
        assert(stock::leaves_sources(list[0]));
        lemma_quiet(p, plan, list[0], ids, used, kept);
        assert forall|i: int| 0 <= i < list.drop_first().len() implies stock::leaves_sources(
            #[trigger] list.drop_first()[i],
        ) by {
            assert(list.drop_first()[i] == list[i + 1]);
        }
        lemma_quiet_all(
            p,
            ops::planned(plan, list[0])->Ok_0,
            list.drop_first(),
            ids,
            used,
            kept,
        );
    }
}

/// A clip of a sound project, replaced by two sound pieces with the next two
/// identifiers of the supply.
#[verifier::spinoff_prover]
proof fn lemma_pieces(
    p: ProjectV,
    plan: PlanV,
    track_id: Id,
    clip_id: Id,
    l: ClipV,
    r: ClipV,
    ids: Seq<Id>,
    used: nat,
    kept: Seq<Id>,
)
    requires
        careful(p, plan, ids, used, kept),
        ids.no_duplicates(),
        ops::planned(
            plan,
            (ActionV::ReplaceClips { track_id, remove_ids: seq![clip_id], insert: seq![l, r] }),
        ) is Ok,
        used + 2 <= ids.len() ==> l.id == ids[used as int] && r.id == ids[used as int + 1],
        going(p, plan, ids, used) && laws::sound(plan.proj) ==> laws::sound_clip(l)
            && laws::sound_clip(r),
        going(p, plan, ids, used) && laws::sound(plan.proj) && !action::empty_source(l.payload)
            && !action::empty_source(r.payload) && rooted(p, plan) && stock::stocked(plan.proj)
            ==> validate::valid_clip(plan.proj, l) && validate::valid_clip(plan.proj, r),
    ensures
        ({
            let q = ops::planned(
                plan,
                (ActionV::ReplaceClips { track_id, remove_ids: seq![clip_id], insert: seq![l, r] }),
            )->Ok_0;
            &&& careful(p, q, ids, used + 2, kept)
            &&& going(p, q, ids, used + 2) ==> going(p, plan, ids, used)
            &&& rooted(p, q) ==> rooted(p, plan)
        }),
{
    let insert = seq![l, r];
    let a = ActionV::ReplaceClips { track_id, remove_ids: seq![clip_id], insert };
    if used + 2 <= ids.len() {
        assert forall|id: Id| brings(a, id) implies (exists|k: int|
            used <= k < used + 2 && 0 <= k < ids.len() && #[trigger] ids[k] == id) by {
            let i = choose|i: int| 0 <= i < insert.len() && (#[trigger] insert[i]).id == id;
            assert(ids[used + i] == id);
        }
        if settled(p, plan, ids, used, kept) && feasible(plan.proj, a) && going(p, plan, ids, used) {
            assert(insert[0] == l && insert[1] == r);
            assert(laws::fresh_clip(plan.proj, ids[used as int]));
            assert(laws::fresh_clip(plan.proj, ids[used as int + 1]));
        }
        lemma_next(p, plan, a, ids, used, kept, used + 2);
    } else {
        reveal(ops::planned);
        reveal(ops::replays);
        reveal(careful);
        let q = ops::planned(plan, a)->Ok_0;
        assert(q.actions.drop_last() =~= plan.actions);
        assert(q.actions.last() == a);
    }
}

// ---- cutting ----

proof fn lemma_clips_on(p: ProjectV, track_id: Id, c: ClipV)
    requires
        laws::sound(p),
        ops::clips_on(p, track_id).contains(c),
    ensures
        laws::sound_clip(c),
{
    laws::lemma_track_found(p, track_id);
    let at = model::track_place(p, track_id)->Some_0;
    let t = model::track_at(p, at);
    assert(laws::sound_sequence(p, p.sequences[at.0]));
    assert(laws::sound_track(p, p.sequences[at.0].tracks[at.1]));
    let k = choose|k: int| 0 <= k < t.clips.len() && t.clips[k] == c;
    assert(laws::sound_clip(t.clips[k]));
}

proof fn lemma_in_project_on(p: ProjectV, track_id: Id, c: ClipV)
    requires
        ops::clips_on(p, track_id).contains(c),
    ensures
        stock::in_project(p, c),
{
    laws::lemma_track_found(p, track_id);
    let at = model::track_place(p, track_id)->Some_0;
    let t = model::track_at(p, at);
    let k = choose|k: int| 0 <= k < t.clips.len() && t.clips[k] == c;
    assert(stock::clip_is(p, at.0, at.1, k, c));
}

proof fn lemma_stocked_on(p: ProjectV, track_id: Id, c: ClipV)
    requires
        stock::stocked(p),
        ops::clips_on(p, track_id).contains(c),
    ensures
        validate::valid_clip(p, c),
{
    reveal(stock::stocked);
    lemma_in_project_on(p, track_id, c);
}

proof fn lemma_crossing(clips: Seq<ClipV>, t: TimeUs)
    requires
        ops::crossing_in(clips, t) is Some,
    ensures
        ({
            let c = ops::crossing_in(clips, t)->Some_0;
            clips.contains(c) && c.start < t && t < c.finish()
        }),
    decreases clips.len(),
{
    if clips.len() > 0 {
        if clips[0].start < t && t < clips[0].finish() {
            assert(clips.contains(clips[0]));
        } else {
            lemma_crossing(clips.drop_first(), t);
            let c = ops::crossing_in(clips, t)->Some_0;
            let k = choose|k: int| 0 <= k < clips.drop_first().len() && clips.drop_first()[k] == c;
            assert(clips[k + 1] == c);
        }
    }
}

proof fn lemma_cut_tracks(
    p: ProjectV,
    plan: PlanV,
    track_ids: Seq<Id>,
    t: TimeUs,
    ids: Seq<Id>,
    used: nat,
    kept: Seq<Id>,
)
    requires
        careful(p, plan, ids, used, kept),
        ids.no_duplicates(),
        ops::cut_tracks(plan, track_ids, t, ids, used) is Ok,
    ensures
        ({
            let x = ops::cut_tracks(plan, track_ids, t, ids, used)->Ok_0;
            careful(p, x.0, ids, x.1, kept) && (going(p, x.0, ids, x.1) ==> going(p, plan, ids, used))
        }),
    decreases track_ids.len(),
{
    if track_ids.len() > 0 {
        let clips = ops::clips_on(plan.proj, track_ids[0]);
        match ops::crossing_in(clips, t) {
            None => {
                lemma_cut_tracks(p, plan, track_ids.drop_first(), t, ids, used, kept);
            },
            Some(c) => {
                lemma_crossing(clips, t);
                let left = ids[used as int];
                let right = ids[used as int + 1];
                let offset = time::sooner(t, c.start);
                let l = ops::left_half(c, offset, left);
                let r = ops::right_half(c, offset, right);
                if laws::sound(plan.proj) {
                    lemma_clips_on(plan.proj, track_ids[0], c);
                    law_halves_are_sound(c, offset, left, right);
                    if stock::stocked(plan.proj) && !action::empty_source(l.payload)
                        && !action::empty_source(r.payload) {
                        lemma_stocked_on(plan.proj, track_ids[0], c);
                        stock::lemma_halves_stocked(plan.proj, c, offset, left, right);
                    }
                }
                lemma_pieces(p, plan, track_ids[0], c.id, l, r, ids, used, kept);
                let q = ops::planned(plan, ops::cut_action(track_ids[0], c, t, left, right))->Ok_0;
                lemma_cut_tracks(p, q, track_ids.drop_first(), t, ids, used + 2, kept);
            },
        }
    }
}

#[verifier::rlimit(60)]
#[verifier::spinoff_prover]
proof fn lemma_cut_one(
    p: ProjectV,
    plan: PlanV,
    used: nat,
    primary: Option<(Id, Id)>,
    gid: Id,
    clip_id: Id,
    t: TimeUs,
    new_group: Option<Id>,
    ids: Seq<Id>,
    kept: Seq<Id>,
)
    requires
        careful(p, plan, ids, used, kept),
        ids.no_duplicates(),
        ops::cut_one(plan, used, primary, gid, clip_id, t, new_group, ids) is Ok,
    ensures
        ({
            let x = ops::cut_one(plan, used, primary, gid, clip_id, t, new_group, ids)->Ok_0;
            careful(p, x.0, ids, x.1, kept) && (going(p, x.0, ids, x.1) ==> going(p, plan, ids, used))
        }),
{
    laws::lemma_clip_found(plan.proj, gid);
    if let Some(at) = model::clip_place(plan.proj, gid) {
        let c = model::clip_at(plan.proj, at);
        if c.start < t && t < c.finish() {
            let track_id = model::track_at(plan.proj, (at.0, at.1)).id;
            let left = ids[used as int];
            let right = ids[used as int + 1];
            let offset = time::sooner(t, c.start);
            let l = ops::left_half(c, offset, left);
            let half = ops::right_half(c, offset, right);
            let r = match new_group {
                Some(g) => ClipV { group: Some(g), ..half },
                None => half,
            };
            if laws::sound(plan.proj) {
                lemma_clip_sound(plan.proj, at);
                lemma_linked_halves(c, t, left, right, r.group);
                assert(r == (ClipV { group: r.group, ..half }));
                if stock::stocked(plan.proj) && !action::empty_source(l.payload)
                    && !action::empty_source(r.payload) {
                    reveal(stock::stocked);
                    assert(stock::clip_is(plan.proj, at.0, at.1, at.2, c));
                    assert(stock::in_project(plan.proj, c));
                    law_halves_are_sound(c, offset, left, right);
                    stock::lemma_halves_stocked(plan.proj, c, offset, left, right);
                }
            }
            assert(ops::linked_cut(track_id, c, t, new_group, left, right)
                == (ActionV::ReplaceClips { track_id, remove_ids: seq![c.id], insert: seq![l, r] }));
            lemma_pieces(p, plan, track_id, c.id, l, r, ids, used, kept);
        }
    }
}

proof fn lemma_clip_sound(p: ProjectV, at: (int, int, int))
    requires
        laws::sound(p),
        0 <= at.0 < p.sequences.len(),
        0 <= at.1 < p.sequences[at.0].tracks.len(),
        0 <= at.2 < p.sequences[at.0].tracks[at.1].clips.len(),
    ensures
        laws::sound_clip(model::clip_at(p, at)),
{
    assert(laws::sound_sequence(p, p.sequences[at.0]));
    assert(laws::sound_track(p, p.sequences[at.0].tracks[at.1]));
    assert(laws::sound_clip(p.sequences[at.0].tracks[at.1].clips[at.2]));
}

proof fn lemma_linked_halves(c: ClipV, t: TimeUs, left: Id, right: Id, group: Option<Id>)
    requires
        laws::sound_clip(c),
        c.start < t < c.finish(),
    ensures
        laws::sound_clip(ops::left_half(c, time::sooner(t, c.start), left)),
        laws::sound_clip(
            ClipV { group, ..ops::right_half(c, time::sooner(t, c.start), right) },
        ),
{
    law_halves_are_sound(c, time::sooner(t, c.start), left, right);
}

proof fn lemma_cut_linked(
    p: ProjectV,
    plan: PlanV,
    used: nat,
    primary: Option<(Id, Id)>,
    group: Seq<Id>,
    clip_id: Id,
    t: TimeUs,
    new_group: Option<Id>,
    ids: Seq<Id>,
    kept: Seq<Id>,
)
    requires
        careful(p, plan, ids, used, kept),
        ids.no_duplicates(),
        ops::cut_linked(plan, used, primary, group, clip_id, t, new_group, ids) is Ok,
    ensures
        ({
            let x = ops::cut_linked(plan, used, primary, group, clip_id, t, new_group, ids)->Ok_0;
            careful(p, x.0, ids, x.1, kept) && (going(p, x.0, ids, x.1) ==> going(p, plan, ids, used))
        }),
    decreases group.len(),
{
    if group.len() > 0 {
        lemma_cut_one(p, plan, used, primary, group[0], clip_id, t, new_group, ids, kept);
        let x = ops::cut_one(plan, used, primary, group[0], clip_id, t, new_group, ids)->Ok_0;
        lemma_cut_linked(
            p,
            x.0,
            x.1,
            x.2,
            group.drop_first(),
            clip_id,
            t,
            new_group,
            ids,
            kept,
        );
    }
}

/// A split of a clip leaves a sound project and can be undone, where the
/// identifiers are new.
pub proof fn law_split_restores(p: ProjectV, clip_id: Id, t: TimeUs, ids: Seq<Id>)
    requires
        laws::sound(p),
        new_ids(p, ids),
    ensures
        match ops::split_spec(p, clip_id, t, ids) {
            Ok(x) => ready(p, x.0, ids) ==> restores(p, x.0) && from_supply(x.0.actions, ids),
            Err(e) => true,
        },
{
    if let Ok(x) = ops::split_spec(p, clip_id, t, ids) {
        let at = model::clip_place(p, clip_id)->Some_0;
        let q = time::quantized(t, p.sequences[at.0].fps);
        let group = ops::linked(p, clip_id);
        let used: nat = if group.len() > 1 {
            1
        } else {
            0
        };
        let new_group = if group.len() > 1 {
            Some(ids[0])
        } else {
            None
        };
        let none = Seq::<Id>::empty();
        lemma_start(p, ids, used, none);
        lemma_cut_linked(
            p,
            ops::start_plan(p),
            used,
            None,
            group,
            clip_id,
            q,
            new_group,
            ids,
            none,
        );
        let y = ops::cut_linked(
            ops::start_plan(p),
            used,
            None,
            group,
            clip_id,
            q,
            new_group,
            ids,
        )->Ok_0;
        if ready(p, x.0, ids) {
            lemma_end(p, x.0, ids, y.1, none);
        }
    }
}

// ---- deleting, trimming and speed ----

/// Whether an action is feasible in every project.
spec fn sure(a: ActionV) -> bool {
    match a {
        ActionV::RemoveClip { .. } => true,
        ActionV::SetClipBounds { clip_id, start, duration, src_in, src_out } => start + duration
            <= i64::MAX,
        _ => false,
    }
}

proof fn lemma_sure_all(p: ProjectV, plan: PlanV, list: Seq<ActionV>, ids: Seq<Id>, used: nat, kept: Seq<Id>)
    requires
        careful(p, plan, ids, used, kept),
        going(p, plan, ids, used),
        ops::planned_all(plan, list) is Ok,
        forall|i: int| 0 <= i < list.len() ==> sure(#[trigger] list[i])
            && stock::leaves_sources(list[i]),
        ids.no_duplicates(),
    ensures
        careful(p, ops::planned_all(plan, list)->Ok_0, ids, used, kept),
        going(p, ops::planned_all(plan, list)->Ok_0, ids, used),
    decreases list.len(),
{
    if list.len() > 0 {
        reveal(ops::planned);
        reveal(ops::replays);
        assert(sure(list[0]));
        let q = ops::planned(plan, list[0])->Ok_0;
        lemma_quiet(p, plan, list[0], ids, used, kept);
        assert(q.actions.drop_last() =~= plan.actions);
        assert(q.actions.last() == list[0]);
        assert(ops::replays(p, plan)) by {
            reveal(careful);
        }
        assert(feasible(plan.proj, list[0])) by {
            if let ActionV::SetClipBounds { clip_id, start, duration, src_in, src_out } = list[0] {
                if let Some(at) = model::clip_place(plan.proj, clip_id) {
                    let payload = model::clip_at(plan.proj, at).payload;
                    assert(action::with_source(payload, src_in, src_out) == payload);
                }
            }
        }
        assert(feasible_run(p, q.actions));
        assert forall|i: int| 0 <= i < list.drop_first().len() implies sure(
            #[trigger] list.drop_first()[i],
        ) && stock::leaves_sources(list.drop_first()[i]) by {
            assert(list.drop_first()[i] == list[i + 1]);
        }
        lemma_sure_all(p, q, list.drop_first(), ids, used, kept);
    }
}

proof fn lemma_lasting_on(p: ProjectV, track_id: Id)
    requires
        laws::sound(p),
    ensures
        forall|i: int|
            0 <= i < ops::clips_on(p, track_id).len() ==> laws::lasting(
                #[trigger] ops::clips_on(p, track_id)[i],
            ),
{
    let clips = ops::clips_on(p, track_id);
    assert forall|i: int| 0 <= i < clips.len() implies laws::lasting(#[trigger] clips[i]) by {
        assert(clips.contains(clips[i]));
        lemma_clips_on(p, track_id, clips[i]);
    }
}

proof fn lemma_close_gaps(clips: Seq<ClipV>, gaps: Seq<(TimeUs, TimeUs)>)
    requires
        forall|i: int| 0 <= i < clips.len() ==> laws::lasting(#[trigger] clips[i]),
    ensures
        forall|i: int|
            0 <= i < ops::close_gaps(clips, gaps).len() ==> sure(
                #[trigger] ops::close_gaps(clips, gaps)[i],
            ) && stock::leaves_sources(ops::close_gaps(clips, gaps)[i]),
    decreases clips.len(),
{
    if clips.len() > 0 {
        assert forall|i: int| 0 <= i < clips.drop_last().len() implies laws::lasting(
            #[trigger] clips.drop_last()[i],
        ) by {
            assert(clips.drop_last()[i] == clips[i]);
        }
        assert(laws::lasting(clips[clips.len() - 1]));
        lemma_close_gaps(clips.drop_last(), gaps);
        let r = ops::close_gaps(clips.drop_last(), gaps);
        let all = ops::close_gaps(clips, gaps);
        assert forall|i: int| 0 <= i < all.len() implies sure(#[trigger] all[i])
            && stock::leaves_sources(all[i]) by {
            if i < r.len() {
                assert(all[i] == r[i]);
            }
        }
    }
}

proof fn lemma_delete_tracks(
    p: ProjectV,
    plan: PlanV,
    order: Seq<Id>,
    list: Seq<Id>,
    tracks: Seq<Id>,
    ripple: bool,
    ids: Seq<Id>,
)
    requires
        careful(p, plan, ids, 0, Seq::<Id>::empty()),
        ids.no_duplicates(),
        going(p, plan, ids, 0),
        ops::delete_tracks(plan, p, order, list, tracks, ripple) is Ok,
    ensures
        going(p, ops::delete_tracks(plan, p, order, list, tracks, ripple)->Ok_0, ids, 0),
        careful(
            p,
            ops::delete_tracks(plan, p, order, list, tracks, ripple)->Ok_0,
            ids,
            0,
            Seq::<Id>::empty(),
        ),
    decreases order.len(),
{
    if order.len() > 0 {
        reveal(ops::delete_on);
        let none = Seq::<Id>::empty();
        let here = ops::ids_on(list, tracks, order[0]);
        let removals = here.map_values(|id: Id| ActionV::RemoveClip { clip_id: id });
        let gaps = action::sorted_ranges(
            here.map_values(|id: Id| ops::range_of(ops::clips_on(p, order[0]), id)),
        );
        lemma_sure_all(p, plan, removals, ids, 0, none);
        let q = ops::planned_all(plan, removals)->Ok_0;
        if ripple {
            let clips = ops::clips_on(q.proj, order[0]);
            assert(laws::sound(q.proj)) by {
                reveal(careful);
            }
            lemma_lasting_on(q.proj, order[0]);
            lemma_close_gaps(clips, gaps);
            lemma_sure_all(p, q, ops::close_gaps(clips, gaps), ids, 0, none);
        }
        let next = ops::delete_on(plan, p, order[0], here, ripple)->Ok_0;
        lemma_delete_tracks(p, next, order.drop_first(), list, tracks, ripple, ids);
    }
}

/// A deletion leaves a sound project and can be undone.
pub proof fn law_delete_restores(p: ProjectV, list: Seq<Id>, ripple: bool)
    requires
        laws::sound(p),
    ensures
        match ops::delete_spec(p, list, ripple) {
            Ok(x) => restores(p, x) && from_supply(x.actions, Seq::<Id>::empty()),
            Err(e) => true,
        },
{
    if let Ok(x) = ops::delete_spec(p, list, ripple) {
        let none = Seq::<Id>::empty();
        let all = ops::with_linked(p, list, list.len());
        let tracks = ops::tracks_of(p, all)->Ok_0;
        lemma_start(p, none, 0, none);
        lemma_delete_tracks(
            p,
            ops::start_plan(p),
            ops::ordered_ids(tracks),
            all,
            tracks,
            ripple,
            none,
        );
        lemma_end(p, x, none, 0, none);
    }
}

proof fn lemma_single(p: ProjectV, a: ActionV)
    requires
        laws::sound(p),
        quiet(a),
        ops::planned(ops::start_plan(p), a) is Ok,
        feasible(p, a),
        stock::leaves_sources(a) || (stock::stocked(p) ==> stock::fits(p, a)),
    ensures
        restores(p, ops::planned(ops::start_plan(p), a)->Ok_0),
{
    let none = Seq::<Id>::empty();
    reveal(ops::planned);
    let x = ops::planned(ops::start_plan(p), a)->Ok_0;
    lemma_start(p, none, 0, none);
    lemma_quiet(p, ops::start_plan(p), a, none, 0, none);
    assert(x.actions.drop_last() =~= Seq::<ActionV>::empty());
    assert(x.actions.last() == a);
    assert(feasible_run(p, x.actions.drop_last()));
    lemma_end(p, x, none, 0, none);
}

/// A trim of a clip that holds material leaves a sound project and can be
/// undone.
pub proof fn law_trim_restores(p: ProjectV, clip_id: Id, left: bool, new_edge: TimeUs)
    requires
        laws::sound(p),
    ensures
        match ops::trim_spec(p, clip_id, left, new_edge) {
            Ok(x) => feasible(p, x.actions[0]) ==> restores(p, x),
            Err(e) => true,
        },
{
    reveal(ops::planned);
    if let Ok(x) = ops::trim_spec(p, clip_id, left, new_edge) {
        laws::lemma_clip_found(p, clip_id);
        let at = model::clip_place(p, clip_id)->Some_0;
        let c = model::clip_at(p, at);
        lemma_clip_sound(p, at);
        let fps = p.sequences[at.0].fps;
        let limits = ops::trim_limits(p, c, left, time::frame_length(fps));
        let edge = ops::clamped(time::quantized(new_edge, fps), limits.0, limits.1);
        let length = ops::material_length(p, c);
        let a = ops::trim_action(c, left, edge, length);
        if stock::stocked(p) {
            stock::lemma_trim_fits(p, at, left, edge);
        }
        assert(x.actions[0] == a);
        if feasible(p, a) {
            lemma_single(p, a);
        }
    }
}

/// A change of speed leaves a sound project and can be undone, where the clip
/// ends within the range of times.
pub proof fn law_speed_restores(p: ProjectV, clip_id: Id, speed: Real)
    requires
        laws::sound(p),
    ensures
        match ops::speed_spec(p, clip_id, speed) {
            Ok(x) => feasible(p, x.actions[0]) ==> restores(p, x),
            Err(e) => true,
        },
{
    reveal(ops::planned);
    if let Ok(x) = ops::speed_spec(p, clip_id, speed) {
        let at = model::clip_place(p, clip_id)->Some_0;
        let a = x.actions[0];
        assert(quiet(a));
        if feasible(p, a) {
            lemma_single(p, a);
        }
    }
}

// ---- freeing a range, inserting and moving ----

proof fn lemma_planned_push(plan: PlanV, list: Seq<ActionV>, a: ActionV)
    ensures
        ops::planned_all(plan, list.push(a)) == match ops::planned_all(plan, list) {
            Err(e) => Err(e),
            Ok(q) => ops::planned(q, a),
        },
    decreases list.len(),
{
    reveal_with_fuel(ops::planned_all, 2);
    let all = list.push(a);
    if list.len() == 0 {
        assert(all.drop_first() =~= Seq::<ActionV>::empty());
    } else {
        assert(all[0] == list[0]);
        assert(all.drop_first() =~= list.drop_first().push(a));
        if let Ok(q) = ops::planned(plan, list[0]) {
            lemma_planned_push(q, list.drop_first(), a);
        }
    }
}

/// The piece of a clip behind a range that it reaches out of.
spec fn piece_behind(c: ClipV, from: TimeUs, to: TimeUs, right: Id) -> ClipV {
    let delta = time::sooner(to, from);
    let r = ops::right_half(c, time::sooner(from, c.start), right);
    ClipV {
        start: to,
        duration: time::sooner(r.duration, delta),
        payload: ops::advanced(r.payload, ops::scaled_time(delta, c.speed)),
        ..r
    }
}

proof fn lemma_piece_behind(c: ClipV, from: TimeUs, to: TimeUs, left: Id, right: Id)
    requires
        laws::sound_clip(c),
        ops::wraps(c, from, to),
        c.start < to,
        from < c.finish(),
    ensures
        laws::sound_clip(ops::left_half(c, time::sooner(from, c.start), left)),
        laws::sound_clip(piece_behind(c, from, to, right)),
{
    law_halves_are_sound(c, time::sooner(from, c.start), left, right);
}

proof fn lemma_victims(clips: Seq<ClipV>, from: TimeUs, to: TimeUs, exclude: Option<Id>, c: ClipV)
    requires
        ops::victims_of(clips, from, to, exclude).contains(c),
    ensures
        clips.contains(c),
        c.start < to,
        from < c.finish(),
    decreases clips.len(),
{
    if clips.len() > 0 {
        let r = ops::victims_of(clips.drop_last(), from, to, exclude);
        let all = ops::victims_of(clips, from, to, exclude);
        let k = choose|k: int| 0 <= k < all.len() && all[k] == c;
        if k < r.len() {
            assert(r[k] == c);
            assert(r.contains(c));
            lemma_victims(clips.drop_last(), from, to, exclude, c);
            let j = choose|j: int| 0 <= j < clips.drop_last().len() && clips.drop_last()[j] == c;
            assert(clips[j] == c);
        } else {
            assert(clips[clips.len() - 1] == c);
        }
    }
}

/// What an action leaves of a clip in order is in order.
proof fn lemma_carve_stocked(
    p: ProjectV,
    plan: PlanV,
    q: PlanV,
    c: ClipV,
    track_id: Id,
    from: TimeUs,
    to: TimeUs,
    left: Id,
    right: Id,
    ids: Seq<Id>,
    used: nat,
    kept: Seq<Id>,
)
    requires
        careful(p, plan, ids, used, kept),
        going(p, plan, ids, used),
        rooted(p, plan),
        stock::in_project(plan.proj, c),
        laws::sound_clip(c),
        c.start < to,
        from < c.finish(),
        from <= to,
        stock::descends(q.proj, plan.proj),
        ops::planned(q, ops::carve_action(c, track_id, from, to, left, right)) is Ok,
    ensures
        ({
            let l = ops::left_half(c, time::sooner(from, c.start), left);
            let r = piece_behind(c, from, to, right);
            ops::wraps(c, from, to) && !action::empty_source(l.payload) && !action::empty_source(
                r.payload,
            ) ==> validate::valid_clip(q.proj, l) && validate::valid_clip(q.proj, r)
        }),
        ({
            let a = ops::carve_action(c, track_id, from, to, left, right);
            !ops::wraps(c, from, to) && stock::in_reach(q.proj, a) ==> stock::fits(q.proj, a)
        }),
{
    assert(laws::sound(plan.proj) && stock::stocked(plan.proj)) by {
        reveal(careful);
    }
    assert(validate::valid_clip(plan.proj, c)) by {
        reveal(stock::stocked);
    }
    assert(q.proj.assets == plan.proj.assets) by {
        reveal(stock::descends);
    }
    let a = ops::carve_action(c, track_id, from, to, left, right);
    if ops::wraps(c, from, to) {
        let offset = time::sooner(from, c.start);
        let l = ops::left_half(c, offset, left);
        let r = piece_behind(c, from, to, right);
        if !action::empty_source(l.payload) && !action::empty_source(r.payload) {
            law_halves_are_sound(c, offset, left, right);
            stock::lemma_halves_stocked(plan.proj, c, offset, left, right);
            lemma_piece_behind(c, from, to, left, right);
            let half = ops::right_half(c, offset, right);
            stock::lemma_behind_stocked(plan.proj, c, half, time::sooner(to, from), to);
        }
    } else if stock::in_reach(q.proj, a) {
        assert(action::step(q.proj, a) is Ok) by {
            reveal(ops::planned);
        }
        stock::lemma_cut_back_fits(q.proj, plan.proj, c, track_id, from, to, left, right);
    }
}

/// One more action on what descends from a plan.
proof fn lemma_carve_descends(
    p: ProjectV,
    plan: PlanV,
    q: PlanV,
    a: ActionV,
    ids: Seq<Id>,
    used: nat,
    used2: nat,
    kept: Seq<Id>,
)
    requires
        careful(p, plan, ids, used, kept),
        going(p, plan, ids, used),
        used <= used2,
        stock::descends(q.proj, plan.proj),
        ops::planned(q, a) is Ok,
        edits(a),
        forall|id: Id|
            brings(a, id) ==> (exists|k: int|
                used2 <= k < ids.len() && #[trigger] ids[k] == id),
    ensures
        stock::descends(ops::planned(q, a)->Ok_0.proj, plan.proj),
{
    reveal(ops::planned);
    reveal(careful);
    assert forall|x: ClipV| #[trigger] stock::brought(a, x) implies laws::fresh_clip(
        plan.proj,
        x.id,
    ) by {
        if let ActionV::ReplaceClips { track_id, remove_ids, insert } = a {
            let i = choose|i: int| 0 <= i < insert.len() && insert[i] == x;
            assert(insert[i].id == x.id);
        }
        assert(brings(a, x.id));
        let k = choose|k: int| used2 <= k < ids.len() && #[trigger] ids[k] == x.id;
        assert(laws::fresh_clip(plan.proj, ids[k]));
    }
    stock::lemma_still_descends(q.proj, plan.proj, a);
}

/// A clip that reaches out of a range on both sides makes way for it.
#[verifier::rlimit(60)]
#[verifier::spinoff_prover]
proof fn lemma_carve_wrapped(
    p: ProjectV,
    plan: PlanV,
    q: PlanV,
    c: ClipV,
    track_id: Id,
    from: TimeUs,
    to: TimeUs,
    ids: Seq<Id>,
    used: nat,
    n: nat,
    kept: Seq<Id>,
)
    requires
        ops::wraps(c, from, to),
        careful(p, plan, ids, used, kept),
        careful(p, q, ids, n, kept),
        used <= n,
        rooted(p, q) ==> rooted(p, plan),
        going(p, q, ids, n) ==> going(p, plan, ids, used) && stock::descends(q.proj, plan.proj),
        going(p, plan, ids, used) ==> from <= to && laws::sound_clip(c),
        stock::in_project(plan.proj, c),
        c.start < to,
        from < c.finish(),
        ids.no_duplicates(),
        ops::planned(
            q,
            ops::carve_action(c, track_id, from, to, ids[n as int], ids[n as int + 1]),
        ) is Ok,
    ensures
        ({
            let z = ops::planned(
                q,
                ops::carve_action(c, track_id, from, to, ids[n as int], ids[n as int + 1]),
            )->Ok_0;
            let m = if ops::wraps(c, from, to) {
                n + 2
            } else {
                n
            };
            &&& careful(p, z, ids, m, kept)
            &&& rooted(p, z) ==> rooted(p, q)
            &&& going(p, z, ids, m) ==> going(p, q, ids, n)
        }),
{
    let left = ids[n as int];
    let right = ids[n as int + 1];
    let a = ops::carve_action(c, track_id, from, to, left, right);
    let l = ops::left_half(c, time::sooner(from, c.start), left);
    let r = piece_behind(c, from, to, right);
    assert(a == (ActionV::ReplaceClips {
        track_id,
        remove_ids: seq![c.id],
        insert: seq![l, r],
    }));
    if going(p, q, ids, n) {
        lemma_piece_behind(c, from, to, left, right);
        if rooted(p, q) {
            lemma_carve_stocked(p, plan, q, c, track_id, from, to, left, right, ids, used, kept);
        }
    }
    lemma_pieces(p, q, track_id, c.id, l, r, ids, n, kept);
}

/// A clip that a range covers, or reaches into, makes way for it.
#[verifier::rlimit(60)]
#[verifier::spinoff_prover]
proof fn lemma_carve_edge(
    p: ProjectV,
    plan: PlanV,
    q: PlanV,
    c: ClipV,
    track_id: Id,
    from: TimeUs,
    to: TimeUs,
    ids: Seq<Id>,
    used: nat,
    n: nat,
    kept: Seq<Id>,
)
    requires
        !ops::wraps(c, from, to),
        careful(p, plan, ids, used, kept),
        careful(p, q, ids, n, kept),
        used <= n,
        rooted(p, q) ==> rooted(p, plan),
        going(p, q, ids, n) ==> going(p, plan, ids, used) && stock::descends(q.proj, plan.proj),
        going(p, plan, ids, used) ==> from <= to && laws::sound_clip(c),
        stock::in_project(plan.proj, c),
        c.start < to,
        from < c.finish(),
        ids.no_duplicates(),
        ops::planned(
            q,
            ops::carve_action(c, track_id, from, to, ids[n as int], ids[n as int + 1]),
        ) is Ok,
    ensures
        ({
            let z = ops::planned(
                q,
                ops::carve_action(c, track_id, from, to, ids[n as int], ids[n as int + 1]),
            )->Ok_0;
            let m = if ops::wraps(c, from, to) {
                n + 2
            } else {
                n
            };
            &&& careful(p, z, ids, m, kept)
            &&& rooted(p, z) ==> rooted(p, q)
            &&& going(p, z, ids, m) ==> going(p, q, ids, n)
        }),
{
    let left = ids[n as int];
    let right = ids[n as int + 1];
    let a = ops::carve_action(c, track_id, from, to, left, right);
    assert(quiet(a));
    if going(p, q, ids, n) && rooted(p, q) && stock::in_reach(q.proj, a) {
        lemma_carve_stocked(p, plan, q, c, track_id, from, to, left, right, ids, used, kept);
    }
    lemma_quiet(p, q, a, ids, n, kept);
}

/// One more clip makes way for a range.
proof fn lemma_carve_one(
    p: ProjectV,
    plan: PlanV,
    q: PlanV,
    c: ClipV,
    track_id: Id,
    from: TimeUs,
    to: TimeUs,
    ids: Seq<Id>,
    used: nat,
    n: nat,
    kept: Seq<Id>,
)
    requires
        careful(p, plan, ids, used, kept),
        careful(p, q, ids, n, kept),
        used <= n,
        rooted(p, q) ==> rooted(p, plan),
        going(p, q, ids, n) ==> going(p, plan, ids, used) && stock::descends(q.proj, plan.proj),
        going(p, plan, ids, used) ==> from <= to && laws::sound_clip(c),
        stock::in_project(plan.proj, c),
        c.start < to,
        from < c.finish(),
        ids.no_duplicates(),
        ops::planned(
            q,
            ops::carve_action(c, track_id, from, to, ids[n as int], ids[n as int + 1]),
        ) is Ok,
    ensures
        ({
            let z = ops::planned(
                q,
                ops::carve_action(c, track_id, from, to, ids[n as int], ids[n as int + 1]),
            )->Ok_0;
            let m = if ops::wraps(c, from, to) {
                n + 2
            } else {
                n
            };
            &&& careful(p, z, ids, m, kept)
            &&& rooted(p, z) ==> rooted(p, q)
            &&& going(p, z, ids, m) ==> going(p, q, ids, n)
        }),
{
    if ops::wraps(c, from, to) {
        lemma_carve_wrapped(p, plan, q, c, track_id, from, to, ids, used, n, kept);
    } else {
        lemma_carve_edge(p, plan, q, c, track_id, from, to, ids, used, n, kept);
    }
}

#[verifier::rlimit(60)]
#[verifier::spinoff_prover]
proof fn lemma_carve_list(
    p: ProjectV,
    plan: PlanV,
    victims: Seq<ClipV>,
    track_id: Id,
    from: TimeUs,
    to: TimeUs,
    ids: Seq<Id>,
    used: nat,
    kept: Seq<Id>,
)
    requires
        careful(p, plan, ids, used, kept),
        going(p, plan, ids, used) ==> from <= to,
        ids.no_duplicates(),
        going(p, plan, ids, used) ==> forall|i: int|
            0 <= i < victims.len() ==> laws::sound_clip(#[trigger] victims[i]),
        forall|i: int|
            0 <= i < victims.len() ==> stock::in_project(plan.proj, #[trigger] victims[i]),
        forall|i: int|
            0 <= i < victims.len() ==> (#[trigger] victims[i]).start < to && from
                < victims[i].finish(),
        ops::planned_all(plan, ops::carve_list(victims, track_id, from, to, ids, used).0) is Ok,
    ensures
        ({
            let x = ops::carve_list(victims, track_id, from, to, ids, used);
            let q = ops::planned_all(plan, x.0)->Ok_0;
            &&& careful(p, q, ids, x.1, kept)
            &&& used <= x.1
            &&& rooted(p, q) ==> rooted(p, plan)
            &&& going(p, q, ids, x.1) ==> going(p, plan, ids, used) && stock::descends(
                q.proj,
                plan.proj,
            )
        }),
    decreases victims.len(),
{
    if victims.len() == 0 {
        if going(p, plan, ids, used) {
            assert(laws::sound(plan.proj)) by {
                reveal(careful);
            }
            stock::lemma_descends_self(plan.proj);
        }
    } else {
        let rest = victims.drop_last();
        let c = victims.last();
        let x = ops::carve_list(rest, track_id, from, to, ids, used);
        let left = ids[x.1 as int];
        let right = ids[x.1 as int + 1];
        let a = ops::carve_action(c, track_id, from, to, left, right);
        assert(ops::carve_list(victims, track_id, from, to, ids, used).0 == x.0.push(a));
        lemma_planned_push(plan, x.0, a);
        assert forall|i: int| 0 <= i < rest.len() implies (#[trigger] rest[i]).start < to && from
            < rest[i].finish() by {
            assert(rest[i] == victims[i]);
        }
        if going(p, plan, ids, used) {
            assert forall|i: int| 0 <= i < rest.len() implies laws::sound_clip(
                #[trigger] rest[i],
            ) by {
                assert(rest[i] == victims[i]);
            }
        }
        assert forall|i: int| 0 <= i < rest.len() implies stock::in_project(
            plan.proj,
            #[trigger] rest[i],
        ) by {
            assert(rest[i] == victims[i]);
        }
        lemma_carve_list(p, plan, rest, track_id, from, to, ids, used, kept);
        let q = ops::planned_all(plan, x.0)->Ok_0;
        assert(c == victims[victims.len() - 1]);
        lemma_carve_one(p, plan, q, c, track_id, from, to, ids, used, x.1, kept);
        let z = ops::planned(q, a)->Ok_0;
        if going(
            p,
            z,
            ids,
            ops::carve_list(victims, track_id, from, to, ids, used).1,
        ) {
            lemma_carve_descends(p, plan, q, a, ids, used, x.1, kept);
        }
    }
}

#[verifier::rlimit(60)]
#[verifier::spinoff_prover]
proof fn lemma_carved(
    p: ProjectV,
    plan: PlanV,
    track_id: Id,
    from: TimeUs,
    to: TimeUs,
    exclude: Option<Id>,
    ids: Seq<Id>,
    used: nat,
    kept: Seq<Id>,
)
    requires
        careful(p, plan, ids, used, kept),
        going(p, plan, ids, used) ==> from <= to,
        ids.no_duplicates(),
        ops::carved(plan, track_id, from, to, exclude, ids, used) is Ok,
    ensures
        ({
            let x = ops::carved(plan, track_id, from, to, exclude, ids, used)->Ok_0;
            careful(p, x.0, ids, x.1, kept) && (going(p, x.0, ids, x.1) ==> going(p, plan, ids, used))
        }),
{
    let at = model::track_place(plan.proj, track_id)->Some_0;
    let clips = model::track_at(plan.proj, at).clips;
    let victims = ops::victims_of(clips, from, to, exclude);
    assert forall|i: int| 0 <= i < victims.len() implies (#[trigger] victims[i]).start < to && from
        < victims[i].finish() && clips.contains(victims[i]) && stock::in_project(
        plan.proj,
        victims[i],
    ) by {
        assert(victims.contains(victims[i]));
        lemma_victims(clips, from, to, exclude, victims[i]);
        assert(ops::clips_on(plan.proj, track_id).contains(victims[i]));
        lemma_in_project_on(plan.proj, track_id, victims[i]);
    }
    if going(p, plan, ids, used) {
        assert(laws::sound(plan.proj)) by {
            reveal(careful);
        }
        assert forall|i: int| 0 <= i < victims.len() implies laws::sound_clip(
            #[trigger] victims[i],
        ) by {
            assert(ops::clips_on(plan.proj, track_id).contains(victims[i]));
            lemma_clips_on(plan.proj, track_id, victims[i]);
        }
    }
    lemma_carve_list(p, plan, victims, track_id, from, to, ids, used, kept);
}

// ---- what freeing a range leaves ----

/// Whether a clip shares an instant with a range.
pub open spec fn meets(c: ClipV, from: TimeUs, to: TimeUs) -> bool {
    c.start < to && from < c.finish()
}

/// Whether a clip lies within the time of another.
pub open spec fn within(x: ClipV, c: ClipV) -> bool {
    c.start <= x.start && x.finish() <= c.finish()
}

/// Whether a clip lies within the time of one of a list.
pub open spec fn within_some(x: ClipV, list: Seq<ClipV>) -> bool {
    exists|k: int| 0 <= k < list.len() && within(x, #[trigger] list[k])
}

/// The pieces that an action leaves of a clip.
spec fn pieces(c: ClipV, a: ActionV) -> Seq<ClipV> {
    match a {
        ActionV::SetClipBounds { clip_id, start, duration, src_in, src_out } => seq![
            ClipV {
                start,
                duration,
                payload: action::with_source(c.payload, src_in, src_out),
                ..c
            },
        ],
        ActionV::ReplaceClips { track_id, remove_ids, insert } => insert,
        _ => Seq::<ClipV>::empty(),
    }
}

proof fn lemma_put_all_contains(clips: Seq<ClipV>, list: Seq<ClipV>, x: ClipV)
    ensures
        action::put_all(clips, list).contains(x) <==> clips.contains(x) || list.contains(x),
    decreases list.len(),
{
    if list.len() > 0 {
        let rest = list.drop_last();
        lemma_put_all_contains(clips, rest, x);
        laws::lemma_put_in_contains(action::put_all(clips, rest), list.last());
        if list.contains(x) {
            let k = choose|k: int| 0 <= k < list.len() && list[k] == x;
            if k < rest.len() {
                assert(rest[k] == x);
            }
        }
        if rest.contains(x) {
            let k = choose|k: int| 0 <= k < rest.len() && rest[k] == x;
            assert(list[k] == x);
        }
        if x == list.last() {
            assert(list[list.len() - 1] == x);
        }
    }
}

proof fn lemma_clips_same_track(p: ProjectV, track_id: Id, clips: Seq<ClipV>)
    requires
        laws::sound(p),
        model::track_place(p, track_id) is Some,
    ensures
        ({
            let q = model::with_clips(p, model::track_place(p, track_id)->Some_0, clips);
            laws::unique_tracks(q) ==> ops::clips_on(q, track_id) == clips
        }),
{
    laws::lemma_track_found(p, track_id);
    let at = model::track_place(p, track_id)->Some_0;
    laws::lemma_with_clips(p, at.0, at.1, clips);
    let q = model::with_clips(p, at, clips);
    assert(laws::has_track(q, at.0, at.1, track_id));
    if laws::unique_tracks(q) {
        laws::lemma_track_at(q, at.0, at.1, track_id);
    }
}

/// A clip of a track gives way to its pieces.
#[verifier::rlimit(60)]
#[verifier::spinoff_prover]
proof fn lemma_gives_way(p: ProjectV, track_id: Id, v: ClipV, a: ActionV, x: ClipV)
    requires
        laws::sound(p),
        ops::clips_on(p, track_id).contains(v),
        match a {
            ActionV::RemoveClip { clip_id } => clip_id == v.id,
            ActionV::SetClipBounds { clip_id, start, duration, src_in, src_out } => clip_id == v.id,
            ActionV::ReplaceClips { track_id: t, remove_ids, insert } => t == track_id
                && remove_ids == seq![v.id],
            _ => false,
        },
        action::step(p, a) is Ok,
        laws::sound(action::step(p, a)->Ok_0.0),
    ensures
        ops::clips_on(action::step(p, a)->Ok_0.0, track_id).contains(x) <==> (ops::clips_on(
            p,
            track_id,
        ).contains(x) && x != v) || pieces(v, a).contains(x),
{
    laws::lemma_track_found(p, track_id);
    let at = model::track_place(p, track_id)->Some_0;
    let clips = model::track_at(p, at).clips;
    let k = choose|k: int| 0 <= k < clips.len() && clips[k] == v;
    assert(laws::has_clip(p, at.0, at.1, k, v.id));
    laws::lemma_clip_at(p, at.0, at.1, k, v.id);
    assert(laws::sound_sequence(p, p.sequences[at.0]));
    assert(laws::sound_track(p, p.sequences[at.0].tracks[at.1]));
    assert forall|i: int| 0 <= i < clips.len() && (#[trigger] clips[i]).id == v.id implies i == k by {
        assert(laws::has_clip(p, at.0, at.1, i, v.id));
    }
    match a {
        ActionV::RemoveClip { clip_id } => {
            let r = clips.remove(k);
            lemma_clips_same_track(p, track_id, r);
            if r.contains(x) {
                let i = choose|i: int| 0 <= i < r.len() && r[i] == x;
                let j = if i < k {
                    i
                } else {
                    i + 1
                };
                assert(clips[j] == x);
            }
            if clips.contains(x) && x != v {
                let j = choose|j: int| 0 <= j < clips.len() && clips[j] == x;
                let i = if j < k {
                    j
                } else {
                    j - 1
                };
                assert(r[i] == x);
            }
        },
        ActionV::SetClipBounds { clip_id, start, duration, src_in, src_out } => {
            let changed = pieces(v, a)[0];
            let u = clips.update(k, changed);
            laws::lemma_sorted_contains(u);
            lemma_clips_same_track(p, track_id, action::sorted_clips(u));
            if u.contains(x) {
                let i = choose|i: int| 0 <= i < u.len() && u[i] == x;
                if i != k {
                    assert(clips[i] == x);
                }
            }
            if clips.contains(x) && x != v {
                let j = choose|j: int| 0 <= j < clips.len() && clips[j] == x;
                assert(u[j] == x);
            }
            assert(u[k] == changed);
        },
        ActionV::ReplaceClips { track_id: t, remove_ids, insert } => {
            assert forall|i: int, j: int|
                0 <= i < clips.len() && 0 <= j < clips.len() && (#[trigger] clips[i]).id == (
                #[trigger] clips[j]).id implies i == j by {
                assert(laws::has_clip(p, at.0, at.1, i, clips[i].id));
                assert(laws::has_clip(p, at.0, at.1, j, clips[i].id));
            }
            laws::lemma_take_off(clips, remove_ids);
            let rest = action::take_off(clips, remove_ids)->Ok_0.0;
            lemma_put_all_contains(rest, insert, x);
            lemma_clips_same_track(p, track_id, action::put_all(rest, insert));
            assert(remove_ids[0] == v.id);
            if clips.contains(x) && x != v && remove_ids.contains(x.id) {
                let j = choose|j: int| 0 <= j < clips.len() && clips[j] == x;
                assert(clips[j].id == v.id);
            }
        },
        _ => {},
    }
}

/// An action on a clip of a track leaves the other tracks.
proof fn lemma_leaves_others(p: ProjectV, track_id: Id, v: ClipV, a: ActionV, other: Id)
    requires
        laws::sound(p),
        ops::clips_on(p, track_id).contains(v),
        match a {
            ActionV::RemoveClip { clip_id } => clip_id == v.id,
            ActionV::SetClipBounds { clip_id, start, duration, src_in, src_out } => clip_id == v.id,
            ActionV::ReplaceClips { track_id: t, remove_ids, insert } => t == track_id,
            _ => false,
        },
        action::step(p, a) is Ok,
        laws::sound(action::step(p, a)->Ok_0.0),
        other != track_id,
    ensures
        ops::clips_on(action::step(p, a)->Ok_0.0, other) == ops::clips_on(p, other),
{
    laws::lemma_track_found(p, track_id);
    let at = model::track_place(p, track_id)->Some_0;
    let clips = model::track_at(p, at).clips;
    let k = choose|k: int| 0 <= k < clips.len() && clips[k] == v;
    assert(laws::has_clip(p, at.0, at.1, k, v.id));
    laws::lemma_clip_at(p, at.0, at.1, k, v.id);
    let q = action::step(p, a)->Ok_0.0;
    let now = model::track_at(q, at).clips;
    assert(q == model::with_clips(p, at, now)) by {
        match a {
            ActionV::RemoveClip { clip_id } => {
                laws::lemma_with_clips(p, at.0, at.1, clips.remove(k));
            },
            ActionV::SetClipBounds { clip_id, start, duration, src_in, src_out } => {
                let changed = pieces(v, a)[0];
                laws::lemma_with_clips(
                    p,
                    at.0,
                    at.1,
                    action::sorted_clips(clips.update(k, changed)),
                );
            },
            ActionV::ReplaceClips { track_id: t, remove_ids, insert } => {
                let rest = action::take_off(clips, remove_ids)->Ok_0.0;
                laws::lemma_with_clips(p, at.0, at.1, action::put_all(rest, insert));
            },
            _ => {},
        }
    }
    laws::lemma_with_clips(p, at.0, at.1, now);
    laws::lemma_track_found(p, other);
    laws::lemma_track_found(q, other);
    match model::track_place(p, other) {
        Some(to) => {
            assert(laws::has_track(q, to.0, to.1, other));
            laws::lemma_track_at(q, to.0, to.1, other);
            assert(to != at);
            if to.0 == at.0 {
                assert(q.sequences[at.0].tracks[to.1] == p.sequences[at.0].tracks[to.1]);
            } else {
                assert(q.sequences[to.0] == p.sequences[to.0]);
            }
        },
        None => {
            if let Some(to) = model::track_place(q, other) {
                assert(laws::has_track(p, to.0, to.1, other));
            }
        },
    }
}

#[verifier::rlimit(60)]
#[verifier::spinoff_prover]
proof fn lemma_frees(
    p: ProjectV,
    plan: PlanV,
    victims: Seq<ClipV>,
    track_id: Id,
    from: TimeUs,
    to: TimeUs,
    ids: Seq<Id>,
    used: nat,
    kept: Seq<Id>,
    x: ClipV,
    other: Id,
)
    requires
        careful(p, plan, ids, used, kept),
        from <= to,
        ids.no_duplicates(),
        victims.no_duplicates(),
        forall|i: int| 0 <= i < victims.len() ==> laws::sound_clip(#[trigger] victims[i]),
        forall|i: int|
            0 <= i < victims.len() ==> (#[trigger] victims[i]).start < to && from
                < victims[i].finish() && ops::clips_on(plan.proj, track_id).contains(victims[i]),
        ops::planned_all(plan, ops::carve_list(victims, track_id, from, to, ids, used).0) is Ok,
        going(
            p,
            ops::planned_all(
                plan,
                ops::carve_list(victims, track_id, from, to, ids, used).0,
            )->Ok_0,
            ids,
            ops::carve_list(victims, track_id, from, to, ids, used).1,
        ),
    ensures
        ({
            let q = ops::planned_all(
                plan,
                ops::carve_list(victims, track_id, from, to, ids, used).0,
            )->Ok_0;
            let clips = ops::clips_on(plan.proj, track_id);
            &&& ops::clips_on(q.proj, track_id).contains(x) ==> (clips.contains(x)
                && !victims.contains(x)) || (!meets(x, from, to) && within_some(x, victims))
            &&& clips.contains(x) && !victims.contains(x) ==> ops::clips_on(
                q.proj,
                track_id,
            ).contains(x)
            &&& other != track_id ==> ops::clips_on(q.proj, other) == ops::clips_on(
                plan.proj,
                other,
            )
        }),
    decreases victims.len(),
{
    if victims.len() > 0 {
        let rest = victims.drop_last();
        let c = victims.last();
        let n = victims.len() - 1;
        let y = ops::carve_list(rest, track_id, from, to, ids, used);
        let z = ops::carve_list(victims, track_id, from, to, ids, used);
        let left = ids[y.1 as int];
        let right = ids[y.1 as int + 1];
        let a = ops::carve_action(c, track_id, from, to, left, right);
        assert(z.0 == y.0.push(a));
        lemma_planned_push(plan, y.0, a);
        assert(victims[n] == c);
        assert forall|i: int| 0 <= i < rest.len() implies laws::sound_clip(#[trigger] rest[i])
            && rest[i].start < to && from < rest[i].finish() && ops::clips_on(
            plan.proj,
            track_id,
        ).contains(rest[i]) by {
            assert(rest[i] == victims[i]);
        }
        assert forall|i: int, j: int| 0 <= i < rest.len() && 0 <= j < rest.len() && i
            != j implies rest[i] != rest[j] by {
            assert(rest[i] == victims[i] && rest[j] == victims[j]);
        }
        assert(!rest.contains(c)) by {
            if rest.contains(c) {
                let i = choose|i: int| 0 <= i < rest.len() && rest[i] == c;
                assert(victims[i] == victims[n]);
            }
        }
        let q = ops::planned_all(plan, y.0)->Ok_0;
        let r = ops::planned_all(plan, z.0)->Ok_0;
        assert forall|i: int| 0 <= i < victims.len() implies stock::in_project(
            plan.proj,
            #[trigger] victims[i],
        ) by {
            lemma_in_project_on(plan.proj, track_id, victims[i]);
        }
        assert forall|i: int| 0 <= i < rest.len() implies stock::in_project(
            plan.proj,
            #[trigger] rest[i],
        ) by {
            assert(rest[i] == victims[i]);
        }
        lemma_carve_list(p, plan, rest, track_id, from, to, ids, used, kept);
        lemma_carve_list(p, plan, victims, track_id, from, to, ids, used, kept);
        reveal(ops::planned);
        assert(r.actions.drop_last() =~= q.actions);
        assert(going(p, q, ids, y.1));
        lemma_frees(p, plan, rest, track_id, from, to, ids, used, kept, c, other);
        lemma_frees(p, plan, rest, track_id, from, to, ids, used, kept, x, other);
        assert(laws::sound(q.proj) && laws::sound(r.proj)) by {
            reveal(careful);
        }
        lemma_gives_way(q.proj, track_id, c, a, x);
        if other != track_id {
            lemma_leaves_others(q.proj, track_id, c, a, other);
        }
        if within_some(x, rest) {
            let k = choose|k: int| 0 <= k < rest.len() && within(x, #[trigger] rest[k]);
            assert(victims[k] == rest[k]);
        }
        assert(victims.contains(x) <==> rest.contains(x) || x == c) by {
            if victims.contains(x) {
                let i = choose|i: int| 0 <= i < victims.len() && victims[i] == x;
                if i < n {
                    assert(rest[i] == x);
                }
            }
            if rest.contains(x) {
                let i = choose|i: int| 0 <= i < rest.len() && rest[i] == x;
                assert(victims[i] == x);
            }
        }
        if pieces(c, a).contains(x) {
            let i = choose|i: int| 0 <= i < pieces(c, a).len() && pieces(c, a)[i] == x;
            lemma_piece_is_out(c, track_id, from, to, left, right, i);
            assert(within(x, victims[n]));
        }
    }
}

proof fn lemma_piece_is_out(
    c: ClipV,
    track_id: Id,
    from: TimeUs,
    to: TimeUs,
    left: Id,
    right: Id,
    i: int,
)
    requires
        laws::lasting(c),
        c.start < to,
        from < c.finish(),
        0 <= i < pieces(c, ops::carve_action(c, track_id, from, to, left, right)).len(),
    ensures
        !meets(
            pieces(c, ops::carve_action(c, track_id, from, to, left, right))[i],
            from,
            to,
        ),
        within(pieces(c, ops::carve_action(c, track_id, from, to, left, right))[i], c),
{
}

proof fn lemma_all_victims(clips: Seq<ClipV>, from: TimeUs, to: TimeUs, x: ClipV)
    requires
        laws::different(clips),
    ensures
        ops::victims_of(clips, from, to, None).no_duplicates(),
        clips.contains(x) && meets(x, from, to) ==> ops::victims_of(
            clips,
            from,
            to,
            None,
        ).contains(x),
    decreases clips.len(),
{
    if clips.len() > 0 {
        let rest = clips.drop_last();
        let c = clips.last();
        assert forall|i: int, j: int|
            0 <= i < rest.len() && 0 <= j < rest.len() && (#[trigger] rest[i]).id == (
            #[trigger] rest[j]).id implies i == j by {
            assert(rest[i] == clips[i] && rest[j] == clips[j]);
        }
        lemma_all_victims(rest, from, to, x);
        let r = ops::victims_of(rest, from, to, None);
        let all = ops::victims_of(clips, from, to, None);
        if c.start < to && from < c.finish() {
            assert forall|i: int| 0 <= i < r.len() implies r[i] != c by {
                assert(r.contains(r[i]));
                lemma_victims(rest, from, to, None, r[i]);
                let j = choose|j: int| 0 <= j < rest.len() && rest[j] == r[i];
                assert(clips[j] == r[i]);
                assert(clips[clips.len() - 1] == c);
            }
            assert(all[all.len() - 1] == c);
        }
        if clips.contains(x) && meets(x, from, to) {
            let k = choose|k: int| 0 <= k < clips.len() && clips[k] == x;
            if k < rest.len() {
                assert(rest[k] == x);
                let j = choose|j: int| 0 <= j < r.len() && r[j] == x;
                assert(all[j] == x);
            }
        }
    }
}

proof fn lemma_carved_facts(
    p: ProjectV,
    plan: PlanV,
    track_id: Id,
    from: TimeUs,
    to: TimeUs,
    ids: Seq<Id>,
    used: nat,
    x: ClipV,
    other: Id,
)
    requires
        careful(p, plan, ids, used, Seq::<Id>::empty()),
        from <= to,
        ids.no_duplicates(),
        ops::carved(plan, track_id, from, to, None, ids, used) is Ok,
        ({
            let y = ops::carved(plan, track_id, from, to, None, ids, used)->Ok_0;
            going(p, y.0, ids, y.1)
        }),
    ensures
        ({
            let y = ops::carved(plan, track_id, from, to, None, ids, used)->Ok_0;
            let before = ops::clips_on(plan.proj, track_id);
            let after = ops::clips_on(y.0.proj, track_id);
            &&& after.contains(x) ==> !meets(x, from, to) && (before.contains(x) || within_some(
                x,
                before,
            ))
            &&& before.contains(x) && !meets(x, from, to) ==> after.contains(x)
            &&& other != track_id ==> ops::clips_on(y.0.proj, other) == ops::clips_on(
                plan.proj,
                other,
            )
        }),
{
    let none = Seq::<Id>::empty();
    lemma_carved(p, plan, track_id, from, to, None, ids, used, none);
    let q = plan.proj;
    assert(laws::sound(q)) by {
        reveal(careful);
    }
    laws::lemma_track_found(q, track_id);
    let at = model::track_place(q, track_id)->Some_0;
    let clips = model::track_at(q, at).clips;
    let victims = ops::victims_of(clips, from, to, None);
    assert forall|i: int, j: int|
        0 <= i < clips.len() && 0 <= j < clips.len() && (#[trigger] clips[i]).id == (
        #[trigger] clips[j]).id implies i == j by {
        assert(laws::has_clip(q, at.0, at.1, i, clips[i].id));
        assert(laws::has_clip(q, at.0, at.1, j, clips[i].id));
    }
    lemma_all_victims(clips, from, to, x);
    assert forall|i: int| 0 <= i < victims.len() implies (#[trigger] victims[i]).start < to && from
        < victims[i].finish() && clips.contains(victims[i]) && laws::sound_clip(victims[i]) by {
        assert(victims.contains(victims[i]));
        lemma_victims(clips, from, to, None, victims[i]);
        lemma_clips_on(q, track_id, victims[i]);
    }
    lemma_frees(p, plan, victims, track_id, from, to, ids, used, none, x, other);
    if victims.contains(x) {
        lemma_victims(clips, from, to, None, x);
    }
    if within_some(x, victims) {
        let k = choose|k: int| 0 <= k < victims.len() && within(x, #[trigger] victims[k]);
        let j = choose|j: int| 0 <= j < clips.len() && clips[j] == victims[k];
        assert(within(x, clips[j]));
    }
}

/// A range of a track that is freed is free: no clip on the track shares an
/// instant with it, and clips outside of it stay as they are.
pub proof fn law_freed_range_is_free(
    p: ProjectV,
    track_id: Id,
    from: TimeUs,
    to: TimeUs,
    ids: Seq<Id>,
    x: ClipV,
)
    requires
        laws::sound(p),
        from <= to,
        new_ids(p, ids),
    ensures
        match ops::carved(ops::start_plan(p), track_id, from, to, None, ids, 0) {
            Ok(y) => ready(p, y.0, ids) ==> {
                let clips = ops::clips_on(y.0.proj, track_id);
                &&& clips.contains(x) ==> !meets(x, from, to)
                &&& ops::clips_on(p, track_id).contains(x) && !meets(x, from, to) ==> clips.contains(x)
            },
            Err(e) => true,
        },
{
    let start = ops::start_plan(p);
    if let Ok(y) = ops::carved(start, track_id, from, to, None, ids, 0) {
        let none = Seq::<Id>::empty();
        lemma_start(p, ids, 0, none);
        if ready(p, y.0, ids) {
            lemma_carved(p, start, track_id, from, to, None, ids, 0, none);
            assert(going(p, y.0, ids, y.1)) by {
                reveal(careful);
            }
            lemma_carved_facts(p, start, track_id, from, to, ids, 0, x, track_id);
        }
    }
}

/// Whether no clip on a track shares an instant with a range.
pub open spec fn clear(p: ProjectV, track_id: Id, from: TimeUs, to: TimeUs) -> bool {
    forall|x: ClipV| #[trigger] ops::clips_on(p, track_id).contains(x) ==> !meets(x, from, to)
}

/// Whether every range that is clear on a track stays so.
spec fn keeps_clear(p: ProjectV, q: ProjectV) -> bool {
    forall|id: Id, from: TimeUs, to: TimeUs|
        clear(p, id, from, to) ==> #[trigger] clear(q, id, from, to)
}

proof fn lemma_carved_clears(
    p: ProjectV,
    plan: PlanV,
    track_id: Id,
    from: TimeUs,
    to: TimeUs,
    ids: Seq<Id>,
    used: nat,
)
    requires
        careful(p, plan, ids, used, Seq::<Id>::empty()),
        from <= to,
        ids.no_duplicates(),
        ops::carved(plan, track_id, from, to, None, ids, used) is Ok,
        ({
            let y = ops::carved(plan, track_id, from, to, None, ids, used)->Ok_0;
            going(p, y.0, ids, y.1)
        }),
    ensures
        ({
            let y = ops::carved(plan, track_id, from, to, None, ids, used)->Ok_0;
            clear(y.0.proj, track_id, from, to) && keeps_clear(plan.proj, y.0.proj)
        }),
{
    let y = ops::carved(plan, track_id, from, to, None, ids, used)->Ok_0;
    assert forall|x: ClipV| #[trigger] ops::clips_on(y.0.proj, track_id).contains(x) implies !meets(
        x,
        from,
        to,
    ) by {
        lemma_carved_facts(p, plan, track_id, from, to, ids, used, x, track_id);
    }
    assert forall|id: Id, f: TimeUs, t: TimeUs|
        clear(plan.proj, id, f, t) implies #[trigger] clear(y.0.proj, id, f, t) by {
        assert forall|x: ClipV| #[trigger] ops::clips_on(y.0.proj, id).contains(x) implies !meets(
            x,
            f,
            t,
        ) by {
            lemma_carved_facts(p, plan, track_id, from, to, ids, used, x, id);
            let before = ops::clips_on(plan.proj, id);
            if id == track_id && !before.contains(x) {
                let k = choose|k: int| 0 <= k < before.len() && within(x, #[trigger] before[k]);
                assert(before.contains(before[k]));
            }
        }
    }
}

// ---- what stays outside a range ----

/// Whether a clip on a track plays at a time, with material like that of a
/// payload.
pub open spec fn plays(p: ProjectV, track_id: Id, t: TimeUs, payload: PayloadV) -> bool {
    exists|x: ClipV| #[trigger]
        ops::clips_on(p, track_id).contains(x) && x.start <= t < x.finish() && stock::alike(
            x.payload,
            payload,
        )
}

/// Of a clip that is taken out of a range, a piece plays at each time outside
/// of it.
proof fn lemma_piece_plays(
    c: ClipV,
    track_id: Id,
    from: TimeUs,
    to: TimeUs,
    left: Id,
    right: Id,
    t: TimeUs,
)
    requires
        laws::lasting(c),
        c.start < to,
        from < c.finish(),
        from <= to,
        c.start <= t < c.finish(),
        !(from <= t < to),
    ensures
        ({
            let list = pieces(c, ops::carve_action(c, track_id, from, to, left, right));
            exists|i: int|
                0 <= i < list.len() && (#[trigger] list[i]).start <= t < list[i].finish()
        }),
{
    let list = pieces(c, ops::carve_action(c, track_id, from, to, left, right));
    if ops::wraps(c, from, to) {
        if t < from {
            assert(list[0].start <= t < list[0].finish());
        } else {
            assert(list[1].start <= t < list[1].finish());
        }
    } else {
        assert(list[0].start <= t < list[0].finish());
    }
}

proof fn lemma_piece_alike(
    c: ClipV,
    track_id: Id,
    from: TimeUs,
    to: TimeUs,
    left: Id,
    right: Id,
    i: int,
)
    requires
        0 <= i < pieces(c, ops::carve_action(c, track_id, from, to, left, right)).len(),
    ensures
        stock::alike(
            pieces(c, ops::carve_action(c, track_id, from, to, left, right))[i].payload,
            c.payload,
        ),
{
}

#[verifier::rlimit(60)]
#[verifier::spinoff_prover]
proof fn lemma_frees_plays(
    p: ProjectV,
    plan: PlanV,
    victims: Seq<ClipV>,
    track_id: Id,
    from: TimeUs,
    to: TimeUs,
    ids: Seq<Id>,
    used: nat,
    kept: Seq<Id>,
    t: TimeUs,
    payload: PayloadV,
)
    requires
        careful(p, plan, ids, used, kept),
        from <= to,
        !(from <= t < to),
        ids.no_duplicates(),
        victims.no_duplicates(),
        forall|i: int| 0 <= i < victims.len() ==> laws::sound_clip(#[trigger] victims[i]),
        forall|i: int|
            0 <= i < victims.len() ==> (#[trigger] victims[i]).start < to && from
                < victims[i].finish() && ops::clips_on(plan.proj, track_id).contains(victims[i]),
        ops::planned_all(plan, ops::carve_list(victims, track_id, from, to, ids, used).0) is Ok,
        going(
            p,
            ops::planned_all(
                plan,
                ops::carve_list(victims, track_id, from, to, ids, used).0,
            )->Ok_0,
            ids,
            ops::carve_list(victims, track_id, from, to, ids, used).1,
        ),
    ensures
        ({
            let q = ops::planned_all(
                plan,
                ops::carve_list(victims, track_id, from, to, ids, used).0,
            )->Ok_0;
            plays(q.proj, track_id, t, payload) <==> plays(plan.proj, track_id, t, payload)
        }),
    decreases victims.len(),
{
    if victims.len() > 0 {
        let rest = victims.drop_last();
        let c = victims.last();
        let n = victims.len() - 1;
        let y = ops::carve_list(rest, track_id, from, to, ids, used);
        let z = ops::carve_list(victims, track_id, from, to, ids, used);
        let left = ids[y.1 as int];
        let right = ids[y.1 as int + 1];
        let a = ops::carve_action(c, track_id, from, to, left, right);
        assert(z.0 == y.0.push(a));
        lemma_planned_push(plan, y.0, a);
        assert(victims[n] == c);
        assert forall|i: int| 0 <= i < rest.len() implies laws::sound_clip(#[trigger] rest[i])
            && rest[i].start < to && from < rest[i].finish() && ops::clips_on(
            plan.proj,
            track_id,
        ).contains(rest[i]) by {
            assert(rest[i] == victims[i]);
        }
        assert forall|i: int, j: int| 0 <= i < rest.len() && 0 <= j < rest.len() && i
            != j implies rest[i] != rest[j] by {
            assert(rest[i] == victims[i] && rest[j] == victims[j]);
        }
        assert(!rest.contains(c)) by {
            if rest.contains(c) {
                let i = choose|i: int| 0 <= i < rest.len() && rest[i] == c;
                assert(victims[i] == victims[n]);
            }
        }
        assert forall|i: int| 0 <= i < victims.len() implies stock::in_project(
            plan.proj,
            #[trigger] victims[i],
        ) by {
            lemma_in_project_on(plan.proj, track_id, victims[i]);
        }
        assert forall|i: int| 0 <= i < rest.len() implies stock::in_project(
            plan.proj,
            #[trigger] rest[i],
        ) by {
            assert(rest[i] == victims[i]);
        }
        let q = ops::planned_all(plan, y.0)->Ok_0;
        let r = ops::planned_all(plan, z.0)->Ok_0;
        lemma_carve_list(p, plan, rest, track_id, from, to, ids, used, kept);
        lemma_carve_list(p, plan, victims, track_id, from, to, ids, used, kept);
        reveal(ops::planned);
        assert(r.actions.drop_last() =~= q.actions);
        assert(going(p, q, ids, y.1));
        lemma_frees(p, plan, rest, track_id, from, to, ids, used, kept, c, track_id);
        lemma_frees_plays(p, plan, rest, track_id, from, to, ids, used, kept, t, payload);
        assert(laws::sound(q.proj) && laws::sound(r.proj)) by {
            reveal(careful);
        }
        lemma_plays_on(q.proj, track_id, c, from, to, left, right, t, payload);
    }
}

/// What plays outside a range does so after one clip is taken out of it.
proof fn lemma_plays_on(
    p: ProjectV,
    track_id: Id,
    c: ClipV,
    from: TimeUs,
    to: TimeUs,
    left: Id,
    right: Id,
    t: TimeUs,
    payload: PayloadV,
)
    requires
        laws::sound(p),
        laws::lasting(c),
        c.start < to,
        from < c.finish(),
        from <= to,
        !(from <= t < to),
        ops::clips_on(p, track_id).contains(c),
        action::step(p, ops::carve_action(c, track_id, from, to, left, right)) is Ok,
        laws::sound(
            action::step(p, ops::carve_action(c, track_id, from, to, left, right))->Ok_0.0,
        ),
    ensures
        plays(
            action::step(p, ops::carve_action(c, track_id, from, to, left, right))->Ok_0.0,
            track_id,
            t,
            payload,
        ) <==> plays(p, track_id, t, payload),
{
    let a = ops::carve_action(c, track_id, from, to, left, right);
    let q = action::step(p, a)->Ok_0.0;
    let list = pieces(c, a);
    if plays(q, track_id, t, payload) {
        let x = choose|x: ClipV| #[trigger]
            ops::clips_on(q, track_id).contains(x) && x.start <= t < x.finish() && stock::alike(
                x.payload,
                payload,
            );
        lemma_gives_way(p, track_id, c, a, x);
        if list.contains(x) {
            let i = choose|i: int| 0 <= i < list.len() && list[i] == x;
            lemma_piece_is_out(c, track_id, from, to, left, right, i);
            lemma_piece_alike(c, track_id, from, to, left, right, i);
            assert(ops::clips_on(p, track_id).contains(c));
        } else {
            assert(ops::clips_on(p, track_id).contains(x));
        }
    }
    if plays(p, track_id, t, payload) {
        let x = choose|x: ClipV| #[trigger]
            ops::clips_on(p, track_id).contains(x) && x.start <= t < x.finish() && stock::alike(
                x.payload,
                payload,
            );
        if x == c {
            lemma_piece_plays(c, track_id, from, to, left, right, t);
            let i = choose|i: int|
                0 <= i < list.len() && (#[trigger] list[i]).start <= t < list[i].finish();
            lemma_piece_alike(c, track_id, from, to, left, right, i);
            assert(list.contains(list[i]));
            lemma_gives_way(p, track_id, c, a, list[i]);
            assert(ops::clips_on(q, track_id).contains(list[i]));
        } else {
            lemma_gives_way(p, track_id, c, a, x);
            assert(ops::clips_on(q, track_id).contains(x));
        }
    }
}

proof fn lemma_carved_plays(
    p: ProjectV,
    plan: PlanV,
    track_id: Id,
    from: TimeUs,
    to: TimeUs,
    ids: Seq<Id>,
    used: nat,
    t: TimeUs,
    payload: PayloadV,
    other: Id,
)
    requires
        careful(p, plan, ids, used, Seq::<Id>::empty()),
        from <= to,
        !(from <= t < to),
        ids.no_duplicates(),
        ops::carved(plan, track_id, from, to, None, ids, used) is Ok,
        ({
            let y = ops::carved(plan, track_id, from, to, None, ids, used)->Ok_0;
            going(p, y.0, ids, y.1)
        }),
    ensures
        plays(
            ops::carved(plan, track_id, from, to, None, ids, used)->Ok_0.0.proj,
            other,
            t,
            payload,
        ) <==> plays(plan.proj, other, t, payload),
{
    let none = Seq::<Id>::empty();
    lemma_carved(p, plan, track_id, from, to, None, ids, used, none);
    let q = plan.proj;
    assert(laws::sound(q)) by {
        reveal(careful);
    }
    laws::lemma_track_found(q, track_id);
    let at = model::track_place(q, track_id)->Some_0;
    let clips = model::track_at(q, at).clips;
    let victims = ops::victims_of(clips, from, to, None);
    if other != track_id {
        if clips.len() > 0 {
            lemma_carved_facts(p, plan, track_id, from, to, ids, used, clips[0], other);
        } else {
            assert(victims.len() == 0);
        }
    } else {
        assert forall|i: int, j: int|
            0 <= i < clips.len() && 0 <= j < clips.len() && (#[trigger] clips[i]).id == (
            #[trigger] clips[j]).id implies i == j by {
            assert(laws::has_clip(q, at.0, at.1, i, clips[i].id));
            assert(laws::has_clip(q, at.0, at.1, j, clips[i].id));
        }
        assert(victims.no_duplicates()) by {
            if clips.len() > 0 {
                lemma_all_victims(clips, from, to, clips[0]);
            }
        }
        assert forall|i: int| 0 <= i < victims.len() implies (#[trigger] victims[i]).start < to
            && from < victims[i].finish() && clips.contains(victims[i]) && laws::sound_clip(
            victims[i],
        ) by {
            assert(victims.contains(victims[i]));
            lemma_victims(clips, from, to, None, victims[i]);
            lemma_clips_on(q, track_id, victims[i]);
        }
        lemma_frees_plays(p, plan, victims, track_id, from, to, ids, used, none, t, payload);
    }
}

proof fn lemma_tracks_play(
    p: ProjectV,
    plan: PlanV,
    tids: Seq<Id>,
    from: TimeUs,
    to: TimeUs,
    ids: Seq<Id>,
    used: nat,
    t: TimeUs,
    payload: PayloadV,
    other: Id,
)
    requires
        careful(p, plan, ids, used, Seq::<Id>::empty()),
        from <= to,
        !(from <= t < to),
        ids.no_duplicates(),
        ranges::carved_tracks(plan, tids, from, to, ids, used) is Ok,
        ({
            let x = ranges::carved_tracks(plan, tids, from, to, ids, used)->Ok_0;
            going(p, x.0, ids, x.1)
        }),
    ensures
        plays(
            ranges::carved_tracks(plan, tids, from, to, ids, used)->Ok_0.0.proj,
            other,
            t,
            payload,
        ) <==> plays(plan.proj, other, t, payload),
        going(p, plan, ids, used),
    decreases tids.len(),
{
    if tids.len() > 0 {
        lemma_carved(p, plan, tids[0], from, to, None, ids, used, Seq::<Id>::empty());
        let y = ops::carved(plan, tids[0], from, to, None, ids, used)->Ok_0;
        lemma_tracks_play(p, y.0, tids.drop_first(), from, to, ids, y.1, t, payload, other);
        lemma_carved_plays(p, plan, tids[0], from, to, ids, used, t, payload, other);
    }
}

/// Whether a time is in none of some ranges.
pub open spec fn outside(list: Seq<(TimeUs, TimeUs)>, t: TimeUs) -> bool {
    forall|i: int| 0 <= i < list.len() ==> !((#[trigger] list[i]).0 <= t < list[i].1)
}

proof fn lemma_ranges_play(
    p: ProjectV,
    plan: PlanV,
    tids: Seq<Id>,
    list: Seq<(TimeUs, TimeUs)>,
    ids: Seq<Id>,
    used: nat,
    t: TimeUs,
    payload: PayloadV,
    other: Id,
)
    requires
        careful(p, plan, ids, used, Seq::<Id>::empty()),
        forward(list),
        outside(list, t),
        ids.no_duplicates(),
        ranges::carved_ranges(plan, tids, list, ids, used) is Ok,
        ({
            let x = ranges::carved_ranges(plan, tids, list, ids, used)->Ok_0;
            going(p, x.0, ids, x.1)
        }),
    ensures
        plays(
            ranges::carved_ranges(plan, tids, list, ids, used)->Ok_0.0.proj,
            other,
            t,
            payload,
        ) <==> plays(plan.proj, other, t, payload),
        going(p, plan, ids, used),
    decreases list.len(),
{
    if list.len() > 0 {
        let rest = list.drop_first();
        assert(list[0].0 <= list[0].1);
        assert(!(list[0].0 <= t < list[0].1));
        assert forall|i: int| 0 <= i < rest.len() implies (#[trigger] rest[i]).0 <= rest[i].1
            && !(rest[i].0 <= t < rest[i].1) by {
            assert(rest[i] == list[i + 1]);
        }
        lemma_carved_tracks(p, plan, tids, list[0].0, list[0].1, ids, used);
        let y = ranges::carved_tracks(plan, tids, list[0].0, list[0].1, ids, used)->Ok_0;
        lemma_ranges_play(p, y.0, tids, rest, ids, y.1, t, payload, other);
        lemma_tracks_play(p, plan, tids, list[0].0, list[0].1, ids, used, t, payload, other);
    }
}

/// What is not cut out stays: without ripple, what plays on a track at a time
/// outside the ranges that are cut is what played there before.
pub proof fn law_cut_ranges_keep_the_rest(
    p: ProjectV,
    sequence_id: Id,
    list: Seq<(TimeUs, TimeUs)>,
    ids: Seq<Id>,
    track_id: Id,
    t: TimeUs,
    payload: PayloadV,
)
    requires
        laws::sound(p),
        new_ids(p, ids),
    ensures
        match ranges::cut_ranges_spec(p, sequence_id, list, false, ids) {
            Ok(x) => {
                let s = p.sequences[seqs::pos(p.sequences, sequence_id) as int];
                let merged = ranges::joined_ranges(
                    action::sorted_ranges(ranges::on_grid(ranges::lasting_ranges(list), s.fps)),
                );
                ready(p, x, ids) && outside(merged, t) ==> (plays(x.proj, track_id, t, payload)
                    <==> plays(p, track_id, t, payload))
            },
            Err(e) => true,
        },
{
    if let Ok(x) = ranges::cut_ranges_spec(p, sequence_id, list, false, ids) {
        let none = Seq::<Id>::empty();
        let s = p.sequences[seqs::pos(p.sequences, sequence_id) as int];
        let merged = ranges::joined_ranges(
            action::sorted_ranges(ranges::on_grid(ranges::lasting_ranges(list), s.fps)),
        );
        let tids = ranges::open_tracks(s.tracks);
        let start = ops::start_plan(p);
        lemma_start(p, ids, 0, none);
        lemma_merged_forward(list, s.fps);
        lemma_carved_ranges(p, start, tids, merged, ids, 0);
        let y = ranges::carved_ranges(start, tids, merged, ids, 0)->Ok_0;
        if ready(p, x, ids) && outside(merged, t) {
            assert(going(p, y.0, ids, y.1)) by {
                reveal(careful);
            }
            lemma_ranges_play(p, start, tids, merged, ids, 0, t, payload, track_id);
        }
    }
}

/// One more clip, with the first of the kept identifiers.
proof fn lemma_insert_kept(
    p: ProjectV,
    plan: PlanV,
    track_id: Id,
    clip: ClipV,
    ids: Seq<Id>,
    used: nat,
    kept: Seq<Id>,
)
    requires
        careful(p, plan, ids, used, kept),
        kept.len() > 0,
        kept[0] == clip.id,
        going(p, plan, ids, used) ==> kept.no_duplicates(),
        going(p, plan, ids, used) && clip.start + clip.duration <= i64::MAX ==> laws::sound_clip(
            clip,
        ),
        ops::planned(plan, (ActionV::InsertClip { track_id, clip })) is Ok,
    ensures
        ({
            let q = ops::planned(plan, (ActionV::InsertClip { track_id, clip }))->Ok_0;
            &&& careful(p, q, ids, used, kept.drop_first())
            &&& going(p, q, ids, used) ==> going(p, plan, ids, used)
        }),
{
    reveal(ops::planned);
    reveal(ops::replays);
    reveal(careful);
    let a = ActionV::InsertClip { track_id, clip };
    let q = ops::planned(plan, a)->Ok_0;
    let left = kept.drop_first();
    assert(q.actions.drop_last() =~= plan.actions);
    assert(q.actions.last() == a);
    if going(p, q, ids, used) {
        assert(laws::fresh_clip(plan.proj, kept[0]));
        assert(laws::admissible(plan.proj, a));
        laws::law_inverse_restores(plan.proj, a);
        assert(laws::sound(q.proj)) by {
            reveal(laws::undone);
        }
        if rooted(p, q) {
            stock::lemma_stays_stocked(plan.proj, a);
        }
        assert(from_supply(q.actions, ids)) by {
            lemma_more_supply(plan.actions, a, ids);
        }
        assert forall|k: int| used <= k < ids.len() implies laws::fresh_clip(
            q.proj,
            #[trigger] ids[k],
        ) by {
            assert(kept[0] != ids[k]);
            lemma_still_fresh(plan.proj, a, ids[k]);
        }
        assert forall|i: int| 0 <= i < left.len() implies laws::fresh_clip(
            q.proj,
            #[trigger] left[i],
        ) by {
            assert(left[i] == kept[i + 1]);
            assert(laws::fresh_clip(plan.proj, kept[i + 1]));
            lemma_still_fresh(plan.proj, a, left[i]);
        }
        assert forall|i: int, k: int|
            0 <= i < left.len() && used <= k < ids.len() implies #[trigger] left[i]
            != #[trigger] ids[k] by {
            assert(left[i] == kept[i + 1]);
        }
    }
}

/// The insertion of a new sound clip leaves a sound project and can be undone,
/// where the identifiers are new.
pub proof fn law_insert_restores(
    p: ProjectV,
    track_id: Id,
    clip: ClipV,
    mode: InsertMode,
    ids: Seq<Id>,
)
    requires
        laws::sound(p),
        laws::sound_clip(clip),
        new_ids(p, ids.push(clip.id)),
    ensures
        match ops::insert_spec(p, track_id, clip, mode, ids) {
            Ok(x) => ready(p, x, ids) ==> restores(p, x) && from_supply(x.actions, ids),
            Err(e) => true,
        },
{
    if let Ok(x) = ops::insert_spec(p, track_id, clip, mode, ids) {
        let all = ids.push(clip.id);
        let kept = seq![clip.id];
        let n = ids.len() as int;
        assert(all[n] == clip.id);
        assert forall|k: int| 0 <= k < ids.len() implies laws::fresh_clip(p, #[trigger] ids[k])
            && ids[k] != clip.id by {
            assert(all[k] == ids[k]);
        }
        assert forall|i: int, j: int| 0 <= i < ids.len() && 0 <= j < ids.len() && i != j implies ids[i]
            != ids[j] by {
            assert(all[i] == ids[i] && all[j] == ids[j]);
        }
        assert(ids.no_duplicates());
        lemma_start(p, ids, 0, kept);
        let start = ops::start_plan(p);
        if mode == InsertMode::Overwrite {
            lemma_carved(p, start, track_id, clip.start, clip.finish(), None, ids, 0, kept);
            let y = ops::carved(start, track_id, clip.start, clip.finish(), None, ids, 0)->Ok_0;
            lemma_insert_kept(p, y.0, track_id, clip, ids, y.1, kept);
            if ready(p, x, ids) {
                lemma_end(p, x, ids, y.1, kept.drop_first());
            }
        } else {
            lemma_insert_kept(p, start, track_id, clip, ids, 0, kept);
            if ready(p, x, ids) {
                lemma_end(p, x, ids, 0, kept.drop_first());
            }
        }
    }
}

proof fn lemma_moved_one(
    p: ProjectV,
    plan: PlanV,
    clip_id: Id,
    to_track: Id,
    to_start: TimeUs,
    duration: TimeUs,
    mode: InsertMode,
    ids: Seq<Id>,
    used: nat,
)
    requires
        careful(p, plan, ids, used, Seq::<Id>::empty()),
        going(p, plan, ids, used) ==> duration >= 0,
        ids.no_duplicates(),
        ops::moved_one(plan, clip_id, to_track, to_start, duration, mode, ids, used) is Ok,
    ensures
        ({
            let x = ops::moved_one(plan, clip_id, to_track, to_start, duration, mode, ids, used)->Ok_0;
            careful(p, x.0, ids, x.1, Seq::<Id>::empty())
        }),
{
    let none = Seq::<Id>::empty();
    let a = ActionV::MoveClipToTrack { clip_id, to_track, to_start };
    if mode == InsertMode::Overwrite {
        let to = time::later(to_start, duration);
        lemma_carved(p, plan, to_track, to_start, to, Some(clip_id), ids, used, none);
        let y = ops::carved(plan, to_track, to_start, to, Some(clip_id), ids, used)->Ok_0;
        lemma_quiet(p, y.0, a, ids, y.1, none);
    } else {
        lemma_quiet(p, plan, a, ids, used, none);
    }
}

proof fn lemma_moved_linked(
    p: ProjectV,
    plan: PlanV,
    group: Seq<Id>,
    clip_id: Id,
    delta: TimeUs,
    mode: InsertMode,
    ids: Seq<Id>,
    used: nat,
)
    requires
        careful(p, plan, ids, used, Seq::<Id>::empty()),
        ids.no_duplicates(),
        ops::moved_linked(plan, group, clip_id, delta, mode, ids, used) is Ok,
    ensures
        ({
            let x = ops::moved_linked(plan, group, clip_id, delta, mode, ids, used)->Ok_0;
            careful(p, x.0, ids, x.1, Seq::<Id>::empty())
        }),
    decreases group.len(),
{
    if group.len() > 0 {
        let rest = group.drop_first();
        let gid = group[0];
        match model::clip_place(plan.proj, gid) {
            None => {
                lemma_moved_linked(p, plan, rest, clip_id, delta, mode, ids, used);
            },
            Some(at) => {
                if gid == clip_id {
                    lemma_moved_linked(p, plan, rest, clip_id, delta, mode, ids, used);
                } else {
                    let c = model::clip_at(plan.proj, at);
                    let track_id = model::track_at(plan.proj, (at.0, at.1)).id;
                    let start = time::max_time(time::later(c.start, delta), 0);
                    if going(p, plan, ids, used) {
                        assert(laws::sound(plan.proj)) by {
                            reveal(careful);
                        }
                        laws::lemma_clip_found(plan.proj, gid);
                        lemma_clip_sound(plan.proj, at);
                    }
                    lemma_moved_one(p, plan, gid, track_id, start, c.duration, mode, ids, used);
                    let x = ops::moved_one(
                        plan,
                        gid,
                        track_id,
                        start,
                        c.duration,
                        mode,
                        ids,
                        used,
                    )->Ok_0;
                    lemma_moved_linked(p, x.0, rest, clip_id, delta, mode, ids, x.1);
                }
            },
        }
    }
}

/// A move of a clip with those linked to it leaves a sound project and can be
/// undone, where clips end within the range of times, no piece is left without
/// material, and the identifiers are new.
pub proof fn law_move_restores(
    p: ProjectV,
    clip_id: Id,
    to_track: Id,
    to_start: TimeUs,
    mode: InsertMode,
    ids: Seq<Id>,
)
    requires
        laws::sound(p),
        new_ids(p, ids),
    ensures
        match ops::move_spec(p, clip_id, to_track, to_start, mode, ids) {
            Ok(x) => ready(p, x, ids) ==> restores(p, x) && from_supply(x.actions, ids),
            Err(e) => true,
        },
{
    if let Ok(x) = ops::move_spec(p, clip_id, to_track, to_start, mode, ids) {
        let none = Seq::<Id>::empty();
        let at = model::clip_place(p, clip_id)->Some_0;
        let c = model::clip_at(p, at);
        let dest = time::quantized(time::max_time(to_start, 0), p.sequences[at.0].fps);
        let delta = time::sooner(dest, c.start);
        let start = ops::start_plan(p);
        laws::lemma_clip_found(p, clip_id);
        lemma_clip_sound(p, at);
        lemma_start(p, ids, 0, none);
        lemma_moved_one(p, start, clip_id, to_track, dest, c.duration, mode, ids, 0);
        let y = ops::moved_one(start, clip_id, to_track, dest, c.duration, mode, ids, 0)->Ok_0;
        if delta != 0 {
            let group = ops::linked(p, clip_id);
            lemma_moved_linked(p, y.0, group, clip_id, delta, mode, ids, y.1);
            let z = ops::moved_linked(y.0, group, clip_id, delta, mode, ids, y.1)->Ok_0;
            if ready(p, x, ids) {
                lemma_end(p, x, ids, z.1, none);
            }
        } else if ready(p, x, ids) {
            lemma_end(p, x, ids, y.1, none);
        }
    }
}

// ---- ranges ----

proof fn lemma_cut_both(
    p: ProjectV,
    plan: PlanV,
    tids: Seq<Id>,
    from: TimeUs,
    to: TimeUs,
    ids: Seq<Id>,
    used: nat,
)
    requires
        careful(p, plan, ids, used, Seq::<Id>::empty()),
        ids.no_duplicates(),
        ranges::cut_both(plan, tids, from, to, ids, used) is Ok,
    ensures
        ({
            let x = ranges::cut_both(plan, tids, from, to, ids, used)->Ok_0;
            careful(p, x.0, ids, x.1, Seq::<Id>::empty())
        }),
{
    reveal(ranges::cut_both);
    let none = Seq::<Id>::empty();
    lemma_cut_tracks(p, plan, tids, from, ids, used, none);
    let x = ops::cut_tracks(plan, tids, from, ids, used)->Ok_0;
    lemma_cut_tracks(p, x.0, tids, to, ids, x.1, none);
}

proof fn lemma_cut_edges(
    p: ProjectV,
    plan: PlanV,
    tids: Seq<Id>,
    list: Seq<(TimeUs, TimeUs)>,
    ids: Seq<Id>,
    used: nat,
)
    requires
        careful(p, plan, ids, used, Seq::<Id>::empty()),
        ids.no_duplicates(),
        ranges::cut_edges(plan, tids, list, ids, used) is Ok,
    ensures
        ({
            let x = ranges::cut_edges(plan, tids, list, ids, used)->Ok_0;
            careful(p, x.0, ids, x.1, Seq::<Id>::empty())
        }),
    decreases list.len(),
{
    if list.len() > 0 {
        lemma_cut_both(p, plan, tids, list[0].0, list[0].1, ids, used);
        let x = ranges::cut_both(plan, tids, list[0].0, list[0].1, ids, used)->Ok_0;
        lemma_cut_edges(p, x.0, tids, list.drop_first(), ids, x.1);
    }
}

/// A split at the edges of ranges leaves a sound project and can be undone,
/// where the identifiers are new.
pub proof fn law_split_ranges_restores(
    p: ProjectV,
    sequence_id: Id,
    list: Seq<(TimeUs, TimeUs)>,
    ids: Seq<Id>,
)
    requires
        laws::sound(p),
        new_ids(p, ids),
    ensures
        match ranges::split_ranges_spec(p, sequence_id, list, ids) {
            Ok(x) => ready(p, x, ids) ==> restores(p, x) && from_supply(x.actions, ids),
            Err(e) => true,
        },
{
    if let Ok(x) = ranges::split_ranges_spec(p, sequence_id, list, ids) {
        let none = Seq::<Id>::empty();
        let s = p.sequences[seqs::pos(p.sequences, sequence_id) as int];
        let tids = ranges::open_tracks(s.tracks);
        let edges = action::sorted_ranges(ranges::on_grid(list, s.fps));
        lemma_start(p, ids, 0, none);
        lemma_cut_edges(p, ops::start_plan(p), tids, edges, ids, 0);
        let y = ranges::cut_edges(ops::start_plan(p), tids, edges, ids, 0)->Ok_0;
        if ready(p, x, ids) {
            lemma_end(p, x, ids, y.1, none);
        }
    }
}

proof fn lemma_carved_tracks(
    p: ProjectV,
    plan: PlanV,
    tids: Seq<Id>,
    from: TimeUs,
    to: TimeUs,
    ids: Seq<Id>,
    used: nat,
)
    requires
        careful(p, plan, ids, used, Seq::<Id>::empty()),
        from <= to,
        ids.no_duplicates(),
        ranges::carved_tracks(plan, tids, from, to, ids, used) is Ok,
    ensures
        ({
            let x = ranges::carved_tracks(plan, tids, from, to, ids, used)->Ok_0;
            careful(p, x.0, ids, x.1, Seq::<Id>::empty()) && (going(p, x.0, ids, x.1) ==> going(
                p,
                plan,
                ids,
                used,
            ))
        }),
    decreases tids.len(),
{
    if tids.len() > 0 {
        lemma_carved(p, plan, tids[0], from, to, None, ids, used, Seq::<Id>::empty());
        let x = ops::carved(plan, tids[0], from, to, None, ids, used)->Ok_0;
        lemma_carved_tracks(p, x.0, tids.drop_first(), from, to, ids, x.1);
    }
}

/// Whether no range ends before it starts.
spec fn forward(list: Seq<(TimeUs, TimeUs)>) -> bool {
    forall|i: int| 0 <= i < list.len() ==> (#[trigger] list[i]).0 <= list[i].1
}

proof fn lemma_on_grid_forward(list: Seq<(TimeUs, TimeUs)>, fps: (u32, u32))
    ensures
        forward(ranges::on_grid(list, fps)),
    decreases list.len(),
{
    if list.len() > 0 {
        lemma_on_grid_forward(list.drop_last(), fps);
    }
}

proof fn lemma_joined_forward(list: Seq<(TimeUs, TimeUs)>)
    requires
        forward(list),
    ensures
        forward(ranges::joined_ranges(list)),
    decreases list.len(),
{
    if list.len() > 0 {
        let rest = list.drop_last();
        assert forall|i: int| 0 <= i < rest.len() implies (#[trigger] rest[i]).0 <= rest[i].1 by {
            assert(rest[i] == list[i]);
        }
        lemma_joined_forward(rest);
        let m = ranges::joined_ranges(rest);
        assert(list[list.len() - 1].0 <= list.last().1);
        if m.len() > 0 {
            assert(m[m.len() - 1].0 <= m.last().1);
        }
    }
}

/// The ranges that are cut do not end before they start.
proof fn lemma_merged_forward(list: Seq<(TimeUs, TimeUs)>, fps: (u32, u32))
    ensures
        forward(
            ranges::joined_ranges(
                action::sorted_ranges(ranges::on_grid(ranges::lasting_ranges(list), fps)),
            ),
        ),
{
    let grid = ranges::on_grid(ranges::lasting_ranges(list), fps);
    lemma_on_grid_forward(ranges::lasting_ranges(list), fps);
    let sorted = action::sorted_ranges(grid);
    laws::lemma_sorted_ranges(grid);
    assert forall|i: int| 0 <= i < sorted.len() implies (#[trigger] sorted[i]).0 <= sorted[i].1 by {
        assert(sorted.contains(sorted[i]));
        let k = choose|k: int| 0 <= k < grid.len() && grid[k] == sorted[i];
        assert(grid[k].0 <= grid[k].1);
    }
    lemma_joined_forward(sorted);
}

proof fn lemma_carved_ranges(
    p: ProjectV,
    plan: PlanV,
    tids: Seq<Id>,
    list: Seq<(TimeUs, TimeUs)>,
    ids: Seq<Id>,
    used: nat,
)
    requires
        careful(p, plan, ids, used, Seq::<Id>::empty()),
        forward(list),
        ids.no_duplicates(),
        ranges::carved_ranges(plan, tids, list, ids, used) is Ok,
    ensures
        ({
            let x = ranges::carved_ranges(plan, tids, list, ids, used)->Ok_0;
            careful(p, x.0, ids, x.1, Seq::<Id>::empty())
        }),
    decreases list.len(),
{
    if list.len() > 0 {
        assert(list[0].0 <= list[0].1);
        assert forall|i: int| 0 <= i < list.drop_first().len() implies (
        #[trigger] list.drop_first()[i]).0 <= list.drop_first()[i].1 by {
            assert(list.drop_first()[i] == list[i + 1]);
        }
        lemma_carved_tracks(p, plan, tids, list[0].0, list[0].1, ids, used);
        let x = ranges::carved_tracks(plan, tids, list[0].0, list[0].1, ids, used)->Ok_0;
        lemma_carved_ranges(p, x.0, tids, list.drop_first(), ids, x.1);
    }
}

#[verifier::spinoff_prover]
proof fn lemma_tracks_clear(
    p: ProjectV,
    plan: PlanV,
    tids: Seq<Id>,
    from: TimeUs,
    to: TimeUs,
    ids: Seq<Id>,
    used: nat,
)
    requires
        careful(p, plan, ids, used, Seq::<Id>::empty()),
        from <= to,
        ids.no_duplicates(),
        ranges::carved_tracks(plan, tids, from, to, ids, used) is Ok,
        ({
            let x = ranges::carved_tracks(plan, tids, from, to, ids, used)->Ok_0;
            going(p, x.0, ids, x.1)
        }),
    ensures
        ({
            let x = ranges::carved_tracks(plan, tids, from, to, ids, used)->Ok_0;
            &&& going(p, plan, ids, used)
            &&& keeps_clear(plan.proj, x.0.proj)
            &&& forall|k: int| 0 <= k < tids.len() ==> clear(x.0.proj, #[trigger] tids[k], from, to)
        }),
    decreases tids.len(),
{
    if tids.len() > 0 {
        let x = ranges::carved_tracks(plan, tids, from, to, ids, used)->Ok_0;
        lemma_carved(p, plan, tids[0], from, to, None, ids, used, Seq::<Id>::empty());
        let y = ops::carved(plan, tids[0], from, to, None, ids, used)->Ok_0;
        lemma_tracks_clear(p, y.0, tids.drop_first(), from, to, ids, y.1);
        lemma_carved_clears(p, plan, tids[0], from, to, ids, used);
        assert forall|k: int| 0 <= k < tids.len() implies clear(
            x.0.proj,
            #[trigger] tids[k],
            from,
            to,
        ) by {
            if k > 0 {
                assert(tids.drop_first()[k - 1] == tids[k]);
            }
        }
    }
}

proof fn lemma_ranges_clear(
    p: ProjectV,
    plan: PlanV,
    tids: Seq<Id>,
    list: Seq<(TimeUs, TimeUs)>,
    ids: Seq<Id>,
    used: nat,
)
    requires
        careful(p, plan, ids, used, Seq::<Id>::empty()),
        forward(list),
        ids.no_duplicates(),
        ranges::carved_ranges(plan, tids, list, ids, used) is Ok,
        ({
            let x = ranges::carved_ranges(plan, tids, list, ids, used)->Ok_0;
            going(p, x.0, ids, x.1)
        }),
    ensures
        ({
            let x = ranges::carved_ranges(plan, tids, list, ids, used)->Ok_0;
            &&& going(p, plan, ids, used)
            &&& keeps_clear(plan.proj, x.0.proj)
            &&& forall|i: int, k: int|
                0 <= i < list.len() && 0 <= k < tids.len() ==> clear(
                    x.0.proj,
                    #[trigger] tids[k],
                    (#[trigger] list[i]).0,
                    list[i].1,
                )
        }),
    decreases list.len(),
{
    if list.len() > 0 {
        assert(list[0].0 <= list[0].1);
        assert forall|i: int| 0 <= i < list.drop_first().len() implies (
        #[trigger] list.drop_first()[i]).0 <= list.drop_first()[i].1 by {
            assert(list.drop_first()[i] == list[i + 1]);
        }
        let x = ranges::carved_ranges(plan, tids, list, ids, used)->Ok_0;
        let from = list[0].0;
        let to = list[0].1;
        lemma_carved_tracks(p, plan, tids, from, to, ids, used);
        let y = ranges::carved_tracks(plan, tids, from, to, ids, used)->Ok_0;
        lemma_ranges_clear(p, y.0, tids, list.drop_first(), ids, y.1);
        lemma_tracks_clear(p, plan, tids, from, to, ids, used);
        assert forall|i: int, k: int| 0 <= i < list.len() && 0 <= k < tids.len() implies clear(
            x.0.proj,
            #[trigger] tids[k],
            (#[trigger] list[i]).0,
            list[i].1,
        ) by {
            if i > 0 {
                assert(list.drop_first()[i - 1] == list[i]);
            } else {
                assert(clear(y.0.proj, tids[k], from, to));
            }
        }
    }
}

/// What is cut out is gone from all tracks that are not locked: without ripple,
/// no clip on them shares an instant with a range that was cut.
pub proof fn law_cut_ranges_are_gone(
    p: ProjectV,
    sequence_id: Id,
    list: Seq<(TimeUs, TimeUs)>,
    ids: Seq<Id>,
)
    requires
        laws::sound(p),
        new_ids(p, ids),
    ensures
        match ranges::cut_ranges_spec(p, sequence_id, list, false, ids) {
            Ok(x) => ready(p, x, ids) ==> {
                let s = p.sequences[seqs::pos(p.sequences, sequence_id) as int];
                let merged = ranges::joined_ranges(
                    action::sorted_ranges(ranges::on_grid(ranges::lasting_ranges(list), s.fps)),
                );
                let tids = ranges::open_tracks(s.tracks);
                forall|i: int, k: int|
                    0 <= i < merged.len() && 0 <= k < tids.len() ==> clear(
                        x.proj,
                        #[trigger] tids[k],
                        (#[trigger] merged[i]).0,
                        merged[i].1,
                    )
            },
            Err(e) => true,
        },
{
    if let Ok(x) = ranges::cut_ranges_spec(p, sequence_id, list, false, ids) {
        let none = Seq::<Id>::empty();
        let s = p.sequences[seqs::pos(p.sequences, sequence_id) as int];
        let merged = ranges::joined_ranges(
            action::sorted_ranges(ranges::on_grid(ranges::lasting_ranges(list), s.fps)),
        );
        let tids = ranges::open_tracks(s.tracks);
        let start = ops::start_plan(p);
        lemma_start(p, ids, 0, none);
        lemma_merged_forward(list, s.fps);
        lemma_carved_ranges(p, start, tids, merged, ids, 0);
        let y = ranges::carved_ranges(start, tids, merged, ids, 0)->Ok_0;
        if ready(p, x, ids) {
            assert(going(p, y.0, ids, y.1)) by {
                reveal(careful);
            }
            lemma_ranges_clear(p, start, tids, merged, ids, 0);
        }
    }
}

proof fn lemma_gaps_quiet(clips: Seq<ClipV>, gaps: Seq<(TimeUs, TimeUs)>)
    ensures
        forall|i: int|
            0 <= i < ops::close_gaps(clips, gaps).len() ==> stock::leaves_sources(
                #[trigger] ops::close_gaps(clips, gaps)[i],
            ),
    decreases clips.len(),
{
    if clips.len() > 0 {
        lemma_gaps_quiet(clips.drop_last(), gaps);
        let r = ops::close_gaps(clips.drop_last(), gaps);
        let all = ops::close_gaps(clips, gaps);
        assert forall|i: int| 0 <= i < all.len() implies stock::leaves_sources(#[trigger] all[i]) by {
            if i < r.len() {
                assert(all[i] == r[i]);
            }
        }
    }
}

proof fn lemma_rippled(
    p: ProjectV,
    plan: PlanV,
    tids: Seq<Id>,
    list: Seq<(TimeUs, TimeUs)>,
    ids: Seq<Id>,
    used: nat,
)
    requires
        careful(p, plan, ids, used, Seq::<Id>::empty()),
        ids.no_duplicates(),
        ranges::rippled(plan, tids, list) is Ok,
    ensures
        careful(p, ranges::rippled(plan, tids, list)->Ok_0, ids, used, Seq::<Id>::empty()),
    decreases tids.len(),
{
    if tids.len() > 0 {
        let clips = ops::clips_on(plan.proj, tids[0]);
        lemma_gaps_quiet(clips, list);
        let moves = ops::close_gaps(clips, list);
        lemma_quiet_all(p, plan, moves, ids, used, Seq::<Id>::empty());
        lemma_rippled(p, ops::planned_all(plan, moves)->Ok_0, tids.drop_first(), list, ids, used);
    }
}

// ---- what ripple does ----

/// A clip as it is after the gaps before it are closed.
spec fn moved_left(c: ClipV, gaps: Seq<(TimeUs, TimeUs)>) -> ClipV {
    let shift = ops::gone_before(gaps, c.start);
    if shift > 0 {
        ClipV { start: time::sooner(c.start, shift), ..c }
    } else {
        c
    }
}

#[verifier::rlimit(60)]
#[verifier::spinoff_prover]
proof fn lemma_gaps_closed(
    p: ProjectV,
    plan: PlanV,
    track_id: Id,
    gaps: Seq<(TimeUs, TimeUs)>,
    n: nat,
    ids: Seq<Id>,
    used: nat,
    i: int,
    other: Id,
)
    requires
        careful(p, plan, ids, used, Seq::<Id>::empty()),
        ids.no_duplicates(),
        n <= ops::clips_on(plan.proj, track_id).len(),
        0 <= i < ops::clips_on(plan.proj, track_id).len(),
        ops::planned_all(
            plan,
            ops::close_gaps(ops::clips_on(plan.proj, track_id).take(n as int), gaps),
        ) is Ok,
        going(
            p,
            ops::planned_all(
                plan,
                ops::close_gaps(ops::clips_on(plan.proj, track_id).take(n as int), gaps),
            )->Ok_0,
            ids,
            used,
        ),
    ensures
        ({
            let all = ops::clips_on(plan.proj, track_id);
            let q = ops::planned_all(plan, ops::close_gaps(all.take(n as int), gaps))->Ok_0;
            &&& careful(p, q, ids, used, Seq::<Id>::empty())
            &&& going(p, plan, ids, used)
            &&& ops::clips_on(q.proj, track_id).contains(
                if i < n {
                    moved_left(all[i], gaps)
                } else {
                    all[i]
                },
            )
            &&& other != track_id ==> ops::clips_on(q.proj, other) == ops::clips_on(
                plan.proj,
                other,
            )
        }),
    decreases n,
{
    let none = Seq::<Id>::empty();
    let all = ops::clips_on(plan.proj, track_id);
    if n == 0 {
        assert(ops::close_gaps(all.take(0), gaps).len() == 0);
        assert(all.contains(all[i]));
    } else {
        let m: nat = (n - 1) as nat;
        let c = all[m as int];
        assert(all.take(n as int).drop_last() =~= all.take(m as int));
        assert(all.take(n as int).last() == c);
        let before = ops::close_gaps(all.take(m as int), gaps);
        let shift = ops::gone_before(gaps, c.start);
        let a = ops::shift_action(c, time::sooner(c.start, shift));
        if shift > 0 {
            lemma_planned_push(plan, before, a);
        }
        let q = ops::planned_all(plan, before)->Ok_0;
        lemma_gaps_quiet(all.take(m as int), gaps);
        lemma_quiet_all(p, plan, before, ids, used, none);
        if shift > 0 {
            lemma_quiet(p, q, a, ids, used, none);
        }
        lemma_gaps_closed(p, plan, track_id, gaps, m, ids, used, i, other);
        lemma_gaps_closed(p, plan, track_id, gaps, m, ids, used, m as int, other);
        assert(laws::sound(plan.proj) && laws::sound(q.proj)) by {
            reveal(careful);
        }
        if shift > 0 {
            reveal(ops::planned);
            let r = ops::planned(q, a)->Ok_0;
            assert(laws::sound(r.proj)) by {
                reveal(careful);
            }
            let x = if i < n {
                moved_left(all[i], gaps)
            } else {
                all[i]
            };
            lemma_gives_way(q.proj, track_id, c, a, x);
            if other != track_id {
                lemma_leaves_others(q.proj, track_id, c, a, other);
            }
            if i == m {
                assert(pieces(c, a)[0] == x);
            } else {
                lemma_ids_differ(plan.proj, track_id, i, m as int);
            }
        }
    }
}

proof fn lemma_ids_differ(p: ProjectV, track_id: Id, i: int, j: int)
    requires
        laws::sound(p),
        0 <= i < ops::clips_on(p, track_id).len(),
        0 <= j < ops::clips_on(p, track_id).len(),
        i != j,
    ensures
        ops::clips_on(p, track_id)[i].id != ops::clips_on(p, track_id)[j].id,
{
    laws::lemma_track_found(p, track_id);
    let at = model::track_place(p, track_id)->Some_0;
    let clips = model::track_at(p, at).clips;
    if clips[i].id == clips[j].id {
        assert(laws::has_clip(p, at.0, at.1, i, clips[i].id));
        assert(laws::has_clip(p, at.0, at.1, j, clips[i].id));
    }
}

/// What went before a clip that meets none of the gaps went before each of its
/// times.
proof fn lemma_gone_alike(gaps: Seq<(TimeUs, TimeUs)>, c: ClipV, t: TimeUs)
    requires
        forward(gaps),
        c.start <= t < c.finish(),
        forall|k: int| 0 <= k < gaps.len() ==> !meets(c, (#[trigger] gaps[k]).0, gaps[k].1),
    ensures
        ops::gone_before(gaps, c.start) == ops::gone_before(gaps, t),
        ops::gone_before(gaps, t) >= 0,
    decreases gaps.len(),
{
    if gaps.len() > 0 {
        let rest = gaps.drop_last();
        assert forall|k: int| 0 <= k < rest.len() implies !meets(
            c,
            (#[trigger] rest[k]).0,
            rest[k].1,
        ) && rest[k].0 <= rest[k].1 by {
            assert(rest[k] == gaps[k]);
        }
        lemma_gone_alike(rest, c, t);
        let n = gaps.len() - 1;
        assert(!meets(c, gaps[n].0, gaps[n].1) && gaps[n].0 <= gaps[n].1);
    }
}

proof fn lemma_gaps_play(
    p: ProjectV,
    plan: PlanV,
    track_id: Id,
    gaps: Seq<(TimeUs, TimeUs)>,
    ids: Seq<Id>,
    used: nat,
    t: TimeUs,
    payload: PayloadV,
)
    requires
        careful(p, plan, ids, used, Seq::<Id>::empty()),
        ids.no_duplicates(),
        forward(gaps),
        t >= 0,
        forall|k: int|
            0 <= k < gaps.len() ==> clear(plan.proj, track_id, (#[trigger] gaps[k]).0, gaps[k].1),
        ops::planned_all(plan, ops::close_gaps(ops::clips_on(plan.proj, track_id), gaps)) is Ok,
        going(
            p,
            ops::planned_all(
                plan,
                ops::close_gaps(ops::clips_on(plan.proj, track_id), gaps),
            )->Ok_0,
            ids,
            used,
        ),
        plays(plan.proj, track_id, t, payload),
    ensures
        plays(
            ops::planned_all(
                plan,
                ops::close_gaps(ops::clips_on(plan.proj, track_id), gaps),
            )->Ok_0.proj,
            track_id,
            time::sooner(t, ops::gone_before(gaps, t)),
            payload,
        ),
{
    let all = ops::clips_on(plan.proj, track_id);
    let c = choose|x: ClipV| #[trigger]
        all.contains(x) && x.start <= t < x.finish() && stock::alike(x.payload, payload);
    let i = choose|i: int| 0 <= i < all.len() && all[i] == c;
    assert(all.take(all.len() as int) =~= all);
    lemma_gaps_closed(p, plan, track_id, gaps, all.len(), ids, used, i, track_id);
    assert(laws::sound(plan.proj)) by {
        reveal(careful);
    }
    lemma_clips_on(plan.proj, track_id, c);
    assert forall|k: int| 0 <= k < gaps.len() implies !meets(
        c,
        (#[trigger] gaps[k]).0,
        gaps[k].1,
    ) by {
        assert(clear(plan.proj, track_id, gaps[k].0, gaps[k].1));
    }
    lemma_gone_alike(gaps, c, t);
    let x = moved_left(c, gaps);
    let now = time::sooner(t, ops::gone_before(gaps, t));
    assert(x.start <= now < x.finish());
}

/// Closing the gaps of tracks leaves the others.
proof fn lemma_gaps_leave(
    p: ProjectV,
    plan: PlanV,
    track_id: Id,
    gaps: Seq<(TimeUs, TimeUs)>,
    ids: Seq<Id>,
    used: nat,
    other: Id,
)
    requires
        careful(p, plan, ids, used, Seq::<Id>::empty()),
        ids.no_duplicates(),
        other != track_id,
        ops::planned_all(plan, ops::close_gaps(ops::clips_on(plan.proj, track_id), gaps)) is Ok,
        going(
            p,
            ops::planned_all(
                plan,
                ops::close_gaps(ops::clips_on(plan.proj, track_id), gaps),
            )->Ok_0,
            ids,
            used,
        ),
    ensures
        ops::clips_on(
            ops::planned_all(
                plan,
                ops::close_gaps(ops::clips_on(plan.proj, track_id), gaps),
            )->Ok_0.proj,
            other,
        ) == ops::clips_on(plan.proj, other),
{
    let all = ops::clips_on(plan.proj, track_id);
    assert(all.take(all.len() as int) =~= all);
    if all.len() > 0 {
        lemma_gaps_closed(p, plan, track_id, gaps, all.len(), ids, used, 0, other);
    } else {
        assert(ops::close_gaps(all, gaps).len() == 0);
    }
}

#[verifier::spinoff_prover]
proof fn lemma_rippled_plays(
    p: ProjectV,
    plan: PlanV,
    tids: Seq<Id>,
    gaps: Seq<(TimeUs, TimeUs)>,
    ids: Seq<Id>,
    used: nat,
    t: TimeUs,
    payload: PayloadV,
    track_id: Id,
)
    requires
        careful(p, plan, ids, used, Seq::<Id>::empty()),
        ids.no_duplicates(),
        forward(gaps),
        t >= 0,
        tids.no_duplicates(),
        ranges::rippled(plan, tids, gaps) is Ok,
        going(p, ranges::rippled(plan, tids, gaps)->Ok_0, ids, used),
    ensures
        going(p, plan, ids, used),
        !tids.contains(track_id) ==> ops::clips_on(
            ranges::rippled(plan, tids, gaps)->Ok_0.proj,
            track_id,
        ) == ops::clips_on(plan.proj, track_id),
        tids.contains(track_id) && plays(plan.proj, track_id, t, payload) && (forall|k: int|
            0 <= k < gaps.len() ==> clear(plan.proj, track_id, (#[trigger] gaps[k]).0, gaps[k].1))
            ==> plays(
            ranges::rippled(plan, tids, gaps)->Ok_0.proj,
            track_id,
            time::sooner(t, ops::gone_before(gaps, t)),
            payload,
        ),
    decreases tids.len(),
{
    if tids.len() > 0 {
        let none = Seq::<Id>::empty();
        let clips = ops::clips_on(plan.proj, tids[0]);
        let rest = tids.drop_first();
        let moves = ops::close_gaps(clips, gaps);
        lemma_gaps_quiet(clips, gaps);
        lemma_quiet_all(p, plan, moves, ids, used, none);
        let q = ops::planned_all(plan, moves)->Ok_0;
        assert forall|i: int, j: int| 0 <= i < rest.len() && 0 <= j < rest.len() && i
            != j implies rest[i] != rest[j] by {
            assert(rest[i] == tids[i + 1] && rest[j] == tids[j + 1]);
        }
        lemma_rippled_plays(p, q, rest, gaps, ids, used, t, payload, track_id);
        if track_id == tids[0] {
            assert(!rest.contains(track_id)) by {
                if rest.contains(track_id) {
                    let k = choose|k: int| 0 <= k < rest.len() && rest[k] == track_id;
                    assert(tids[k + 1] == tids[0]);
                }
            }
            if plays(plan.proj, track_id, t, payload) && (forall|k: int|
                0 <= k < gaps.len() ==> clear(
                    plan.proj,
                    track_id,
                    (#[trigger] gaps[k]).0,
                    gaps[k].1,
                )) {
                lemma_gaps_play(p, plan, track_id, gaps, ids, used, t, payload);
            }
        } else {
            lemma_gaps_leave(p, plan, tids[0], gaps, ids, used, track_id);
            if tids.contains(track_id) {
                let k = choose|k: int| 0 <= k < tids.len() && tids[k] == track_id;
                assert(rest[k - 1] == track_id);
            }
            if rest.contains(track_id) {
                let k = choose|k: int| 0 <= k < rest.len() && rest[k] == track_id;
                assert(tids[k + 1] == track_id);
            }
            if forall|k: int|
                0 <= k < gaps.len() ==> clear(
                    plan.proj,
                    track_id,
                    (#[trigger] gaps[k]).0,
                    gaps[k].1,
                ) {
                assert forall|k: int| 0 <= k < gaps.len() implies clear(
                    q.proj,
                    track_id,
                    (#[trigger] gaps[k]).0,
                    gaps[k].1,
                ) by {
                    assert(clear(plan.proj, track_id, gaps[k].0, gaps[k].1));
                }
            }
        }
    }
}

proof fn lemma_open_tracks(p: ProjectV, s: int, n: int)
    requires
        laws::sound(p),
        0 <= s < p.sequences.len(),
        0 <= n <= p.sequences[s].tracks.len(),
    ensures
        ranges::open_tracks(p.sequences[s].tracks.take(n)).no_duplicates(),
        forall|id: Id| #[trigger]
            ranges::open_tracks(p.sequences[s].tracks.take(n)).contains(id) ==> exists|t: int|
                0 <= t < n && #[trigger] laws::has_track(p, s, t, id),
    decreases n,
{
    let tracks = p.sequences[s].tracks;
    if n > 0 {
        lemma_open_tracks(p, s, n - 1);
        assert(tracks.take(n).drop_last() =~= tracks.take(n - 1));
        let before = ranges::open_tracks(tracks.take(n - 1));
        let last = tracks[n - 1];
        let all = ranges::open_tracks(tracks.take(n));
        assert(laws::has_track(p, s, n - 1, last.id));
        if !last.locked {
            if before.contains(last.id) {
                let t = choose|t: int| 0 <= t < n - 1 && #[trigger] laws::has_track(p, s, t, last.id);
            }
            assert forall|id: Id| #[trigger] all.contains(id) implies exists|t: int|
                0 <= t < n && #[trigger] laws::has_track(p, s, t, id) by {
                let k = choose|k: int| 0 <= k < all.len() && all[k] == id;
                if k < before.len() {
                    assert(before[k] == id);
                    assert(before.contains(id));
                }
            }
        }
    }
}

/// What is not cut out stays: with ripple, what played on a track at a time
/// outside the ranges that are cut plays earlier by what was cut before it.
pub proof fn law_ripple_keeps_the_rest(
    p: ProjectV,
    sequence_id: Id,
    list: Seq<(TimeUs, TimeUs)>,
    ids: Seq<Id>,
    track_id: Id,
    t: TimeUs,
    payload: PayloadV,
)
    requires
        laws::sound(p),
        new_ids(p, ids),
        t >= 0,
        plays(p, track_id, t, payload),
    ensures
        match ranges::cut_ranges_spec(p, sequence_id, list, true, ids) {
            Ok(x) => {
                let s = p.sequences[seqs::pos(p.sequences, sequence_id) as int];
                let merged = ranges::joined_ranges(
                    action::sorted_ranges(ranges::on_grid(ranges::lasting_ranges(list), s.fps)),
                );
                ready(p, x, ids) && outside(merged, t) && ranges::open_tracks(s.tracks).contains(
                    track_id,
                ) ==> plays(
                    x.proj,
                    track_id,
                    time::sooner(t, ops::gone_before(merged, t)),
                    payload,
                )
            },
            Err(e) => true,
        },
{
    if let Ok(x) = ranges::cut_ranges_spec(p, sequence_id, list, true, ids) {
        let none = Seq::<Id>::empty();
        let si = seqs::pos(p.sequences, sequence_id) as int;
        let s = p.sequences[si];
        let merged = ranges::joined_ranges(
            action::sorted_ranges(ranges::on_grid(ranges::lasting_ranges(list), s.fps)),
        );
        let tids = ranges::open_tracks(s.tracks);
        let start = ops::start_plan(p);
        lemma_start(p, ids, 0, none);
        lemma_merged_forward(list, s.fps);
        lemma_carved_ranges(p, start, tids, merged, ids, 0);
        let y = ranges::carved_ranges(start, tids, merged, ids, 0)->Ok_0;
        lemma_rippled(p, y.0, tids, merged, ids, y.1);
        if ready(p, x, ids) && outside(merged, t) && tids.contains(track_id) {
            assert(going(p, x, ids, y.1)) by {
                reveal(careful);
            }
            lemma_open_tracks(p, si, s.tracks.len() as int);
            assert(s.tracks.take(s.tracks.len() as int) =~= s.tracks);
            lemma_rippled_plays(p, y.0, tids, merged, ids, y.1, t, payload, track_id);
            lemma_ranges_play(p, start, tids, merged, ids, 0, t, payload, track_id);
            lemma_ranges_clear(p, start, tids, merged, ids, 0);
            let k = choose|k: int| 0 <= k < tids.len() && tids[k] == track_id;
            assert forall|i: int| 0 <= i < merged.len() implies clear(
                y.0.proj,
                track_id,
                (#[trigger] merged[i]).0,
                merged[i].1,
            ) by {
                assert(clear(y.0.proj, tids[k], merged[i].0, merged[i].1));
            }
        }
    }
}

/// Cutting ranges out leaves a sound project and can be undone, where clips
/// end within the range of times, and the identifiers are new.
pub proof fn law_cut_ranges_restores(
    p: ProjectV,
    sequence_id: Id,
    list: Seq<(TimeUs, TimeUs)>,
    ripple: bool,
    ids: Seq<Id>,
)
    requires
        laws::sound(p),
        new_ids(p, ids),
    ensures
        match ranges::cut_ranges_spec(p, sequence_id, list, ripple, ids) {
            Ok(x) => ready(p, x, ids) ==> restores(p, x) && from_supply(x.actions, ids),
            Err(e) => true,
        },
{
    if let Ok(x) = ranges::cut_ranges_spec(p, sequence_id, list, ripple, ids) {
        let none = Seq::<Id>::empty();
        let s = p.sequences[seqs::pos(p.sequences, sequence_id) as int];
        let merged = ranges::joined_ranges(
            action::sorted_ranges(ranges::on_grid(ranges::lasting_ranges(list), s.fps)),
        );
        let tids = ranges::open_tracks(s.tracks);
        let start = ops::start_plan(p);
        lemma_start(p, ids, 0, none);
        lemma_merged_forward(list, s.fps);
        lemma_carved_ranges(p, start, tids, merged, ids, 0);
        let y = ranges::carved_ranges(start, tids, merged, ids, 0)->Ok_0;
        if ripple {
            lemma_rippled(p, y.0, tids, merged, ids, y.1);
        }
        if ready(p, x, ids) {
            lemma_end(p, x, ids, y.1, none);
        }
    }
}

proof fn lemma_speed_list(clips: Seq<ClipV>, from: TimeUs, factor: Real, fps: (u32, u32))
    ensures
        forall|i: int|
            0 <= i < ranges::speed_list(clips, from, factor, fps).len() ==> stock::leaves_sources(
                #[trigger] ranges::speed_list(clips, from, factor, fps)[i],
            ),
    decreases clips.len(),
{
    if clips.len() > 0 {
        lemma_speed_list(clips.drop_last(), from, factor, fps);
        let r = ranges::speed_list(clips.drop_last(), from, factor, fps);
        let all = ranges::speed_list(clips, from, factor, fps);
        assert forall|i: int| 0 <= i < all.len() implies stock::leaves_sources(#[trigger] all[i]) by {
            if i < r.len() {
                assert(all[i] == r[i]);
            }
        }
    }
}

proof fn lemma_sped_tracks(
    p: ProjectV,
    plan: PlanV,
    tids: Seq<Id>,
    from: TimeUs,
    to: TimeUs,
    factor: Real,
    fps: (u32, u32),
    found: bool,
    ids: Seq<Id>,
    used: nat,
)
    requires
        careful(p, plan, ids, used, Seq::<Id>::empty()),
        ids.no_duplicates(),
        ranges::sped_tracks(plan, tids, from, to, factor, fps, found) is Ok,
    ensures
        careful(
            p,
            ranges::sped_tracks(plan, tids, from, to, factor, fps, found)->Ok_0.0,
            ids,
            used,
            Seq::<Id>::empty(),
        ),
    decreases tids.len(),
{
    if tids.len() > 0 {
        let inside = ranges::inside_of(ops::clips_on(plan.proj, tids[0]), from, to);
        let list = ranges::speed_list(inside, from, factor, fps);
        lemma_speed_list(inside, from, factor, fps);
        lemma_quiet_all(p, plan, list, ids, used, Seq::<Id>::empty());
        lemma_sped_tracks(
            p,
            ops::planned_all(plan, list)->Ok_0,
            tids.drop_first(),
            from,
            to,
            factor,
            fps,
            found || ranges::any_media(inside),
            ids,
            used,
        );
    }
}

proof fn lemma_shifted_tracks(
    p: ProjectV,
    plan: PlanV,
    tids: Seq<Id>,
    shift: Shift,
    ids: Seq<Id>,
    used: nat,
    kept: Seq<Id>,
)
    requires
        careful(p, plan, ids, used, kept),
        ids.no_duplicates(),
        ranges::shifted_tracks(plan, tids, shift) is Ok,
    ensures
        ({
            let q = ranges::shifted_tracks(plan, tids, shift)->Ok_0;
            careful(p, q, ids, used, kept) && (going(p, q, ids, used) ==> going(p, plan, ids, used))
        }),
    decreases tids.len(),
{
    if tids.len() > 0 {
        let list = ranges::shift_list(ops::clips_on(plan.proj, tids[0]), shift);
        lemma_quiet_all(p, plan, list, ids, used, kept);
        let q = ops::planned_all(plan, list)->Ok_0;
        lemma_shifted_tracks(p, q, tids.drop_first(), shift, ids, used, kept);
    }
}

proof fn lemma_sped_ranges(
    p: ProjectV,
    plan: PlanV,
    tids: Seq<Id>,
    list: Seq<(TimeUs, TimeUs)>,
    factor: Real,
    fps: (u32, u32),
    ids: Seq<Id>,
    used: nat,
)
    requires
        careful(p, plan, ids, used, Seq::<Id>::empty()),
        ids.no_duplicates(),
        ranges::sped_ranges(plan, tids, list, factor, fps, ids, used) is Ok,
    ensures
        ({
            let x = ranges::sped_ranges(plan, tids, list, factor, fps, ids, used)->Ok_0;
            careful(p, x.0, ids, x.1, Seq::<Id>::empty())
        }),
    decreases list.len(),
{
    if list.len() > 0 {
        let none = Seq::<Id>::empty();
        let from = list.last().0;
        let to = list.last().1;
        assert(({
            let x = ranges::sped_range(plan, tids, from, to, factor, fps, ids, used)->Ok_0;
            careful(p, x.0, ids, x.1, none)
        })) by {
            reveal(ranges::sped_range);
            lemma_cut_both(p, plan, tids, from, to, ids, used);
            let x = ranges::cut_both(plan, tids, from, to, ids, used)->Ok_0;
            lemma_sped_tracks(p, x.0, tids, from, to, factor, fps, false, ids, x.1);
            let y = ranges::sped_tracks(x.0, tids, from, to, factor, fps, false)->Ok_0;
            let by = ranges::saved(from, to, factor, fps);
            if y.1 && by > 0 {
                lemma_shifted_tracks(
                    p,
                    y.0,
                    tids,
                    (Shift::Left { from: to, by }),
                    ids,
                    x.1,
                    none,
                );
            }
        }
        let x = ranges::sped_range(plan, tids, from, to, factor, fps, ids, used)->Ok_0;
        lemma_sped_ranges(p, x.0, tids, list.drop_last(), factor, fps, ids, x.1);
    }
}

/// A speedup of ranges leaves a sound project and can be undone, where clips
/// end within the range of times, and the identifiers are new.
pub proof fn law_speedup_restores(
    p: ProjectV,
    sequence_id: Id,
    list: Seq<(TimeUs, TimeUs)>,
    factor: Real,
    ids: Seq<Id>,
)
    requires
        laws::sound(p),
        new_ids(p, ids),
    ensures
        match ranges::speedup_spec(p, sequence_id, list, factor, ids) {
            Ok(x) => ready(p, x, ids) ==> restores(p, x) && from_supply(x.actions, ids),
            Err(e) => true,
        },
{
    if let Ok(x) = ranges::speedup_spec(p, sequence_id, list, factor, ids) {
        let none = Seq::<Id>::empty();
        let s = p.sequences[seqs::pos(p.sequences, sequence_id) as int];
        let tids = ranges::open_tracks(s.tracks);
        let all = action::sorted_ranges(ranges::on_grid(list, s.fps));
        let start = ops::start_plan(p);
        lemma_start(p, ids, 0, none);
        lemma_sped_ranges(p, start, tids, all, factor, s.fps, ids, 0);
        let y = ranges::sped_ranges(start, tids, all, factor, s.fps, ids, 0)->Ok_0;
        if ready(p, x, ids) {
            lemma_end(p, x, ids, y.1, none);
        }
    }
}

// ---- moving a range ----

/// The identifiers of taken clips.
spec fn taken_ids(taken: Taken) -> Seq<Id> {
    taken.map_values(|x: (Id, ClipV)| x.1.id)
}

/// Whether taken clips are sound and have different identifiers.
spec fn sound_taken(taken: Taken) -> bool {
    &&& taken_ids(taken).no_duplicates()
    &&& forall|i: int| 0 <= i < taken.len() ==> laws::sound_clip((#[trigger] taken[i]).1)
}

/// A clip that is taken off was there, and is gone.
proof fn lemma_gone(plan: PlanV, clip_id: Id)
    requires
        laws::sound(plan.proj),
        ops::planned(plan, (ActionV::RemoveClip { clip_id })) is Ok,
    ensures
        !laws::fresh_clip(plan.proj, clip_id),
        laws::fresh_clip(
            ops::planned(plan, (ActionV::RemoveClip { clip_id }))->Ok_0.proj,
            clip_id,
        ),
{
    reveal(ops::planned);
    let p = plan.proj;
    laws::lemma_clip_found(p, clip_id);
    let at = model::clip_place(p, clip_id)->Some_0;
    assert(laws::has_clip(p, at.0, at.1, at.2, clip_id));
    let clips = model::track_at(p, (at.0, at.1)).clips;
    let q = model::with_clips(p, (at.0, at.1), clips.remove(at.2));
    laws::lemma_with_clips(p, at.0, at.1, clips.remove(at.2));
    assert forall|s: int, t: int, c: int| !#[trigger] laws::has_clip(q, s, t, c, clip_id) by {
        if laws::has_clip(q, s, t, c, clip_id) {
            if s == at.0 && t == at.1 {
                let k = if c < at.2 {
                    c
                } else {
                    c + 1
                };
                assert(clips.remove(at.2)[c] == clips[k]);
                assert(laws::has_clip(p, s, t, k, clip_id));
            } else {
                assert(laws::has_clip(p, s, t, c, clip_id));
            }
        }
    }
}

/// A clip that is taken off: its identifier is kept.
#[verifier::rlimit(40)]
#[verifier::spinoff_prover]
proof fn lemma_take(p: ProjectV, plan: PlanV, clip_id: Id, ids: Seq<Id>, used: nat, kept: Seq<Id>)
    requires
        careful(p, plan, ids, used, kept),
        ids.no_duplicates(),
        ops::planned(plan, (ActionV::RemoveClip { clip_id })) is Ok,
    ensures
        ({
            let q = ops::planned(plan, (ActionV::RemoveClip { clip_id }))->Ok_0;
            &&& careful(p, q, ids, used, kept.push(clip_id))
            &&& going(p, q, ids, used) ==> going(p, plan, ids, used)
            &&& going(p, q, ids, used) && kept.no_duplicates() ==> kept.push(
                clip_id,
            ).no_duplicates()
        }),
{
    let a = ActionV::RemoveClip { clip_id };
    lemma_quiet(p, plan, a, ids, used, kept);
    reveal(careful);
    let q = ops::planned(plan, a)->Ok_0;
    let more = kept.push(clip_id);
    if going(p, q, ids, used) {
        lemma_gone(plan, clip_id);
        assert forall|i: int| 0 <= i < more.len() implies laws::fresh_clip(
            q.proj,
            #[trigger] more[i],
        ) by {
            if i < kept.len() {
                assert(more[i] == kept[i]);
            }
        }
        assert forall|i: int, k: int|
            0 <= i < more.len() && used <= k < ids.len() implies #[trigger] more[i]
            != #[trigger] ids[k] by {
            if i < kept.len() {
                assert(more[i] == kept[i]);
            } else {
                assert(laws::fresh_clip(plan.proj, ids[k]));
            }
        }
        if kept.no_duplicates() {
            assert forall|i: int, j: int|
                0 <= i < more.len() && 0 <= j < more.len() && i != j implies more[i] != more[j] by {
                if i < kept.len() {
                    assert(laws::fresh_clip(plan.proj, kept[i]));
                }
                if j < kept.len() {
                    assert(laws::fresh_clip(plan.proj, kept[j]));
                }
            }
        }
    }
}

#[verifier::rlimit(60)]
#[verifier::spinoff_prover]
proof fn lemma_take_all(
    p: ProjectV,
    plan: PlanV,
    track_id: Id,
    clips: Seq<ClipV>,
    taken: Taken,
    ids: Seq<Id>,
    used: nat,
)
    requires
        careful(p, plan, ids, used, taken_ids(taken)),
        ids.no_duplicates(),
        going(p, plan, ids, used) ==> sound_taken(taken) && forall|i: int|
            0 <= i < clips.len() ==> laws::sound_clip(#[trigger] clips[i]),
        ops::planned_all(plan, ranges::remove_list(clips)) is Ok,
    ensures
        ({
            let q = ops::planned_all(plan, ranges::remove_list(clips))->Ok_0;
            let more = taken + ranges::from_track(track_id, clips);
            &&& careful(p, q, ids, used, taken_ids(more))
            &&& going(p, q, ids, used) ==> going(p, plan, ids, used) && sound_taken(more)
        }),
    decreases clips.len(),
{
    let list = ranges::remove_list(clips);
    let more = taken + ranges::from_track(track_id, clips);
    if clips.len() == 0 {
        assert(more =~= taken);
        assert(list.len() == 0);
    } else {
        let rest = clips.drop_last();
        let c = clips.last();
        assert(list =~= ranges::remove_list(rest).push(ActionV::RemoveClip { clip_id: c.id }));
        lemma_planned_push(
            plan,
            ranges::remove_list(rest),
            (ActionV::RemoveClip { clip_id: c.id }),
        );
        if going(p, plan, ids, used) {
            assert forall|i: int| 0 <= i < rest.len() implies laws::sound_clip(
                #[trigger] rest[i],
            ) by {
                assert(rest[i] == clips[i]);
            }
        }
        lemma_take_all(p, plan, track_id, rest, taken, ids, used);
        let q = ops::planned_all(plan, ranges::remove_list(rest))->Ok_0;
        let before = taken + ranges::from_track(track_id, rest);
        lemma_take(p, q, c.id, ids, used, taken_ids(before));
        assert(more =~= before.push((track_id, c)));
        assert(taken_ids(more) =~= taken_ids(before).push(c.id));
        let z = ops::planned_all(plan, list)->Ok_0;
        if going(p, z, ids, used) {
            assert(laws::sound_clip(clips[clips.len() - 1]));
            assert forall|i: int| 0 <= i < more.len() implies laws::sound_clip(
                (#[trigger] more[i]).1,
            ) by {
                if i < before.len() {
                    assert(more[i] == before[i]);
                }
            }
        }
    }
}

proof fn lemma_inside(clips: Seq<ClipV>, from: TimeUs, to: TimeUs, c: ClipV)
    requires
        ranges::inside_of(clips, from, to).contains(c),
    ensures
        clips.contains(c),
    decreases clips.len(),
{
    if clips.len() > 0 {
        let r = ranges::inside_of(clips.drop_last(), from, to);
        let all = ranges::inside_of(clips, from, to);
        let k = choose|k: int| 0 <= k < all.len() && all[k] == c;
        if k < r.len() {
            assert(r[k] == c);
            assert(r.contains(c));
            lemma_inside(clips.drop_last(), from, to, c);
            let j = choose|j: int| 0 <= j < clips.drop_last().len() && clips.drop_last()[j] == c;
            assert(clips[j] == c);
        } else {
            assert(clips[clips.len() - 1] == c);
        }
    }
}

proof fn lemma_taken_off(
    p: ProjectV,
    plan: PlanV,
    tids: Seq<Id>,
    from: TimeUs,
    to: TimeUs,
    taken: Taken,
    ids: Seq<Id>,
    used: nat,
)
    requires
        careful(p, plan, ids, used, taken_ids(taken)),
        ids.no_duplicates(),
        going(p, plan, ids, used) ==> sound_taken(taken),
        ranges::taken_off(plan, tids, from, to, taken) is Ok,
    ensures
        ({
            let x = ranges::taken_off(plan, tids, from, to, taken)->Ok_0;
            &&& careful(p, x.0, ids, used, taken_ids(x.1))
            &&& going(p, x.0, ids, used) ==> going(p, plan, ids, used) && sound_taken(x.1)
        }),
    decreases tids.len(),
{
    if tids.len() > 0 {
        let clips = ops::clips_on(plan.proj, tids[0]);
        let inside = ranges::inside_of(clips, from, to);
        if going(p, plan, ids, used) {
            assert(laws::sound(plan.proj)) by {
                reveal(careful);
            }
            assert forall|i: int| 0 <= i < inside.len() implies laws::sound_clip(
                #[trigger] inside[i],
            ) by {
                assert(inside.contains(inside[i]));
                lemma_inside(clips, from, to, inside[i]);
                lemma_clips_on(plan.proj, tids[0], inside[i]);
            }
        }
        lemma_take_all(p, plan, tids[0], inside, taken, ids, used);
        let q = ops::planned_all(plan, ranges::remove_list(inside))->Ok_0;
        lemma_taken_off(
            p,
            q,
            tids.drop_first(),
            from,
            to,
            taken + ranges::from_track(tids[0], inside),
            ids,
            used,
        );
    }
}

proof fn lemma_put_list(
    p: ProjectV,
    plan: PlanV,
    taken: Taken,
    from: TimeUs,
    dest: TimeUs,
    ids: Seq<Id>,
    used: nat,
)
    requires
        careful(p, plan, ids, used, taken_ids(taken)),
        going(p, plan, ids, used) ==> sound_taken(taken),
        ops::planned_all(plan, ranges::put_list(taken, from, dest)) is Ok,
    ensures
        careful(
            p,
            ops::planned_all(plan, ranges::put_list(taken, from, dest))->Ok_0,
            ids,
            used,
            Seq::<Id>::empty(),
        ),
    decreases taken.len(),
{
    let list = ranges::put_list(taken, from, dest);
    let kept = taken_ids(taken);
    if taken.len() == 0 {
        assert(kept =~= Seq::<Id>::empty());
        assert(list.len() == 0);
    } else {
        let x = taken[0];
        let rest = taken.drop_first();
        let clip = ClipV { start: time::later(dest, time::sooner(x.1.start, from)), ..x.1 };
        assert(list[0] == (ActionV::InsertClip { track_id: x.0, clip }));
        assert(list.drop_first() =~= ranges::put_list(rest, from, dest));
        assert(kept[0] == clip.id);
        assert(kept.drop_first() =~= taken_ids(rest));
        if going(p, plan, ids, used) {
            assert(laws::sound_clip(taken[0].1));
        }
        lemma_insert_kept(p, plan, x.0, clip, ids, used, kept);
        let q = ops::planned(plan, list[0])->Ok_0;
        if going(p, q, ids, used) {
            assert forall|i: int, j: int|
                0 <= i < taken_ids(rest).len() && 0 <= j < taken_ids(rest).len() && i
                    != j implies taken_ids(rest)[i] != taken_ids(rest)[j] by {
                assert(taken_ids(rest)[i] == kept[i + 1]);
                assert(taken_ids(rest)[j] == kept[j + 1]);
            }
            assert forall|i: int| 0 <= i < rest.len() implies laws::sound_clip(
                (#[trigger] rest[i]).1,
            ) by {
                assert(rest[i] == taken[i + 1]);
            }
        }
        lemma_put_list(p, q, rest, from, dest, ids, used);
    }
}

/// A move of a range leaves a sound project and can be undone, where clips end
/// within the range of times, and the identifiers are new.
pub proof fn law_move_range_restores(
    p: ProjectV,
    sequence_id: Id,
    from: TimeUs,
    to: TimeUs,
    dest: TimeUs,
    ids: Seq<Id>,
)
    requires
        laws::sound(p),
        new_ids(p, ids),
    ensures
        match ranges::move_range_spec(p, sequence_id, from, to, dest, ids) {
            Ok(x) => ready(p, x, ids) ==> restores(p, x) && from_supply(x.actions, ids),
            Err(e) => true,
        },
{
    if let Ok(x) = ranges::move_range_spec(p, sequence_id, from, to, dest, ids) {
        let none = Seq::<Id>::empty();
        let s = p.sequences[seqs::pos(p.sequences, sequence_id) as int];
        let a = time::quantized(time::max_time(from, 0), s.fps);
        let b = time::quantized(to, s.fps);
        let d = time::quantized(time::max_time(dest, 0), s.fps);
        let tids = ranges::open_tracks(s.tracks);
        let start = ops::start_plan(p);
        lemma_start(p, ids, 0, none);
        lemma_cut_both(p, start, tids, a, b, ids, 0);
        let y = ranges::cut_both(start, tids, a, b, ids, 0)->Ok_0;
        lemma_cut_tracks(p, y.0, tids, d, ids, y.1, none);
        let z = ops::cut_tracks(y.0, tids, d, ids, y.1)->Ok_0;
        reveal(ranges::moved_range);
        let length = time::sooner(b, a);
        let at = if d >= b {
            time::sooner(d, length)
        } else {
            d
        };
        let empty = Seq::<(Id, ClipV)>::empty();
        assert(taken_ids(empty) =~= none);
        lemma_taken_off(p, z.0, tids, a, b, empty, ids, z.1);
        let off = ranges::taken_off(z.0, tids, a, b, empty)->Ok_0;
        let kept = taken_ids(off.1);
        let left = Shift::Left { from: b, by: length };
        let right = Shift::Right { from: at, by: length };
        lemma_shifted_tracks(p, off.0, tids, left, ids, z.1, kept);
        let one = ranges::shifted_tracks(off.0, tids, left)->Ok_0;
        lemma_shifted_tracks(p, one, tids, right, ids, z.1, kept);
        let two = ranges::shifted_tracks(one, tids, right)->Ok_0;
        lemma_put_list(p, two, off.1, a, at, ids, z.1);
        if ready(p, x, ids) {
            lemma_end(p, x, ids, z.1, none);
        }
    }
}

// ---- clips with those linked to them ----

proof fn lemma_quiet_run(p: ProjectV, actions: Seq<ActionV>)
    requires
        forall|i: int| 0 <= i < actions.len() ==> quiet(#[trigger] actions[i]),
        feasible_run(p, actions),
    ensures
        laws::admissible_run(p, actions),
    decreases actions.len(),
{
    if actions.len() > 0 {
        let rest = actions.drop_last();
        assert forall|i: int| 0 <= i < rest.len() implies quiet(#[trigger] rest[i]) by {
            assert(rest[i] == actions[i]);
        }
        lemma_quiet_run(p, rest);
        assert(quiet(actions[actions.len() - 1]));
    }
}

/// Whether every clip of a project that shows an asset shows some of it.
pub open spec fn filled(p: ProjectV) -> bool {
    forall|s: int, t: int, c: int| #[trigger]
        laws::has_clip(p, s, t, c, model::clip_at(p, (s, t, c)).id) ==> !action::empty_source(
            model::clip_at(p, (s, t, c)).payload,
        )
}

proof fn lemma_filled_bounds(p: ProjectV, a: ActionV)
    requires
        laws::sound(p),
        filled(p),
        a is SetClipBounds,
        action::step(p, a) is Ok,
    ensures
        filled(action::step(p, a)->Ok_0.0),
{
    if let ActionV::SetClipBounds { clip_id, start, duration, src_in, src_out } = a {
        laws::lemma_clip_found(p, clip_id);
        let (s, t, k) = model::clip_place(p, clip_id)->Some_0;
        let clips = model::track_at(p, (s, t)).clips;
        let c = model::clip_at(p, (s, t, k));
        let payload = action::with_source(c.payload, src_in, src_out);
        let changed = ClipV { start, duration, payload, ..c };
        let u = clips.update(k, changed);
        let now = action::sorted_clips(u);
        laws::lemma_sorted_contains(u);
        laws::lemma_with_clips(p, s, t, now);
        let q = model::with_clips(p, (s, t), now);
        assert forall|x: int, y: int, z: int| #[trigger]
            laws::has_clip(q, x, y, z, model::clip_at(q, (x, y, z)).id) implies !action::empty_source(
            model::clip_at(q, (x, y, z)).payload,
        ) by {
            if x == s && y == t {
                assert(now.contains(now[z]));
                let m = choose|m: int| 0 <= m < u.len() && u[m] == now[z];
                if m != k {
                    assert(laws::has_clip(p, s, t, m, model::clip_at(p, (s, t, m)).id));
                }
            } else {
                assert(laws::has_clip(p, x, y, z, model::clip_at(p, (x, y, z)).id));
            }
        }
    }
}

proof fn lemma_sure_run(p: ProjectV, actions: Seq<ActionV>)
    requires
        laws::sound(p),
        filled(p),
        forall|i: int|
            0 <= i < actions.len() ==> sure(#[trigger] actions[i]) && actions[i] is SetClipBounds,
    ensures
        feasible_run(p, actions),
        laws::admissible_run(p, actions),
        match laws::run(p, actions) {
            Ok(x) => filled(x.0),
            Err(e) => true,
        },
    decreases actions.len(),
{
    if actions.len() > 0 {
        let rest = actions.drop_last();
        assert forall|i: int| 0 <= i < rest.len() implies sure(#[trigger] rest[i])
            && rest[i] is SetClipBounds by {
            assert(rest[i] == actions[i]);
        }
        lemma_sure_run(p, rest);
        let a = actions.last();
        assert(sure(actions[actions.len() - 1]));
        laws::law_transaction_undoes(p, rest);
        if let Ok(x) = laws::run(p, rest) {
            if let ActionV::SetClipBounds { clip_id, start, duration, src_in, src_out } = a {
                laws::lemma_clip_found(x.0, clip_id);
                if let Some(at) = model::clip_place(x.0, clip_id) {
                    assert(laws::has_clip(x.0, at.0, at.1, at.2, model::clip_at(x.0, at).id));
                }
            }
            if action::step(x.0, a) is Ok {
                lemma_filled_bounds(x.0, a);
            }
        }
    }
}

proof fn lemma_trim_is_sure(p: ProjectV, clip_id: Id, left: bool, new_edge: TimeUs)
    requires
        laws::sound(p),
        ops::trim_spec(p, clip_id, left, new_edge) is Ok,
    ensures
        forall|i: int|
            0 <= i < ops::trim_spec(p, clip_id, left, new_edge)->Ok_0.actions.len() ==> sure(
                #[trigger] ops::trim_spec(p, clip_id, left, new_edge)->Ok_0.actions[i],
            ) && ops::trim_spec(p, clip_id, left, new_edge)->Ok_0.actions[i] is SetClipBounds,
{
    reveal(ops::planned);
    laws::lemma_clip_found(p, clip_id);
    let at = model::clip_place(p, clip_id)->Some_0;
    lemma_clip_sound(p, at);
}

proof fn lemma_gathered_sure(list: Seq<(bool, Result<PlanV, ErrV>)>)
    requires
        store::gathered(list) is Ok,
        forall|k: int, i: int|
            0 <= k < list.len() && (#[trigger] list[k]).1 is Ok && 0 <= i
                < list[k].1->Ok_0.actions.len() ==> sure(#[trigger] list[k].1->Ok_0.actions[i])
                && list[k].1->Ok_0.actions[i] is SetClipBounds,
    ensures
        forall|i: int|
            0 <= i < store::gathered(list)->Ok_0.len() ==> sure(
                #[trigger] store::gathered(list)->Ok_0[i],
            ) && store::gathered(list)->Ok_0[i] is SetClipBounds,
    decreases list.len(),
{
    if list.len() > 0 {
        let rest = list.drop_last();
        assert forall|k: int, i: int|
            0 <= k < rest.len() && (#[trigger] rest[k]).1 is Ok && 0 <= i
                < rest[k].1->Ok_0.actions.len() implies sure(
            #[trigger] rest[k].1->Ok_0.actions[i],
        ) && rest[k].1->Ok_0.actions[i] is SetClipBounds by {
            assert(rest[k] == list[k]);
            assert(sure(list[k].1->Ok_0.actions[i]));
        }
        lemma_gathered_sure(rest);
        let a = store::gathered(rest)->Ok_0;
        let all = store::gathered(list)->Ok_0;
        let n = list.len() - 1;
        assert forall|i: int| 0 <= i < all.len() implies sure(#[trigger] all[i])
            && all[i] is SetClipBounds by {
            if i < a.len() {
                assert(all[i] == a[i]);
            } else {
                assert(all[i] == list[n].1->Ok_0.actions[i - a.len()]);
            }
        }
    }
}

/// Trimming a clip with those linked to it can be undone, where no clip without
/// material is trimmed; so where all clips hold some.
pub proof fn law_linked_trim_restores(p: ProjectV, clip_id: Id, left: bool, edge: TimeUs)
    requires
        laws::sound(p),
    ensures
        match store::gathered(store::trims(p, clip_id, left, edge)) {
            Ok(actions) => {
                &&& feasible_run(p, actions) ==> laws::admissible_run(p, actions)
                &&& filled(p) ==> feasible_run(p, actions)
            },
            Err(e) => true,
        },
{
    let list = store::trims(p, clip_id, left, edge);
    if let Ok(actions) = store::gathered(list) {
        let gids = ops::linked(p, clip_id);
        assert forall|k: int, i: int|
            0 <= k < list.len() && (#[trigger] list[k]).1 is Ok && 0 <= i
                < list[k].1->Ok_0.actions.len() implies sure(
            #[trigger] list[k].1->Ok_0.actions[i],
        ) && list[k].1->Ok_0.actions[i] is SetClipBounds by {
            lemma_trim_is_sure(p, gids[k], left, edge);
        }
        lemma_gathered_sure(list);
        if feasible_run(p, actions) {
            assert forall|i: int| 0 <= i < actions.len() implies quiet(#[trigger] actions[i]) by {
                assert(sure(actions[i]));
            }
            lemma_quiet_run(p, actions);
        }
        if filled(p) {
            lemma_sure_run(p, actions);
        }
    }
}

proof fn lemma_gathered_quiet(list: Seq<(bool, Result<PlanV, ErrV>)>)
    requires
        store::gathered(list) is Ok,
        forall|k: int, i: int|
            0 <= k < list.len() && (#[trigger] list[k]).1 is Ok && 0 <= i
                < list[k].1->Ok_0.actions.len() ==> quiet(#[trigger] list[k].1->Ok_0.actions[i]),
    ensures
        forall|i: int|
            0 <= i < store::gathered(list)->Ok_0.len() ==> quiet(
                #[trigger] store::gathered(list)->Ok_0[i],
            ),
    decreases list.len(),
{
    if list.len() > 0 {
        let rest = list.drop_last();
        assert forall|k: int, i: int|
            0 <= k < rest.len() && (#[trigger] rest[k]).1 is Ok && 0 <= i
                < rest[k].1->Ok_0.actions.len() implies quiet(
            #[trigger] rest[k].1->Ok_0.actions[i],
        ) by {
            assert(rest[k] == list[k]);
            assert(quiet(list[k].1->Ok_0.actions[i]));
        }
        lemma_gathered_quiet(rest);
        let a = store::gathered(rest)->Ok_0;
        let all = store::gathered(list)->Ok_0;
        let n = list.len() - 1;
        assert forall|i: int| 0 <= i < all.len() implies quiet(#[trigger] all[i]) by {
            if i < a.len() {
                assert(all[i] == a[i]);
            } else {
                assert(all[i] == list[n].1->Ok_0.actions[i - a.len()]);
            }
        }
    }
}

/// Changing the speed of a clip with those linked to it can be undone, where
/// clips end within the range of times.
pub proof fn law_linked_speed_restores(p: ProjectV, clip_id: Id, speed: Real)
    ensures
        match store::gathered(store::speeds(p, clip_id, speed)) {
            Ok(actions) => feasible_run(p, actions) ==> laws::admissible_run(p, actions),
            Err(e) => true,
        },
{
    let list = store::speeds(p, clip_id, speed);
    if let Ok(actions) = store::gathered(list) {
        reveal(ops::planned);
        lemma_gathered_quiet(list);
        if feasible_run(p, actions) {
            lemma_quiet_run(p, actions);
        }
    }
}

// ---- a row of operations ----

/// The store after a row of transactions, each with its label.
pub open spec fn after_row(s: StoreV, row: Seq<(Seq<char>, Seq<ActionV>)>) -> StoreV
    decreases row.len(),
{
    if row.len() == 0 {
        s
    } else {
        let before = after_row(s, row.drop_last());
        match before.dispatched(row.last().0, row.last().1, false) {
            Ok(after) => after,
            Err(e) => before,
        }
    }
}

/// Whether each transaction of a row has actions, goes through, and is
/// admissible when its turn comes.
pub open spec fn row_goes(s: StoreV, row: Seq<(Seq<char>, Seq<ActionV>)>) -> bool
    decreases row.len(),
{
    if row.len() == 0 {
        true
    } else {
        let before = after_row(s, row.drop_last());
        &&& row_goes(s, row.drop_last())
        &&& row.last().1.len() > 0
        &&& laws::admissible_run(before.project, row.last().1)
        &&& before.dispatched(row.last().0, row.last().1, false) is Ok
    }
}

/// The store after a number of undo steps.
pub open spec fn undone_times(s: StoreV, n: nat) -> StoreV
    decreases n,
{
    if n == 0 {
        s
    } else {
        undone_times(store::undo_spec(s), (n - 1) as nat)
    }
}

proof fn lemma_undone_same(a: StoreV, b: StoreV, n: nat)
    requires
        a.project == b.project,
        a.history.undo == b.history.undo,
    ensures
        undone_times(a, n).project == undone_times(b, n).project,
        undone_times(a, n).history.undo == undone_times(b, n).history.undo,
    decreases n,
{
    if n > 0 {
        lemma_undone_same(store::undo_spec(a), store::undo_spec(b), (n - 1) as nat);
    }
}

/// After any row of transactions the project is sound, and undoing as many
/// times restores exactly the project, and what could be undone before.
pub proof fn law_undo_all_restores(s: StoreV, row: Seq<(Seq<char>, Seq<ActionV>)>)
    requires
        laws::sound(s.project),
        row_goes(s, row),
        s.history.undo.len() + row.len() <= s.history.limit,
    ensures
        laws::sound(after_row(s, row).project),
        undone_times(after_row(s, row), row.len()).project == s.project,
        undone_times(after_row(s, row), row.len()).history.undo == s.history.undo,
        after_row(s, row).history.undo.len() == s.history.undo.len() + row.len(),
        after_row(s, row).history.limit == s.history.limit,
    decreases row.len(),
{
    if row.len() > 0 {
        let rest = row.drop_last();
        law_undo_all_restores(s, rest);
        let before = after_row(s, rest);
        let label = row.last().0;
        let actions = row.last().1;
        let after = after_row(s, row);
        store::law_undo_steps_back(before, label, actions);
        store::law_undo_restores(before, label, actions);
        lemma_undone_same(store::undo_spec(after), before, rest.len());
        assert(after.history.undo.len() == before.history.undo.len() + 1);
    }
}

/// The store after a number of redo steps.
pub open spec fn redone_times(s: StoreV, n: nat) -> StoreV
    decreases n,
{
    if n == 0 {
        s
    } else {
        store::redo_spec(redone_times(s, (n - 1) as nat))
    }
}

/// Each undo of a row goes through, and gives back the latest label first.
#[verifier::rlimit(60)]
#[verifier::spinoff_prover]
pub proof fn law_undo_labels(s: StoreV, row: Seq<(Seq<char>, Seq<ActionV>)>, k: nat)
    requires
        laws::sound(s.project),
        row_goes(s, row),
        s.history.undo.len() + row.len() <= s.history.limit,
        k < row.len(),
    ensures
        ({
            let here = undone_times(after_row(s, row), k);
            &&& here.history.undo.len() > 0
            &&& here.history.undo.last().label == row[row.len() - 1 - k].0
            &&& laws::run_back(here.project, here.history.undo.last().inverses) is Ok
        }),
    decreases row.len(),
{
    let rest = row.drop_last();
    let before = after_row(s, rest);
    let after = after_row(s, row);
    let actions = row.last().1;
    law_undo_all_restores(s, rest);
    law_undo_all_restores(s, row);
    laws::law_transaction_undoes(before.project, actions);
    store::law_undo_steps_back(before, row.last().0, actions);
    if k > 0 {
        law_undo_labels(s, rest, (k - 1) as nat);
        lemma_undone_same(store::undo_spec(after), before, (k - 1) as nat);
        assert(rest[rest.len() - 1 - (k - 1)] == row[row.len() - 1 - k]);
    } else {
        let x = laws::run(before.project, actions)->Ok_0;
        assert(after.history.undo.last() == EntryV {
            label: row.last().0,
            actions,
            inverses: x.1,
        });
    }
}

proof fn lemma_redo_all(s: StoreV, row: Seq<(Seq<char>, Seq<ActionV>)>, b: StoreV)
    requires
        laws::sound(s.project),
        row_goes(s, row),
        s.history.undo.len() + row.len() <= s.history.limit,
        b.project == after_row(s, row).project,
        b.history.undo == after_row(s, row).history.undo,
        b.history.limit == s.history.limit,
    ensures
        ({
            let back = undone_times(b, row.len());
            let again = redone_times(back, row.len());
            &&& back.project == s.project
            &&& back.history.undo == s.history.undo
            &&& again.project == b.project
            &&& again.history == b.history
        }),
    decreases row.len(),
{
    if row.len() > 0 {
        let rest = row.drop_last();
        let before = after_row(s, rest);
        let after = after_row(s, row);
        let label = row.last().0;
        let actions = row.last().1;
        law_undo_all_restores(s, rest);
        law_undo_all_restores(s, row);
        laws::law_transaction_undoes(before.project, actions);
        store::law_undo_steps_back(before, label, actions);
        let x = laws::run(before.project, actions)->Ok_0;
        let e = EntryV { label, actions, inverses: x.1 };
        assert(after.history.undo == before.history.undo.push(e));
        let c = store::undo_spec(b);
        assert(b.history.undo.last() == e);
        assert(c.project == before.project);
        assert(c.history.undo =~= before.history.undo);
        assert(c.history.redo == b.history.redo.push(e));
        lemma_redo_all(s, rest, c);
        let back = undone_times(b, row.len());
        assert(back == undone_times(c, rest.len()));
        let near = redone_times(back, rest.len());
        assert(near.history == c.history);
        assert(c.history.redo.drop_last() =~= b.history.redo);
        assert(store::redo_spec(near).history.undo =~= b.history.undo);
        assert(store::redo_spec(near).history =~= b.history);
    }
}

/// After a row of transactions is undone, redoing as many times gives back
/// exactly the project, its identifiers and all, and what can be undone.
pub proof fn law_redo_all_restores(s: StoreV, row: Seq<(Seq<char>, Seq<ActionV>)>)
    requires
        laws::sound(s.project),
        row_goes(s, row),
        s.history.undo.len() + row.len() <= s.history.limit,
    ensures
        ({
            let after = after_row(s, row);
            let back = undone_times(after, row.len());
            let again = redone_times(back, row.len());
            &&& back.project == s.project
            &&& again.project == after.project
            &&& again.history == after.history
        }),
{
    law_undo_all_restores(s, row);
    lemma_redo_all(s, row, after_row(s, row));
}

} // verus!
