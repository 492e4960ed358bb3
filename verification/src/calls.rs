//! Rows of calls of the store: every operation can be undone and redone, and
//! leaves a valid project valid.

use vstd::prelude::*;

use crate::action::ActionV;
use crate::error::ErrV;
use crate::float::Real;
use crate::ident::Id;
use crate::laws;
use crate::model::{ClipV, ProjectV};
use crate::ops;
use crate::ops::{InsertMode, PlanV};
use crate::ranges;
use crate::staying;
use crate::stock;
use crate::store;
use crate::store::StoreV;
use crate::time::TimeUs;
use crate::undoing;
use crate::validate;

verus! {

/// A call of an operation of the store.
pub enum Call {
    InsertClip { track_id: Id, clip: ClipV, mode: InsertMode },
    SplitClip { clip_id: Id, t: TimeUs },
    DeleteClips { clip_ids: Seq<Id>, ripple: bool },
    MoveClip { clip_id: Id, to_track: Id, to_start: TimeUs, mode: InsertMode },
    TrimClip { clip_id: Id, left: bool, new_edge: TimeUs },
    SetClipSpeed { clip_id: Id, speed: Real },
    SpeedupRanges { sequence_id: Id, list: Seq<(TimeUs, TimeUs)>, factor: Real },
    MoveRange { sequence_id: Id, from: TimeUs, to: TimeUs, dest: TimeUs },
    CutRanges { sequence_id: Id, list: Seq<(TimeUs, TimeUs)>, ripple: bool },
    SplitRanges { sequence_id: Id, list: Seq<(TimeUs, TimeUs)> },
}

/// The actions of a plan.
pub open spec fn actions_of(plan: Result<PlanV, ErrV>) -> Result<Seq<ActionV>, ErrV> {
    match plan {
        Ok(x) => Ok(x.actions),
        Err(e) => Err(e),
    }
}

/// The actions of a call, with the identifiers that it draws.
pub open spec fn planned(p: ProjectV, call: Call, ids: Seq<Id>) -> Result<Seq<ActionV>, ErrV> {
    match call {
        Call::InsertClip { track_id, clip, mode } => actions_of(
            ops::insert_spec(p, track_id, clip, mode, ids),
        ),
        Call::SplitClip { clip_id, t } => match ops::split_spec(p, clip_id, t, ids) {
            Ok(x) => Ok(x.0.actions),
            Err(e) => Err(e),
        },
        Call::DeleteClips { clip_ids, ripple } => actions_of(
            ops::delete_spec(p, clip_ids, ripple),
        ),
        Call::MoveClip { clip_id, to_track, to_start, mode } => actions_of(
            ops::move_spec(p, clip_id, to_track, to_start, mode, ids),
        ),
        Call::TrimClip { clip_id, left, new_edge } => store::gathered(
            store::trims(p, clip_id, left, new_edge),
        ),
        Call::SetClipSpeed { clip_id, speed } => store::gathered(store::speeds(p, clip_id, speed)),
        Call::SpeedupRanges { sequence_id, list, factor } => actions_of(
            ranges::speedup_spec(p, sequence_id, list, factor, ids),
        ),
        Call::MoveRange { sequence_id, from, to, dest } => actions_of(
            ranges::move_range_spec(p, sequence_id, from, to, dest, ids),
        ),
        Call::CutRanges { sequence_id, list, ripple } => actions_of(
            ranges::cut_ranges_spec(p, sequence_id, list, ripple, ids),
        ),
        Call::SplitRanges { sequence_id, list } => actions_of(
            ranges::split_ranges_spec(p, sequence_id, list, ids),
        ),
    }
}

/// The label of a call in the history.
pub open spec fn label_of(call: Call) -> Seq<char> {
    match call {
        Call::InsertClip { .. } => "Añadir clip"@,
        Call::SplitClip { .. } => "Dividir clip"@,
        Call::DeleteClips { clip_ids, ripple } => if ripple {
            "Eliminar (ripple)"@
        } else {
            "Eliminar"@
        },
        Call::MoveClip { .. } => "Mover clip"@,
        Call::TrimClip { .. } => "Recortar clip"@,
        Call::SetClipSpeed { .. } => "Cambiar velocidad"@,
        Call::SpeedupRanges { .. } => "Acelerar rangos"@,
        Call::MoveRange { .. } => "Mover rango"@,
        Call::CutRanges { sequence_id, list, ripple } => store::cut_label(list.len()),
        Call::SplitRanges { sequence_id, list } => store::split_label(list.len()),
    }
}

/// What a call comes to: the store after it, or its error.
pub open spec fn outcome(s: StoreV, call: Call, ids: Seq<Id>) -> Result<StoreV, ErrV> {
    match planned(s.project, call, ids) {
        Ok(actions) => s.dispatched(label_of(call), actions, false),
        Err(e) => Err(e),
    }
}

/// The store after a call; where it is refused, as before.
pub open spec fn after_call(s: StoreV, call: Call, ids: Seq<Id>) -> StoreV {
    match outcome(s, call, ids) {
        Ok(x) => x,
        Err(e) => s,
    }
}

/// The store after a row of calls, each with the identifiers that it draws.
pub open spec fn after_calls(s: StoreV, calls: Seq<(Call, Seq<Id>)>) -> StoreV
    decreases calls.len(),
{
    if calls.len() == 0 {
        s
    } else {
        after_call(after_calls(s, calls.drop_last()), calls.last().0, calls.last().1)
    }
}

/// The identifiers that a call brings to a project.
pub open spec fn supply(call: Call, ids: Seq<Id>) -> Seq<Id> {
    match call {
        Call::InsertClip { track_id, clip, mode } => ids.push(clip.id),
        _ => ids,
    }
}

/// Whether the identifiers of a call are new and enough, an inserted clip is
/// sound, and its actions are feasible when their turn comes.
pub open spec fn fair(p: ProjectV, call: Call, ids: Seq<Id>) -> bool {
    match planned(p, call, ids) {
        Ok(actions) => {
            &&& undoing::new_ids(p, supply(call, ids))
            &&& 2 * actions.len() + 1 <= ids.len()
            &&& undoing::feasible_run(p, actions)
            &&& match call {
                Call::InsertClip { track_id, clip, mode } => laws::sound_clip(clip),
                _ => true,
            }
        },
        Err(e) => true,
    }
}

/// Whether each call of a row is fair when its turn comes.
pub open spec fn all_fair(s: StoreV, calls: Seq<(Call, Seq<Id>)>) -> bool
    decreases calls.len(),
{
    if calls.len() == 0 {
        true
    } else {
        let p = after_calls(s, calls.drop_last()).project;
        all_fair(s, calls.drop_last()) && fair(p, calls.last().0, calls.last().1)
    }
}

/// Whether a call keeps to the material of the clips, and nothing but a clip has
/// one of its identifiers. Trimming, deleting and changing the speed always do.
pub open spec fn modest(p: ProjectV, call: Call, ids: Seq<Id>) -> bool {
    match (call, planned(p, call, ids)) {
        (Call::TrimClip { .. }, _) => true,
        (Call::SetClipSpeed { .. }, _) => true,
        (Call::DeleteClips { .. }, _) => true,
        (_, Ok(actions)) => {
            &&& stock::in_reach_run(p, actions)
            &&& staying::apart(p, actions)
        },
        (_, Err(e)) => true,
    }
}

/// Whether each call of a row is modest when its turn comes.
pub open spec fn all_modest(s: StoreV, calls: Seq<(Call, Seq<Id>)>) -> bool
    decreases calls.len(),
{
    if calls.len() == 0 {
        true
    } else {
        let p = after_calls(s, calls.drop_last()).project;
        all_modest(s, calls.drop_last()) && modest(p, calls.last().0, calls.last().1)
    }
}

/// The transactions that a row of calls records.
pub open spec fn recorded(s: StoreV, calls: Seq<(Call, Seq<Id>)>) -> Seq<(Seq<char>, Seq<ActionV>)>
    decreases calls.len(),
{
    if calls.len() == 0 {
        Seq::empty()
    } else {
        let before = recorded(s, calls.drop_last());
        let p = after_calls(s, calls.drop_last()).project;
        match planned(p, calls.last().0, calls.last().1) {
            Ok(actions) => if actions.len() > 0 && laws::run(p, actions) is Ok {
                before.push((label_of(calls.last().0), actions))
            } else {
                before
            },
            Err(e) => before,
        }
    }
}

/// The plan of a fair call can be undone.
proof fn lemma_call(p: ProjectV, call: Call, ids: Seq<Id>)
    requires
        laws::sound(p),
        fair(p, call, ids),
        planned(p, call, ids) is Ok,
    ensures
        laws::admissible_run(p, planned(p, call, ids)->Ok_0),
        call is TrimClip || call is SetClipSpeed || undoing::restores(
            p,
            staying::plan_of(p, planned(p, call, ids)->Ok_0),
        ),
{
    match call {
        Call::InsertClip { track_id, clip, mode } => {
            undoing::law_insert_restores(p, track_id, clip, mode, ids);
        },
        Call::SplitClip { clip_id, t } => {
            undoing::law_split_restores(p, clip_id, t, ids);
        },
        Call::DeleteClips { clip_ids, ripple } => {
            undoing::law_delete_restores(p, clip_ids, ripple);
        },
        Call::MoveClip { clip_id, to_track, to_start, mode } => {
            undoing::law_move_restores(p, clip_id, to_track, to_start, mode, ids);
        },
        Call::TrimClip { clip_id, left, new_edge } => {
            undoing::law_linked_trim_restores(p, clip_id, left, new_edge);
        },
        Call::SetClipSpeed { clip_id, speed } => {
            undoing::law_linked_speed_restores(p, clip_id, speed);
        },
        Call::SpeedupRanges { sequence_id, list, factor } => {
            undoing::law_speedup_restores(p, sequence_id, list, factor, ids);
        },
        Call::MoveRange { sequence_id, from, to, dest } => {
            undoing::law_move_range_restores(p, sequence_id, from, to, dest, ids);
        },
        Call::CutRanges { sequence_id, list, ripple } => {
            undoing::law_cut_ranges_restores(p, sequence_id, list, ripple, ids);
        },
        Call::SplitRanges { sequence_id, list } => {
            undoing::law_split_ranges_restores(p, sequence_id, list, ids);
        },
    }
}

/// The transactions that calls record go through, and leave the store as the
/// calls do.
proof fn lemma_recorded(s: StoreV, calls: Seq<(Call, Seq<Id>)>)
    requires
        laws::sound(s.project),
        all_fair(s, calls),
        s.history.undo.len() + recorded(s, calls).len() <= s.history.limit,
    ensures
        undoing::row_goes(s, recorded(s, calls)),
        undoing::after_row(s, recorded(s, calls)) == after_calls(s, calls),
        recorded(s, calls).len() <= calls.len(),
        laws::sound(after_calls(s, calls).project),
    decreases calls.len(),
{
    if calls.len() > 0 {
        let rest = calls.drop_last();
        let call = calls.last().0;
        let ids = calls.last().1;
        lemma_recorded(s, rest);
        let before = after_calls(s, rest);
        let p = before.project;
        if let Ok(actions) = planned(p, call, ids) {
            lemma_call(p, call, ids);
            laws::law_transaction_undoes(p, actions);
            if actions.len() > 0 && laws::run(p, actions) is Ok {
                let all = recorded(s, calls);
                assert(all.drop_last() =~= recorded(s, rest));
                assert(all.last() == (label_of(call), actions));
            }
        }
    }
}

/// Undo and redo of the operations of the store: after any row of calls, refused
/// ones among them, undoing as often as something was recorded restores exactly
/// the project and what could be undone before, and redoing as often gives back
/// exactly the project after the row.
pub proof fn law_calls_are_undone(s: StoreV, calls: Seq<(Call, Seq<Id>)>)
    requires
        laws::sound(s.project),
        all_fair(s, calls),
        s.history.undo.len() + recorded(s, calls).len() <= s.history.limit,
    ensures
        ({
            let after = after_calls(s, calls);
            let n = recorded(s, calls).len();
            let back = undoing::undone_times(after, n);
            let again = undoing::redone_times(back, n);
            &&& laws::sound(after.project)
            &&& after.history.undo.len() == s.history.undo.len() + n
            &&& back.project == s.project
            &&& back.history.undo == s.history.undo
            &&& again.project == after.project
            &&& again.history == after.history
        }),
{
    lemma_recorded(s, calls);
    let row = recorded(s, calls);
    undoing::law_undo_all_restores(s, row);
    undoing::law_redo_all_restores(s, row);
}

/// Whether the undo after so many others goes through, and gives back the label
/// of the call that it undoes.
pub open spec fn label_comes(s: StoreV, calls: Seq<(Call, Seq<Id>)>, k: nat) -> bool {
    let row = recorded(s, calls);
    let here = undoing::undone_times(after_calls(s, calls), k);
    &&& here.history.undo.len() > 0
    &&& here.history.undo.last().label == row[row.len() - 1 - k].0
    &&& laws::run_back(here.project, here.history.undo.last().inverses) is Ok
}

/// After any row of calls each undo goes through, and gives back the label of the
/// latest call that is not undone yet.
pub proof fn law_calls_have_labels(s: StoreV, calls: Seq<(Call, Seq<Id>)>, k: nat)
    requires
        laws::sound(s.project),
        all_fair(s, calls),
        s.history.undo.len() + recorded(s, calls).len() <= s.history.limit,
        k < recorded(s, calls).len(),
    ensures
        label_comes(s, calls, k),
{
    lemma_recorded(s, calls);
    undoing::law_undo_labels(s, recorded(s, calls), k);
}

/// After any row of calls, refused ones among them, `validate` finds nothing
/// amiss where it found nothing before.
pub proof fn law_calls_keep_valid(s: StoreV, calls: Seq<(Call, Seq<Id>)>)
    requires
        laws::sound(s.project),
        validate::issues_of(s.project).len() == 0,
        all_fair(s, calls),
        all_modest(s, calls),
        s.history.undo.len() + recorded(s, calls).len() <= s.history.limit,
    ensures
        validate::issues_of(after_calls(s, calls).project).len() == 0,
    decreases calls.len(),
{
    if calls.len() > 0 {
        let rest = calls.drop_last();
        let call = calls.last().0;
        let ids = calls.last().1;
        law_calls_keep_valid(s, rest);
        lemma_recorded(s, rest);
        let p = after_calls(s, rest).project;
        if let Ok(actions) = planned(p, call, ids) {
            lemma_call(p, call, ids);
            match call {
                Call::TrimClip { clip_id, left, new_edge } => {
                    staying::law_linked_trim_keeps_valid(p, clip_id, left, new_edge);
                },
                Call::SetClipSpeed { clip_id, speed } => {
                    staying::law_linked_speed_keeps_valid(p, clip_id, speed);
                },
                Call::DeleteClips { clip_ids, ripple } => {
                    undoing::law_delete_restores(p, clip_ids, ripple);
                    staying::law_delete_keeps_valid(p, clip_ids, ripple);
                },
                _ => {
                    staying::law_operations_keep_valid(p, staying::plan_of(p, actions));
                },
            }
        }
    }
}

/// What the store promises of its operations, from a valid project on: after
/// every call `validate` finds nothing amiss; each undo goes through and gives
/// back a label, the latest first; as many undos as were recorded restore the
/// project, and as many redos give back the edited one.
pub proof fn law_store(s: StoreV, calls: Seq<(Call, Seq<Id>)>, m: nat, k: nat)
    requires
        validate::issues_of(s.project).len() == 0,
        staying::in_range(s.project),
        staying::all_in_place(s.project),
        all_fair(s, calls),
        all_modest(s, calls),
        s.history.undo.len() + recorded(s, calls).len() <= s.history.limit,
        m <= calls.len(),
    ensures
        validate::issues_of(after_calls(s, calls.take(m as int)).project).len() == 0,
        ({
            let after = after_calls(s, calls);
            let n = recorded(s, calls).len();
            let back = undoing::undone_times(after, n);
            back.project == s.project && undoing::redone_times(back, n).project == after.project
        }),
        k < recorded(s, calls).len() ==> label_comes(s, calls, k),
{
    staying::law_valid_is_sound(s.project);
    law_calls_are_undone(s, calls);
    lemma_prefix(s, calls, m as int);
    law_calls_keep_valid(s, calls.take(m as int));
    if k < recorded(s, calls).len() {
        law_calls_have_labels(s, calls, k);
    }
}

proof fn lemma_prefix(s: StoreV, calls: Seq<(Call, Seq<Id>)>, m: int)
    requires
        all_fair(s, calls),
        all_modest(s, calls),
        0 <= m <= calls.len(),
    ensures
        all_fair(s, calls.take(m)),
        all_modest(s, calls.take(m)),
        recorded(s, calls.take(m)).len() <= recorded(s, calls).len(),
    decreases calls.len(),
{
    if m < calls.len() {
        assert(calls.drop_last().take(m) =~= calls.take(m));
        lemma_prefix(s, calls.drop_last(), m);
    } else {
        assert(calls.take(m) =~= calls);
    }
}

} // verus!
