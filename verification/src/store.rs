//! The one door through which a project is changed: transactions that happen
//! whole or not at all, with undo and redo.

use vstd::prelude::*;

use crate::action;
use crate::action::{apply, Action, ActionV};
use crate::calls;
use crate::calls::Call;
use crate::error::{ErrV, UeError, UeResult};
use crate::history;
use crate::history::{EntryV, History, HistoryEntry, HistoryV};
use crate::laws;
use crate::float::Real;
use crate::ident::Id;
use crate::model::{Clip, Project, ProjectV};
use crate::ops;
use crate::ops::{linked_ids, InsertMode, PlanV};
use crate::ranges;
use crate::seqs;
use crate::seqs::Duplicate;
use crate::text;
use crate::text::{copy_text, nat_to_text};
use crate::time::TimeUs;

verus! {

/// A project with its history.
pub struct ProjectStore {
    pub project: Project,
    pub history: History,
    /// Grows with every change, so that mirrors can tell when to follow.
    pub version: u64,
    pub dirty: bool,
}

/// The contents of a `ProjectStore`.
#[verifier::ext_equal]
pub struct StoreV {
    pub project: ProjectV,
    pub history: HistoryV,
    pub version: u64,
    pub dirty: bool,
}

impl View for ProjectStore {
    type V = StoreV;

    open spec fn view(&self) -> StoreV {
        StoreV {
            project: self.project@,
            history: self.history@,
            version: self.version,
            dirty: self.dirty,
        }
    }
}

/// The version after one more change.
pub open spec fn next_version(v: u64) -> u64 {
    if v < u64::MAX {
        (v + 1) as u64
    } else {
        v
    }
}

impl StoreV {
    /// The store after a change of the project.
    pub open spec fn changed(self, project: ProjectV, history: HistoryV) -> StoreV {
        StoreV { project, history, version: next_version(self.version), dirty: true }
    }

    /// The store after a transaction. No actions change nothing, and where one
    /// is refused, nothing of the transaction stays.
    pub open spec fn dispatched(
        self,
        label: Seq<char>,
        actions: Seq<ActionV>,
        coalesce: bool,
    ) -> Result<StoreV, ErrV> {
        if actions.len() == 0 {
            Ok(self)
        } else {
            match laws::run(self.project, actions) {
                Err(e) => Err(e),
                Ok(x) => {
                    let entry = EntryV { label, actions, inverses: x.1 };
                    let history = if coalesce {
                        self.history.coalesced(entry)
                    } else {
                        self.history.pushed(entry)
                    };
                    Ok(self.changed(x.0, history))
                },
            }
        }
    }
}

/// The actions of plans for a clip and those linked to it: where the clip
/// itself cannot be changed that is the error, while others are left out.
pub open spec fn gathered(list: Seq<(bool, Result<PlanV, ErrV>)>) -> Result<Seq<ActionV>, ErrV>
    decreases list.len(),
{
    if list.len() == 0 {
        Ok(Seq::<ActionV>::empty())
    } else {
        match gathered(list.drop_last()) {
            Err(e) => Err(e),
            Ok(a) => match list.last().1 {
                Ok(x) => Ok(a + x.actions),
                Err(e) => if list.last().0 {
                    Err(e)
                } else {
                    Ok(a)
                },
            },
        }
    }
}

proof fn lemma_gathered_stops(list: Seq<(bool, Result<PlanV, ErrV>)>, n: int)
    requires
        0 <= n <= list.len(),
        gathered(list.take(n)) is Err,
    ensures
        gathered(list) == gathered(list.take(n)),
    decreases list.len(),
{
    if n == list.len() {
        assert(list.take(n) == list);
    } else {
        assert(list.drop_last().take(n) == list.take(n));
        lemma_gathered_stops(list.drop_last(), n);
    }
}

/// The plans of a trim for a clip and those linked to it.
pub open spec fn trims(p: ProjectV, clip_id: Id, left: bool, edge: TimeUs) -> Seq<
    (bool, Result<PlanV, ErrV>),
> {
    ops::linked(p, clip_id).map_values(|g: Id| (g == clip_id, ops::trim_spec(p, g, left, edge)))
}

/// The plans of a speed for a clip and those linked to it.
pub open spec fn speeds(p: ProjectV, clip_id: Id, speed: Real) -> Seq<(bool, Result<PlanV, ErrV>)> {
    ops::linked(p, clip_id).map_values(|g: Id| (g == clip_id, ops::speed_spec(p, g, speed)))
}

/// The label of a cut of ranges.
pub open spec fn cut_label(n: nat) -> Seq<char> {
    "Cut "@ + text::digits(n) + " range(s)"@
}

/// The label of a split at ranges.
pub open spec fn split_label(n: nat) -> Seq<char> {
    "Split "@ + text::digits(n) + " range(s)"@
}

/// The project that is reached when inverses are applied, the last one first,
/// until one is refused.
pub open spec fn unwound(p: ProjectV, inverses: Seq<ActionV>) -> ProjectV
    decreases inverses.len(),
{
    if inverses.len() == 0 {
        p
    } else {
        match action::step(p, inverses.last()) {
            Err(e) => p,
            Ok(y) => unwound(y.0, inverses.drop_last()),
        }
    }
}

/// The project that is reached when actions are applied until one is refused.
pub open spec fn reached(p: ProjectV, actions: Seq<ActionV>) -> ProjectV
    decreases actions.len(),
{
    if actions.len() == 0 {
        p
    } else {
        match laws::run(p, actions.drop_last()) {
            Err(e) => reached(p, actions.drop_last()),
            Ok(x) => match action::step(x.0, actions.last()) {
                Err(e) => x.0,
                Ok(y) => y.0,
            },
        }
    }
}

/// Whether a call left the store as a result says; on an error it left it as
/// it was.
pub open spec fn went<T>(before: StoreV, after: StoreV, r: UeResult<T>, s: Result<StoreV, ErrV>) -> bool {
    match s {
        Ok(x) => r is Ok && after == x,
        Err(e) => r is Err && r->Err_0@ == e && after == before,
    }
}

proof fn lemma_run_stops(p: ProjectV, actions: Seq<ActionV>, n: int)
    requires
        0 <= n <= actions.len(),
        laws::run(p, actions.take(n)) is Err,
    ensures
        laws::run(p, actions) == laws::run(p, actions.take(n)),
        reached(p, actions) == reached(p, actions.take(n)),
    decreases actions.len(),
{
    if n == actions.len() {
        assert(actions.take(n) == actions);
    } else {
        assert(actions.drop_last().take(n) == actions.take(n));
        lemma_run_stops(p, actions.drop_last(), n);
    }
}

/// Applies actions one after the other and collects their inverses. Where one
/// is refused, the project is left as it was before that one.
fn perform(project: &mut Project, actions: &Vec<Action>) -> (r: UeResult<Vec<Action>>)
    ensures
        match laws::run(old(project)@, seqs::views(actions@)) {
            Ok(x) => r is Ok && seqs::views(r->Ok_0@) == x.1 && final(project)@ == x.0,
            Err(e) => r is Err && r->Err_0@ == e && final(project)@ == reached(
                old(project)@,
                seqs::views(actions@),
            ),
        },
{
    let ghost all = seqs::views(actions@);
    let ghost p = project@;
    let mut inverses: Vec<Action> = Vec::new();
    let mut i: usize = 0;
    assert(all.take(0) == Seq::<ActionV>::empty());
    assert(seqs::views(inverses@) =~= Seq::<ActionV>::empty());
    while i < actions.len()
        invariant
            i <= actions.len(),
            all == seqs::views(actions@),
            p == old(project)@,
            laws::run(p, all.take(i as int)) == Ok::<(ProjectV, Seq<ActionV>), ErrV>(
                (project@, seqs::views(inverses@)),
            ),
        decreases actions.len() - i,
    {
        proof {
            let t = all.take(i as int + 1);
            assert(t.drop_last() == all.take(i as int));
            assert(t.last() == actions@[i as int]@);
        }
        match apply(project, actions[i].duplicate()) {
            Ok(inv) => {
                let ghost before = inverses@;
                let ghost iv = inv@;
                inverses.push(inv);
                assert(seqs::views(inverses@) =~= seqs::views(before).push(iv));
            },
            Err(e) => {
                proof {
                    lemma_run_stops(p, all, i as int + 1);
                }
                return Err(e);
            },
        }
        i = i + 1;
    }
    assert(all.take(i as int) == all);
    Ok(inverses)
}

/// The error of a history that no longer fits the project.
pub open spec fn misfit(label: Seq<char>, e: UeError) -> ErrV {
    ErrV::Invalid(label + e.message())
}

fn misfit_error(label: &str, e: UeError) -> (r: UeError)
    ensures
        r@ == misfit(label@, e),
{
    let mut s: String = copy_text(label);
    let m: String = e.to_text();
    s.append(m.as_str());
    UeError::Invalid(s)
}

/// The store after the latest transaction is undone.
pub open spec fn undo_spec(s: StoreV) -> StoreV {
    if s.history.undo.len() == 0 {
        s
    } else {
        let e = s.history.undo.last();
        let rest = HistoryV { undo: s.history.undo.drop_last(), ..s.history };
        match laws::run_back(s.project, e.inverses) {
            Ok(q) => s.changed(q, HistoryV { redo: rest.redo.push(e), ..rest }),
            Err(x) => StoreV { project: unwound(s.project, e.inverses), history: rest, ..s },
        }
    }
}

/// The store after the latest undone transaction is done again.
pub open spec fn redo_spec(s: StoreV) -> StoreV {
    if s.history.redo.len() == 0 {
        s
    } else {
        let e = s.history.redo.last();
        let rest = HistoryV { redo: s.history.redo.drop_last(), ..s.history };
        match laws::run(s.project, e.actions) {
            Ok(x) => s.changed(
                x.0,
                HistoryV {
                    undo: history::remembered(rest.undo, EntryV { inverses: x.1, ..e }, rest.limit),
                    ..rest
                },
            ),
            Err(x) => StoreV { project: reached(s.project, e.actions), history: rest, ..s },
        }
    }
}

impl ProjectStore {
    /// A store for a project, with nothing to undo.
    pub fn new(project: Project) -> (s: ProjectStore)
        ensures
            s@ == (StoreV {
                project: project@,
                history: (HistoryV {
                    undo: Seq::<EntryV>::empty(),
                    redo: Seq::<EntryV>::empty(),
                    limit: 1000,
                }),
                version: 0,
                dirty: false,
            }),
    {
        ProjectStore { project, history: History::new(1000), version: 0, dirty: false }
    }

    fn advance(&mut self)
        ensures
            final(self)@ == (StoreV {
                version: next_version(old(self)@.version),
                dirty: true,
                ..old(self)@
            }),
    {
        if self.version < u64::MAX {
            self.version = self.version + 1;
        }
        self.dirty = true;
    }

    fn transact(&mut self, label: &str, actions: Vec<Action>, coalesce: bool) -> (r: UeResult<()>)
        ensures
            went(
                old(self)@,
                final(self)@,
                r,
                old(self)@.dispatched(label@, seqs::views(actions@), coalesce),
            ),
    {
        assert(seqs::views(actions@).len() == actions.len());
        if actions.len() == 0 {
            return Ok(());
        }
        let backup: Project = self.project.duplicate();
        match perform(&mut self.project, &actions) {
            Ok(inverses) => {
                let entry: HistoryEntry = HistoryEntry { label: copy_text(label), actions, inverses };
                if coalesce {
                    self.history.push_coalesced(entry);
                } else {
                    self.history.push(entry);
                }
                self.advance();
                Ok(())
            },
            Err(e) => {
                self.project = backup;
                Err(e)
            },
        }
    }

    /// Performs a transaction: all of its actions, or none where one is
    /// refused.
    pub fn dispatch(&mut self, label: &str, actions: Vec<Action>) -> (r: UeResult<()>)
        ensures
            went(
                old(self)@,
                final(self)@,
                r,
                old(self)@.dispatched(label@, seqs::views(actions@), false),
            ),
    {
        self.transact(label, actions, false)
    }

    /// Performs a transaction that belongs to one gesture with the latest one
    /// where that has the same label: the two are undone as one.
    pub fn dispatch_coalesced(&mut self, label: &str, actions: Vec<Action>) -> (r: UeResult<()>)
        ensures
            went(
                old(self)@,
                final(self)@,
                r,
                old(self)@.dispatched(label@, seqs::views(actions@), true),
            ),
    {
        self.transact(label, actions, true)
    }

    /// Undoes the latest transaction and gives its label; none where there is
    /// nothing to undo.
    pub fn undo(&mut self) -> (r: UeResult<Option<String>>)
        ensures
            final(self)@ == undo_spec(old(self)@),
            old(self)@.history.undo.len() == 0 ==> r matches Ok(None),
            old(self)@.history.undo.len() > 0 ==> match laws::run_back(
                old(self)@.project,
                old(self)@.history.undo.last().inverses,
            ) {
                Ok(q) => r matches Ok(Some(l)) && l@ == old(self)@.history.undo.last().label,
                Err(x) => r matches Err(e) && exists|u: UeError|
                    u@ == x && e@ == #[trigger] misfit("undo inconsistente: "@, u),
            },
    {
        let entry: HistoryEntry = match self.history.pop_undo() {
            Some(e) => e,
            None => {
                return Ok(None);
            },
        };
        let ghost p = self.project@;
        let ghost all = entry@.inverses;
        let mut n: usize = entry.inverses.len();
        assert(all.take(n as int) == all);
        while n > 0
            invariant
                n <= entry.inverses.len(),
                all == seqs::views(entry.inverses@),
                self.history@ == (HistoryV {
                    undo: old(self)@.history.undo.drop_last(),
                    ..old(self)@.history
                }),
                self.version == old(self).version,
                self.dirty == old(self).dirty,
                old(self)@.history.undo.len() > 0,
                entry@ == old(self)@.history.undo.last(),
                p == old(self)@.project,
                laws::run_back(p, all) == laws::run_back(self.project@, all.take(n as int)),
                unwound(p, all) == unwound(self.project@, all.take(n as int)),
            decreases n,
        {
            proof {
                let t = all.take(n as int);
                assert(t.drop_last() == all.take(n - 1));
                assert(t.last() == entry.inverses@[n - 1]@);
            }
            n = n - 1;
            match apply(&mut self.project, entry.inverses[n].duplicate()) {
                Ok(a) => {},
                Err(e) => {
                    let r: UeError = misfit_error("undo inconsistente: ", e);
                    assert(r@ == misfit("undo inconsistente: "@, e));
                    return Err(r);
                },
            }
        }
        let label: String = entry.label.clone();
        self.history.push_redo(entry);
        self.advance();
        Ok(Some(label))
    }

    /// Does the latest undone transaction again and gives its label; none
    /// where there is nothing to redo.
    pub fn redo(&mut self) -> (r: UeResult<Option<String>>)
        ensures
            final(self)@ == redo_spec(old(self)@),
            old(self)@.history.redo.len() == 0 ==> r matches Ok(None),
            old(self)@.history.redo.len() > 0 ==> match laws::run(
                old(self)@.project,
                old(self)@.history.redo.last().actions,
            ) {
                Ok(q) => r matches Ok(Some(l)) && l@ == old(self)@.history.redo.last().label,
                Err(x) => r matches Err(e) && exists|u: UeError|
                    u@ == x && e@ == #[trigger] misfit("redo inconsistente: "@, u),
            },
    {
        let mut entry: HistoryEntry = match self.history.pop_redo() {
            Some(e) => e,
            None => {
                return Ok(None);
            },
        };
        match perform(&mut self.project, &entry.actions) {
            Ok(inverses) => {
                entry.inverses = inverses;
                let label: String = entry.label.clone();
                self.history.push_undo_from_redo(entry);
                self.advance();
                Ok(Some(label))
            },
            Err(e) => {
                let r: UeError = misfit_error("redo inconsistente: ", e);
                assert(r@ == misfit("redo inconsistente: "@, e));
                Err(r)
            },
        }
    }

    /// Whether something can be undone.
    pub fn can_undo(&self) -> (r: bool)
        ensures
            r == (self@.history.undo.len() > 0),
    {
        self.history.can_undo()
    }

    /// Whether something can be redone.
    pub fn can_redo(&self) -> (r: bool)
        ensures
            r == (self@.history.redo.len() > 0),
    {
        self.history.can_redo()
    }

    /// The labels of what can be undone, the latest last.
    pub fn undo_labels(&self) -> (r: Vec<&str>)
        ensures
            r.len() == self@.history.undo.len(),
            forall|i: int| 0 <= i < r.len() ==> (#[trigger] r@[i])@ == self@.history.undo[i].label,
    {
        self.history.undo_labels()
    }
}

fn append_actions(list: &mut Vec<Action>, more: Vec<Action>)
    ensures
        seqs::views(final(list)@) == seqs::views(old(list)@) + seqs::views(more@),
{
    let ghost before = list@;
    let mut i: usize = 0;
    assert(seqs::views(list@) =~= seqs::views(before) + seqs::views(more@).take(0));
    while i < more.len()
        invariant
            i <= more.len(),
            seqs::views(list@) == seqs::views(before) + seqs::views(more@).take(i as int),
        decreases more.len() - i,
    {
        let ghost had = list@;
        list.push(more[i].duplicate());
        assert(seqs::views(list@) =~= seqs::views(had).push(more@[i as int]@));
        assert(seqs::views(list@) =~= seqs::views(before) + seqs::views(more@).take(i as int + 1));
        i = i + 1;
    }
    assert(seqs::views(more@).take(i as int) =~= seqs::views(more@));
}

/// Adds what came of a plan for one clip of a group.
fn gather(list: &mut Vec<Action>, own: bool, plan: UeResult<Vec<Action>>) -> (r: UeResult<()>)
    ensures
        match plan {
            Ok(x) => r is Ok && seqs::views(final(list)@) == seqs::views(old(list)@) + seqs::views(
                x@,
            ),
            Err(e) => if own {
                r is Err && r->Err_0@ == e@
            } else {
                r is Ok && seqs::views(final(list)@) == seqs::views(old(list)@)
            },
        },
{
    match plan {
        Ok(x) => {
            append_actions(list, x);
            Ok(())
        },
        Err(e) => {
            if own {
                Err(e)
            } else {
                Ok(())
            }
        },
    }
}

fn gather_trims(project: &Project, clip_id: Id, left: bool, edge: TimeUs) -> (r: UeResult<Vec<Action>>)
    ensures
        match gathered(trims(project@, clip_id, left, edge)) {
            Ok(a) => r is Ok && seqs::views(r->Ok_0@) == a,
            Err(e) => r is Err && r->Err_0@ == e,
        },
{
    let gids: Vec<Id> = linked_ids(project, clip_id);
    let ghost all = trims(project@, clip_id, left, edge);
    let mut list: Vec<Action> = Vec::new();
    let mut i: usize = 0;
    assert(seqs::views(list@) =~= Seq::<ActionV>::empty());
    assert(all.take(0) =~= Seq::<(bool, Result<PlanV, ErrV>)>::empty());
    while i < gids.len()
        invariant
            i <= gids.len(),
            all == trims(project@, clip_id, left, edge),
            gids@ == ops::linked(project@, clip_id),
            gathered(all.take(i as int)) == Ok::<Seq<ActionV>, ErrV>(seqs::views(list@)),
        decreases gids.len() - i,
    {
        proof {
            assert(all.take(i as int + 1).drop_last() =~= all.take(i as int));
            assert(all.take(i as int + 1).last() == (
                gids@[i as int] == clip_id,
                ops::trim_spec(project@, gids@[i as int], left, edge),
            ));
        }
        let plan: UeResult<Vec<Action>> = ops::trim_clip(project, gids[i], left, edge);
        if let Err(e) = gather(&mut list, gids[i] == clip_id, plan) {
            proof {
                lemma_gathered_stops(all, i as int + 1);
            }
            return Err(e);
        }
        i = i + 1;
    }
    assert(all.take(i as int) =~= all);
    Ok(list)
}

fn gather_speeds(project: &Project, clip_id: Id, speed: Real) -> (r: UeResult<Vec<Action>>)
    ensures
        match gathered(speeds(project@, clip_id, speed)) {
            Ok(a) => r is Ok && seqs::views(r->Ok_0@) == a,
            Err(e) => r is Err && r->Err_0@ == e,
        },
{
    let gids: Vec<Id> = linked_ids(project, clip_id);
    let ghost all = speeds(project@, clip_id, speed);
    let mut list: Vec<Action> = Vec::new();
    let mut i: usize = 0;
    assert(seqs::views(list@) =~= Seq::<ActionV>::empty());
    assert(all.take(0) =~= Seq::<(bool, Result<PlanV, ErrV>)>::empty());
    while i < gids.len()
        invariant
            i <= gids.len(),
            all == speeds(project@, clip_id, speed),
            gids@ == ops::linked(project@, clip_id),
            gathered(all.take(i as int)) == Ok::<Seq<ActionV>, ErrV>(seqs::views(list@)),
        decreases gids.len() - i,
    {
        proof {
            assert(all.take(i as int + 1).drop_last() =~= all.take(i as int));
            assert(all.take(i as int + 1).last() == (
                gids@[i as int] == clip_id,
                ops::speed_spec(project@, gids@[i as int], speed),
            ));
        }
        let plan: UeResult<Vec<Action>> = ops::set_clip_speed(project, gids[i], speed);
        if let Err(e) = gather(&mut list, gids[i] == clip_id, plan) {
            proof {
                lemma_gathered_stops(all, i as int + 1);
            }
            return Err(e);
        }
        i = i + 1;
    }
    assert(all.take(i as int) =~= all);
    Ok(list)
}

impl ProjectStore {
    /// Splits a clip and gives its two halves.
    pub fn split_clip(&mut self, clip_id: Id, t: TimeUs) -> (r: UeResult<(Id, Id)>)
        ensures
            exists|ids: Seq<Id>|
                went(
                    old(self)@,
                    final(self)@,
                    r,
                    #[trigger] calls::outcome(old(self)@, (Call::SplitClip { clip_id, t }), ids),
                ) && (r is Ok ==> match ops::split_spec(old(self)@.project, clip_id, t, ids) {
                    Ok(x) => r->Ok_0 == (x.1, x.2),
                    Err(e) => false,
                }),
    {
        let planned: UeResult<(Vec<Action>, Id, Id)> = ops::split_clip(&self.project, clip_id, t);
        let ghost ids = choose|ids: Seq<Id>|
            ops::split_is(planned, #[trigger] ops::split_spec(self.project@, clip_id, t, ids));
        assert(ops::split_is(planned, ops::split_spec(self.project@, clip_id, t, ids)));
        let ghost out = calls::outcome(self@, (Call::SplitClip { clip_id, t }), ids);
        match planned {
            Ok(x) => {
                let (actions, left, right) = x;
                match self.dispatch("Dividir clip", actions) {
                    Ok(u) => Ok((left, right)),
                    Err(e) => Err(e),
                }
            },
            Err(e) => Err(e),
        }
    }

    /// Deletes clips with those linked to them; with ripple the gaps close.
    pub fn delete_clips(&mut self, ids: &Vec<Id>, ripple: bool) -> (r: UeResult<()>)
        ensures
            went(
                old(self)@,
                final(self)@,
                r,
                calls::outcome(old(self)@, (Call::DeleteClips { clip_ids: ids@, ripple }), Seq::<Id>::empty()),
            ),
    {
        match ops::delete_clips(&self.project, ids, ripple) {
            Ok(actions) => {
                let label: &str = if ripple {
                    "Eliminar (ripple)"
                } else {
                    "Eliminar"
                };
                self.dispatch(label, actions)
            },
            Err(e) => Err(e),
        }
    }

    /// Adds a clip to a track and gives its identifier.
    pub fn insert_clip(&mut self, track_id: Id, clip: Clip, mode: InsertMode) -> (r: UeResult<Id>)
        ensures
            exists|ids: Seq<Id>|
                went(
                    old(self)@,
                    final(self)@,
                    r,
                    #[trigger] calls::outcome(old(self)@, (Call::InsertClip { track_id, clip: clip@, mode }), ids),
                ),
            r is Ok ==> r->Ok_0 == clip@.id,
    {
        let ghost cv = clip@;
        let clip_id: Id = clip.id;
        let planned: UeResult<Vec<Action>> = ops::insert_clip(&self.project, track_id, clip, mode);
        let ghost ids = choose|ids: Seq<Id>|
            ops::plans(
                planned,
                #[trigger] ops::insert_spec(self.project@, track_id, cv, mode, ids),
            );
        assert(ops::plans(planned, ops::insert_spec(self.project@, track_id, cv, mode, ids)));
        let ghost out = calls::outcome(self@, (Call::InsertClip { track_id, clip: cv, mode }), ids);
        match planned {
            Ok(actions) => match self.dispatch("Añadir clip", actions) {
                Ok(u) => Ok(clip_id),
                Err(e) => Err(e),
            },
            Err(e) => Err(e),
        }
    }

    /// Moves a clip with those linked to it.
    pub fn move_clip(&mut self, clip_id: Id, to_track: Id, to_start: TimeUs, mode: InsertMode) -> (r:
        UeResult<()>)
        ensures
            exists|ids: Seq<Id>|
                went(
                    old(self)@,
                    final(self)@,
                    r,
                    #[trigger] calls::outcome(old(self)@, (Call::MoveClip { clip_id, to_track, to_start, mode }), ids),
                ),
    {
        let planned: UeResult<Vec<Action>> = ops::move_clip(
            &self.project,
            clip_id,
            to_track,
            to_start,
            mode,
        );
        let ghost ids = choose|ids: Seq<Id>|
            ops::plans(
                planned,
                #[trigger] ops::move_spec(self.project@, clip_id, to_track, to_start, mode, ids),
            );
        assert(ops::plans(
            planned,
            ops::move_spec(self.project@, clip_id, to_track, to_start, mode, ids),
        ));
        let ghost out = calls::outcome(self@, (Call::MoveClip { clip_id, to_track, to_start, mode }), ids);
        match planned {
            Ok(actions) => self.dispatch("Mover clip", actions),
            Err(e) => Err(e),
        }
    }

    /// Trims a clip and, where they can be, those linked to it.
    pub fn trim_clip(&mut self, clip_id: Id, left: bool, new_edge: TimeUs) -> (r: UeResult<()>)
        ensures
            went(
                old(self)@,
                final(self)@,
                r,
                calls::outcome(old(self)@, (Call::TrimClip { clip_id, left, new_edge }), Seq::<Id>::empty()),
            ),
    {
        match gather_trims(&self.project, clip_id, left, new_edge) {
            Ok(actions) => self.dispatch("Recortar clip", actions),
            Err(e) => Err(e),
        }
    }

    /// Gives a clip and, where they can have it, those linked to it a speed.
    pub fn set_clip_speed(&mut self, clip_id: Id, speed: Real) -> (r: UeResult<()>)
        ensures
            went(
                old(self)@,
                final(self)@,
                r,
                calls::outcome(old(self)@, (Call::SetClipSpeed { clip_id, speed }), Seq::<Id>::empty()),
            ),
    {
        match gather_speeds(&self.project, clip_id, speed) {
            Ok(actions) => self.dispatch("Cambiar velocidad", actions),
            Err(e) => Err(e),
        }
    }

    /// Speeds up what lies in ranges of a sequence.
    pub fn speedup_ranges(
        &mut self,
        sequence_id: Id,
        ranges: &Vec<(TimeUs, TimeUs)>,
        factor: Real,
    ) -> (r: UeResult<()>)
        ensures
            exists|ids: Seq<Id>|
                went(
                    old(self)@,
                    final(self)@,
                    r,
                    #[trigger] calls::outcome(old(self)@, (Call::SpeedupRanges { sequence_id, list: ranges@, factor }), ids),
                ),
    {
        let planned: UeResult<Vec<Action>> = ranges::speedup_ranges(
            &self.project,
            sequence_id,
            ranges,
            factor,
        );
        let ghost ids = choose|ids: Seq<Id>|
            ops::plans(
                planned,
                #[trigger] ranges::speedup_spec(self.project@, sequence_id, ranges@, factor, ids),
            );
        assert(ops::plans(
            planned,
            ranges::speedup_spec(self.project@, sequence_id, ranges@, factor, ids),
        ));
        let ghost out = calls::outcome(self@, (Call::SpeedupRanges { sequence_id, list: ranges@, factor }), ids);
        match planned {
            Ok(actions) => self.dispatch("Acelerar rangos", actions),
            Err(e) => Err(e),
        }
    }

    /// Moves a range of a sequence to another time.
    pub fn move_range(&mut self, sequence_id: Id, from: TimeUs, to: TimeUs, dest: TimeUs) -> (r:
        UeResult<()>)
        ensures
            exists|ids: Seq<Id>|
                went(
                    old(self)@,
                    final(self)@,
                    r,
                    #[trigger] calls::outcome(old(self)@, (Call::MoveRange { sequence_id, from, to, dest }), ids),
                ),
    {
        let planned: UeResult<Vec<Action>> = ranges::move_range(
            &self.project,
            sequence_id,
            from,
            to,
            dest,
        );
        let ghost ids = choose|ids: Seq<Id>|
            ops::plans(
                planned,
                #[trigger] ranges::move_range_spec(
                    self.project@,
                    sequence_id,
                    from,
                    to,
                    dest,
                    ids,
                ),
            );
        assert(ops::plans(
            planned,
            ranges::move_range_spec(self.project@, sequence_id, from, to, dest, ids),
        ));
        let ghost out = calls::outcome(self@, (Call::MoveRange { sequence_id, from, to, dest }), ids);
        match planned {
            Ok(actions) => self.dispatch("Mover rango", actions),
            Err(e) => Err(e),
        }
    }

    /// Cuts ranges out of a sequence; with ripple the gaps close.
    pub fn cut_ranges(&mut self, sequence_id: Id, ranges: &Vec<(TimeUs, TimeUs)>, ripple: bool) -> (r:
        UeResult<()>)
        ensures
            exists|ids: Seq<Id>|
                went(
                    old(self)@,
                    final(self)@,
                    r,
                    #[trigger] calls::outcome(old(self)@, (Call::CutRanges { sequence_id, list: ranges@, ripple }), ids),
                ),
    {
        let planned: UeResult<Vec<Action>> = ranges::cut_ranges(
            &self.project,
            sequence_id,
            ranges,
            ripple,
        );
        let ghost ids = choose|ids: Seq<Id>|
            ops::plans(
                planned,
                #[trigger] ranges::cut_ranges_spec(self.project@, sequence_id, ranges@, ripple, ids),
            );
        assert(ops::plans(
            planned,
            ranges::cut_ranges_spec(self.project@, sequence_id, ranges@, ripple, ids),
        ));
        let ghost out = calls::outcome(self@, (Call::CutRanges { sequence_id, list: ranges@, ripple }), ids);
        match planned {
            Ok(actions) => {
                let mut label: String = copy_text("Cut ");
                let n: String = nat_to_text(ranges.len() as u128);
                label.append(n.as_str());
                label.append(" range(s)");
                self.dispatch(label.as_str(), actions)
            },
            Err(e) => Err(e),
        }
    }

    /// Splits the clips of a sequence at the ends of ranges; nothing is removed.
    pub fn split_ranges(&mut self, sequence_id: Id, ranges: &Vec<(TimeUs, TimeUs)>) -> (r: UeResult<
        (),
    >)
        ensures
            exists|ids: Seq<Id>|
                went(
                    old(self)@,
                    final(self)@,
                    r,
                    #[trigger] calls::outcome(old(self)@, (Call::SplitRanges { sequence_id, list: ranges@ }), ids),
                ),
    {
        let planned: UeResult<Vec<Action>> = ranges::split_ranges(
            &self.project,
            sequence_id,
            ranges,
        );
        let ghost ids = choose|ids: Seq<Id>|
            ops::plans(
                planned,
                #[trigger] ranges::split_ranges_spec(self.project@, sequence_id, ranges@, ids),
            );
        assert(ops::plans(
            planned,
            ranges::split_ranges_spec(self.project@, sequence_id, ranges@, ids),
        ));
        let ghost out = calls::outcome(self@, (Call::SplitRanges { sequence_id, list: ranges@ }), ids);
        match planned {
            Ok(actions) => {
                let mut label: String = copy_text("Split ");
                let n: String = nat_to_text(ranges.len() as u128);
                label.append(n.as_str());
                label.append(" range(s)");
                self.dispatch(label.as_str(), actions)
            },
            Err(e) => Err(e),
        }
    }
}


/// Undo and redo after a transaction: undo brings back exactly the project
/// before it, and redo the project after it. The project is sound, the actions
/// are admissible in their turn, and the history can hold an entry.
pub proof fn law_undo_restores(s: StoreV, label: Seq<char>, actions: Seq<ActionV>)
    requires
        laws::sound(s.project),
        laws::admissible_run(s.project, actions),
        actions.len() > 0,
        s.history.limit > 0,
    ensures
        match s.dispatched(label, actions, false) {
            Ok(after) => {
                &&& laws::sound(after.project)
                &&& undo_spec(after).project == s.project
                &&& redo_spec(undo_spec(after)).project == after.project
            },
            Err(e) => true,
        },
{
    laws::law_transaction_undoes(s.project, actions);
    if let Ok(after) = s.dispatched(label, actions, false) {
        let x = laws::run(s.project, actions)->Ok_0;
        let e = EntryV { label, actions, inverses: x.1 };
        assert(after.history.undo.last() == e);
        let back = undo_spec(after);
        assert(back.history.redo.last() == e);
    }
}

proof fn lemma_run_back_joined(p: ProjectV, a: Seq<ActionV>, b: Seq<ActionV>)
    requires
        laws::run_back(p, b) is Ok,
    ensures
        laws::run_back(p, a + b) == laws::run_back(laws::run_back(p, b)->Ok_0, a),
    decreases b.len(),
{
    if b.len() == 0 {
        assert(a + b == a);
    } else {
        assert((a + b).last() == b.last());
        assert((a + b).drop_last() == a + b.drop_last());
        let y = action::step(p, b.last())->Ok_0;
        lemma_run_back_joined(y.0, a, b.drop_last());
    }
}

/// A gesture undoes as one step: where the latest transaction has the same
/// label and its undo leads to `base`, the undo after one more transaction of
/// the gesture leads to `base` too.
pub proof fn law_gesture_undoes_as_one(
    s: StoreV,
    label: Seq<char>,
    actions: Seq<ActionV>,
    base: ProjectV,
)
    requires
        laws::sound(s.project),
        laws::admissible_run(s.project, actions),
        actions.len() > 0,
        s.history.continues(label),
        laws::run_back(s.project, s.history.undo.last().inverses) == Ok::<ProjectV, ErrV>(base),
    ensures
        match s.dispatched(label, actions, true) {
            Ok(after) => {
                &&& after.history.undo.len() == s.history.undo.len()
                &&& undo_spec(after).project == base
            },
            Err(e) => true,
        },
{
    laws::law_transaction_undoes(s.project, actions);
    if let Ok(after) = s.dispatched(label, actions, true) {
        let x = laws::run(s.project, actions)->Ok_0;
        let e = EntryV { label, actions, inverses: x.1 };
        let last = s.history.undo.last();
        assert(after.history.undo.last() == history::merged(last, e));
        lemma_run_back_joined(x.0, last.inverses, x.1);
    }
}

/// Undoing everything that was done in a row of transactions restores the
/// project that the row started from: one step of that, from the store before
/// the latest transaction.
pub proof fn law_undo_steps_back(s: StoreV, label: Seq<char>, actions: Seq<ActionV>)
    requires
        laws::sound(s.project),
        laws::admissible_run(s.project, actions),
        actions.len() > 0,
        s.history.undo.len() < s.history.limit,
    ensures
        match s.dispatched(label, actions, false) {
            Ok(after) => {
                &&& undo_spec(after).project == s.project
                &&& undo_spec(after).history.undo == s.history.undo
            },
            Err(e) => true,
        },
{
    law_undo_restores(s, label, actions);
    if let Ok(after) = s.dispatched(label, actions, false) {
        laws::law_transaction_undoes(s.project, actions);
        assert(undo_spec(after).history.undo =~= s.history.undo);
    }
}

} // verus!
