//! The history of a project: what can be undone and what can be redone.

use vstd::prelude::*;

use crate::action::{Action, ActionV};
use crate::seqs;
use crate::text::same_text;

verus! {

/// A transaction: its label, its actions and their inverses, in the order of
/// the actions.
pub struct HistoryEntry {
    pub label: String,
    pub actions: Vec<Action>,
    pub inverses: Vec<Action>,
}

/// The contents of a `HistoryEntry`.
#[verifier::ext_equal]
pub struct EntryV {
    pub label: Seq<char>,
    pub actions: Seq<ActionV>,
    pub inverses: Seq<ActionV>,
}

impl View for HistoryEntry {
    type V = EntryV;

    open spec fn view(&self) -> EntryV {
        EntryV {
            label: self.label@,
            actions: seqs::views(self.actions@),
            inverses: seqs::views(self.inverses@),
        }
    }
}

/// The transactions that can be undone and those that can be redone, the
/// latest last. No more than `limit` can be undone.
pub struct History {
    pub undo: Vec<HistoryEntry>,
    pub redo: Vec<HistoryEntry>,
    pub limit: usize,
}

/// The contents of a `History`.
#[verifier::ext_equal]
pub struct HistoryV {
    pub undo: Seq<EntryV>,
    pub redo: Seq<EntryV>,
    pub limit: nat,
}

impl View for History {
    type V = HistoryV;

    open spec fn view(&self) -> HistoryV {
        HistoryV { undo: seqs::views(self.undo@), redo: seqs::views(self.redo@), limit: self.limit as nat }
    }
}

/// A list with one more at the end; where it grows over the limit, the oldest
/// one goes.
pub open spec fn remembered(list: Seq<EntryV>, e: EntryV, limit: nat) -> Seq<EntryV> {
    if list.len() + 1 > limit {
        list.push(e).drop_first()
    } else {
        list.push(e)
    }
}

/// Two transactions as one.
pub open spec fn merged(a: EntryV, b: EntryV) -> EntryV {
    EntryV { label: a.label, actions: a.actions + b.actions, inverses: a.inverses + b.inverses }
}

impl HistoryV {
    /// The history with one more transaction; nothing can be redone then.
    pub open spec fn pushed(self, e: EntryV) -> HistoryV {
        HistoryV {
            undo: remembered(self.undo, e, self.limit),
            redo: Seq::<EntryV>::empty(),
            limit: self.limit,
        }
    }

    /// Whether a transaction with a label continues the latest one.
    pub open spec fn continues(self, label: Seq<char>) -> bool {
        self.undo.len() > 0 && self.undo.last().label == label
    }

    /// The history with a transaction that may continue the latest one.
    pub open spec fn coalesced(self, e: EntryV) -> HistoryV {
        if self.continues(e.label) {
            HistoryV {
                undo: self.undo.drop_last().push(merged(self.undo.last(), e)),
                redo: Seq::<EntryV>::empty(),
                limit: self.limit,
            }
        } else {
            self.pushed(e)
        }
    }
}

fn remember(list: &mut Vec<HistoryEntry>, e: HistoryEntry, limit: usize)
    ensures
        seqs::views(final(list)@) == remembered(seqs::views(old(list)@), e@, limit as nat),
{
    let ghost before = list@;
    let ghost ev = e@;
    let over: bool = list.len() >= limit;
    list.push(e);
    assert(seqs::views(list@) =~= seqs::views(before).push(ev));
    if over {
        let ghost mid = list@;
        list.remove(0);
        assert(seqs::views(list@) =~= seqs::views(mid).drop_first());
    }
}

impl History {
    /// An empty history.
    pub fn new(limit: usize) -> (h: History)
        ensures
            h@ == (HistoryV {
                undo: Seq::<EntryV>::empty(),
                redo: Seq::<EntryV>::empty(),
                limit: limit as nat,
            }),
    {
        let h: History = History { undo: Vec::new(), redo: Vec::new(), limit };
        assert(h@.undo =~= Seq::<EntryV>::empty());
        assert(h@.redo =~= Seq::<EntryV>::empty());
        h
    }

    /// Adds a transaction; nothing can be redone any more.
    pub fn push(&mut self, e: HistoryEntry)
        ensures
            final(self)@ == old(self)@.pushed(e@),
    {
        remember(&mut self.undo, e, self.limit);
        self.redo = Vec::new();
        assert(self@.redo =~= Seq::<EntryV>::empty());
    }

    /// Adds a transaction; where the latest one has the same label, the two
    /// become one.
    pub fn push_coalesced(&mut self, e: HistoryEntry)
        ensures
            final(self)@ == old(self)@.coalesced(e@),
    {
        let n: usize = self.undo.len();
        let ghost before = self@;
        let ghost ev = e@;
        if n > 0 && same_text(self.undo[n - 1].label.as_str(), e.label.as_str()) {
            assert(before.undo.last() == self.undo@[n - 1]@);
            let mut actions: Vec<Action> = e.actions;
            let mut inverses: Vec<Action> = e.inverses;
            let ghost last = self.undo@[n - 1];
            let top: &mut HistoryEntry = &mut self.undo[n - 1];
            top.actions.append(&mut actions);
            top.inverses.append(&mut inverses);
            proof {
                let t = self.undo@[n - 1];
                assert(seqs::views(t.actions@) =~= seqs::views(last.actions@) + ev.actions);
                assert(seqs::views(t.inverses@) =~= seqs::views(last.inverses@) + ev.inverses);
                assert(seqs::views(self.undo@) =~= before.undo.drop_last().push(merged(last@, ev)));
            }
            self.redo = Vec::new();
            assert(self@.redo =~= Seq::<EntryV>::empty());
        } else {
            proof {
                if n > 0 {
                    assert(before.undo.last() == self.undo@[n - 1]@);
                }
            }
            self.push(e);
        }
    }

    /// Takes the latest transaction off what can be undone.
    pub fn pop_undo(&mut self) -> (r: Option<HistoryEntry>)
        ensures
            match r {
                Some(e) => {
                    &&& old(self)@.undo.len() > 0
                    &&& e@ == old(self)@.undo.last()
                    &&& final(self)@ == (HistoryV {
                        undo: old(self)@.undo.drop_last(),
                        ..old(self)@
                    })
                },
                None => old(self)@.undo.len() == 0 && final(self)@ == old(self)@,
            },
    {
        let ghost before = self.undo@;
        let r: Option<HistoryEntry> = self.undo.pop();
        proof {
            if before.len() > 0 {
                assert(seqs::views(before).last() == before.last()@);
                assert(seqs::views(self.undo@) =~= seqs::views(before).drop_last());
            }
        }
        r
    }

    /// Takes the latest transaction off what can be redone.
    pub fn pop_redo(&mut self) -> (r: Option<HistoryEntry>)
        ensures
            match r {
                Some(e) => {
                    &&& old(self)@.redo.len() > 0
                    &&& e@ == old(self)@.redo.last()
                    &&& final(self)@ == (HistoryV {
                        redo: old(self)@.redo.drop_last(),
                        ..old(self)@
                    })
                },
                None => old(self)@.redo.len() == 0 && final(self)@ == old(self)@,
            },
    {
        let ghost before = self.redo@;
        let r: Option<HistoryEntry> = self.redo.pop();
        proof {
            if before.len() > 0 {
                assert(seqs::views(before).last() == before.last()@);
                assert(seqs::views(self.redo@) =~= seqs::views(before).drop_last());
            }
        }
        r
    }

    /// Puts an undone transaction on what can be redone.
    pub fn push_redo(&mut self, e: HistoryEntry)
        ensures
            final(self)@ == (HistoryV { redo: old(self)@.redo.push(e@), ..old(self)@ }),
    {
        let ghost ev = e@;
        self.redo.push(e);
        assert(seqs::views(self.redo@) =~= old(self)@.redo.push(ev));
    }

    /// Puts a redone transaction on what can be undone.
    pub fn push_undo_from_redo(&mut self, e: HistoryEntry)
        ensures
            final(self)@ == (HistoryV {
                undo: remembered(old(self)@.undo, e@, old(self)@.limit),
                ..old(self)@
            }),
    {
        remember(&mut self.undo, e, self.limit);
    }

    /// Whether something can be undone.
    pub fn can_undo(&self) -> (r: bool)
        ensures
            r == (self@.undo.len() > 0),
    {
        self.undo.len() > 0
    }

    /// Whether something can be redone.
    pub fn can_redo(&self) -> (r: bool)
        ensures
            r == (self@.redo.len() > 0),
    {
        self.redo.len() > 0
    }

    /// The labels of what can be undone, the latest last.
    pub fn undo_labels(&self) -> (r: Vec<&str>)
        ensures
            r.len() == self@.undo.len(),
            forall|i: int| 0 <= i < r.len() ==> (#[trigger] r@[i])@ == self@.undo[i].label,
    {
        let mut r: Vec<&str> = Vec::new();
        let mut i: usize = 0;
        while i < self.undo.len()
            invariant
                i <= self.undo.len(),
                r.len() == i,
                forall|j: int| 0 <= j < i ==> (#[trigger] r@[j])@ == self@.undo[j].label,
            decreases self.undo.len() - i,
        {
            assert(self@.undo[i as int] == self.undo@[i as int]@);
            r.push(self.undo[i].label.as_str());
            i = i + 1;
        }
        r
    }
}

/// The history keeps the latest transactions, as many as its limit allows, in
/// their order, and forgets what could be redone. A transaction that continues the
/// latest one becomes part of it: both are done in turn, and undone in turn.
pub proof fn law_history_keeps_the_latest(h: HistoryV, e: EntryV)
    requires
        0 < h.limit,
        h.undo.len() <= h.limit,
    ensures
        ({
            let all = h.undo.push(e);
            let kept = h.pushed(e).undo;
            &&& kept.len() == if all.len() <= h.limit {
                all.len()
            } else {
                h.limit
            }
            &&& kept == all.subrange(all.len() - kept.len(), all.len() as int)
            &&& h.pushed(e).redo.len() == 0
            &&& h.pushed(e).limit == h.limit
        }),
        h.undo.len() > 0 && h.undo.last().label == e.label ==> {
            let one = h.coalesced(e).undo.last();
            &&& h.coalesced(e).undo.len() == h.undo.len()
            &&& h.coalesced(e).undo.drop_last() == h.undo.drop_last()
            &&& h.coalesced(e).redo.len() == 0
            &&& one.label == e.label
            &&& one.actions == h.undo.last().actions + e.actions
            &&& one.inverses == h.undo.last().inverses + e.inverses
        },
        h.undo.len() == 0 || h.undo.last().label != e.label ==> h.coalesced(e) == h.pushed(e),
{
    let all = h.undo.push(e);
    let kept = h.pushed(e).undo;
    assert(kept =~= all.subrange(all.len() - kept.len(), all.len() as int));
    if h.continues(e.label) {
        assert(h.coalesced(e).undo.drop_last() =~= h.undo.drop_last());
    }
}

} // verus!
