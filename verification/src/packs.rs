//! Packs of effects that a user adds, in the order of their identifiers.

use vstd::prelude::*;

use crate::render::{EffectDef, EffectDefV};
use crate::seqs;
use crate::strmap;
use crate::strmap::comes_before;

verus! {

/// Where a definition goes in a list that is in order: behind all those whose
/// identifiers do not come after its own.
pub open spec fn slot(list: Seq<EffectDefV>, id: Seq<char>) -> nat
    decreases list.len(),
{
    if list.len() > 0 && strmap::text_before(id, list.last().id) {
        slot(list.drop_last(), id)
    } else {
        list.len()
    }
}

/// Definitions in the order of their identifiers; those of one identifier stay
/// in the order they had.
pub open spec fn by_id(list: Seq<EffectDefV>) -> Seq<EffectDefV>
    decreases list.len(),
{
    if list.len() == 0 {
        list
    } else {
        let before = by_id(list.drop_last());
        before.insert(slot(before, list.last().id) as int, list.last())
    }
}

fn find_slot(list: &Vec<EffectDef>, id: &str) -> (n: usize)
    ensures
        n == slot(seqs::views(list@), id@),
        n <= list.len(),
{
    let ghost all = seqs::views(list@);
    let mut n: usize = list.len();
    assert(all.take(n as int) =~= all);
    while n > 0
        invariant
            n <= list.len(),
            all == seqs::views(list@),
            slot(all, id@) == slot(all.take(n as int), id@),
        decreases n,
    {
        assert(all.take(n as int).last() == list@[n - 1]@);
        assert(all.take(n as int).drop_last() =~= all.take(n - 1));
        if !comes_before(id, list[n - 1].id.as_str()) {
            return n;
        }
        n = n - 1;
    }
    n
}

/// Puts the packs of a user in the order of their identifiers.
pub fn sort_packs(packs: Vec<EffectDef>) -> (r: Vec<EffectDef>)
    ensures
        seqs::views(r@) == by_id(seqs::views(packs@)),
{
    let ghost all = seqs::views(packs@);
    let mut left: Vec<EffectDef> = packs;
    let mut r: Vec<EffectDef> = Vec::new();
    let ghost mut k: int = 0;
    proof {
        assert(all.skip(0) =~= all);
        assert(seqs::views(r@) =~= by_id(all.take(0)));
    }
    while left.len() > 0
        invariant
            0 <= k <= all.len(),
            seqs::views(left@) == all.skip(k),
            seqs::views(r@) == by_id(all.take(k)),
        decreases left.len(),
    {
        let ghost before = seqs::views(r@);
        assert(seqs::views(left@).len() == left@.len());
        assert(all.skip(k)[0] == left@[0]@);
        let ghost whole = left@;
        let d: EffectDef = left.remove(0);
        let ghost dv = d@;
        proof {
            assert forall|i: int| 0 <= i < left@.len() implies #[trigger] seqs::views(left@)[i]
                == all.skip(k + 1)[i] by {
                assert(left@[i] == whole[i + 1]);
                assert(seqs::views(whole)[i + 1] == all.skip(k)[i + 1]);
            }
            assert(seqs::views(left@) =~= all.skip(k + 1));
            assert(all.take(k + 1).drop_last() =~= all.take(k));
            assert(all.take(k + 1).last() == dv);
        }
        let at: usize = find_slot(&r, d.id.as_str());
        r.insert(at, d);
        assert(seqs::views(r@) =~= before.insert(at as int, dv));
        proof {
            k = k + 1;
        }
    }
    proof {
        assert(all.skip(k).len() == 0);
        assert(all.take(k) =~= all);
    }
    r
}

// ---- laws ----

proof fn lemma_code(c: char)
    ensures
        c as u32 == c as int,
{
}

proof fn lemma_before_is_strict(a: Seq<char>, b: Seq<char>, c: Seq<char>)
    ensures
        !(strmap::text_before(a, b) && strmap::text_before(b, a)),
        !strmap::text_before(b, a) && !strmap::text_before(c, b) ==> !strmap::text_before(c, a),
    decreases a.len() + b.len() + c.len(),
{
    if a.len() > 0 && b.len() > 0 && c.len() > 0 {
        lemma_before_is_strict(a.drop_first(), b.drop_first(), c.drop_first());
        lemma_code(a[0]);
        lemma_code(b[0]);
        lemma_code(c[0]);
    } else if a.len() > 0 && b.len() > 0 {
        lemma_before_is_strict(a.drop_first(), b.drop_first(), c);
    }
}

/// Whether definitions are in the order of their identifiers.
pub open spec fn in_order(list: Seq<EffectDefV>) -> bool {
    forall|i: int, j: int|
        0 <= i < j < list.len() ==> !strmap::text_before(
            (#[trigger] list[j]).id,
            (#[trigger] list[i]).id,
        )
}

proof fn lemma_slot(list: Seq<EffectDefV>, id: Seq<char>)
    requires
        in_order(list),
    ensures
        slot(list, id) <= list.len(),
        forall|i: int| 0 <= i < slot(list, id) ==> !strmap::text_before(id, (#[trigger] list[i]).id),
        forall|i: int|
            slot(list, id) <= i < list.len() ==> strmap::text_before(id, (#[trigger] list[i]).id),
    decreases list.len(),
{
    if list.len() > 0 {
        let less = list.drop_last();
        if strmap::text_before(id, list.last().id) {
            assert(in_order(less)) by {
                assert forall|i: int, j: int| 0 <= i < j < less.len() implies !strmap::text_before(
                    (#[trigger] less[j]).id,
                    (#[trigger] less[i]).id,
                ) by {
                    assert(!strmap::text_before(list[j].id, list[i].id));
                }
            }
            lemma_slot(less, id);
            assert forall|i: int| 0 <= i < slot(list, id) implies !strmap::text_before(
                id,
                (#[trigger] list[i]).id,
            ) by {
                assert(less[i] == list[i]);
            }
            assert forall|i: int| slot(list, id) <= i < list.len() implies strmap::text_before(
                id,
                (#[trigger] list[i]).id,
            ) by {
                if i < less.len() {
                    assert(less[i] == list[i]);
                }
            }
        } else {
            assert forall|i: int| 0 <= i < list.len() implies !strmap::text_before(
                id,
                (#[trigger] list[i]).id,
            ) by {
                if i < list.len() - 1 {
                    assert(!strmap::text_before(list[list.len() - 1].id, list[i].id));
                    lemma_before_is_strict(list[i].id, list.last().id, id);
                }
            }
        }
    }
}

/// Sorted packs are in the order of their identifiers, and they are the packs
/// that were given.
pub proof fn law_packs_are_sorted(list: Seq<EffectDefV>)
    ensures
        in_order(by_id(list)),
        by_id(list).to_multiset() == list.to_multiset(),
    decreases list.len(),
{
    broadcast use vstd::seq_lib::group_to_multiset_ensures;

    if list.len() > 0 {
        let less = list.drop_last();
        let d = list.last();
        law_packs_are_sorted(less);
        let before = by_id(less);
        lemma_slot(before, d.id);
        let at = slot(before, d.id) as int;
        let all = before.insert(at, d);
        assert forall|i: int, j: int| 0 <= i < j < all.len() implies !strmap::text_before(
            (#[trigger] all[j]).id,
            (#[trigger] all[i]).id,
        ) by {
            if i != at && j != at {
                let a = if i < at {
                    i
                } else {
                    i - 1
                };
                let b = if j < at {
                    j
                } else {
                    j - 1
                };
                assert(!strmap::text_before(before[b].id, before[a].id));
            } else if j == at {
                assert(!strmap::text_before(d.id, before[i].id));
            } else {
                assert(strmap::text_before(d.id, before[j - 1].id));
                lemma_before_is_strict(d.id, before[j - 1].id, d.id);
            }
        }
        assert(list =~= less.push(d));
        assert(all.to_multiset() =~= before.to_multiset().insert(d));
    }
}

} // verus!
