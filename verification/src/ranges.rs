//! Operations on time ranges of a whole sequence: splitting at their edges,
//! cutting them out, moving them and speeding them up. Locked tracks stay as
//! they are.

use vstd::prelude::*;

use crate::action;
use crate::action::{sort_ranges, Action, ActionV};
use crate::error;
use crate::error::{invalid, not_found, ErrV, UeResult};
use crate::float::Real;
use crate::ident;
use crate::ident::{Id, IdPool};
use crate::laws;
use crate::model::{Clip, ClipPayload, ClipV, PayloadV, Project, ProjectV, Sequence, TrackV};
use crate::ops;
use crate::ops::{carve_range, divide_time, gaps_on, split_all_at, stretch, Part, PlanV, Planner};
use crate::seqs;
use crate::seqs::Duplicate;
use crate::time;
use crate::time::{max2, minus, plus, quantize_to_frame, TimeUs};

verus! {

/// The tracks of a sequence that are not locked.
pub open spec fn open_tracks(tracks: Seq<TrackV>) -> Seq<Id>
    decreases tracks.len(),
{
    if tracks.len() == 0 {
        Seq::<Id>::empty()
    } else if tracks.last().locked {
        open_tracks(tracks.drop_last())
    } else {
        open_tracks(tracks.drop_last()).push(tracks.last().id)
    }
}

fn find_open_tracks(s: &Sequence) -> (r: Vec<Id>)
    ensures
        r@ == open_tracks(s@.tracks),
{
    let mut r: Vec<Id> = Vec::new();
    let ghost all = s@.tracks;
    let mut i: usize = 0;
    assert(all.take(0) =~= Seq::<TrackV>::empty());
    while i < s.tracks.len()
        invariant
            i <= s.tracks.len(),
            all == s@.tracks,
            r@ == open_tracks(all.take(i as int)),
        decreases s.tracks.len() - i,
    {
        proof {
            let t = all.take(i as int + 1);
            assert(t.drop_last() =~= all.take(i as int));
            assert(t.last() == s.tracks@[i as int]@);
        }
        if !s.tracks[i].locked {
            r.push(s.tracks[i].id);
        }
        i = i + 1;
    }
    assert(all.take(i as int) =~= all);
    r
}

/// The ranges on the frame grid, without empty ones.
pub open spec fn on_grid(ranges: Seq<(TimeUs, TimeUs)>, fps: (u32, u32)) -> Seq<(TimeUs, TimeUs)>
    decreases ranges.len(),
{
    if ranges.len() == 0 {
        ranges
    } else {
        let r = on_grid(ranges.drop_last(), fps);
        let a = time::quantized(time::max_time(ranges.last().0, 0), fps);
        let b = time::quantized(ranges.last().1, fps);
        if b > a {
            r.push((a, b))
        } else {
            r
        }
    }
}

fn to_grid(ranges: &Vec<(TimeUs, TimeUs)>, fps: (u32, u32)) -> (r: Vec<(TimeUs, TimeUs)>)
    ensures
        r@ == on_grid(ranges@, fps),
{
    let mut r: Vec<(TimeUs, TimeUs)> = Vec::new();
    let mut i: usize = 0;
    assert(r@ =~= ranges@.take(0));
    while i < ranges.len()
        invariant
            i <= ranges.len(),
            r@ == on_grid(ranges@.take(i as int), fps),
        decreases ranges.len() - i,
    {
        proof {
            assert(ranges@.take(i as int + 1).drop_last() =~= ranges@.take(i as int));
        }
        let a: TimeUs = quantize_to_frame(max2(ranges[i].0, 0), fps);
        let b: TimeUs = quantize_to_frame(ranges[i].1, fps);
        if b > a {
            r.push((a, b));
        }
        i = i + 1;
    }
    assert(ranges@.take(i as int) =~= ranges@);
    r
}

/// The ranges that last.
pub open spec fn lasting_ranges(ranges: Seq<(TimeUs, TimeUs)>) -> Seq<(TimeUs, TimeUs)>
    decreases ranges.len(),
{
    if ranges.len() == 0 {
        ranges
    } else {
        let r = lasting_ranges(ranges.drop_last());
        if ranges.last().1 > ranges.last().0 {
            r.push(ranges.last())
        } else {
            r
        }
    }
}

fn keep_lasting(ranges: &Vec<(TimeUs, TimeUs)>) -> (r: Vec<(TimeUs, TimeUs)>)
    ensures
        r@ == lasting_ranges(ranges@),
{
    let mut r: Vec<(TimeUs, TimeUs)> = Vec::new();
    let mut i: usize = 0;
    assert(r@ =~= ranges@.take(0));
    while i < ranges.len()
        invariant
            i <= ranges.len(),
            r@ == lasting_ranges(ranges@.take(i as int)),
        decreases ranges.len() - i,
    {
        proof {
            assert(ranges@.take(i as int + 1).drop_last() =~= ranges@.take(i as int));
        }
        if ranges[i].1 > ranges[i].0 {
            r.push(ranges[i]);
        }
        i = i + 1;
    }
    assert(ranges@.take(i as int) =~= ranges@);
    r
}

/// Sorted ranges with those that touch made one.
pub open spec fn joined_ranges(ranges: Seq<(TimeUs, TimeUs)>) -> Seq<(TimeUs, TimeUs)>
    decreases ranges.len(),
{
    if ranges.len() == 0 {
        ranges
    } else {
        let m = joined_ranges(ranges.drop_last());
        let r = ranges.last();
        if m.len() > 0 && r.0 <= m.last().1 {
            m.drop_last().push((m.last().0, time::max_time(m.last().1, r.1)))
        } else {
            m.push(r)
        }
    }
}

fn join_ranges(ranges: &Vec<(TimeUs, TimeUs)>) -> (m: Vec<(TimeUs, TimeUs)>)
    ensures
        m@ == joined_ranges(ranges@),
{
    let mut m: Vec<(TimeUs, TimeUs)> = Vec::new();
    let mut i: usize = 0;
    assert(m@ =~= ranges@.take(0));
    while i < ranges.len()
        invariant
            i <= ranges.len(),
            m@ == joined_ranges(ranges@.take(i as int)),
        decreases ranges.len() - i,
    {
        proof {
            assert(ranges@.take(i as int + 1).drop_last() =~= ranges@.take(i as int));
        }
        let r: (TimeUs, TimeUs) = ranges[i];
        let n: usize = m.len();
        if n > 0 && r.0 <= m[n - 1].1 {
            let last: (TimeUs, TimeUs) = m[n - 1];
            let ghost before = m@;
            m.pop();
            m.push((last.0, max2(last.1, r.1)));
        } else {
            m.push(r);
        }
        i = i + 1;
    }
    assert(ranges@.take(i as int) =~= ranges@);
    m
}

// ---- splitting at the edges of ranges ----

/// The plan with all tracks cut at both edges of ranges.
pub open spec fn cut_edges(
    plan: PlanV,
    tids: Seq<Id>,
    ranges: Seq<(TimeUs, TimeUs)>,
    ids: Seq<Id>,
    used: nat,
) -> Part
    decreases ranges.len(),
{
    if ranges.len() == 0 {
        Ok((plan, used))
    } else {
        match cut_both(plan, tids, ranges[0].0, ranges[0].1, ids, used) {
            Err(e) => Err(e),
            Ok(x) => cut_edges(x.0, tids, ranges.drop_first(), ids, x.1),
        }
    }
}

/// The plan with all tracks cut at two times.
#[verifier::opaque]
pub open spec fn cut_both(
    plan: PlanV,
    tids: Seq<Id>,
    from: TimeUs,
    to: TimeUs,
    ids: Seq<Id>,
    used: nat,
) -> Part {
    match ops::cut_tracks(plan, tids, from, ids, used) {
        Err(e) => Err(e),
        Ok(x) => ops::cut_tracks(x.0, tids, to, ids, x.1),
    }
}

fn split_both(plan: &mut Planner, tids: &Vec<Id>, from: TimeUs, to: TimeUs, pool: &mut IdPool) -> (r:
    UeResult<()>)
    requires
        old(pool).wf(),
    ensures
        final(pool).wf(),
        ident::begins(final(pool).ids@, old(pool).ids@),
        forall|ids: Seq<Id>|
            #[trigger] ident::begins(ids, final(pool).ids@) ==> ops::goes(
                r,
                final(plan)@,
                final(pool).used as nat,
                cut_both(old(plan)@, tids@, from, to, ids, old(pool).used as nat),
            ),
        r is Ok ==> forall|p: ProjectV| #[trigger]
            ops::replays(p, old(plan)@) ==> ops::replays(p, final(plan)@),
{
    reveal(cut_both);
    let ghost start = plan@;
    if let Err(e) = split_all_at(plan, tids, from, pool) {
        return Err(e);
    }
    let ghost mid = plan@;
    let ghost before = pool.ids@;
    let r: UeResult<()> = split_all_at(plan, tids, to, pool);
    proof {
        assert forall|ids: Seq<Id>| #[trigger] ident::begins(ids, pool.ids@) implies ident::begins(
            ids,
            before,
        ) by {
            ops::lemma_begins(ids, pool.ids@, before);
        }
        ops::lemma_begins(pool.ids@, before, old(pool).ids@);
        if r is Ok {
            assert forall|p: ProjectV| #[trigger] ops::replays(p, start) implies ops::replays(p, plan@) by {
                assert(ops::replays(p, mid));
            }
        }
    }
    r
}

/// The plan that splits at the edges of ranges, with the identifiers that it
/// takes.
pub open spec fn split_ranges_spec(
    p: ProjectV,
    sequence_id: Id,
    ranges: Seq<(TimeUs, TimeUs)>,
    ids: Seq<Id>,
) -> Result<PlanV, ErrV> {
    if !seqs::holds(p.sequences, sequence_id) {
        Err(error::missing("sequence "@, sequence_id))
    } else {
        let s = p.sequences[seqs::pos(p.sequences, sequence_id) as int];
        match cut_edges(
            ops::start_plan(p),
            open_tracks(s.tracks),
            action::sorted_ranges(on_grid(ranges, s.fps)),
            ids,
            0,
        ) {
            Err(e) => Err(e),
            Ok(x) => Ok(x.0),
        }
    }
}

/// Plans the split of every unlocked track at both edges of each range, with
/// new identifiers from a supply. Nothing is removed.
pub fn split_ranges_with(
    project: &Project,
    sequence_id: Id,
    ranges: &Vec<(TimeUs, TimeUs)>,
    pool: &mut IdPool,
) -> (r: UeResult<Vec<Action>>)
    requires
        old(pool).wf(),
        old(pool).used == 0,
    ensures
        final(pool).wf(),
        ident::begins(final(pool).ids@, old(pool).ids@),
        forall|ids: Seq<Id>|
            #[trigger] ident::begins(ids, final(pool).ids@) ==> ops::plans(
                r,
                split_ranges_spec(project@, sequence_id, ranges@, ids),
            ),
        r is Ok ==> laws::run(project@, seqs::views(r->Ok_0@)) is Ok,
{
    let seq: &Sequence = match project.sequence(sequence_id) {
        Some(s) => s,
        None => {
            return Err(not_found("sequence ", sequence_id));
        },
    };
    let tids: Vec<Id> = find_open_tracks(seq);
    let grid: Vec<(TimeUs, TimeUs)> = to_grid(ranges, seq.fps);
    let rs: Vec<(TimeUs, TimeUs)> = sort_ranges(&grid);
    let mut plan: Planner = Planner::new(project);
    if let Err(e) = split_edges(&mut plan, &tids, &rs, pool) {
        return Err(e);
    }
    Ok(plan.finish())
}

fn split_edges(plan: &mut Planner, tids: &Vec<Id>, rs: &Vec<(TimeUs, TimeUs)>, pool: &mut IdPool) -> (r:
    UeResult<()>)
    requires
        old(pool).wf(),
    ensures
        final(pool).wf(),
        ident::begins(final(pool).ids@, old(pool).ids@),
        forall|ids: Seq<Id>|
            #[trigger] ident::begins(ids, final(pool).ids@) ==> ops::goes(
                r,
                final(plan)@,
                final(pool).used as nat,
                cut_edges(old(plan)@, tids@, rs@, ids, old(pool).used as nat),
            ),
        r is Ok ==> forall|p: ProjectV| #[trigger]
            ops::replays(p, old(plan)@) ==> ops::replays(p, final(plan)@),
{
    let ghost start = plan@;
    let ghost u0 = pool.used as nat;
    let mut i: usize = 0;
    assert(rs@.skip(0) =~= rs@);
    while i < rs.len()
        invariant
            i <= rs.len(),
            pool.wf(),
            ident::begins(pool.ids@, old(pool).ids@),
            start == old(plan)@,
            u0 == old(pool).used as nat,
            forall|p: ProjectV| #[trigger] ops::replays(p, start) ==> ops::replays(p, plan@),
            forall|ids: Seq<Id>|
                #[trigger] ident::begins(ids, pool.ids@) ==> cut_edges(start, tids@, rs@, ids, u0)
                    == cut_edges(plan@, tids@, rs@.skip(i as int), ids, pool.used as nat),
        decreases rs.len() - i,
    {
        proof {
            assert(rs@.skip(i as int)[0] == rs@[i as int]);
            assert(rs@.skip(i as int).drop_first() =~= rs@.skip(i as int + 1));
        }
        let ghost mid = plan@;
        let ghost before = pool.ids@;
        let r: UeResult<()> = split_both(plan, tids, rs[i].0, rs[i].1, pool);
        proof {
            assert forall|ids: Seq<Id>| #[trigger] ident::begins(ids, pool.ids@) implies ident::begins(
                ids,
                before,
            ) by {
                ops::lemma_begins(ids, pool.ids@, before);
            }
            ops::lemma_begins(pool.ids@, before, old(pool).ids@);
        }
        match r {
            Ok(x) => {
                assert forall|p: ProjectV| #[trigger] ops::replays(p, start) implies ops::replays(
                    p,
                    plan@,
                ) by {
                    assert(ops::replays(p, mid));
                }
            },
            Err(e) => {
                return Err(e);
            },
        }
        i = i + 1;
    }
    assert(rs@.skip(i as int) =~= Seq::<(TimeUs, TimeUs)>::empty());
    Ok(())
}

/// Plans the split of every unlocked track at both edges of each range.
/// Nothing is removed.
pub fn split_ranges(project: &Project, sequence_id: Id, ranges: &Vec<(TimeUs, TimeUs)>) -> (r:
    UeResult<Vec<Action>>)
    ensures
        exists|ids: Seq<Id>|
            ops::plans(r, #[trigger] split_ranges_spec(project@, sequence_id, ranges@, ids)),
        r is Ok ==> laws::run(project@, seqs::views(r->Ok_0@)) is Ok,
{
    let mut pool: IdPool = IdPool::new();
    let r: UeResult<Vec<Action>> = split_ranges_with(project, sequence_id, ranges, &mut pool);
    assert(ident::begins(pool.ids@, pool.ids@));
    assert(ops::plans(r, split_ranges_spec(project@, sequence_id, ranges@, pool.ids@)));
    r
}

// ---- cutting out ----

/// The plan with a range freed on tracks.
pub open spec fn carved_tracks(
    plan: PlanV,
    tids: Seq<Id>,
    from: TimeUs,
    to: TimeUs,
    ids: Seq<Id>,
    used: nat,
) -> Part
    decreases tids.len(),
{
    if tids.len() == 0 {
        Ok((plan, used))
    } else {
        match ops::carved(plan, tids[0], from, to, None, ids, used) {
            Err(e) => Err(e),
            Ok(x) => carved_tracks(x.0, tids.drop_first(), from, to, ids, x.1),
        }
    }
}

/// The plan with ranges freed on tracks.
pub open spec fn carved_ranges(
    plan: PlanV,
    tids: Seq<Id>,
    ranges: Seq<(TimeUs, TimeUs)>,
    ids: Seq<Id>,
    used: nat,
) -> Part
    decreases ranges.len(),
{
    if ranges.len() == 0 {
        Ok((plan, used))
    } else {
        match carved_tracks(plan, tids, ranges[0].0, ranges[0].1, ids, used) {
            Err(e) => Err(e),
            Ok(x) => carved_ranges(x.0, tids, ranges.drop_first(), ids, x.1),
        }
    }
}

/// The plan with the gaps on tracks closed that ranges leave.
pub open spec fn rippled(plan: PlanV, tids: Seq<Id>, ranges: Seq<(TimeUs, TimeUs)>) -> Result<
    PlanV,
    ErrV,
>
    decreases tids.len(),
{
    if tids.len() == 0 {
        Ok(plan)
    } else {
        match ops::planned_all(plan, ops::close_gaps(ops::clips_on(plan.proj, tids[0]), ranges)) {
            Err(e) => Err(e),
            Ok(q) => rippled(q, tids.drop_first(), ranges),
        }
    }
}

/// The plan that cuts ranges out of a sequence, with the identifiers that it
/// takes.
pub open spec fn cut_ranges_spec(
    p: ProjectV,
    sequence_id: Id,
    ranges: Seq<(TimeUs, TimeUs)>,
    ripple: bool,
    ids: Seq<Id>,
) -> Result<PlanV, ErrV> {
    if !seqs::holds(p.sequences, sequence_id) {
        Err(error::missing("sequence "@, sequence_id))
    } else {
        let s = p.sequences[seqs::pos(p.sequences, sequence_id) as int];
        let merged = joined_ranges(action::sorted_ranges(on_grid(lasting_ranges(ranges), s.fps)));
        let tids = open_tracks(s.tracks);
        match carved_ranges(ops::start_plan(p), tids, merged, ids, 0) {
            Err(e) => Err(e),
            Ok(x) => if ripple {
                rippled(x.0, tids, merged)
            } else {
                Ok(x.0)
            },
        }
    }
}

#[verifier::spinoff_prover]
fn carve_tracks(plan: &mut Planner, tids: &Vec<Id>, from: TimeUs, to: TimeUs, pool: &mut IdPool) -> (r:
    UeResult<()>)
    requires
        old(pool).wf(),
    ensures
        final(pool).wf(),
        ident::begins(final(pool).ids@, old(pool).ids@),
        forall|ids: Seq<Id>|
            #[trigger] ident::begins(ids, final(pool).ids@) ==> ops::goes(
                r,
                final(plan)@,
                final(pool).used as nat,
                carved_tracks(old(plan)@, tids@, from, to, ids, old(pool).used as nat),
            ),
        r is Ok ==> forall|p: ProjectV| #[trigger]
            ops::replays(p, old(plan)@) ==> ops::replays(p, final(plan)@),
{
    let ghost start = plan@;
    let ghost u0 = pool.used as nat;
    let mut i: usize = 0;
    assert(tids@.skip(0) =~= tids@);
    while i < tids.len()
        invariant
            i <= tids.len(),
            pool.wf(),
            ident::begins(pool.ids@, old(pool).ids@),
            start == old(plan)@,
            u0 == old(pool).used as nat,
            forall|p: ProjectV| #[trigger] ops::replays(p, start) ==> ops::replays(p, plan@),
            forall|ids: Seq<Id>|
                #[trigger] ident::begins(ids, pool.ids@) ==> carved_tracks(start, tids@, from, to, ids, u0)
                    == carved_tracks(
                    plan@,
                    tids@.skip(i as int),
                    from,
                    to,
                    ids,
                    pool.used as nat,
                ),
        decreases tids.len() - i,
    {
        proof {
            assert(tids@.skip(i as int)[0] == tids@[i as int]);
            assert(tids@.skip(i as int).drop_first() =~= tids@.skip(i as int + 1));
        }
        let ghost mid = plan@;
        let ghost before = pool.ids@;
        let r: UeResult<()> = carve_range(plan, tids[i], from, to, None, pool);
        proof {
            assert forall|ids: Seq<Id>| #[trigger] ident::begins(ids, pool.ids@) implies ident::begins(
                ids,
                before,
            ) by {
                ops::lemma_begins(ids, pool.ids@, before);
            }
            ops::lemma_begins(pool.ids@, before, old(pool).ids@);
        }
        match r {
            Ok(x) => {
                assert forall|p: ProjectV| #[trigger] ops::replays(p, start) implies ops::replays(
                    p,
                    plan@,
                ) by {
                    assert(ops::replays(p, mid));
                }
            },
            Err(e) => {
                return Err(e);
            },
        }
        i = i + 1;
    }
    assert(tids@.skip(i as int) =~= Seq::<Id>::empty());
    Ok(())
}

fn carve_ranges(plan: &mut Planner, tids: &Vec<Id>, rs: &Vec<(TimeUs, TimeUs)>, pool: &mut IdPool) -> (r:
    UeResult<()>)
    requires
        old(pool).wf(),
    ensures
        final(pool).wf(),
        ident::begins(final(pool).ids@, old(pool).ids@),
        forall|ids: Seq<Id>|
            #[trigger] ident::begins(ids, final(pool).ids@) ==> ops::goes(
                r,
                final(plan)@,
                final(pool).used as nat,
                carved_ranges(old(plan)@, tids@, rs@, ids, old(pool).used as nat),
            ),
        r is Ok ==> forall|p: ProjectV| #[trigger]
            ops::replays(p, old(plan)@) ==> ops::replays(p, final(plan)@),
{
    let ghost start = plan@;
    let ghost u0 = pool.used as nat;
    let mut i: usize = 0;
    assert(rs@.skip(0) =~= rs@);
    while i < rs.len()
        invariant
            i <= rs.len(),
            pool.wf(),
            ident::begins(pool.ids@, old(pool).ids@),
            start == old(plan)@,
            u0 == old(pool).used as nat,
            forall|p: ProjectV| #[trigger] ops::replays(p, start) ==> ops::replays(p, plan@),
            forall|ids: Seq<Id>|
                #[trigger] ident::begins(ids, pool.ids@) ==> carved_ranges(start, tids@, rs@, ids, u0)
                    == carved_ranges(plan@, tids@, rs@.skip(i as int), ids, pool.used as nat),
        decreases rs.len() - i,
    {
        proof {
            assert(rs@.skip(i as int)[0] == rs@[i as int]);
            assert(rs@.skip(i as int).drop_first() =~= rs@.skip(i as int + 1));
        }
        let ghost mid = plan@;
        let ghost before = pool.ids@;
        let r: UeResult<()> = carve_tracks(plan, tids, rs[i].0, rs[i].1, pool);
        proof {
            assert forall|ids: Seq<Id>| #[trigger] ident::begins(ids, pool.ids@) implies ident::begins(
                ids,
                before,
            ) by {
                ops::lemma_begins(ids, pool.ids@, before);
            }
            ops::lemma_begins(pool.ids@, before, old(pool).ids@);
        }
        match r {
            Ok(x) => {
                assert forall|p: ProjectV| #[trigger] ops::replays(p, start) implies ops::replays(
                    p,
                    plan@,
                ) by {
                    assert(ops::replays(p, mid));
                }
            },
            Err(e) => {
                return Err(e);
            },
        }
        i = i + 1;
    }
    assert(rs@.skip(i as int) =~= Seq::<(TimeUs, TimeUs)>::empty());
    Ok(())
}

#[verifier::spinoff_prover]
fn ripple_tracks(plan: &mut Planner, tids: &Vec<Id>, rs: &Vec<(TimeUs, TimeUs)>) -> (r: UeResult<()>)
    ensures
        match rippled(old(plan)@, tids@, rs@) {
            Ok(q) => r is Ok && final(plan)@ == q,
            Err(e) => r is Err && r->Err_0@ == e,
        },
        r is Ok ==> forall|p: ProjectV| #[trigger]
            ops::replays(p, old(plan)@) ==> ops::replays(p, final(plan)@),
{
    let ghost start = plan@;
    let mut i: usize = 0;
    assert(tids@.skip(0) =~= tids@);
    while i < tids.len()
        invariant
            i <= tids.len(),
            start == old(plan)@,
            forall|p: ProjectV| #[trigger] ops::replays(p, start) ==> ops::replays(p, plan@),
            rippled(start, tids@, rs@) == rippled(plan@, tids@.skip(i as int), rs@),
        decreases tids.len() - i,
    {
        proof {
            assert(tids@.skip(i as int)[0] == tids@[i as int]);
            assert(tids@.skip(i as int).drop_first() =~= tids@.skip(i as int + 1));
        }
        let ghost mid = plan@;
        let list: Vec<Action> = gaps_on(&plan.proj, tids[i], rs);
        match plan.do_all(list) {
            Ok(x) => {
                assert forall|p: ProjectV| #[trigger] ops::replays(p, start) implies ops::replays(
                    p,
                    plan@,
                ) by {
                    assert(ops::replays(p, mid));
                }
            },
            Err(e) => {
                return Err(e);
            },
        }
        i = i + 1;
    }
    assert(tids@.skip(i as int) =~= Seq::<Id>::empty());
    Ok(())
}

/// Plans the removal of time ranges from all unlocked tracks of a sequence,
/// with new identifiers from a supply. With ripple the gaps are closed.
pub fn cut_ranges_with(
    project: &Project,
    sequence_id: Id,
    ranges: &Vec<(TimeUs, TimeUs)>,
    ripple: bool,
    pool: &mut IdPool,
) -> (r: UeResult<Vec<Action>>)
    requires
        old(pool).wf(),
        old(pool).used == 0,
    ensures
        final(pool).wf(),
        ident::begins(final(pool).ids@, old(pool).ids@),
        forall|ids: Seq<Id>|
            #[trigger] ident::begins(ids, final(pool).ids@) ==> ops::plans(
                r,
                cut_ranges_spec(project@, sequence_id, ranges@, ripple, ids),
            ),
        r is Ok ==> laws::run(project@, seqs::views(r->Ok_0@)) is Ok,
{
    let seq: &Sequence = match project.sequence(sequence_id) {
        Some(s) => s,
        None => {
            return Err(not_found("sequence ", sequence_id));
        },
    };
    let kept: Vec<(TimeUs, TimeUs)> = keep_lasting(ranges);
    let grid: Vec<(TimeUs, TimeUs)> = to_grid(&kept, seq.fps);
    let sorted: Vec<(TimeUs, TimeUs)> = sort_ranges(&grid);
    let merged: Vec<(TimeUs, TimeUs)> = join_ranges(&sorted);
    let tids: Vec<Id> = find_open_tracks(seq);
    let mut plan: Planner = Planner::new(project);
    if let Err(e) = carve_ranges(&mut plan, &tids, &merged, pool) {
        return Err(e);
    }
    if ripple {
        if let Err(e) = ripple_tracks(&mut plan, &tids, &merged) {
            return Err(e);
        }
    }
    Ok(plan.finish())
}

/// Plans the removal of time ranges from all unlocked tracks of a sequence.
/// With ripple the gaps are closed.
pub fn cut_ranges(
    project: &Project,
    sequence_id: Id,
    ranges: &Vec<(TimeUs, TimeUs)>,
    ripple: bool,
) -> (r: UeResult<Vec<Action>>)
    ensures
        exists|ids: Seq<Id>|
            ops::plans(r, #[trigger] cut_ranges_spec(project@, sequence_id, ranges@, ripple, ids)),
        r is Ok ==> laws::run(project@, seqs::views(r->Ok_0@)) is Ok,
{
    let mut pool: IdPool = IdPool::new();
    let r: UeResult<Vec<Action>> = cut_ranges_with(project, sequence_id, ranges, ripple, &mut pool);
    assert(ident::begins(pool.ids@, pool.ids@));
    assert(ops::plans(r, cut_ranges_spec(project@, sequence_id, ranges@, ripple, pool.ids@)));
    r
}

// ---- shifting what starts later ----

/// Where a clip lies: its identifier, start and duration.
pub type Span = (Id, TimeUs, TimeUs);

/// The clips that start at a time or later.
pub open spec fn spans_from(clips: Seq<ClipV>, at: TimeUs) -> Seq<Span>
    decreases clips.len(),
{
    if clips.len() == 0 {
        Seq::<Span>::empty()
    } else {
        let r = spans_from(clips.drop_last(), at);
        let c = clips.last();
        if c.start >= at {
            r.push((c.id, c.start, c.duration))
        } else {
            r
        }
    }
}

fn find_spans(clips: &Vec<Clip>, at: TimeUs) -> (r: Vec<Span>)
    ensures
        r@ == spans_from(seqs::views(clips@), at),
{
    let mut r: Vec<Span> = Vec::new();
    let ghost all = seqs::views(clips@);
    let mut i: usize = 0;
    assert(all.take(0) =~= Seq::<ClipV>::empty());
    while i < clips.len()
        invariant
            i <= clips.len(),
            all == seqs::views(clips@),
            r@ == spans_from(all.take(i as int), at),
        decreases clips.len() - i,
    {
        let c: &Clip = &clips[i];
        proof {
            assert(all.take(i as int + 1).drop_last() =~= all.take(i as int));
            assert(all.take(i as int + 1).last() == c@);
        }
        if c.start >= at {
            r.push((c.id, c.start, c.duration));
        }
        i = i + 1;
    }
    assert(all.take(i as int) =~= all);
    r
}

/// Where a start goes in a list by falling start: behind those that are not
/// below it.
pub open spec fn falling_place(spans: Seq<Span>, start: TimeUs) -> nat
    decreases spans.len(),
{
    if spans.len() == 0 || spans[0].1 < start {
        0
    } else {
        1 + falling_place(spans.drop_first(), start)
    }
}

/// Clips by falling start; equal ones stay in order.
pub open spec fn falling(spans: Seq<Span>) -> Seq<Span>
    decreases spans.len(),
{
    if spans.len() == 0 {
        spans
    } else {
        let r = falling(spans.drop_last());
        r.insert(falling_place(r, spans.last().1) as int, spans.last())
    }
}

fn find_falling_place(spans: &Vec<Span>, start: TimeUs) -> (k: usize)
    ensures
        k == falling_place(spans@, start),
        k <= spans.len(),
{
    let mut k: usize = 0;
    assert(spans@.skip(0) =~= spans@);
    while k < spans.len() && spans[k].1 >= start
        invariant
            k <= spans.len(),
            falling_place(spans@, start) == k + falling_place(spans@.skip(k as int), start),
        decreases spans.len() - k,
    {
        assert(spans@.skip(k as int)[0] == spans@[k as int]);
        assert(spans@.skip(k as int).drop_first() =~= spans@.skip(k as int + 1));
        k = k + 1;
    }
    proof {
        if k < spans.len() {
            assert(spans@.skip(k as int)[0] == spans@[k as int]);
        }
    }
    k
}

fn sort_falling(spans: &Vec<Span>) -> (r: Vec<Span>)
    ensures
        r@ == falling(spans@),
{
    let mut r: Vec<Span> = Vec::new();
    let mut i: usize = 0;
    assert(r@ =~= spans@.take(0));
    while i < spans.len()
        invariant
            i <= spans.len(),
            r@ == falling(spans@.take(i as int)),
        decreases spans.len() - i,
    {
        proof {
            assert(spans@.take(i as int + 1).drop_last() =~= spans@.take(i as int));
        }
        let k: usize = find_falling_place(&r, spans[i].1);
        r.insert(k, spans[i]);
        i = i + 1;
    }
    assert(spans@.take(i as int) =~= spans@);
    r
}

/// A shift of all that starts at a time or later: to the left, or to the right
/// from the last clip on.
#[derive(Clone, Copy, PartialEq, Eq, Structural)]
pub enum Shift {
    Left { from: TimeUs, by: TimeUs },
    Right { from: TimeUs, by: TimeUs },
}

/// A clip of a shift.
pub open spec fn shifted_span(x: Span, start: TimeUs) -> ActionV {
    ActionV::SetClipBounds { clip_id: x.0, start, duration: x.2, src_in: None, src_out: None }
}

/// The actions of a shift on one track.
pub open spec fn shift_list(clips: Seq<ClipV>, shift: Shift) -> Seq<ActionV> {
    match shift {
        Shift::Left { from, by } => spans_from(clips, from).map_values(
            |x: Span| shifted_span(x, time::sooner(x.1, by)),
        ),
        Shift::Right { from, by } => falling(spans_from(clips, from)).map_values(
            |x: Span| shifted_span(x, time::later(x.1, by)),
        ),
    }
}

fn shift_actions(clips: &Vec<Clip>, shift: Shift) -> (r: Vec<Action>)
    ensures
        seqs::views(r@) == shift_list(seqs::views(clips@), shift),
{
    let spans: Vec<Span> = match shift {
        Shift::Left { from, .. } => find_spans(clips, from),
        Shift::Right { from, .. } => {
            let found: Vec<Span> = find_spans(clips, from);
            sort_falling(&found)
        },
    };
    let ghost all = shift_list(seqs::views(clips@), shift);
    let mut r: Vec<Action> = Vec::new();
    let mut i: usize = 0;
    while i < spans.len()
        invariant
            i <= spans.len(),
            all.len() == spans.len(),
            all == shift_list(seqs::views(clips@), shift),
            shift matches Shift::Left { from, by } ==> spans@ == spans_from(
                seqs::views(clips@),
                from,
            ),
            shift matches Shift::Right { from, by } ==> spans@ == falling(
                spans_from(seqs::views(clips@), from),
            ),
            r.len() == i,
            forall|k: int| 0 <= k < i ==> (#[trigger] r@[k])@ == all[k],
        decreases spans.len() - i,
    {
        let x: Span = spans[i];
        let start: TimeUs = match shift {
            Shift::Left { by, .. } => minus(x.1, by),
            Shift::Right { by, .. } => plus(x.1, by),
        };
        r.push(
            Action::SetClipBounds {
                clip_id: x.0,
                start,
                duration: x.2,
                src_in: None,
                src_out: None,
            },
        );
        i = i + 1;
    }
    assert(seqs::views(r@) =~= all);
    r
}

/// The plan with a shift done on tracks.
pub open spec fn shifted_tracks(plan: PlanV, tids: Seq<Id>, shift: Shift) -> Result<PlanV, ErrV>
    decreases tids.len(),
{
    if tids.len() == 0 {
        Ok(plan)
    } else {
        match ops::planned_all(plan, shift_list(ops::clips_on(plan.proj, tids[0]), shift)) {
            Err(e) => Err(e),
            Ok(q) => shifted_tracks(q, tids.drop_first(), shift),
        }
    }
}

fn shifts_on(project: &Project, track_id: Id, shift: Shift) -> (r: Vec<Action>)
    ensures
        seqs::views(r@) == shift_list(ops::clips_on(project@, track_id), shift),
{
    match project.track(track_id) {
        Some(t) => shift_actions(&t.clips, shift),
        None => {
            let none: Vec<Clip> = Vec::new();
            assert(seqs::views(none@) =~= Seq::<ClipV>::empty());
            shift_actions(&none, shift)
        },
    }
}

#[verifier::spinoff_prover]
fn shift_tracks(plan: &mut Planner, tids: &Vec<Id>, shift: Shift) -> (r: UeResult<()>)
    ensures
        match shifted_tracks(old(plan)@, tids@, shift) {
            Ok(q) => r is Ok && final(plan)@ == q,
            Err(e) => r is Err && r->Err_0@ == e,
        },
        r is Ok ==> forall|p: ProjectV| #[trigger]
            ops::replays(p, old(plan)@) ==> ops::replays(p, final(plan)@),
{
    let ghost start = plan@;
    let mut i: usize = 0;
    assert(tids@.skip(0) =~= tids@);
    while i < tids.len()
        invariant
            i <= tids.len(),
            start == old(plan)@,
            forall|p: ProjectV| #[trigger] ops::replays(p, start) ==> ops::replays(p, plan@),
            shifted_tracks(start, tids@, shift) == shifted_tracks(
                plan@,
                tids@.skip(i as int),
                shift,
            ),
        decreases tids.len() - i,
    {
        proof {
            assert(tids@.skip(i as int)[0] == tids@[i as int]);
            assert(tids@.skip(i as int).drop_first() =~= tids@.skip(i as int + 1));
        }
        let ghost mid = plan@;
        let list: Vec<Action> = shifts_on(&plan.proj, tids[i], shift);
        match plan.do_all(list) {
            Ok(x) => {
                assert forall|p: ProjectV| #[trigger] ops::replays(p, start) implies ops::replays(
                    p,
                    plan@,
                ) by {
                    assert(ops::replays(p, mid));
                }
            },
            Err(e) => {
                return Err(e);
            },
        }
        i = i + 1;
    }
    assert(tids@.skip(i as int) =~= Seq::<Id>::empty());
    Ok(())
}

// ---- clips inside a range ----

/// The clips that lie inside a range.
pub open spec fn inside_of(clips: Seq<ClipV>, from: TimeUs, to: TimeUs) -> Seq<ClipV>
    decreases clips.len(),
{
    if clips.len() == 0 {
        clips
    } else {
        let r = inside_of(clips.drop_last(), from, to);
        if clips.last().start >= from && clips.last().finish() <= to {
            r.push(clips.last())
        } else {
            r
        }
    }
}

fn find_inside(clips: &Vec<Clip>, from: TimeUs, to: TimeUs) -> (r: Vec<Clip>)
    ensures
        seqs::views(r@) == inside_of(seqs::views(clips@), from, to),
{
    let mut r: Vec<Clip> = Vec::new();
    let ghost all = seqs::views(clips@);
    let mut i: usize = 0;
    assert(seqs::views(r@) =~= all.take(0));
    while i < clips.len()
        invariant
            i <= clips.len(),
            all == seqs::views(clips@),
            seqs::views(r@) == inside_of(all.take(i as int), from, to),
        decreases clips.len() - i,
    {
        let c: &Clip = &clips[i];
        proof {
            assert(all.take(i as int + 1).drop_last() =~= all.take(i as int));
            assert(all.take(i as int + 1).last() == c@);
        }
        if c.start >= from && c.end() <= to {
            let ghost before = r@;
            r.push(c.duplicate());
            assert(seqs::views(r@) =~= seqs::views(before).push(c@));
        }
        i = i + 1;
    }
    assert(all.take(i as int) =~= all);
    r
}

fn inside_on(project: &Project, track_id: Id, from: TimeUs, to: TimeUs) -> (r: Vec<Clip>)
    ensures
        seqs::views(r@) == inside_of(ops::clips_on(project@, track_id), from, to),
{
    match project.track(track_id) {
        Some(t) => find_inside(&t.clips, from, to),
        None => {
            let none: Vec<Clip> = Vec::new();
            assert(seqs::views(none@) =~= Seq::<ClipV>::empty());
            none
        },
    }
}

// ---- speeding up ----

/// The actions that speed up clips of a range.
pub open spec fn speed_list(clips: Seq<ClipV>, from: TimeUs, factor: Real, fps: (u32, u32)) -> Seq<
    ActionV,
>
    decreases clips.len(),
{
    if clips.len() == 0 {
        Seq::<ActionV>::empty()
    } else {
        let r = speed_list(clips.drop_last(), from, factor, fps);
        let c = clips.last();
        match c.payload {
            PayloadV::Media { asset_id, src_in, src_out } => {
                let speed = c.speed.times(factor);
                let duration = ops::stretched(time::sooner(src_out, src_in), speed, fps);
                let at = time::quantized(
                    ops::divided_time(time::sooner(c.start, from), factor),
                    fps,
                );
                r.push(ActionV::SetClipSpeed { clip_id: c.id, speed, duration }).push(
                    ActionV::SetClipBounds {
                        clip_id: c.id,
                        start: time::later(from, at),
                        duration,
                        src_in: None,
                        src_out: None,
                    },
                )
            },
            _ => r,
        }
    }
}

/// The actions that speed a media clip up.
fn speed_pair(
    c: &Clip,
    src_in: TimeUs,
    src_out: TimeUs,
    from: TimeUs,
    factor: Real,
    fps: (u32, u32),
) -> (r: (Action, Action))
    ensures
        ({
            let speed = c@.speed.times(factor);
            let duration = ops::stretched(time::sooner(src_out, src_in), speed, fps);
            let at = time::quantized(
                ops::divided_time(time::sooner(c@.start, from), factor),
                fps,
            );
            &&& r.0@ == (ActionV::SetClipSpeed { clip_id: c@.id, speed, duration })
            &&& r.1@ == (ActionV::SetClipBounds {
                clip_id: c@.id,
                start: time::later(from, at),
                duration,
                src_in: None,
                src_out: None,
            })
        }),
{
    let speed: Real = c.speed.mul(factor);
    let duration: TimeUs = stretch(minus(src_out, src_in), speed, fps);
    let at: TimeUs = quantize_to_frame(divide_time(minus(c.start, from), factor), fps);
    let a: Action = Action::SetClipSpeed { clip_id: c.id, speed, duration };
    let b: Action = Action::SetClipBounds {
        clip_id: c.id,
        start: plus(from, at),
        duration,
        src_in: None,
        src_out: None,
    };
    (a, b)
}

#[verifier::spinoff_prover]
fn speed_actions(clips: &Vec<Clip>, from: TimeUs, factor: Real, fps: (u32, u32)) -> (r: Vec<Action>)
    ensures
        seqs::views(r@) == speed_list(seqs::views(clips@), from, factor, fps),
{
    let mut r: Vec<Action> = Vec::new();
    let ghost all = seqs::views(clips@);
    let mut i: usize = 0;
    assert(seqs::views(r@) =~= Seq::<ActionV>::empty());
    assert(all.take(0) =~= Seq::<ClipV>::empty());
    while i < clips.len()
        invariant
            i <= clips.len(),
            all == seqs::views(clips@),
            seqs::views(r@) == speed_list(all.take(i as int), from, factor, fps),
        decreases clips.len() - i,
    {
        let c: &Clip = &clips[i];
        proof {
            assert(all.take(i as int + 1).drop_last() =~= all.take(i as int));
            assert(all.take(i as int + 1).last() == c@);
        }
        if let ClipPayload::Media { src_in, src_out, .. } = &c.payload {
            let (a, b): (Action, Action) = speed_pair(c, *src_in, *src_out, from, factor, fps);
            let ghost before = r@;
            let ghost av = a@;
            let ghost bv = b@;
            r.push(a);
            r.push(b);
            assert(seqs::views(r@) =~= seqs::views(before).push(av).push(bv));
        }
        i = i + 1;
    }
    assert(all.take(i as int) =~= all);
    r
}

/// A list of clips holds a media clip.
pub open spec fn any_media(clips: Seq<ClipV>) -> bool {
    exists|i: int| 0 <= i < clips.len() && (#[trigger] clips[i]).payload is Media
}

fn has_media(clips: &Vec<Clip>) -> (b: bool)
    ensures
        b == any_media(seqs::views(clips@)),
{
    let mut i: usize = 0;
    while i < clips.len()
        invariant
            i <= clips.len(),
            forall|k: int|
                0 <= k < i ==> !((#[trigger] seqs::views(clips@)[k]).payload is Media),
        decreases clips.len() - i,
    {
        assert(seqs::views(clips@)[i as int] == clips@[i as int]@);
        if let ClipPayload::Media { .. } = &clips[i].payload {
            return true;
        }
        i = i + 1;
    }
    false
}

/// The plan with the clips of a range sped up on tracks, and whether there was
/// one.
pub open spec fn sped_tracks(
    plan: PlanV,
    tids: Seq<Id>,
    from: TimeUs,
    to: TimeUs,
    factor: Real,
    fps: (u32, u32),
    found: bool,
) -> Result<(PlanV, bool), ErrV>
    decreases tids.len(),
{
    if tids.len() == 0 {
        Ok((plan, found))
    } else {
        let inside = inside_of(ops::clips_on(plan.proj, tids[0]), from, to);
        match ops::planned_all(plan, speed_list(inside, from, factor, fps)) {
            Err(e) => Err(e),
            Ok(q) => sped_tracks(
                q,
                tids.drop_first(),
                from,
                to,
                factor,
                fps,
                found || any_media(inside),
            ),
        }
    }
}

#[verifier::spinoff_prover]
fn speed_tracks(
    plan: &mut Planner,
    tids: &Vec<Id>,
    from: TimeUs,
    to: TimeUs,
    factor: Real,
    fps: (u32, u32),
) -> (r: UeResult<bool>)
    ensures
        match sped_tracks(old(plan)@, tids@, from, to, factor, fps, false) {
            Ok(q) => r is Ok && final(plan)@ == q.0 && r->Ok_0 == q.1,
            Err(e) => r is Err && r->Err_0@ == e,
        },
        r is Ok ==> forall|p: ProjectV| #[trigger]
            ops::replays(p, old(plan)@) ==> ops::replays(p, final(plan)@),
{
    let ghost start = plan@;
    let mut found: bool = false;
    let mut i: usize = 0;
    assert(tids@.skip(0) =~= tids@);
    while i < tids.len()
        invariant
            i <= tids.len(),
            start == old(plan)@,
            forall|p: ProjectV| #[trigger] ops::replays(p, start) ==> ops::replays(p, plan@),
            sped_tracks(start, tids@, from, to, factor, fps, false) == sped_tracks(
                plan@,
                tids@.skip(i as int),
                from,
                to,
                factor,
                fps,
                found,
            ),
        decreases tids.len() - i,
    {
        proof {
            assert(tids@.skip(i as int)[0] == tids@[i as int]);
            assert(tids@.skip(i as int).drop_first() =~= tids@.skip(i as int + 1));
        }
        let ghost mid = plan@;
        let inside: Vec<Clip> = inside_on(&plan.proj, tids[i], from, to);
        let list: Vec<Action> = speed_actions(&inside, from, factor, fps);
        match plan.do_all(list) {
            Ok(x) => {
                assert forall|p: ProjectV| #[trigger] ops::replays(p, start) implies ops::replays(
                    p,
                    plan@,
                ) by {
                    assert(ops::replays(p, mid));
                }
            },
            Err(e) => {
                return Err(e);
            },
        }
        found = found || has_media(&inside);
        i = i + 1;
    }
    assert(tids@.skip(i as int) =~= Seq::<Id>::empty());
    Ok(found)
}

/// By how much a range gets shorter at a factor.
pub open spec fn saved(from: TimeUs, to: TimeUs, factor: Real, fps: (u32, u32)) -> TimeUs {
    let length = time::sooner(to, from);
    time::max_time(0, time::sooner(length, time::quantized(ops::divided_time(length, factor), fps)))
}

/// The plan with one range sped up.
#[verifier::opaque]
pub open spec fn sped_range(
    plan: PlanV,
    tids: Seq<Id>,
    from: TimeUs,
    to: TimeUs,
    factor: Real,
    fps: (u32, u32),
    ids: Seq<Id>,
    used: nat,
) -> Part {
    match cut_both(plan, tids, from, to, ids, used) {
        Err(e) => Err(e),
        Ok(x) => match sped_tracks(x.0, tids, from, to, factor, fps, false) {
            Err(e) => Err(e),
            Ok(y) => if y.1 && saved(from, to, factor, fps) > 0 {
                match shifted_tracks(
                    y.0,
                    tids,
                    (Shift::Left { from: to, by: saved(from, to, factor, fps) }),
                ) {
                    Err(e) => Err(e),
                    Ok(z) => Ok((z, x.1)),
                }
            } else {
                Ok((y.0, x.1))
            },
        },
    }
}

/// The plan with ranges sped up one after the other.
pub open spec fn sped_ranges(
    plan: PlanV,
    tids: Seq<Id>,
    ranges: Seq<(TimeUs, TimeUs)>,
    factor: Real,
    fps: (u32, u32),
    ids: Seq<Id>,
    used: nat,
) -> Part
    decreases ranges.len(),
{
    if ranges.len() == 0 {
        Ok((plan, used))
    } else {
        match sped_range(plan, tids, ranges.last().0, ranges.last().1, factor, fps, ids, used) {
            Err(e) => Err(e),
            Ok(x) => sped_ranges(x.0, tids, ranges.drop_last(), factor, fps, ids, x.1),
        }
    }
}

fn speed_range(
    plan: &mut Planner,
    tids: &Vec<Id>,
    from: TimeUs,
    to: TimeUs,
    factor: Real,
    fps: (u32, u32),
    pool: &mut IdPool,
) -> (r: UeResult<()>)
    requires
        old(pool).wf(),
    ensures
        final(pool).wf(),
        ident::begins(final(pool).ids@, old(pool).ids@),
        forall|ids: Seq<Id>|
            #[trigger] ident::begins(ids, final(pool).ids@) ==> ops::goes(
                r,
                final(plan)@,
                final(pool).used as nat,
                sped_range(old(plan)@, tids@, from, to, factor, fps, ids, old(pool).used as nat),
            ),
        r is Ok ==> forall|p: ProjectV| #[trigger]
            ops::replays(p, old(plan)@) ==> ops::replays(p, final(plan)@),
{
    reveal(sped_range);
    if let Err(e) = split_both(plan, tids, from, to, pool) {
        return Err(e);
    }
    let ghost one = plan@;
    let found: bool = match speed_tracks(plan, tids, from, to, factor, fps) {
        Ok(b) => b,
        Err(e) => {
            return Err(e);
        },
    };
    let ghost two = plan@;
    proof {
        assert forall|p: ProjectV| #[trigger] ops::replays(p, old(plan)@) implies ops::replays(
            p,
            plan@,
        ) by {
            assert(ops::replays(p, one));
        }
    }
    let length: TimeUs = minus(to, from);
    let by: TimeUs = max2(0, minus(length, quantize_to_frame(divide_time(length, factor), fps)));
    if found && by > 0 {
        if let Err(e) = shift_tracks(plan, tids, Shift::Left { from: to, by }) {
            return Err(e);
        }
        proof {
            assert forall|p: ProjectV| #[trigger] ops::replays(p, old(plan)@) implies ops::replays(
                p,
                plan@,
            ) by {
                assert(ops::replays(p, two));
            }
        }
    }
    Ok(())
}

fn speed_ranges(
    plan: &mut Planner,
    tids: &Vec<Id>,
    rs: &Vec<(TimeUs, TimeUs)>,
    factor: Real,
    fps: (u32, u32),
    pool: &mut IdPool,
) -> (r: UeResult<()>)
    requires
        old(pool).wf(),
    ensures
        final(pool).wf(),
        ident::begins(final(pool).ids@, old(pool).ids@),
        forall|ids: Seq<Id>|
            #[trigger] ident::begins(ids, final(pool).ids@) ==> ops::goes(
                r,
                final(plan)@,
                final(pool).used as nat,
                sped_ranges(old(plan)@, tids@, rs@, factor, fps, ids, old(pool).used as nat),
            ),
        r is Ok ==> forall|p: ProjectV| #[trigger]
            ops::replays(p, old(plan)@) ==> ops::replays(p, final(plan)@),
{
    let ghost start = plan@;
    let ghost u0 = pool.used as nat;
    let mut i: usize = rs.len();
    assert(rs@.take(i as int) =~= rs@);
    while i > 0
        invariant
            i <= rs.len(),
            pool.wf(),
            ident::begins(pool.ids@, old(pool).ids@),
            start == old(plan)@,
            u0 == old(pool).used as nat,
            forall|p: ProjectV| #[trigger] ops::replays(p, start) ==> ops::replays(p, plan@),
            forall|ids: Seq<Id>|
                #[trigger] ident::begins(ids, pool.ids@) ==> sped_ranges(
                    start,
                    tids@,
                    rs@,
                    factor,
                    fps,
                    ids,
                    u0,
                ) == sped_ranges(
                    plan@,
                    tids@,
                    rs@.take(i as int),
                    factor,
                    fps,
                    ids,
                    pool.used as nat,
                ),
        decreases i,
    {
        i = i - 1;
        proof {
            assert(rs@.take(i as int + 1).last() == rs@[i as int]);
            assert(rs@.take(i as int + 1).drop_last() =~= rs@.take(i as int));
        }
        let ghost mid = plan@;
        let ghost before = pool.ids@;
        let r: UeResult<()> = speed_range(plan, tids, rs[i].0, rs[i].1, factor, fps, pool);
        proof {
            assert forall|ids: Seq<Id>| #[trigger] ident::begins(ids, pool.ids@) implies ident::begins(
                ids,
                before,
            ) by {
                ops::lemma_begins(ids, pool.ids@, before);
            }
            ops::lemma_begins(pool.ids@, before, old(pool).ids@);
        }
        match r {
            Ok(x) => {
                assert forall|p: ProjectV| #[trigger] ops::replays(p, start) implies ops::replays(
                    p,
                    plan@,
                ) by {
                    assert(ops::replays(p, mid));
                }
            },
            Err(e) => {
                return Err(e);
            },
        }
    }
    assert(rs@.take(0) =~= Seq::<(TimeUs, TimeUs)>::empty());
    Ok(())
}

/// The plan that speeds ranges up, from the last to the first, with the
/// identifiers that it takes.
pub open spec fn speedup_spec(
    p: ProjectV,
    sequence_id: Id,
    ranges: Seq<(TimeUs, TimeUs)>,
    factor: Real,
    ids: Seq<Id>,
) -> Result<PlanV, ErrV> {
    if factor.at_most(Real::of(1)) {
        Err(ErrV::Invalid("the speedup factor must be > 1"@))
    } else if !seqs::holds(p.sequences, sequence_id) {
        Err(error::missing("sequence "@, sequence_id))
    } else {
        let s = p.sequences[seqs::pos(p.sequences, sequence_id) as int];
        match sped_ranges(
            ops::start_plan(p),
            open_tracks(s.tracks),
            action::sorted_ranges(on_grid(ranges, s.fps)),
            factor,
            s.fps,
            ids,
            0,
        ) {
            Err(e) => Err(e),
            Ok(x) => Ok(x.0),
        }
    }
}

/// Plans a speedup of what lies in time ranges of a sequence, with new
/// identifiers from a supply: the ranges get shorter and what follows moves up.
pub fn speedup_ranges_with(
    project: &Project,
    sequence_id: Id,
    ranges: &Vec<(TimeUs, TimeUs)>,
    factor: Real,
    pool: &mut IdPool,
) -> (r: UeResult<Vec<Action>>)
    requires
        old(pool).wf(),
        old(pool).used == 0,
    ensures
        final(pool).wf(),
        ident::begins(final(pool).ids@, old(pool).ids@),
        forall|ids: Seq<Id>|
            #[trigger] ident::begins(ids, final(pool).ids@) ==> ops::plans(
                r,
                speedup_spec(project@, sequence_id, ranges@, factor, ids),
            ),
        r is Ok ==> laws::run(project@, seqs::views(r->Ok_0@)) is Ok,
{
    if factor.le(Real::from_int(1)) {
        return Err(invalid("the speedup factor must be > 1"));
    }
    let seq: &Sequence = match project.sequence(sequence_id) {
        Some(s) => s,
        None => {
            return Err(not_found("sequence ", sequence_id));
        },
    };
    let tids: Vec<Id> = find_open_tracks(seq);
    let grid: Vec<(TimeUs, TimeUs)> = to_grid(ranges, seq.fps);
    let rs: Vec<(TimeUs, TimeUs)> = sort_ranges(&grid);
    let mut plan: Planner = Planner::new(project);
    if let Err(e) = speed_ranges(&mut plan, &tids, &rs, factor, seq.fps, pool) {
        return Err(e);
    }
    Ok(plan.finish())
}

/// Plans a speedup of what lies in time ranges of a sequence: the ranges get
/// shorter and what follows moves up.
pub fn speedup_ranges(
    project: &Project,
    sequence_id: Id,
    ranges: &Vec<(TimeUs, TimeUs)>,
    factor: Real,
) -> (r: UeResult<Vec<Action>>)
    ensures
        exists|ids: Seq<Id>|
            ops::plans(r, #[trigger] speedup_spec(project@, sequence_id, ranges@, factor, ids)),
        r is Ok ==> laws::run(project@, seqs::views(r->Ok_0@)) is Ok,
{
    let mut pool: IdPool = IdPool::new();
    let r: UeResult<Vec<Action>> = speedup_ranges_with(
        project,
        sequence_id,
        ranges,
        factor,
        &mut pool,
    );
    assert(ident::begins(pool.ids@, pool.ids@));
    assert(ops::plans(r, speedup_spec(project@, sequence_id, ranges@, factor, pool.ids@)));
    r
}

// ---- moving ----

/// Clips with the track that they were taken from.
pub type Taken = Seq<(Id, ClipV)>;

/// The contents of taken clips.
pub open spec fn taken_view(v: Seq<(Id, Clip)>) -> Taken {
    v.map_values(|x: (Id, Clip)| (x.0, x.1@))
}

/// Clips as taken from a track.
pub open spec fn from_track(track_id: Id, clips: Seq<ClipV>) -> Taken {
    clips.map_values(|c: ClipV| (track_id, c))
}

/// The removals of clips.
pub open spec fn remove_list(clips: Seq<ClipV>) -> Seq<ActionV> {
    clips.map_values(|c: ClipV| ActionV::RemoveClip { clip_id: c.id })
}

fn remove_actions(clips: &Vec<Clip>) -> (r: Vec<Action>)
    ensures
        seqs::views(r@) == remove_list(seqs::views(clips@)),
{
    let mut r: Vec<Action> = Vec::new();
    let ghost all = remove_list(seqs::views(clips@));
    let mut i: usize = 0;
    while i < clips.len()
        invariant
            i <= clips.len(),
            all == remove_list(seqs::views(clips@)),
            r.len() == i,
            forall|k: int| 0 <= k < i ==> (#[trigger] r@[k])@ == all[k],
        decreases clips.len() - i,
    {
        assert(all[i as int] == (ActionV::RemoveClip { clip_id: clips@[i as int].id }));
        r.push(Action::RemoveClip { clip_id: clips[i].id });
        i = i + 1;
    }
    assert(seqs::views(r@) =~= all);
    r
}

/// The plan with the clips of a range taken off tracks, and those clips.
pub open spec fn taken_off(plan: PlanV, tids: Seq<Id>, from: TimeUs, to: TimeUs, taken: Taken) -> Result<
    (PlanV, Taken),
    ErrV,
>
    decreases tids.len(),
{
    if tids.len() == 0 {
        Ok((plan, taken))
    } else {
        let inside = inside_of(ops::clips_on(plan.proj, tids[0]), from, to);
        match ops::planned_all(plan, remove_list(inside)) {
            Err(e) => Err(e),
            Ok(q) => taken_off(
                q,
                tids.drop_first(),
                from,
                to,
                taken + from_track(tids[0], inside),
            ),
        }
    }
}

fn add_taken(taken: &mut Vec<(Id, Clip)>, track_id: Id, clips: Vec<Clip>)
    ensures
        taken_view(final(taken)@) == taken_view(old(taken)@) + from_track(
            track_id,
            seqs::views(clips@),
        ),
{
    let ghost before = taken@;
    let mut i: usize = 0;
    assert(taken_view(taken@) =~= taken_view(before) + from_track(
        track_id,
        seqs::views(clips@),
    ).take(0));
    while i < clips.len()
        invariant
            i <= clips.len(),
            taken_view(taken@) == taken_view(before) + from_track(
                track_id,
                seqs::views(clips@),
            ).take(i as int),
        decreases clips.len() - i,
    {
        let ghost had = taken@;
        taken.push((track_id, clips[i].duplicate()));
        assert(taken_view(taken@) =~= taken_view(had).push((track_id, clips@[i as int]@)));
        assert(taken_view(taken@) =~= taken_view(before) + from_track(
            track_id,
            seqs::views(clips@),
        ).take(i as int + 1));
        i = i + 1;
    }
    assert(from_track(track_id, seqs::views(clips@)).take(i as int) =~= from_track(
        track_id,
        seqs::views(clips@),
    ));
}

#[verifier::spinoff_prover]
fn take_tracks(plan: &mut Planner, tids: &Vec<Id>, from: TimeUs, to: TimeUs) -> (r: UeResult<
    Vec<(Id, Clip)>,
>)
    ensures
        match taken_off(old(plan)@, tids@, from, to, Seq::<(Id, ClipV)>::empty()) {
            Ok(q) => r is Ok && final(plan)@ == q.0 && taken_view(r->Ok_0@) == q.1,
            Err(e) => r is Err && r->Err_0@ == e,
        },
        r is Ok ==> forall|p: ProjectV| #[trigger]
            ops::replays(p, old(plan)@) ==> ops::replays(p, final(plan)@),
{
    let ghost start = plan@;
    let mut taken: Vec<(Id, Clip)> = Vec::new();
    let mut i: usize = 0;
    assert(tids@.skip(0) =~= tids@);
    assert(taken_view(taken@) =~= Seq::<(Id, ClipV)>::empty());
    while i < tids.len()
        invariant
            i <= tids.len(),
            start == old(plan)@,
            forall|p: ProjectV| #[trigger] ops::replays(p, start) ==> ops::replays(p, plan@),
            taken_off(start, tids@, from, to, Seq::<(Id, ClipV)>::empty()) == taken_off(
                plan@,
                tids@.skip(i as int),
                from,
                to,
                taken_view(taken@),
            ),
        decreases tids.len() - i,
    {
        proof {
            assert(tids@.skip(i as int)[0] == tids@[i as int]);
            assert(tids@.skip(i as int).drop_first() =~= tids@.skip(i as int + 1));
        }
        let ghost mid = plan@;
        let inside: Vec<Clip> = inside_on(&plan.proj, tids[i], from, to);
        let list: Vec<Action> = remove_actions(&inside);
        match plan.do_all(list) {
            Ok(x) => {
                assert forall|p: ProjectV| #[trigger] ops::replays(p, start) implies ops::replays(
                    p,
                    plan@,
                ) by {
                    assert(ops::replays(p, mid));
                }
            },
            Err(e) => {
                return Err(e);
            },
        }
        add_taken(&mut taken, tids[i], inside);
        i = i + 1;
    }
    assert(tids@.skip(i as int) =~= Seq::<Id>::empty());
    Ok(taken)
}

/// The insertion of a taken clip as far behind a time as it was behind another.
pub open spec fn put_back(x: (Id, ClipV), from: TimeUs, dest: TimeUs) -> ActionV {
    ActionV::InsertClip {
        track_id: x.0,
        clip: ClipV { start: time::later(dest, time::sooner(x.1.start, from)), ..x.1 },
    }
}

/// The insertions of taken clips.
pub open spec fn put_list(taken: Taken, from: TimeUs, dest: TimeUs) -> Seq<ActionV> {
    taken.map_values(|x: (Id, ClipV)| put_back(x, from, dest))
}

fn put_actions(taken: &Vec<(Id, Clip)>, from: TimeUs, dest: TimeUs) -> (r: Vec<Action>)
    ensures
        seqs::views(r@) == put_list(taken_view(taken@), from, dest),
{
    let mut r: Vec<Action> = Vec::new();
    let ghost all = put_list(taken_view(taken@), from, dest);
    let mut i: usize = 0;
    while i < taken.len()
        invariant
            i <= taken.len(),
            all == put_list(taken_view(taken@), from, dest),
            r.len() == i,
            forall|k: int| 0 <= k < i ==> (#[trigger] r@[k])@ == all[k],
        decreases taken.len() - i,
    {
        let mut clip: Clip = taken[i].1.duplicate();
        let start: TimeUs = plus(dest, minus(clip.start, from));
        clip.start = start;
        assert(all[i as int] == put_back((taken@[i as int].0, taken@[i as int].1@), from, dest));
        let a: Action = Action::InsertClip { track_id: taken[i].0, clip };
        assert(a@ == all[i as int]);
        r.push(a);
        i = i + 1;
    }
    assert(seqs::views(r@) =~= all);
    r
}

/// The plan that moves a range whose edges are cut: out, the gap closed, a gap
/// opened, in.
#[verifier::opaque]
pub open spec fn moved_range(plan: PlanV, tids: Seq<Id>, from: TimeUs, to: TimeUs, dest: TimeUs) -> Result<
    PlanV,
    ErrV,
> {
    let length = time::sooner(to, from);
    let at = if dest >= to {
        time::sooner(dest, length)
    } else {
        dest
    };
    match taken_off(plan, tids, from, to, Seq::<(Id, ClipV)>::empty()) {
        Err(e) => Err(e),
        Ok(x) => match shifted_tracks(x.0, tids, (Shift::Left { from: to, by: length })) {
            Err(e) => Err(e),
            Ok(y) => match shifted_tracks(y, tids, (Shift::Right { from: at, by: length })) {
                Err(e) => Err(e),
                Ok(z) => ops::planned_all(z, put_list(x.1, from, at)),
            },
        },
    }
}

fn move_between(plan: &mut Planner, tids: &Vec<Id>, from: TimeUs, to: TimeUs, dest: TimeUs) -> (r:
    UeResult<()>)
    ensures
        match moved_range(old(plan)@, tids@, from, to, dest) {
            Ok(q) => r is Ok && final(plan)@ == q,
            Err(e) => r is Err && r->Err_0@ == e,
        },
        r is Ok ==> forall|p: ProjectV| #[trigger]
            ops::replays(p, old(plan)@) ==> ops::replays(p, final(plan)@),
{
    reveal(moved_range);
    let length: TimeUs = minus(to, from);
    let at: TimeUs = if dest >= to {
        minus(dest, length)
    } else {
        dest
    };
    let taken: Vec<(Id, Clip)> = match take_tracks(plan, tids, from, to) {
        Ok(t) => t,
        Err(e) => {
            return Err(e);
        },
    };
    let ghost one = plan@;
    if let Err(e) = shift_tracks(plan, tids, Shift::Left { from: to, by: length }) {
        return Err(e);
    }
    let ghost two = plan@;
    if let Err(e) = shift_tracks(plan, tids, Shift::Right { from: at, by: length }) {
        return Err(e);
    }
    let ghost three = plan@;
    let list: Vec<Action> = put_actions(&taken, from, at);
    if let Err(e) = plan.do_all(list) {
        return Err(e);
    }
    proof {
        assert forall|p: ProjectV| #[trigger] ops::replays(p, old(plan)@) implies ops::replays(
            p,
            plan@,
        ) by {
            assert(ops::replays(p, one));
            assert(ops::replays(p, two));
            assert(ops::replays(p, three));
        }
    }
    Ok(())
}

/// The plan that moves a range of a sequence, with the identifiers that it
/// takes.
pub open spec fn move_range_spec(
    p: ProjectV,
    sequence_id: Id,
    from: TimeUs,
    to: TimeUs,
    dest: TimeUs,
    ids: Seq<Id>,
) -> Result<PlanV, ErrV> {
    if !seqs::holds(p.sequences, sequence_id) {
        Err(error::missing("sequence "@, sequence_id))
    } else {
        let s = p.sequences[seqs::pos(p.sequences, sequence_id) as int];
        let a = time::quantized(time::max_time(from, 0), s.fps);
        let b = time::quantized(to, s.fps);
        let d = time::quantized(time::max_time(dest, 0), s.fps);
        if b <= a {
            Err(ErrV::Invalid("empty range"@))
        } else if d > a && d < b {
            Err(ErrV::Invalid("the destination cannot fall inside the range"@))
        } else {
            let tids = open_tracks(s.tracks);
            match cut_both(ops::start_plan(p), tids, a, b, ids, 0) {
                Err(e) => Err(e),
                Ok(x) => match ops::cut_tracks(x.0, tids, d, ids, x.1) {
                    Err(e) => Err(e),
                    Ok(y) => moved_range(y.0, tids, a, b, d),
                },
            }
        }
    }
}

/// Plans the move of a time range of a sequence to another time, with new
/// identifiers from a supply: what follows the range moves up, and what
/// follows the destination makes room.
pub fn move_range_with(
    project: &Project,
    sequence_id: Id,
    from: TimeUs,
    to: TimeUs,
    dest: TimeUs,
    pool: &mut IdPool,
) -> (r: UeResult<Vec<Action>>)
    requires
        old(pool).wf(),
        old(pool).used == 0,
    ensures
        final(pool).wf(),
        ident::begins(final(pool).ids@, old(pool).ids@),
        forall|ids: Seq<Id>|
            #[trigger] ident::begins(ids, final(pool).ids@) ==> ops::plans(
                r,
                move_range_spec(project@, sequence_id, from, to, dest, ids),
            ),
        r is Ok ==> laws::run(project@, seqs::views(r->Ok_0@)) is Ok,
{
    let seq: &Sequence = match project.sequence(sequence_id) {
        Some(s) => s,
        None => {
            return Err(not_found("sequence ", sequence_id));
        },
    };
    let a: TimeUs = quantize_to_frame(max2(from, 0), seq.fps);
    let b: TimeUs = quantize_to_frame(to, seq.fps);
    let d: TimeUs = quantize_to_frame(max2(dest, 0), seq.fps);
    if b <= a {
        return Err(invalid("empty range"));
    }
    if d > a && d < b {
        return Err(invalid("the destination cannot fall inside the range"));
    }
    let tids: Vec<Id> = find_open_tracks(seq);
    let mut plan: Planner = Planner::new(project);
    let ghost zero = plan@;
    if let Err(e) = split_both(&mut plan, &tids, a, b, pool) {
        return Err(e);
    }
    let ghost one = plan@;
    let ghost before = pool.ids@;
    let r: UeResult<()> = split_all_at(&mut plan, &tids, d, pool);
    proof {
        assert forall|ids: Seq<Id>| #[trigger] ident::begins(ids, pool.ids@) implies ident::begins(
            ids,
            before,
        ) by {
            ops::lemma_begins(ids, pool.ids@, before);
        }
        ops::lemma_begins(pool.ids@, before, old(pool).ids@);
    }
    if let Err(e) = r {
        return Err(e);
    }
    let ghost two = plan@;
    if let Err(e) = move_between(&mut plan, &tids, a, b, d) {
        return Err(e);
    }
    proof {
        assert(ops::replays(project@, zero));
        assert(ops::replays(project@, one));
        assert(ops::replays(project@, two));
    }
    Ok(plan.finish())
}

/// Plans the move of a time range of a sequence to another time: what follows
/// the range moves up, and what follows the destination makes room.
pub fn move_range(project: &Project, sequence_id: Id, from: TimeUs, to: TimeUs, dest: TimeUs) -> (r:
    UeResult<Vec<Action>>)
    ensures
        exists|ids: Seq<Id>|
            ops::plans(
                r,
                #[trigger] move_range_spec(project@, sequence_id, from, to, dest, ids),
            ),
        r is Ok ==> laws::run(project@, seqs::views(r->Ok_0@)) is Ok,
{
    let mut pool: IdPool = IdPool::new();
    let r: UeResult<Vec<Action>> = move_range_with(project, sequence_id, from, to, dest, &mut pool);
    assert(ident::begins(pool.ids@, pool.ids@));
    assert(ops::plans(r, move_range_spec(project@, sequence_id, from, to, dest, pool.ids@)));
    r
}

} // verus!
