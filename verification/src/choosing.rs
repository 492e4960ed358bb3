//! Which clips an operation is about, and where it moves them.

use vstd::prelude::*;

use crate::action::ActionV;
use crate::ident::Id;
use crate::laws;
use crate::model;
use crate::model::{ClipV, ProjectV, SequenceV, TrackV};
use crate::ops;
use crate::ranges;
use crate::ranges::{Shift, Span};
use crate::time;
use crate::time::TimeUs;

verus! {

/// The clips inside a range are those that neither start before it nor end after
/// it, and what has to make way for a range is every clip that shares an instant
/// with it, but for one that is left out.
pub proof fn law_chosen_by_range(clips: Seq<ClipV>, from: TimeUs, to: TimeUs, exclude: Option<Id>)
    ensures
        ranges::inside_of(clips, from, to) == clips.filter(
            |c: ClipV| from <= c.start && c.finish() <= to,
        ),
        ops::victims_of(clips, from, to, exclude) == clips.filter(
            |c: ClipV| Some(c.id) != exclude && c.start < to && from < c.finish(),
        ),
    decreases clips.len(),
{
    reveal(Seq::filter);
    if clips.len() > 0 {
        law_chosen_by_range(clips.drop_last(), from, to, exclude);
    }
}

/// The clip that is cut at a time is the first that the time falls into, not at its
/// edge.
pub proof fn law_crossed_clip(clips: Seq<ClipV>, t: TimeUs)
    ensures
        match ops::crossing_in(clips, t) {
            Some(c) => exists|i: int|
                0 <= i < clips.len() && #[trigger] clips[i] == c && c.start < t < c.finish()
                    && forall|j: int|
                    0 <= j < i ==> !((#[trigger] clips[j]).start < t < clips[j].finish()),
            None => forall|j: int|
                0 <= j < clips.len() ==> !((#[trigger] clips[j]).start < t < clips[j].finish()),
        },
    decreases clips.len(),
{
    if clips.len() > 0 {
        let rest = clips.drop_first();
        law_crossed_clip(rest, t);
        assert forall|j: int| 0 < j < clips.len() implies #[trigger] clips[j] == rest[j - 1] by {}
        if clips[0].start < t < clips[0].finish() {
            assert(clips[0] == clips[0]);
        } else if let Some(c) = ops::crossing_in(rest, t) {
            let i = choose|i: int|
                0 <= i < rest.len() && #[trigger] rest[i] == c && c.start < t < c.finish()
                    && forall|j: int|
                    0 <= j < i ==> !((#[trigger] rest[j]).start < t < rest[j].finish());
            assert(clips[i + 1] == c);
            assert forall|j: int| 0 <= j < i + 1 implies !((#[trigger] clips[j]).start < t
                < clips[j].finish()) by {
                if j > 0 {
                    assert(rest[j - 1] == clips[j]);
                }
            }
        }
    }
}

/// Whether an action moves a clip to a start and leaves the rest of it.
pub open spec fn moves_to(a: ActionV, c: ClipV, start: TimeUs) -> bool {
    a == (ActionV::SetClipBounds {
        clip_id: c.id,
        start,
        duration: c.duration,
        src_in: None,
        src_out: None,
    })
}

proof fn lemma_spans_from(clips: Seq<ClipV>, at: TimeUs)
    ensures
        ({
            let later = clips.filter(|c: ClipV| at <= c.start);
            let spans = ranges::spans_from(clips, at);
            &&& spans.len() == later.len()
            &&& forall|i: int|
                0 <= i < spans.len() ==> #[trigger] spans[i] == (
                    later[i].id,
                    later[i].start,
                    later[i].duration,
                )
        }),
    decreases clips.len(),
{
    reveal(Seq::filter);
    if clips.len() > 0 {
        lemma_spans_from(clips.drop_last(), at);
    }
}

/// A shift to the left moves every clip from a time on so much earlier, in their
/// order, and no other.
pub proof fn law_shift_left(clips: Seq<ClipV>, from: TimeUs, by: TimeUs)
    ensures
        ({
            let later = clips.filter(|c: ClipV| from <= c.start);
            let list = ranges::shift_list(clips, (Shift::Left { from, by }));
            &&& list.len() == later.len()
            &&& forall|i: int|
                0 <= i < list.len() ==> moves_to(
                    #[trigger] list[i],
                    later[i],
                    time::held(later[i].start - by),
                )
        }),
{
    lemma_spans_from(clips, from);
    let spans = ranges::spans_from(clips, from);
    let list = ranges::shift_list(clips, (Shift::Left { from, by }));
    let later = clips.filter(|c: ClipV| from <= c.start);
    assert forall|i: int| 0 <= i < list.len() implies moves_to(
        #[trigger] list[i],
        later[i],
        time::held(later[i].start - by),
    ) by {
        assert(spans[i] == (later[i].id, later[i].start, later[i].duration));
    }
}

proof fn lemma_falling_place(spans: Seq<Span>, start: TimeUs)
    ensures
        ranges::falling_place(spans, start) <= spans.len(),
        forall|j: int|
            0 <= j < ranges::falling_place(spans, start) ==> (#[trigger] spans[j]).1 >= start,
        ranges::falling_place(spans, start) < spans.len() ==> spans[ranges::falling_place(
            spans,
            start,
        ) as int].1 < start,
    decreases spans.len(),
{
    if spans.len() > 0 && spans[0].1 >= start {
        let r = spans.drop_first();
        lemma_falling_place(r, start);
        assert forall|j: int| 0 <= j < ranges::falling_place(spans, start) implies (
        #[trigger] spans[j]).1 >= start by {
            if j > 0 {
                assert(spans[j] == r[j - 1]);
            }
        }
    }
}

proof fn lemma_falling(spans: Seq<Span>)
    ensures
        ({
            let r = ranges::falling(spans);
            &&& r.len() == spans.len()
            &&& forall|x: Span| #[trigger] r.contains(x) <==> spans.contains(x)
            &&& forall|i: int, j: int|
                0 <= i < j < r.len() ==> (#[trigger] r[i]).1 >= (#[trigger] r[j]).1
        }),
    decreases spans.len(),
{
    if spans.len() > 0 {
        let rest = spans.drop_last();
        let x = spans.last();
        lemma_falling(rest);
        let r = ranges::falling(rest);
        lemma_falling_place(r, x.1);
        let k = ranges::falling_place(r, x.1) as int;
        let all = r.insert(k, x);
        assert(all[k] == x);
        assert(spans[spans.len() - 1] == x);
        assert forall|y: Span| #[trigger] all.contains(y) <==> spans.contains(y) by {
            if all.contains(y) {
                let i = choose|i: int| 0 <= i < all.len() && all[i] == y;
                if i < k {
                    assert(r[i] == y);
                } else if i > k {
                    assert(r[i - 1] == y);
                }
                if i != k {
                    assert(r.contains(y));
                    let j = choose|j: int| 0 <= j < rest.len() && rest[j] == y;
                    assert(spans[j] == y);
                }
            }
            if spans.contains(y) {
                let j = choose|j: int| 0 <= j < spans.len() && spans[j] == y;
                if j < rest.len() {
                    assert(rest[j] == y);
                    assert(r.contains(y));
                    let i = choose|i: int| 0 <= i < r.len() && r[i] == y;
                    if i < k {
                        assert(all[i] == y);
                    } else {
                        assert(all[i + 1] == y);
                    }
                }
            }
        }
        assert forall|i: int, j: int| 0 <= i < j < all.len() implies (#[trigger] all[i]).1 >= (
        #[trigger] all[j]).1 by {
            if j < k {
                assert(r[i].1 >= r[j].1);
            } else if i > k {
                assert(r[i - 1].1 >= r[j - 1].1);
            } else if i < k && j > k {
                assert(r[i].1 >= r[j - 1].1);
            } else if i == k {
                if j - 1 > k {
                    assert(r[k].1 >= r[j - 1].1);
                }
            }
        }
    }
}

/// A shift to the right moves every clip from a time on so much later and no other,
/// the last one first, so that none runs into the next.
#[verifier::spinoff_prover]
pub proof fn law_shift_right(clips: Seq<ClipV>, from: TimeUs, by: TimeUs)
    ensures
        ({
            let later = clips.filter(|c: ClipV| from <= c.start);
            let list = ranges::shift_list(clips, (Shift::Right { from, by }));
            &&& list.len() == later.len()
            &&& forall|i: int|
                0 <= i < list.len() ==> exists|k: int|
                    0 <= k < later.len() && moves_to(
                        #[trigger] list[i],
                        #[trigger] later[k],
                        time::held(later[k].start + by),
                    )
            &&& forall|k: int|
                0 <= k < later.len() ==> exists|i: int|
                    0 <= i < list.len() && moves_to(
                        #[trigger] list[i],
                        #[trigger] later[k],
                        time::held(later[k].start + by),
                    )
            &&& forall|i: int, j: int|
                0 <= i < j < list.len() ==> (#[trigger] list[i])->SetClipBounds_start >= (
                #[trigger] list[j])->SetClipBounds_start
        }),
{
    lemma_spans_from(clips, from);
    let spans = ranges::spans_from(clips, from);
    lemma_falling(spans);
    let r = ranges::falling(spans);
    let list = ranges::shift_list(clips, (Shift::Right { from, by }));
    let later = clips.filter(|c: ClipV| from <= c.start);
    assert forall|i: int| 0 <= i < list.len() implies exists|k: int|
        0 <= k < later.len() && moves_to(
            #[trigger] list[i],
            #[trigger] later[k],
            time::held(later[k].start + by),
        ) by {
        assert(r.contains(r[i]));
        let k = choose|k: int| 0 <= k < spans.len() && spans[k] == r[i];
        assert(moves_to(list[i], later[k], time::held(later[k].start + by)));
    }
    assert forall|k: int| 0 <= k < later.len() implies exists|i: int|
        0 <= i < list.len() && moves_to(
            #[trigger] list[i],
            #[trigger] later[k],
            time::held(later[k].start + by),
        ) by {
        assert(spans.contains(spans[k]));
        assert(r.contains(spans[k]));
        let i = choose|i: int| 0 <= i < r.len() && r[i] == spans[k];
        assert(moves_to(list[i], later[k], time::held(later[k].start + by)));
    }
    assert forall|i: int, j: int| 0 <= i < j < list.len() implies (
    #[trigger] list[i])->SetClipBounds_start >= (#[trigger] list[j])->SetClipBounds_start by {
        assert(r[i].1 >= r[j].1);
    }
}

/// What is taken out of a range is put back as far behind the destination as it was
/// behind the start of the range, on its own track, and otherwise as it was.
pub proof fn law_put_back(x: (Id, ClipV), from: TimeUs, dest: TimeUs)
    requires
        crate::crossing::moderate(x.1.start),
        crate::crossing::moderate(from),
        crate::crossing::moderate(dest),
    ensures
        match ranges::put_back(x, from, dest) {
            ActionV::InsertClip { track_id, clip } => {
                &&& track_id == x.0
                &&& clip.start - dest == x.1.start - from
                &&& clip == (ClipV { start: clip.start, ..x.1 })
            },
            _ => false,
        },
{
}

/// Whether a clip of a project is in a group.
pub open spec fn grouped(p: ProjectV, s: int, t: int, k: int, group: Id, id: Id) -> bool {
    laws::has_clip(p, s, t, k, id) && p.sequences[s].tracks[t].clips[k].group == Some(group)
}

proof fn lemma_group_on_track(clips: Seq<ClipV>, group: Id, id: Id)
    ensures
        ops::group_on_track(clips, group).contains(id) <==> exists|k: int|
            0 <= k < clips.len() && (#[trigger] clips[k]).id == id && clips[k].group == Some(group),
    decreases clips.len(),
{
    if clips.len() > 0 {
        let rest = clips.drop_last();
        lemma_group_on_track(rest, group, id);
        let c = clips[clips.len() - 1];
        assert(c == clips.last());
        let r = ops::group_on_track(rest, group);
        let all = ops::group_on_track(clips, group);
        if r.contains(id) {
            let k = choose|k: int|
                0 <= k < rest.len() && (#[trigger] rest[k]).id == id && rest[k].group == Some(group);
            assert(clips[k] == rest[k]);
            let i = r.index_of(id);
            assert(all[i] == id);
        }
        if c.group == Some(group) {
            assert(all.last() == c.id);
            assert(all.contains(c.id));
        }
        if all.contains(id) {
            let i = choose|i: int| 0 <= i < all.len() && all[i] == id;
            if i < r.len() {
                assert(r[i] == id);
            }
        }
        if exists|k: int|
            0 <= k < clips.len() && (#[trigger] clips[k]).id == id && clips[k].group == Some(group) {
            let k = choose|k: int|
                0 <= k < clips.len() && (#[trigger] clips[k]).id == id && clips[k].group == Some(
                    group,
                );
            if k < rest.len() {
                assert(rest[k] == clips[k]);
            }
        }
    }
}

proof fn lemma_sum_contains(a: Seq<Id>, b: Seq<Id>, id: Id)
    ensures
        (a + b).contains(id) <==> a.contains(id) || b.contains(id),
{
    let r = a + b;
    if a.contains(id) {
        let i = a.index_of(id);
        assert(r[i] == id);
    }
    if b.contains(id) {
        let i = b.index_of(id);
        assert(r[a.len() + i] == id);
    }
    if r.contains(id) {
        let i = r.index_of(id);
        if i < a.len() {
            assert(a[i] == id);
        } else {
            assert(b[i - a.len()] == id);
        }
    }
}

proof fn lemma_group_on_tracks(tracks: Seq<TrackV>, group: Id, id: Id)
    ensures
        ops::group_on_tracks(tracks, group).contains(id) <==> exists|t: int, k: int|
            0 <= t < tracks.len() && 0 <= k < tracks[t].clips.len() && (
            #[trigger] tracks[t].clips[k]).id == id && tracks[t].clips[k].group == Some(group),
    decreases tracks.len(),
{
    if tracks.len() > 0 {
        let rest = tracks.drop_last();
        let n = tracks.len() - 1;
        let top = tracks[n];
        assert(top == tracks.last());
        lemma_group_on_tracks(rest, group, id);
        lemma_group_on_track(top.clips, group, id);
        lemma_sum_contains(
            ops::group_on_tracks(rest, group),
            ops::group_on_track(top.clips, group),
            id,
        );
        if ops::group_on_tracks(rest, group).contains(id) {
            let (t, k) = choose|t: int, k: int|
                0 <= t < rest.len() && 0 <= k < rest[t].clips.len() && (
                #[trigger] rest[t].clips[k]).id == id && rest[t].clips[k].group == Some(group);
            assert(tracks[t].clips[k] == rest[t].clips[k]);
        }
        if ops::group_on_track(top.clips, group).contains(id) {
            let k = choose|k: int|
                0 <= k < top.clips.len() && (#[trigger] top.clips[k]).id == id && top.clips[k].group
                    == Some(group);
            assert(tracks[n].clips[k] == top.clips[k]);
        }
        if exists|t: int, k: int|
            0 <= t < tracks.len() && 0 <= k < tracks[t].clips.len() && (
            #[trigger] tracks[t].clips[k]).id == id && tracks[t].clips[k].group == Some(group) {
            let (t, k) = choose|t: int, k: int|
                0 <= t < tracks.len() && 0 <= k < tracks[t].clips.len() && (
                #[trigger] tracks[t].clips[k]).id == id && tracks[t].clips[k].group == Some(group);
            if t < n {
                assert(rest[t].clips[k] == tracks[t].clips[k]);
            } else {
                assert(top.clips[k] == tracks[t].clips[k]);
            }
        }
    }
}

/// Whether some clip of sequences with an identifier is in a group.
spec fn group_member(list: Seq<SequenceV>, group: Id, id: Id) -> bool {
    exists|s: int, t: int, k: int|
        0 <= s < list.len() && 0 <= t < list[s].tracks.len() && 0 <= k
            < list[s].tracks[t].clips.len() && (#[trigger] list[s].tracks[t].clips[k]).id == id
            && list[s].tracks[t].clips[k].group == Some(group)
}

proof fn lemma_group_in(list: Seq<SequenceV>, group: Id, id: Id)
    ensures
        ops::group_in(list, group).contains(id) <==> group_member(list, group, id),
    decreases list.len(),
{
    if list.len() > 0 {
        let rest = list.drop_last();
        let n = list.len() - 1;
        let top = list[n];
        assert(top == list.last());
        lemma_group_in(rest, group, id);
        lemma_group_on_tracks(top.tracks, group, id);
        lemma_sum_contains(
            ops::group_in(rest, group),
            ops::group_on_tracks(top.tracks, group),
            id,
        );
        if group_member(rest, group, id) {
            let (s, t, k) = choose|s: int, t: int, k: int|
                0 <= s < rest.len() && 0 <= t < rest[s].tracks.len() && 0 <= k
                    < rest[s].tracks[t].clips.len() && (
                #[trigger] rest[s].tracks[t].clips[k]).id == id
                    && rest[s].tracks[t].clips[k].group == Some(group);
            assert(list[s].tracks[t].clips[k] == rest[s].tracks[t].clips[k]);
        }
        if ops::group_on_tracks(top.tracks, group).contains(id) {
            let (t, k) = choose|t: int, k: int|
                0 <= t < top.tracks.len() && 0 <= k < top.tracks[t].clips.len() && (
                #[trigger] top.tracks[t].clips[k]).id == id && top.tracks[t].clips[k].group == Some(
                    group,
                );
            assert(list[n].tracks[t].clips[k] == top.tracks[t].clips[k]);
        }
        if group_member(list, group, id) {
            let (s, t, k) = choose|s: int, t: int, k: int|
                0 <= s < list.len() && 0 <= t < list[s].tracks.len() && 0 <= k
                    < list[s].tracks[t].clips.len() && (
                #[trigger] list[s].tracks[t].clips[k]).id == id
                    && list[s].tracks[t].clips[k].group == Some(group);
            if s < n {
                assert(rest[s].tracks[t].clips[k] == list[s].tracks[t].clips[k]);
            } else {
                assert(top.tracks[t].clips[k] == list[s].tracks[t].clips[k]);
            }
        }
    }
}

/// The clips that are linked to one are all clips of its group, wherever they are,
/// itself among them; one without a group is linked to itself alone.
pub proof fn law_linked_clips(p: ProjectV, clip_id: Id, id: Id)
    requires
        model::clip_place(p, clip_id) is Some,
    ensures
        ({
            let c = model::clip_at(p, model::clip_place(p, clip_id)->Some_0);
            match c.group {
                Some(g) => ops::linked(p, clip_id).contains(id) <==> exists|s: int, t: int, k: int|
                    #[trigger] grouped(p, s, t, k, g, id),
                None => ops::linked(p, clip_id) == seq![clip_id],
            }
        }),
{
    laws::lemma_clip_found(p, clip_id);
    let at = model::clip_place(p, clip_id)->Some_0;
    let c = model::clip_at(p, at);
    if let Some(g) = c.group {
        lemma_group_in(p.sequences, g, clip_id);
        lemma_group_in(p.sequences, g, id);
        assert(p.sequences[at.0].tracks[at.1].clips[at.2].id == clip_id);
        assert(group_member(p.sequences, g, clip_id));
        assert(ops::group_in(p.sequences, g).contains(clip_id));
        if group_member(p.sequences, g, id) {
            let (s, t, k) = choose|s: int, t: int, k: int|
                0 <= s < p.sequences.len() && 0 <= t < p.sequences[s].tracks.len() && 0 <= k
                    < p.sequences[s].tracks[t].clips.len() && (
                #[trigger] p.sequences[s].tracks[t].clips[k]).id == id
                    && p.sequences[s].tracks[t].clips[k].group == Some(g);
            assert(grouped(p, s, t, k, g, id));
        }
        if exists|s: int, t: int, k: int| #[trigger] grouped(p, s, t, k, g, id) {
            let (s, t, k) = choose|s: int, t: int, k: int| #[trigger] grouped(p, s, t, k, g, id);
            assert(p.sequences[s].tracks[t].clips[k].id == id);
            assert(group_member(p.sequences, g, id));
        }
    }
}

proof fn lemma_with_new(list: Seq<Id>, more: Seq<Id>, id: Id)
    ensures
        ops::with_new(list, more).contains(id) <==> list.contains(id) || more.contains(id),
    decreases more.len(),
{
    if more.len() > 0 {
        let rest = more.drop_last();
        let x = more[more.len() - 1];
        assert(x == more.last());
        lemma_with_new(list, rest, id);
        lemma_with_new(list, rest, x);
        let r = ops::with_new(list, rest);
        if rest.contains(id) {
            let i = rest.index_of(id);
            assert(more[i] == id);
        }
        if more.contains(id) {
            let i = more.index_of(id);
            if i < rest.len() {
                assert(rest[i] == id);
            }
        }
        if !r.contains(x) {
            let all = r.push(x);
            assert(all.last() == x);
            if r.contains(id) {
                let i = r.index_of(id);
                assert(all[i] == id);
            }
            if all.contains(id) {
                let i = all.index_of(id);
                if i < r.len() {
                    assert(r[i] == id);
                }
            }
        }
    }
}

proof fn lemma_with_linked(p: ProjectV, ids: Seq<Id>, n: nat, id: Id)
    requires
        n <= ids.len(),
    ensures
        ops::with_linked(p, ids, n).contains(id) <==> ids.contains(id) || exists|i: int|
            0 <= i < n && ops::linked(p, #[trigger] ids[i]).contains(id),
    decreases n,
{
    if n > 0 {
        lemma_with_linked(p, ids, (n - 1) as nat, id);
        lemma_with_new(
            ops::with_linked(p, ids, (n - 1) as nat),
            ops::linked(p, ids[n - 1]),
            id,
        );
        if exists|i: int| 0 <= i < n - 1 && ops::linked(p, #[trigger] ids[i]).contains(id) {
            let i = choose|i: int| 0 <= i < n - 1 && ops::linked(p, #[trigger] ids[i]).contains(id);
            assert(0 <= i < n);
        }
    }
}

/// What is deleted is what was asked for and all that is linked to it.
pub proof fn law_deleted_with_linked(p: ProjectV, ids: Seq<Id>, id: Id)
    ensures
        ops::with_linked(p, ids, ids.len()).contains(id) <==> ids.contains(id) || exists|i: int|
            0 <= i < ids.len() && ops::linked(p, #[trigger] ids[i]).contains(id),
{
    lemma_with_linked(p, ids, ids.len(), id);
}

/// Whether a time is one of some limits or between them, and as near to another as
/// they allow.
pub open spec fn nearest_within(t: TimeUs, wish: TimeUs, lo: TimeUs, hi: TimeUs) -> bool {
    &&& lo <= t <= hi
    &&& lo <= wish <= hi ==> t == wish
    &&& wish < lo ==> t == lo
    &&& wish > hi ==> t == hi
}

/// A trim moves the edge of a clip to the frame nearest to where it is wanted, as
/// far as the limits of the clip allow; it is refused where they leave no room.
pub proof fn law_trim_goes_there(p: ProjectV, clip_id: Id, left: bool, new_edge: TimeUs)
    requires
        model::clip_place(p, clip_id) is Some,
    ensures
        ({
            let at = model::clip_place(p, clip_id)->Some_0;
            let c = model::clip_at(p, at);
            let fps = p.sequences[at.0].fps;
            let limits = ops::trim_limits(p, c, left, time::frame_length(fps));
            match ops::trim_spec(p, clip_id, left, new_edge) {
                Ok(plan) => {
                    &&& limits.0 <= limits.1
                    &&& plan.actions.len() == 1
                    &&& exists|edge: TimeUs|
                        {
                            &&& nearest_within(
                                edge,
                                time::quantized(new_edge, fps),
                                limits.0,
                                limits.1,
                            )
                            &&& plan.actions[0] == #[trigger] ops::trim_action(
                                c,
                                left,
                                edge,
                                ops::material_length(p, c),
                            )
                        }
                },
                Err(e) => true,
            }
        }),
{
    reveal(ops::planned);
    if let Ok(plan) = ops::trim_spec(p, clip_id, left, new_edge) {
        let at = model::clip_place(p, clip_id)->Some_0;
        let c = model::clip_at(p, at);
        let fps = p.sequences[at.0].fps;
        let limits = ops::trim_limits(p, c, left, time::frame_length(fps));
        let edge = ops::clamped(time::quantized(new_edge, fps), limits.0, limits.1);
        assert(nearest_within(edge, time::quantized(new_edge, fps), limits.0, limits.1));
        assert(plan.actions[0] == ops::trim_action(c, left, edge, ops::material_length(p, c)));
    }
}

} // verus!
