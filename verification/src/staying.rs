//! A project in which nothing is amiss stays so: what `validate` finds after an
//! operation.

use vstd::prelude::*;

use crate::action;
use crate::action::ActionV;
use crate::error::ErrV;
use crate::float::Real;
use crate::ident::Id;
use crate::laws;
use crate::model;
use crate::model::{ClipV, MediaAsset, ProjectV, SequenceV, TrackV, TranscriptV};
use crate::ops;
use crate::ops::PlanV;
use crate::seqs;
use crate::seqs::Ident;
use crate::stock;
use crate::store;
use crate::store::StoreV;
use crate::time;
use crate::time::TimeUs;
use crate::undoing;
use crate::validate;
use crate::validate::{all_different, met};

verus! {

/// A list of identifiers, each with what has it.
pub type Names = Seq<(Id, Seq<char>)>;

/// Whether no identifier is in both lists.
spec fn disjoint(a: Names, b: Names) -> bool {
    forall|id: Id| !(#[trigger] met(a, id) && met(b, id))
}

proof fn lemma_met(a: Names, b: Names, id: Id)
    ensures
        met(a + b, id) <==> met(a, id) || met(b, id),
{
    if met(a, id) {
        let i = choose|i: int| 0 <= i < a.len() && (#[trigger] a[i]).0 == id;
        assert((a + b)[i].0 == id);
    }
    if met(b, id) {
        let i = choose|i: int| 0 <= i < b.len() && (#[trigger] b[i]).0 == id;
        assert((a + b)[i + a.len()].0 == id);
    }
    if met(a + b, id) {
        let i = choose|i: int| 0 <= i < (a + b).len() && (#[trigger] (a + b)[i]).0 == id;
        if i < a.len() {
            assert(a[i].0 == id);
        } else {
            assert(b[i - a.len()].0 == id);
        }
    }
}

proof fn lemma_joined(a: Names, b: Names)
    ensures
        all_different(a + b) <==> all_different(a) && all_different(b) && disjoint(a, b),
{
    let c = a + b;
    if all_different(c) {
        assert forall|i: int, j: int| 0 <= i < j < a.len() implies (#[trigger] a[i]).0 != (
        #[trigger] a[j]).0 by {
            assert(c[i] == a[i] && c[j] == a[j]);
        }
        assert forall|i: int, j: int| 0 <= i < j < b.len() implies (#[trigger] b[i]).0 != (
        #[trigger] b[j]).0 by {
            assert(c[i + a.len()] == b[i] && c[j + a.len()] == b[j]);
        }
        assert forall|id: Id| !(#[trigger] met(a, id) && met(b, id)) by {
            if met(a, id) && met(b, id) {
                let i = choose|i: int| 0 <= i < a.len() && (#[trigger] a[i]).0 == id;
                let j = choose|j: int| 0 <= j < b.len() && (#[trigger] b[j]).0 == id;
                assert(c[i] == a[i] && c[j + a.len()] == b[j]);
            }
        }
    }
    if all_different(a) && all_different(b) && disjoint(a, b) {
        assert forall|i: int, j: int| 0 <= i < j < c.len() implies (#[trigger] c[i]).0 != (
        #[trigger] c[j]).0 by {
            if j < a.len() {
                assert(c[i] == a[i] && c[j] == a[j]);
            } else if i >= a.len() {
                assert(c[i] == b[i - a.len()] && c[j] == b[j - a.len()]);
            } else {
                assert(c[i] == a[i] && c[j] == b[j - a.len()]);
                assert(met(a, a[i].0));
                assert(b[j - a.len()].0 == c[j].0);
                if c[i].0 == c[j].0 {
                    assert(met(b, a[i].0));
                }
            }
        }
    }
}

proof fn lemma_one(x: (Id, Seq<char>), id: Id)
    ensures
        all_different(seq![x]),
        met(seq![x], id) <==> x.0 == id,
{
    if x.0 == id {
        assert(seq![x][0].0 == id);
    }
}

// ---- the tracks of a sequence ----

/// Whether a track has an identifier.
spec fn on_track(tracks: Seq<TrackV>, id: Id) -> bool {
    exists|t: int| 0 <= t < tracks.len() && (#[trigger] tracks[t]).id == id
}

spec fn clip_there(tracks: Seq<TrackV>, t: int, i: int, id: Id) -> bool {
    0 <= t < tracks.len() && 0 <= i < tracks[t].clips.len() && tracks[t].clips[i].id == id
}

/// Whether a clip on a track has an identifier.
spec fn on_clip(tracks: Seq<TrackV>, id: Id) -> bool {
    exists|t: int, i: int| #[trigger] clip_there(tracks, t, i, id)
}

proof fn lemma_clip_ids(clips: Seq<ClipV>, id: Id)
    ensures
        met(validate::clip_ids(clips), id) <==> exists|i: int|
            0 <= i < clips.len() && (#[trigger] clips[i]).id == id,
{
    let list = validate::clip_ids(clips);
    if met(list, id) {
        let i = choose|i: int| 0 <= i < list.len() && (#[trigger] list[i]).0 == id;
        assert(clips[i].id == id);
    }
    if exists|i: int| 0 <= i < clips.len() && (#[trigger] clips[i]).id == id {
        let i = choose|i: int| 0 <= i < clips.len() && (#[trigger] clips[i]).id == id;
        assert(list[i].0 == id);
    }
}

proof fn lemma_track_part(t: TrackV, id: Id)
    ensures
        met(seq![(t.id, "track"@)] + validate::clip_ids(t.clips), id) <==> t.id == id || exists|
            i: int,
        |
            0 <= i < t.clips.len() && (#[trigger] t.clips[i]).id == id,
{
    lemma_one((t.id, "track"@), id);
    lemma_clip_ids(t.clips, id);
    lemma_met(seq![(t.id, "track"@)], validate::clip_ids(t.clips), id);
}

proof fn lemma_track_ids(tracks: Seq<TrackV>, id: Id)
    ensures
        met(validate::track_ids(tracks), id) <==> on_track(tracks, id) || on_clip(tracks, id),
    decreases tracks.len(),
{
    if tracks.len() > 0 {
        let rest = tracks.drop_last();
        let t = tracks.last();
        let n = tracks.len() - 1;
        let part = seq![(t.id, "track"@)] + validate::clip_ids(t.clips);
        lemma_track_ids(rest, id);
        lemma_track_part(t, id);
        lemma_met(validate::track_ids(rest), part, id);
        if on_track(rest, id) {
            let k = choose|k: int| 0 <= k < rest.len() && (#[trigger] rest[k]).id == id;
            assert(tracks[k].id == id);
        }
        if on_clip(rest, id) {
            let (k, i) = choose|k: int, i: int| #[trigger] clip_there(rest, k, i, id);
            assert(clip_there(tracks, k, i, id));
        }
        if t.id == id {
            assert(tracks[n].id == id);
        }
        if exists|i: int| 0 <= i < t.clips.len() && (#[trigger] t.clips[i]).id == id {
            let i = choose|i: int| 0 <= i < t.clips.len() && (#[trigger] t.clips[i]).id == id;
            assert(clip_there(tracks, n, i, id));
        }
        if on_track(tracks, id) {
            let k = choose|k: int| 0 <= k < tracks.len() && (#[trigger] tracks[k]).id == id;
            if k < n {
                assert(rest[k].id == id);
            }
        }
        if on_clip(tracks, id) {
            let (k, i) = choose|k: int, i: int| #[trigger] clip_there(tracks, k, i, id);
            if k < n {
                assert(clip_there(rest, k, i, id));
            } else {
                assert(t.clips[i].id == id);
            }
        }
    }
}

/// Whether tracks and their clips have identifiers of their own.
spec fn own_names(tracks: Seq<TrackV>) -> bool {
    &&& forall|a: int, b: int|
        0 <= a < tracks.len() && 0 <= b < tracks.len() && (#[trigger] tracks[a]).id == (
        #[trigger] tracks[b]).id ==> a == b
    &&& forall|a: int, i: int, b: int, j: int, id: Id|
        #[trigger] clip_there(tracks, a, i, id) && #[trigger] clip_there(tracks, b, j, id) ==> a == b
            && i == j
    &&& forall|id: Id| !(#[trigger] on_track(tracks, id) && on_clip(tracks, id))
}

proof fn lemma_tracks_different(tracks: Seq<TrackV>)
    requires
        own_names(tracks),
    ensures
        all_different(validate::track_ids(tracks)),
    decreases tracks.len(),
{
    if tracks.len() > 0 {
        let rest = tracks.drop_last();
        let t = tracks.last();
        let n = tracks.len() - 1;
        assert(tracks[n] == t);
        let one = seq![(t.id, "track"@)];
        let clips = validate::clip_ids(t.clips);
        assert(own_names(rest)) by {
            assert forall|a: int, b: int|
                0 <= a < rest.len() && 0 <= b < rest.len() && (#[trigger] rest[a]).id == (
                #[trigger] rest[b]).id implies a == b by {
                assert(rest[a] == tracks[a] && rest[b] == tracks[b]);
            }
            assert forall|a: int, i: int, b: int, j: int, id: Id|
                #[trigger] clip_there(rest, a, i, id) && #[trigger] clip_there(
                    rest,
                    b,
                    j,
                    id,
                ) implies a == b && i == j by {
                assert(clip_there(tracks, a, i, id) && clip_there(tracks, b, j, id));
            }
            assert forall|id: Id| !(#[trigger] on_track(rest, id) && on_clip(rest, id)) by {
                if on_track(rest, id) && on_clip(rest, id) {
                    let k = choose|k: int| 0 <= k < rest.len() && (#[trigger] rest[k]).id == id;
                    assert(tracks[k].id == id);
                    let (a, i) = choose|a: int, i: int| #[trigger] clip_there(rest, a, i, id);
                    assert(clip_there(tracks, a, i, id));
                    assert(on_track(tracks, id));
                }
            }
        }
        lemma_tracks_different(rest);
        assert forall|i: int, j: int| 0 <= i < j < clips.len() implies (#[trigger] clips[i]).0 != (
        #[trigger] clips[j]).0 by {
            assert(clip_there(tracks, n, i, clips[i].0));
            if clips[i].0 == clips[j].0 {
                assert(clip_there(tracks, n, j, clips[i].0));
            }
        }
        assert forall|id: Id| !(#[trigger] met(one, id) && met(clips, id)) by {
            lemma_one((t.id, "track"@), id);
            lemma_clip_ids(t.clips, id);
            if t.id == id && met(clips, id) {
                let i = choose|i: int| 0 <= i < t.clips.len() && (#[trigger] t.clips[i]).id == id;
                assert(clip_there(tracks, n, i, id));
                assert(on_track(tracks, id));
            }
        }
        lemma_one((t.id, "track"@), t.id);
        lemma_joined(one, clips);
        let before = validate::track_ids(rest);
        assert forall|id: Id| !(#[trigger] met(before, id) && met(one + clips, id)) by {
            lemma_track_ids(rest, id);
            lemma_track_part(t, id);
            if met(before, id) && met(one + clips, id) {
                if on_track(rest, id) {
                    let k = choose|k: int| 0 <= k < rest.len() && (#[trigger] rest[k]).id == id;
                    assert(tracks[k].id == id);
                    assert(on_track(tracks, id));
                } else {
                    let (k, i) = choose|k: int, i: int| #[trigger] clip_there(rest, k, i, id);
                    assert(clip_there(tracks, k, i, id));
                }
                if t.id == id {
                    assert(on_track(tracks, id));
                } else {
                    let i = choose|i: int|
                        0 <= i < t.clips.len() && (#[trigger] t.clips[i]).id == id;
                    assert(clip_there(tracks, n, i, id));
                }
            }
        }
        lemma_joined(before, one + clips);
    }
}

proof fn lemma_tracks_own(tracks: Seq<TrackV>, id: Id)
    requires
        all_different(validate::track_ids(tracks)),
    ensures
        !(on_track(tracks, id) && on_clip(tracks, id)),
    decreases tracks.len(),
{
    if tracks.len() > 0 {
        let rest = tracks.drop_last();
        let t = tracks.last();
        let one = seq![(t.id, "track"@)];
        let clips = validate::clip_ids(t.clips);
        lemma_joined(validate::track_ids(rest), one + clips);
        lemma_joined(one, clips);
        lemma_tracks_own(rest, id);
        lemma_track_ids(rest, id);
        lemma_track_part(t, id);
        lemma_one((t.id, "track"@), id);
        lemma_clip_ids(t.clips, id);
        if on_track(tracks, id) && on_clip(tracks, id) {
            let k = choose|k: int| 0 <= k < tracks.len() && (#[trigger] tracks[k]).id == id;
            if k < rest.len() {
                assert(rest[k].id == id);
            }
            let (a, i) = choose|a: int, i: int| #[trigger] clip_there(tracks, a, i, id);
            if a < rest.len() {
                assert(clip_there(rest, a, i, id));
            } else {
                assert(t.clips[i].id == id);
            }
            assert(met(validate::track_ids(rest), id) || met(one, id));
            assert(met(one, id) && met(clips, id) ==> false);
        }
    }
}

// ---- the sequences of a project ----

spec fn some_sequence(list: Seq<SequenceV>, id: Id) -> bool {
    exists|s: int| 0 <= s < list.len() && (#[trigger] list[s]).id == id
}

spec fn track_at(list: Seq<SequenceV>, s: int, id: Id) -> bool {
    0 <= s < list.len() && on_track(list[s].tracks, id)
}

spec fn clip_at(list: Seq<SequenceV>, s: int, id: Id) -> bool {
    0 <= s < list.len() && on_clip(list[s].tracks, id)
}

spec fn some_track(list: Seq<SequenceV>, id: Id) -> bool {
    exists|s: int| #[trigger] track_at(list, s, id)
}

spec fn some_clip(list: Seq<SequenceV>, id: Id) -> bool {
    exists|s: int| #[trigger] clip_at(list, s, id)
}

/// The identifiers of a sequence, its tracks and clips.
spec fn part(x: SequenceV) -> Names {
    seq![(x.id, "sequence"@)] + validate::track_ids(x.tracks)
}

proof fn lemma_part(x: SequenceV, id: Id)
    ensures
        met(part(x), id) <==> x.id == id || on_track(x.tracks, id) || on_clip(x.tracks, id),
{
    lemma_one((x.id, "sequence"@), id);
    lemma_track_ids(x.tracks, id);
    lemma_met(seq![(x.id, "sequence"@)], validate::track_ids(x.tracks), id);
}

/// Where an identifier of a list of sequences is: before the last one or there.
proof fn lemma_split(list: Seq<SequenceV>, id: Id)
    requires
        list.len() > 0,
    ensures
        some_sequence(list, id) <==> some_sequence(list.drop_last(), id) || list.last().id == id,
        some_track(list, id) <==> some_track(list.drop_last(), id) || on_track(list.last().tracks, id),
        some_clip(list, id) <==> some_clip(list.drop_last(), id) || on_clip(list.last().tracks, id),
{
    let rest = list.drop_last();
    let n = list.len() - 1;
    assert(list[n] == list.last());
    if some_sequence(rest, id) {
        let s = choose|s: int| 0 <= s < rest.len() && (#[trigger] rest[s]).id == id;
        assert(list[s].id == id);
    }
    if some_sequence(list, id) {
        let s = choose|s: int| 0 <= s < list.len() && (#[trigger] list[s]).id == id;
        if s < n {
            assert(rest[s].id == id);
        }
    }
    if some_track(rest, id) {
        let s = choose|s: int| #[trigger] track_at(rest, s, id);
        assert(track_at(list, s, id));
    }
    if some_track(list, id) {
        let s = choose|s: int| #[trigger] track_at(list, s, id);
        if s < n {
            assert(track_at(rest, s, id));
        }
    }
    if on_track(list.last().tracks, id) {
        assert(track_at(list, n, id));
    }
    if some_clip(rest, id) {
        let s = choose|s: int| #[trigger] clip_at(rest, s, id);
        assert(clip_at(list, s, id));
    }
    if some_clip(list, id) {
        let s = choose|s: int| #[trigger] clip_at(list, s, id);
        if s < n {
            assert(clip_at(rest, s, id));
        }
    }
    if on_clip(list.last().tracks, id) {
        assert(clip_at(list, n, id));
    }
}

proof fn lemma_sequence_ids(list: Seq<SequenceV>, id: Id)
    ensures
        met(validate::sequence_ids(list), id) <==> some_sequence(list, id) || some_track(list, id) || some_clip(
            list,
            id,
        ),
    decreases list.len(),
{
    if list.len() > 0 {
        lemma_sequence_ids(list.drop_last(), id);
        lemma_split(list, id);
        lemma_part(list.last(), id);
        lemma_met(validate::sequence_ids(list.drop_last()), part(list.last()), id);
    }
}

/// Whether at most one kind of thing has an identifier.
spec fn one_kind(list: Seq<SequenceV>, id: Id) -> bool {
    &&& !(some_sequence(list, id) && some_track(list, id))
    &&& !(some_sequence(list, id) && some_clip(list, id))
    &&& !(some_track(list, id) && some_clip(list, id))
}

/// Whether sequences, tracks and clips have identifiers of their own.
spec fn own_all(list: Seq<SequenceV>) -> bool {
    &&& forall|a: int, b: int|
        0 <= a < list.len() && 0 <= b < list.len() && (#[trigger] list[a]).id == (
        #[trigger] list[b]).id ==> a == b
    &&& forall|a: int, b: int, id: Id|
        #[trigger] track_at(list, a, id) && #[trigger] track_at(list, b, id) ==> a == b
    &&& forall|a: int, b: int, id: Id|
        #[trigger] clip_at(list, a, id) && #[trigger] clip_at(list, b, id) ==> a == b
    &&& forall|s: int| 0 <= s < list.len() ==> own_names((#[trigger] list[s]).tracks)
    &&& forall|id: Id| #[trigger] one_kind(list, id)
}

proof fn lemma_sequences_different(list: Seq<SequenceV>)
    requires
        own_all(list),
    ensures
        all_different(validate::sequence_ids(list)),
    decreases list.len(),
{
    if list.len() > 0 {
        let rest = list.drop_last();
        let x = list.last();
        let n = list.len() - 1;
        assert(list[n] == x);
        let one = seq![(x.id, "sequence"@)];
        let tracks = validate::track_ids(x.tracks);
        assert(own_all(rest)) by {
            assert forall|a: int, b: int|
                0 <= a < rest.len() && 0 <= b < rest.len() && (#[trigger] rest[a]).id == (
                #[trigger] rest[b]).id implies a == b by {
                assert(rest[a] == list[a] && rest[b] == list[b]);
            }
            assert forall|a: int, b: int, id: Id|
                #[trigger] track_at(rest, a, id) && #[trigger] track_at(rest, b, id) implies a
                == b by {
                assert(track_at(list, a, id) && track_at(list, b, id));
            }
            assert forall|a: int, b: int, id: Id|
                #[trigger] clip_at(rest, a, id) && #[trigger] clip_at(rest, b, id) implies a
                == b by {
                assert(clip_at(list, a, id) && clip_at(list, b, id));
            }
            assert forall|s: int| 0 <= s < rest.len() implies own_names(
                (#[trigger] rest[s]).tracks,
            ) by {
                assert(rest[s] == list[s]);
            }
            assert forall|id: Id| #[trigger] one_kind(rest, id) by {
                assert(one_kind(list, id));
                lemma_split(list, id);
            }
        }
        lemma_sequences_different(rest);
        assert(own_names(x.tracks));
        lemma_tracks_different(x.tracks);
        lemma_one((x.id, "sequence"@), x.id);
        assert forall|id: Id| !(#[trigger] met(one, id) && met(tracks, id)) by {
            lemma_one((x.id, "sequence"@), id);
            lemma_track_ids(x.tracks, id);
            lemma_split(list, id);
            assert(one_kind(list, id));
        }
        lemma_joined(one, tracks);
        let before = validate::sequence_ids(rest);
        assert forall|id: Id| !(#[trigger] met(before, id) && met(part(x), id)) by {
            lemma_sequence_ids(rest, id);
            lemma_part(x, id);
            lemma_split(list, id);
            assert(one_kind(list, id));
            if some_sequence(rest, id) && x.id == id {
                let s = choose|s: int| 0 <= s < rest.len() && (#[trigger] rest[s]).id == id;
                assert(list[s].id == list[n].id);
            }
            if some_track(rest, id) && on_track(x.tracks, id) {
                let s = choose|s: int| #[trigger] track_at(rest, s, id);
                assert(track_at(list, s, id) && track_at(list, n, id));
            }
            if some_clip(rest, id) && on_clip(x.tracks, id) {
                let s = choose|s: int| #[trigger] clip_at(rest, s, id);
                assert(clip_at(list, s, id) && clip_at(list, n, id));
            }
        }
        lemma_joined(before, part(x));
    }
}

proof fn lemma_sequences_own(list: Seq<SequenceV>, id: Id)
    requires
        all_different(validate::sequence_ids(list)),
    ensures
        one_kind(list, id),
    decreases list.len(),
{
    if list.len() > 0 {
        let rest = list.drop_last();
        let x = list.last();
        let one = seq![(x.id, "sequence"@)];
        let tracks = validate::track_ids(x.tracks);
        lemma_joined(validate::sequence_ids(rest), part(x));
        lemma_joined(one, tracks);
        lemma_sequences_own(rest, id);
        lemma_tracks_own(x.tracks, id);
        lemma_sequence_ids(rest, id);
        lemma_part(x, id);
        lemma_split(list, id);
        lemma_one((x.id, "sequence"@), id);
        lemma_track_ids(x.tracks, id);
        assert(!(met(validate::sequence_ids(rest), id) && met(part(x), id)));
        assert(!(met(one, id) && met(tracks, id)));
    }
}

proof fn lemma_names_own(tracks: Seq<TrackV>)
    requires
        all_different(validate::track_ids(tracks)),
    ensures
        own_names(tracks),
    decreases tracks.len(),
{
    assert forall|id: Id| !(#[trigger] on_track(tracks, id) && on_clip(tracks, id)) by {
        lemma_tracks_own(tracks, id);
    }
    if tracks.len() > 0 {
        let rest = tracks.drop_last();
        let t = tracks.last();
        let n = tracks.len() - 1;
        let one = seq![(t.id, "track"@)];
        let clips = validate::clip_ids(t.clips);
        let before = validate::track_ids(rest);
        lemma_joined(before, one + clips);
        lemma_joined(one, clips);
        lemma_names_own(rest);
        assert forall|a: int, b: int|
            0 <= a < tracks.len() && 0 <= b < tracks.len() && (#[trigger] tracks[a]).id == (
            #[trigger] tracks[b]).id implies a == b by {
            let id = tracks[a].id;
            lemma_track_ids(rest, id);
            lemma_track_part(t, id);
            if a < n {
                assert(rest[a].id == id);
            }
            if b < n {
                assert(rest[b].id == id);
            }
            assert(!(met(before, id) && met(one + clips, id)));
        }
        assert forall|a: int, i: int, b: int, j: int, id: Id|
            #[trigger] clip_there(tracks, a, i, id) && #[trigger] clip_there(
                tracks,
                b,
                j,
                id,
            ) implies a == b && i == j by {
            lemma_track_ids(rest, id);
            lemma_track_part(t, id);
            assert(!(met(before, id) && met(one + clips, id)));
            if a < n {
                assert(clip_there(rest, a, i, id));
            } else {
                assert(t.clips[i].id == id);
                assert(clips[i].0 == id);
            }
            if b < n {
                assert(clip_there(rest, b, j, id));
            } else {
                assert(t.clips[j].id == id);
                assert(clips[j].0 == id);
            }
        }
    }
}

proof fn lemma_all_own(list: Seq<SequenceV>)
    requires
        all_different(validate::sequence_ids(list)),
    ensures
        own_all(list),
    decreases list.len(),
{
    assert forall|id: Id| #[trigger] one_kind(list, id) by {
        lemma_sequences_own(list, id);
    }
    if list.len() > 0 {
        let rest = list.drop_last();
        let x = list.last();
        let n = list.len() - 1;
        let one = seq![(x.id, "sequence"@)];
        let before = validate::sequence_ids(rest);
        lemma_joined(before, part(x));
        lemma_joined(one, validate::track_ids(x.tracks));
        lemma_all_own(rest);
        lemma_names_own(x.tracks);
        assert(list[n] == x);
        assert forall|a: int, b: int|
            0 <= a < list.len() && 0 <= b < list.len() && (#[trigger] list[a]).id == (
            #[trigger] list[b]).id implies a == b by {
            let id = list[a].id;
            lemma_sequence_ids(rest, id);
            lemma_part(x, id);
            assert(!(met(before, id) && met(part(x), id)));
            if a < n {
                assert(rest[a].id == id);
            }
            if b < n {
                assert(rest[b].id == id);
            }
        }
        assert forall|a: int, b: int, id: Id|
            #[trigger] track_at(list, a, id) && #[trigger] track_at(list, b, id) implies a == b by {
            lemma_sequence_ids(rest, id);
            lemma_part(x, id);
            assert(!(met(before, id) && met(part(x), id)));
            if a < n {
                assert(track_at(rest, a, id));
            }
            if b < n {
                assert(track_at(rest, b, id));
            }
        }
        assert forall|a: int, b: int, id: Id|
            #[trigger] clip_at(list, a, id) && #[trigger] clip_at(list, b, id) implies a == b by {
            lemma_sequence_ids(rest, id);
            lemma_part(x, id);
            assert(!(met(before, id) && met(part(x), id)));
            if a < n {
                assert(clip_at(rest, a, id));
            }
            if b < n {
                assert(clip_at(rest, b, id));
            }
        }
        assert forall|s: int| 0 <= s < list.len() implies own_names((#[trigger] list[s]).tracks) by {
            if s < n {
                assert(rest[s] == list[s]);
            }
        }
    }
}

/// Whether clips end within the range of times, and tracks can be counted with
/// one more.
pub open spec fn in_range(p: ProjectV) -> bool {
    &&& forall|s: int, t: int, i: int, x: ClipV| #[trigger]
        stock::clip_is(p, s, t, i, x) ==> x.start + x.duration <= i64::MAX
    &&& forall|s: int|
        0 <= s < p.sequences.len() ==> (#[trigger] p.sequences[s]).tracks.len() < usize::MAX
}

/// Whether each clip stands on a track of a kind that takes it.
pub open spec fn all_in_place(p: ProjectV) -> bool {
    forall|s: int, t: int, i: int, x: ClipV| #[trigger]
        stock::clip_is(p, s, t, i, x) ==> laws::in_place(p, (s, t, i))
}

proof fn lemma_valid_unique(p: ProjectV)
    requires
        validate::valid(p),
    ensures
        laws::unique_sequences(p),
        laws::unique_tracks(p),
        laws::unique_clips(p),
{
    assert(validate::all_ids(p) =~= head_ids(p) + validate::sequence_ids(p.sequences));
    lemma_joined(head_ids(p), validate::sequence_ids(p.sequences));
    let list = p.sequences;
    lemma_all_own(list);
    assert forall|a: int, b: int, c: int, d: int, id: Id|
        #[trigger] laws::has_track(p, a, b, id) && #[trigger] laws::has_track(p, c, d, id) implies a
        == c && b == d by {
        assert(list[a].tracks[b].id == id && list[c].tracks[d].id == id);
        assert(track_at(list, a, id) && track_at(list, c, id));
        assert(own_names(list[a].tracks));
    }
    assert forall|a: int, b: int, c: int, d: int, e: int, f: int, id: Id|
        #[trigger] laws::has_clip(p, a, b, c, id) && #[trigger] laws::has_clip(
            p,
            d,
            e,
            f,
            id,
        ) implies a == d && b == e && c == f by {
        assert(clip_there(list[a].tracks, b, c, id) && clip_there(list[d].tracks, e, f, id));
        assert(clip_at(list, a, id) && clip_at(list, d, id));
        assert(own_names(list[a].tracks));
    }
}

/// A project in which `validate` finds nothing amiss is steady, and sound where
/// each clip stands on a track that takes it.
pub proof fn law_valid_is_sound(p: ProjectV)
    requires
        validate::issues_of(p).len() == 0,
        in_range(p),
    ensures
        laws::steady(p),
        all_in_place(p) ==> laws::sound(p),
{
    validate::law_no_issues_if_valid(p);
    lemma_valid_unique(p);
    assert forall|s: int, t: int| 0 <= s < p.sequences.len() && 0 <= t
        < p.sequences[s].tracks.len() implies laws::in_line(
        #[trigger] p.sequences[s].tracks[t].clips,
    ) && laws::fit_track(false, p, p.sequences[s].tracks[t]) && (all_in_place(p)
        ==> laws::sound_track(p, p.sequences[s].tracks[t])) by {
        let track = p.sequences[s].tracks[t];
        assert(validate::valid_sequence(p, p.sequences[s]));
        assert(validate::valid_track(p, track));
        assert forall|i: int| 0 <= i < track.clips.len() implies laws::sound_clip(
            #[trigger] track.clips[i],
        ) by {
            assert(validate::valid_clip(p, track.clips[i]));
            assert(stock::clip_is(p, s, t, i, track.clips[i]));
        }
        assert forall|i: int, j: int| 0 <= i < j < track.clips.len() implies (
        #[trigger] track.clips[i]).finish() <= (#[trigger] track.clips[j]).start by {}
        if all_in_place(p) {
            assert forall|i: int| 0 <= i < track.clips.len() implies laws::sound_clip(
                #[trigger] track.clips[i],
            ) && action::allowed_on(p, track.clips[i], track.kind) by {
                assert(stock::clip_is(p, s, t, i, track.clips[i]));
                assert(laws::in_place(p, (s, t, i)));
            }
        }
    }
    assert forall|s: int| 0 <= s < p.sequences.len() implies laws::fit_sequence(
        false,
        p,
        #[trigger] p.sequences[s],
    ) && (all_in_place(p) ==> laws::sound_sequence(p, p.sequences[s])) by {
        let tracks = p.sequences[s].tracks;
        assert forall|t: int| 0 <= t < tracks.len() implies laws::fit_track(
            false,
            p,
            #[trigger] tracks[t],
        ) && (all_in_place(p) ==> laws::sound_track(p, tracks[t])) by {
            assert(p.sequences[s].tracks[t].clips == tracks[t].clips);
        }
    }
}

/// The inverse of an action restores a project in which `validate` finds nothing
/// amiss.
pub proof fn law_valid_inverse_brings_back(p: ProjectV, a: ActionV)
    requires
        validate::issues_of(p).len() == 0,
        in_range(p),
        laws::reversible(p, a),
    ensures
        laws::restored(p, a),
{
    law_valid_is_sound(p);
    laws::law_inverse_brings_back(p, a);
}

// ---- what stays around the clips ----

/// Whether two projects differ in nothing but their clips, as far as
/// identifiers go.
#[verifier::opaque]
spec fn same_frame(p: ProjectV, q: ProjectV) -> bool {
    &&& p.id == q.id
    &&& p.assets == q.assets
    &&& p.transcripts == q.transcripts
    &&& p.sequences.len() == q.sequences.len()
    &&& forall|s: int|
        0 <= s < p.sequences.len() ==> (#[trigger] q.sequences[s]).id == p.sequences[s].id
            && q.sequences[s].tracks.len() == p.sequences[s].tracks.len()
            && q.sequences[s].fps == p.sequences[s].fps
    &&& forall|s: int, t: int|
        0 <= s < p.sequences.len() && 0 <= t < p.sequences[s].tracks.len() ==> (
        #[trigger] q.sequences[s].tracks[t]).id == p.sequences[s].tracks[t].id
}

proof fn lemma_frame_with(p: ProjectV, s: int, t: int, clips: Seq<ClipV>)
    requires
        0 <= s < p.sequences.len(),
        0 <= t < p.sequences[s].tracks.len(),
    ensures
        same_frame(p, model::with_clips(p, (s, t), clips)),
{
    reveal(same_frame);
}

proof fn lemma_frame_step(p: ProjectV, a: ActionV)
    requires
        stock::edits(a),
        action::step(p, a) is Ok,
    ensures
        same_frame(p, action::step(p, a)->Ok_0.0),
{
    match a {
        ActionV::InsertClip { track_id, clip } => {
            laws::lemma_track_found(p, track_id);
            let at = model::track_place(p, track_id)->Some_0;
            lemma_frame_with(p, at.0, at.1, action::put_in(model::track_at(p, at).clips, clip));
        },
        ActionV::ReplaceClips { track_id, remove_ids, insert } => {
            laws::lemma_track_found(p, track_id);
            let at = model::track_place(p, track_id)->Some_0;
            let rest = action::take_off(model::track_at(p, at).clips, remove_ids)->Ok_0.0;
            lemma_frame_with(p, at.0, at.1, action::put_all(rest, insert));
        },
        ActionV::RemoveClip { clip_id } => {
            laws::lemma_clip_found(p, clip_id);
            let at = model::clip_place(p, clip_id)->Some_0;
            let clips = model::track_at(p, (at.0, at.1)).clips;
            lemma_frame_with(p, at.0, at.1, clips.remove(at.2));
        },
        ActionV::SetClipBounds { clip_id, start, duration, src_in, src_out } => {
            laws::lemma_clip_found(p, clip_id);
            let at = model::clip_place(p, clip_id)->Some_0;
            let clips = model::track_at(p, (at.0, at.1)).clips;
            let c = model::clip_at(p, at);
            let payload = action::with_source(c.payload, src_in, src_out);
            let changed = ClipV { start, duration, payload, ..c };
            lemma_frame_with(p, at.0, at.1, action::sorted_clips(clips.update(at.2, changed)));
        },
        ActionV::MoveClipToTrack { clip_id, to_track, to_start } => {
            laws::lemma_clip_found(p, clip_id);
            laws::lemma_track_found(p, to_track);
            let at = model::clip_place(p, clip_id)->Some_0;
            let to = model::track_place(p, to_track)->Some_0;
            let clips = model::track_at(p, (at.0, at.1)).clips;
            let c = model::clip_at(p, at);
            let q = model::with_clips(p, (at.0, at.1), clips.remove(at.2));
            lemma_frame_with(p, at.0, at.1, clips.remove(at.2));
            reveal(same_frame);
            let moved = ClipV { start: to_start, ..c };
            lemma_frame_with(q, to.0, to.1, action::put_in(model::track_at(q, to).clips, moved));
        },
        ActionV::SetClipSpeed { clip_id, speed, duration } => {
            laws::lemma_clip_found(p, clip_id);
            let at = model::clip_place(p, clip_id)->Some_0;
            let clips = model::track_at(p, (at.0, at.1)).clips;
            let changed = ClipV { speed, duration, ..model::clip_at(p, at) };
            lemma_frame_with(p, at.0, at.1, clips.update(at.2, changed));
        },
        _ => {},
    }
}

/// Whether an action of a list brings a clip with an identifier.
spec fn brought_by(actions: Seq<ActionV>, id: Id) -> bool {
    exists|i: int, x: ClipV|
        0 <= i < actions.len() && x.id == id && #[trigger] stock::brought(actions[i], x)
}

spec fn has_id(p: ProjectV, id: Id) -> bool {
    exists|x: ClipV| #[trigger] stock::in_project(p, x) && x.id == id
}

proof fn lemma_run(p: ProjectV, actions: Seq<ActionV>, id: Id)
    requires
        forall|i: int| 0 <= i < actions.len() ==> stock::edits(#[trigger] actions[i]),
        laws::run(p, actions) is Ok,
    ensures
        same_frame(p, laws::run(p, actions)->Ok_0.0),
        has_id(laws::run(p, actions)->Ok_0.0, id) ==> has_id(p, id) || brought_by(actions, id),
    decreases actions.len(),
{
    if actions.len() == 0 {
        reveal(same_frame);
    } else {
        let rest = actions.drop_last();
        let n = actions.len() - 1;
        assert forall|i: int| 0 <= i < rest.len() implies stock::edits(#[trigger] rest[i]) by {
            assert(rest[i] == actions[i]);
        }
        lemma_run(p, rest, id);
        let m = laws::run(p, rest)->Ok_0.0;
        let q = laws::run(p, actions)->Ok_0.0;
        let a = actions.last();
        assert(actions[n] == a);
        lemma_frame_step(m, a);
        assert(same_frame(p, q)) by {
            reveal(same_frame);
        }
        if has_id(q, id) {
            let x = choose|x: ClipV| #[trigger] stock::in_project(q, x) && x.id == id;
            stock::lemma_id_comes(m, a, x);
            if stock::brought(a, x) {
                assert(stock::brought(actions[n], x));
            } else {
                let y = choose|y: ClipV| #[trigger] stock::in_project(m, y) && y.id == x.id;
                assert(has_id(m, id));
                if brought_by(rest, id) {
                    let (i, z) = choose|i: int, z: ClipV|
                        0 <= i < rest.len() && z.id == id && #[trigger] stock::brought(rest[i], z);
                    assert(stock::brought(actions[i], z));
                }
            }
        }
    }
}

proof fn lemma_has_id(p: ProjectV, id: Id)
    ensures
        some_clip(p.sequences, id) <==> has_id(p, id),
{
    if some_clip(p.sequences, id) {
        let s = choose|s: int| #[trigger] clip_at(p.sequences, s, id);
        let (t, i) = choose|t: int, i: int| #[trigger] clip_there(p.sequences[s].tracks, t, i, id);
        let x = p.sequences[s].tracks[t].clips[i];
        assert(stock::clip_is(p, s, t, i, x));
        assert(stock::in_project(p, x));
    }
    if has_id(p, id) {
        let x = choose|x: ClipV| #[trigger] stock::in_project(p, x) && x.id == id;
        let (s, t, i) = choose|s: int, t: int, i: int| #[trigger] stock::clip_is(p, s, t, i, x);
        assert(clip_there(p.sequences[s].tracks, t, i, id));
        assert(clip_at(p.sequences, s, id));
    }
}

// ---- the law ----

/// Whether something that is not a clip has an identifier.
pub open spec fn framed(p: ProjectV, id: Id) -> bool {
    ||| p.id == id
    ||| seqs::holds(p.assets, id)
    ||| seqs::holds(p.transcripts, id)
    ||| seqs::holds(p.sequences, id)
    ||| !laws::fresh_track(p, id)
}

/// Whether the clips that actions bring have identifiers that nothing but a
/// clip has.
pub open spec fn apart(p: ProjectV, actions: Seq<ActionV>) -> bool {
    forall|i: int, x: ClipV|
        0 <= i < actions.len() && #[trigger] stock::brought(actions[i], x) ==> !framed(p, x.id)
}

/// Clips that replace others have identifiers of their own, where the supply
/// holds none that something other than a clip has.
pub proof fn law_new_supply_is_apart(p: ProjectV, actions: Seq<ActionV>, ids: Seq<Id>)
    requires
        undoing::from_supply(actions, ids),
        forall|k: int| 0 <= k < ids.len() ==> !framed(p, #[trigger] ids[k]),
        forall|i: int, x: ClipV|
            0 <= i < actions.len() && actions[i] is InsertClip && #[trigger] stock::brought(
                actions[i],
                x,
            ) ==> !framed(p, x.id),
    ensures
        apart(p, actions),
{
    assert forall|i: int, x: ClipV|
        0 <= i < actions.len() && #[trigger] stock::brought(actions[i], x) implies !framed(
        p,
        x.id,
    ) by {
        if !(actions[i] is InsertClip) {
            let k = choose|k: int| 0 <= k < ids.len() && ids[k] == x.id;
            assert(!framed(p, ids[k]));
        }
    }
}

/// The identifiers of a project but for its sequences, tracks and clips.
spec fn head_ids(p: ProjectV) -> Names {
    seq![(p.id, "project"@)] + p.assets.map_values(|a: MediaAsset| (a.id, "asset"@))
        + p.transcripts.map_values(|t: TranscriptV| (t.id, "transcript"@))
}

proof fn lemma_head(p: ProjectV, id: Id)
    requires
        met(head_ids(p), id),
    ensures
        framed(p, id),
{
    let one = seq![(p.id, "project"@)];
    let assets = p.assets.map_values(|a: MediaAsset| (a.id, "asset"@));
    let docs = p.transcripts.map_values(|t: TranscriptV| (t.id, "transcript"@));
    lemma_one((p.id, "project"@), id);
    lemma_met(one, assets, id);
    lemma_met(one + assets, docs, id);
    seqs::lemma_pos(p.assets, id);
    seqs::lemma_pos(p.transcripts, id);
    if met(assets, id) {
        let i = choose|i: int| 0 <= i < assets.len() && (#[trigger] assets[i]).0 == id;
        assert(p.assets[i].ident() == id);
    }
    if met(docs, id) {
        let i = choose|i: int| 0 <= i < docs.len() && (#[trigger] docs[i]).0 == id;
        assert(p.transcripts[i].ident() == id);
    }
}

proof fn lemma_framed(p: ProjectV, id: Id)
    ensures
        some_sequence(p.sequences, id) || some_track(p.sequences, id) ==> framed(p, id),
{
    if some_sequence(p.sequences, id) {
        let s = choose|s: int| 0 <= s < p.sequences.len() && (#[trigger] p.sequences[s]).id == id;
        seqs::lemma_pos(p.sequences, id);
        assert(p.sequences[s].ident() == id);
    }
    if some_track(p.sequences, id) {
        let s = choose|s: int| #[trigger] track_at(p.sequences, s, id);
        let tracks = p.sequences[s].tracks;
        let t = choose|t: int| 0 <= t < tracks.len() && (#[trigger] tracks[t]).id == id;
        assert(laws::has_track(p, s, t, id));
    }
}

proof fn lemma_same_names(p: ProjectV, q: ProjectV, id: Id)
    requires
        same_frame(p, q),
    ensures
        some_sequence(q.sequences, id) ==> some_sequence(p.sequences, id),
        some_track(q.sequences, id) ==> some_track(p.sequences, id),
{
    reveal(same_frame);
    if some_sequence(q.sequences, id) {
        let s = choose|s: int| 0 <= s < q.sequences.len() && (#[trigger] q.sequences[s]).id == id;
        assert(p.sequences[s].id == id);
    }
    if some_track(q.sequences, id) {
        let s = choose|s: int| #[trigger] track_at(q.sequences, s, id);
        let tracks = q.sequences[s].tracks;
        let t = choose|t: int| 0 <= t < tracks.len() && (#[trigger] tracks[t]).id == id;
        assert(p.sequences[s].tracks[t].id == id);
        assert(on_track(p.sequences[s].tracks, id));
        assert(track_at(p.sequences, s, id));
    }
}

proof fn lemma_own(p: ProjectV)
    requires
        laws::sound(p),
        forall|id: Id| #[trigger] one_kind(p.sequences, id),
    ensures
        own_all(p.sequences),
{
    let list = p.sequences;
    assert forall|a: int, b: int, id: Id|
        #[trigger] track_at(list, a, id) && #[trigger] track_at(list, b, id) implies a == b by {
        let x = list[a].tracks;
        let y = list[b].tracks;
        let t = choose|t: int| 0 <= t < x.len() && (#[trigger] x[t]).id == id;
        let u = choose|u: int| 0 <= u < y.len() && (#[trigger] y[u]).id == id;
        assert(laws::has_track(p, a, t, id) && laws::has_track(p, b, u, id));
    }
    assert forall|a: int, b: int, id: Id|
        #[trigger] clip_at(list, a, id) && #[trigger] clip_at(list, b, id) implies a == b by {
        let (t, i) = choose|t: int, i: int| #[trigger] clip_there(list[a].tracks, t, i, id);
        let (u, j) = choose|u: int, j: int| #[trigger] clip_there(list[b].tracks, u, j, id);
        assert(laws::has_clip(p, a, t, i, id) && laws::has_clip(p, b, u, j, id));
    }
    assert forall|s: int| 0 <= s < list.len() implies own_names((#[trigger] list[s]).tracks) by {
        let tracks = list[s].tracks;
        assert forall|a: int, b: int|
            0 <= a < tracks.len() && 0 <= b < tracks.len() && (#[trigger] tracks[a]).id == (
            #[trigger] tracks[b]).id implies a == b by {
            assert(laws::has_track(p, s, a, tracks[a].id) && laws::has_track(p, s, b, tracks[a].id));
        }
        assert forall|a: int, i: int, b: int, j: int, id: Id|
            #[trigger] clip_there(tracks, a, i, id) && #[trigger] clip_there(
                tracks,
                b,
                j,
                id,
            ) implies a == b && i == j by {
            assert(laws::has_clip(p, s, a, i, id) && laws::has_clip(p, s, b, j, id));
        }
        assert forall|id: Id| !(#[trigger] on_track(tracks, id) && on_clip(tracks, id)) by {
            if on_track(tracks, id) && on_clip(tracks, id) {
                assert(track_at(list, s, id) && clip_at(list, s, id));
                assert(one_kind(list, id));
            }
        }
    }
}

/// Identifiers stay different.
proof fn lemma_stay_different(p: ProjectV, q: ProjectV, actions: Seq<ActionV>)
    requires
        all_different(validate::all_ids(p)),
        forall|i: int| 0 <= i < actions.len() ==> stock::edits(#[trigger] actions[i]),
        laws::run(p, actions) is Ok,
        laws::run(p, actions)->Ok_0.0 == q,
        laws::sound(q),
        apart(p, actions),
    ensures
        all_different(validate::all_ids(q)),
{
    let before = validate::sequence_ids(p.sequences);
    let after = validate::sequence_ids(q.sequences);
    assert(validate::all_ids(p) =~= head_ids(p) + before);
    assert(validate::all_ids(q) =~= head_ids(q) + after);
    lemma_run(p, actions, p.id);
    assert(head_ids(q) == head_ids(p)) by {
        reveal(same_frame);
    }
    lemma_joined(head_ids(p), before);
    assert forall|id: Id| some_clip(q.sequences, id) implies (some_clip(p.sequences, id) || !framed(
        p,
        id,
    )) by {
        lemma_has_id(p, id);
        lemma_has_id(q, id);
        lemma_run(p, actions, id);
        if brought_by(actions, id) {
            let (i, x) = choose|i: int, x: ClipV|
                0 <= i < actions.len() && x.id == id && #[trigger] stock::brought(actions[i], x);
            assert(!framed(p, x.id));
        }
    }
    assert forall|id: Id| #[trigger] one_kind(q.sequences, id) by {
        lemma_sequences_own(p.sequences, id);
        lemma_same_names(p, q, id);
        lemma_framed(p, id);
    }
    lemma_own(q);
    lemma_sequences_different(q.sequences);
    assert forall|id: Id| !(#[trigger] met(head_ids(q), id) && met(after, id)) by {
        lemma_sequence_ids(q.sequences, id);
        lemma_sequence_ids(p.sequences, id);
        lemma_same_names(p, q, id);
        if met(head_ids(p), id) {
            lemma_head(p, id);
        }
    }
    lemma_joined(head_ids(q), after);
}

proof fn lemma_valid_stocked(p: ProjectV)
    requires
        validate::issues_of(p).len() == 0,
    ensures
        stock::stocked(p),
{
    validate::law_no_issues_if_valid(p);
    reveal(stock::stocked);
    assert forall|x: ClipV| #[trigger] stock::in_project(p, x) implies validate::valid_clip(p, x) by {
        let (s, t, i) = choose|s: int, t: int, i: int| #[trigger] stock::clip_is(p, s, t, i, x);
        assert(validate::valid_sequence(p, p.sequences[s]));
        assert(validate::valid_track(p, p.sequences[s].tracks[t]));
        assert(validate::valid_clip(p, p.sequences[s].tracks[t].clips[i]));
    }
}

proof fn lemma_stocked_filled(p: ProjectV)
    requires
        stock::stocked(p),
    ensures
        undoing::filled(p),
{
    reveal(stock::stocked);
    assert forall|s: int, t: int, c: int| #[trigger]
        laws::has_clip(p, s, t, c, model::clip_at(p, (s, t, c)).id) implies !action::empty_source(
        model::clip_at(p, (s, t, c)).payload,
    ) by {
        let x = model::clip_at(p, (s, t, c));
        assert(stock::clip_is(p, s, t, c, x));
        assert(stock::in_project(p, x));
    }
}

/// Where `validate` finds nothing amiss in a project, it finds nothing after an
/// operation that can be undone, as long as the operation keeps to the material
/// of the clips and brings clips with identifiers of their own.
pub proof fn law_operations_keep_valid(p: ProjectV, plan: PlanV)
    requires
        validate::issues_of(p).len() == 0,
        undoing::restores(p, plan),
        stock::in_reach_run(p, plan.actions),
        apart(p, plan.actions),
    ensures
        validate::issues_of(plan.proj).len() == 0,
{
    let q = plan.proj;
    validate::law_no_issues_if_valid(p);
    lemma_valid_stocked(p);
    lemma_stay_different(p, q, plan.actions);
    lemma_run(p, plan.actions, p.id);
    assert forall|s: int| 0 <= s < q.sequences.len() implies validate::valid_sequence(
        q,
        #[trigger] q.sequences[s],
    ) by {
        assert(q.sequences[s].fps.0 != 0 && q.sequences[s].fps.1 != 0) by {
            reveal(same_frame);
            assert(validate::valid_sequence(p, p.sequences[s]));
        }
        let tracks = q.sequences[s].tracks;
        assert forall|t: int| 0 <= t < tracks.len() implies validate::valid_track(
            q,
            #[trigger] tracks[t],
        ) by {
            validate::law_sound_is_in_order(q, s, t);
            assert forall|i: int| 0 <= i < tracks[t].clips.len() implies validate::valid_clip(
                q,
                #[trigger] tracks[t].clips[i],
            ) by {
                reveal(stock::stocked);
                let x = tracks[t].clips[i];
                assert(stock::clip_is(q, s, t, i, x));
                assert(stock::in_project(q, x));
            }
        }
    }
    validate::law_no_issues_if_valid(q);
}

// ---- clips with those linked to them ----

/// Whether an action leaves the sources, or bounds a clip within its material.
spec fn modest(p: ProjectV, a: ActionV) -> bool {
    stock::leaves_sources(a) || (a is SetClipBounds && stock::will_fit(p, a))
}

proof fn lemma_in_reach_later(q: ProjectV, p: ProjectV, a: ActionV)
    requires
        stock::descends(q, p),
        modest(p, a),
    ensures
        stock::in_reach(q, a),
{
    reveal(stock::descends);
    if let ActionV::SetClipBounds { clip_id, start, duration, src_in, src_out: Some(end) } = a {
        let y = choose|y: ClipV|
            #[trigger] stock::in_project(p, y) && y.id == clip_id && stock::both_ends(
                y,
                src_in,
                Some(end),
            ) && validate::valid_source(p, stock::with_part(y, src_in, Some(end)));
        assert forall|x: ClipV|
            #[trigger] stock::in_project(q, x) && x.id == clip_id implies stock::reaches(
            q,
            x.payload,
            end,
        ) by {
            assert(stock::alike(x.payload, y.payload));
        }
    }
}

proof fn lemma_modest_run(p: ProjectV, actions: Seq<ActionV>)
    requires
        laws::unique_clips(p),
        stock::stocked(p),
        forall|i: int| 0 <= i < actions.len() ==> modest(p, #[trigger] actions[i]),
        laws::run(p, actions) is Ok,
    ensures
        stock::stocked(laws::run(p, actions)->Ok_0.0),
        stock::descends(laws::run(p, actions)->Ok_0.0, p),
        stock::in_reach_run(p, actions),
    decreases actions.len(),
{
    if actions.len() == 0 {
        stock::lemma_descends_self(p);
    } else {
        let rest = actions.drop_last();
        assert forall|i: int| 0 <= i < rest.len() implies modest(p, #[trigger] rest[i]) by {
            assert(rest[i] == actions[i]);
        }
        lemma_modest_run(p, rest);
        let m = laws::run(p, rest)->Ok_0.0;
        let a = actions.last();
        assert(modest(p, actions[actions.len() - 1]));
        if stock::leaves_sources(a) {
            stock::lemma_leaving_fits(m, a);
        } else {
            stock::lemma_fits_later(m, p, a);
        }
        stock::lemma_stays_stocked(m, a);
        stock::lemma_still_descends(m, p, a);
        lemma_in_reach_later(m, p, a);
    }
}

/// Modest actions that can be undone keep a project valid.
proof fn lemma_modest_valid(p: ProjectV, actions: Seq<ActionV>)
    requires
        laws::sound(p),
        validate::issues_of(p).len() == 0,
        laws::admissible_run(p, actions),
        stock::stocked(p) ==> forall|i: int|
            0 <= i < actions.len() ==> modest(p, #[trigger] actions[i]),
        laws::run(p, actions) is Ok,
    ensures
        validate::issues_of(laws::run(p, actions)->Ok_0.0).len() == 0,
{
    let plan = PlanV { proj: laws::run(p, actions)->Ok_0.0, actions };
    lemma_valid_stocked(p);
    lemma_modest_run(p, actions);
    laws::law_transaction_undoes(p, actions);
    assert forall|i: int| 0 <= i < actions.len() implies stock::edits(#[trigger] actions[i]) by {
        assert(modest(p, actions[i]));
    }
    assert forall|i: int, x: ClipV|
        0 <= i < actions.len() && #[trigger] stock::brought(actions[i], x) implies !framed(
        p,
        x.id,
    ) by {
        assert(modest(p, actions[i]));
    }
    law_operations_keep_valid(p, plan);
}

proof fn lemma_gathered(list: Seq<(bool, Result<PlanV, ErrV>)>, a: ActionV)
    requires
        store::gathered(list) is Ok,
        store::gathered(list)->Ok_0.contains(a),
    ensures
        exists|k: int|
            0 <= k < list.len() && (#[trigger] list[k]).1 is Ok
                && list[k].1->Ok_0.actions.contains(a),
    decreases list.len(),
{
    if list.len() > 0 {
        let rest = list.drop_last();
        let before = store::gathered(rest)->Ok_0;
        let all = store::gathered(list)->Ok_0;
        let i = choose|i: int| 0 <= i < all.len() && all[i] == a;
        if i < before.len() {
            assert(before[i] == a);
            lemma_gathered(rest, a);
            let k = choose|k: int|
                0 <= k < rest.len() && (#[trigger] rest[k]).1 is Ok
                    && rest[k].1->Ok_0.actions.contains(a);
            assert(list[k] == rest[k]);
        } else {
            let n = list.len() - 1;
            assert(list[n].1->Ok_0.actions[i - before.len()] == a);
            assert(list[n].1 is Ok);
        }
    }
}

/// What a trim asks for is modest.
proof fn lemma_trim_modest(p: ProjectV, g: Id, left: bool, edge: TimeUs, a: ActionV)
    requires
        laws::sound(p),
        stock::stocked(p),
        ops::trim_spec(p, g, left, edge) is Ok,
        ops::trim_spec(p, g, left, edge)->Ok_0.actions.contains(a),
    ensures
        modest(p, a),
{
    reveal(ops::planned);
    laws::lemma_clip_found(p, g);
    let at = model::clip_place(p, g)->Some_0;
    let c = model::clip_at(p, at);
    let fps = p.sequences[at.0].fps;
    let limits = ops::trim_limits(p, c, left, time::frame_length(fps));
    let to = ops::clamped(time::quantized(edge, fps), limits.0, limits.1);
    stock::lemma_trim_fits(p, at, left, to);
}

/// Trimming a clip with those linked to it keeps a valid project valid.
pub proof fn law_linked_trim_keeps_valid(p: ProjectV, clip_id: Id, left: bool, edge: TimeUs)
    requires
        laws::sound(p),
        validate::issues_of(p).len() == 0,
    ensures
        match store::gathered(store::trims(p, clip_id, left, edge)) {
            Ok(actions) => match laws::run(p, actions) {
                Ok(x) => validate::issues_of(x.0).len() == 0,
                Err(e) => true,
            },
            Err(e) => true,
        },
{
    let list = store::trims(p, clip_id, left, edge);
    if let Ok(actions) = store::gathered(list) {
        lemma_valid_stocked(p);
        lemma_stocked_filled(p);
        undoing::law_linked_trim_restores(p, clip_id, left, edge);
        if stock::stocked(p) {
            assert forall|i: int| 0 <= i < actions.len() implies modest(
                p,
                #[trigger] actions[i],
            ) by {
                assert(actions.contains(actions[i]));
                lemma_gathered(list, actions[i]);
                let k = choose|k: int|
                    0 <= k < list.len() && (#[trigger] list[k]).1 is Ok
                        && list[k].1->Ok_0.actions.contains(actions[i]);
                lemma_trim_modest(p, ops::linked(p, clip_id)[k], left, edge, actions[i]);
            }
        }
        if laws::run(p, actions) is Ok {
            lemma_modest_valid(p, actions);
        }
    }
}

/// Changing the speed of a clip with those linked to it keeps a valid project
/// valid, where clips end within the range of times.
pub proof fn law_linked_speed_keeps_valid(p: ProjectV, clip_id: Id, speed: Real)
    requires
        laws::sound(p),
        validate::issues_of(p).len() == 0,
    ensures
        match store::gathered(store::speeds(p, clip_id, speed)) {
            Ok(actions) => match laws::run(p, actions) {
                Ok(x) => undoing::feasible_run(p, actions) ==> validate::issues_of(x.0).len() == 0,
                Err(e) => true,
            },
            Err(e) => true,
        },
{
    let list = store::speeds(p, clip_id, speed);
    if let Ok(actions) = store::gathered(list) {
        undoing::law_linked_speed_restores(p, clip_id, speed);
        assert forall|i: int| 0 <= i < actions.len() implies modest(p, #[trigger] actions[i]) by {
            assert(actions.contains(actions[i]));
            lemma_gathered(list, actions[i]);
            let k = choose|k: int|
                0 <= k < list.len() && (#[trigger] list[k]).1 is Ok
                    && list[k].1->Ok_0.actions.contains(actions[i]);
            reveal(ops::planned);
        }
        if laws::run(p, actions) is Ok && undoing::feasible_run(p, actions) {
            lemma_modest_valid(p, actions);
        }
    }
}

// ---- splitting and deleting ----

/// Whether an action leaves the sources, or replaces clips by others.
spec fn plain(a: ActionV) -> bool {
    a is ReplaceClips || stock::leaves_sources(a)
}

spec fn all_plain(actions: Seq<ActionV>) -> bool {
    forall|i: int| 0 <= i < actions.len() ==> plain(#[trigger] actions[i])
}

/// Actions that leave the sources, and bring nothing, keep to the material.
proof fn lemma_plain_reach(p: ProjectV, actions: Seq<ActionV>, ids: Seq<Id>)
    requires
        all_plain(actions),
        undoing::from_supply(actions, ids),
        ids.len() == 0,
    ensures
        stock::in_reach_run(p, actions),
    decreases actions.len(),
{
    if actions.len() > 0 {
        let rest = actions.drop_last();
        let n = actions.len() - 1;
        assert forall|i: int| 0 <= i < rest.len() implies plain(#[trigger] rest[i]) by {
            assert(rest[i] == actions[i]);
        }
        assert forall|i: int, x: ClipV|
            0 <= i < rest.len() && !(rest[i] is InsertClip) && #[trigger] stock::brought(
                rest[i],
                x,
            ) implies ids.contains(x.id) by {
            assert(rest[i] == actions[i]);
            assert(stock::brought(actions[i], x));
        }
        lemma_plain_reach(p, rest, ids);
        assert(plain(actions[n]));
        if let ActionV::ReplaceClips { track_id, remove_ids, insert } = actions[n] {
            if insert.len() > 0 {
                assert(insert.contains(insert[0]));
                assert(stock::brought(actions[n], insert[0]));
            }
        }
    }
}

proof fn lemma_plain_list(plan: PlanV, list: Seq<ActionV>)
    requires
        all_plain(plan.actions),
        all_plain(list),
        ops::planned_all(plan, list) is Ok,
    ensures
        all_plain(ops::planned_all(plan, list)->Ok_0.actions),
    decreases list.len(),
{
    if list.len() > 0 {
        let rest = list.drop_first();
        assert forall|i: int| 0 <= i < rest.len() implies plain(#[trigger] rest[i]) by {
            assert(rest[i] == list[i + 1]);
        }
        assert(plain(list[0]));
        ops::lemma_planned_actions(plan, list[0]);
        lemma_plain_list(ops::planned(plan, list[0])->Ok_0, rest);
    }
}

proof fn lemma_plain_cut(
    plan: PlanV,
    used: nat,
    primary: Option<(Id, Id)>,
    group: Seq<Id>,
    clip_id: Id,
    t: TimeUs,
    new_group: Option<Id>,
    ids: Seq<Id>,
)
    requires
        all_plain(plan.actions),
        ops::cut_linked(plan, used, primary, group, clip_id, t, new_group, ids) is Ok,
    ensures
        all_plain(
            ops::cut_linked(plan, used, primary, group, clip_id, t, new_group, ids)->Ok_0.0.actions,
        ),
    decreases group.len(),
{
    if group.len() > 0 {
        let x = ops::cut_one(plan, used, primary, group[0], clip_id, t, new_group, ids)->Ok_0;
        assert(all_plain(x.0.actions)) by {
            reveal(ops::planned);
        }
        lemma_plain_cut(x.0, x.1, x.2, group.drop_first(), clip_id, t, new_group, ids);
    }
}

/// A split keeps a valid project valid, where no piece is left without
/// material, and the identifiers are new.
pub proof fn law_split_keeps_valid(p: ProjectV, clip_id: Id, t: TimeUs, ids: Seq<Id>)
    requires
        laws::sound(p),
        validate::issues_of(p).len() == 0,
        undoing::new_ids(p, ids),
        forall|k: int| 0 <= k < ids.len() ==> !framed(p, #[trigger] ids[k]),
    ensures
        match ops::split_spec(p, clip_id, t, ids) {
            Ok(x) => undoing::ready(p, x.0, ids) && stock::in_reach_run(p, x.0.actions)
                ==> validate::issues_of(x.0.proj).len() == 0,
            Err(e) => true,
        },
{
    if let Ok(x) = ops::split_spec(p, clip_id, t, ids) {
        if undoing::ready(p, x.0, ids) && stock::in_reach_run(p, x.0.actions) {
            undoing::law_split_restores(p, clip_id, t, ids);
            let at = model::clip_place(p, clip_id)->Some_0;
            let q = time::quantized(t, p.sequences[at.0].fps);
            let group = ops::linked(p, clip_id);
            let used: nat = if group.len() > 1 {
                1
            } else {
                0
            };
            let new_group = if group.len() > 1 {
                Some(ids[0])
            } else {
                None
            };
            lemma_plain_cut(ops::start_plan(p), used, None, group, clip_id, q, new_group, ids);
            lemma_plain_valid(p, x.0, ids);
        }
    }
}

proof fn lemma_plain_valid(p: ProjectV, plan: PlanV, ids: Seq<Id>)
    requires
        validate::issues_of(p).len() == 0,
        undoing::restores(p, plan),
        undoing::from_supply(plan.actions, ids),
        forall|k: int| 0 <= k < ids.len() ==> !framed(p, #[trigger] ids[k]),
        all_plain(plan.actions),
        stock::in_reach_run(p, plan.actions),
    ensures
        validate::issues_of(plan.proj).len() == 0,
{
    assert forall|i: int, x: ClipV|
        0 <= i < plan.actions.len() && plan.actions[i] is InsertClip && #[trigger] stock::brought(
            plan.actions[i],
            x,
        ) implies !framed(p, x.id) by {
        assert(plain(plan.actions[i]));
    }
    law_new_supply_is_apart(p, plan.actions, ids);
    law_operations_keep_valid(p, plan);
}

proof fn lemma_gaps_plain(clips: Seq<ClipV>, gaps: Seq<(TimeUs, TimeUs)>)
    ensures
        all_plain(ops::close_gaps(clips, gaps)),
    decreases clips.len(),
{
    if clips.len() > 0 {
        lemma_gaps_plain(clips.drop_last(), gaps);
    }
}

proof fn lemma_plain_delete(
    plan: PlanV,
    p: ProjectV,
    order: Seq<Id>,
    list: Seq<Id>,
    tracks: Seq<Id>,
    ripple: bool,
)
    requires
        all_plain(plan.actions),
        ops::delete_tracks(plan, p, order, list, tracks, ripple) is Ok,
    ensures
        all_plain(ops::delete_tracks(plan, p, order, list, tracks, ripple)->Ok_0.actions),
    decreases order.len(),
{
    if order.len() > 0 {
        reveal(ops::delete_on);
        let here = ops::ids_on(list, tracks, order[0]);
        let removals = here.map_values(|id: Id| ActionV::RemoveClip { clip_id: id });
        let gaps = action::sorted_ranges(
            here.map_values(|id: Id| ops::range_of(ops::clips_on(p, order[0]), id)),
        );
        lemma_plain_list(plan, removals);
        let q = ops::planned_all(plan, removals)->Ok_0;
        if ripple {
            let clips = ops::clips_on(q.proj, order[0]);
            lemma_gaps_plain(clips, gaps);
            lemma_plain_list(q, ops::close_gaps(clips, gaps));
        }
        let next = ops::delete_on(plan, p, order[0], here, ripple)->Ok_0;
        lemma_plain_delete(next, p, order.drop_first(), list, tracks, ripple);
    }
}

/// A deletion keeps a valid project valid.
pub proof fn law_delete_keeps_valid(p: ProjectV, list: Seq<Id>, ripple: bool)
    requires
        laws::sound(p),
        validate::issues_of(p).len() == 0,
    ensures
        match ops::delete_spec(p, list, ripple) {
            Ok(x) => validate::issues_of(x.proj).len() == 0,
            Err(e) => true,
        },
{
    if let Ok(x) = ops::delete_spec(p, list, ripple) {
        undoing::law_delete_restores(p, list, ripple);
        let all = ops::with_linked(p, list, list.len());
        let tracks = ops::tracks_of(p, all)->Ok_0;
        lemma_plain_delete(ops::start_plan(p), p, ops::ordered_ids(tracks), all, tracks, ripple);
        lemma_plain_reach(p, x.actions, Seq::<Id>::empty());
        lemma_plain_valid(p, x, Seq::<Id>::empty());
    }
}

// ---- a row of operations ----

/// The plan that a transaction comes to.
pub open spec fn plan_of(p: ProjectV, actions: Seq<ActionV>) -> PlanV {
    PlanV { proj: laws::run(p, actions)->Ok_0.0, actions }
}

/// Whether each transaction of a row that goes through can be undone, keeps to
/// the material of the clips, and brings clips with identifiers of their own.
pub open spec fn row_keeps(s: StoreV, row: Seq<(Seq<char>, Seq<ActionV>)>) -> bool
    decreases row.len(),
{
    if row.len() == 0 {
        true
    } else {
        let p = undoing::after_row(s, row.drop_last()).project;
        let actions = row.last().1;
        &&& row_keeps(s, row.drop_last())
        &&& laws::run(p, actions) is Ok ==> undoing::restores(p, plan_of(p, actions))
            && stock::in_reach_run(p, actions) && apart(p, actions)
    }
}

/// However many operations are done, whether they go through or are refused,
/// `validate` finds nothing amiss where it found nothing before the first.
pub proof fn law_rows_keep_valid(s: StoreV, row: Seq<(Seq<char>, Seq<ActionV>)>)
    requires
        validate::issues_of(s.project).len() == 0,
        row_keeps(s, row),
    ensures
        validate::issues_of(undoing::after_row(s, row).project).len() == 0,
    decreases row.len(),
{
    if row.len() > 0 {
        law_rows_keep_valid(s, row.drop_last());
        let p = undoing::after_row(s, row.drop_last()).project;
        let actions = row.last().1;
        if laws::run(p, actions) is Ok {
            law_operations_keep_valid(p, plan_of(p, actions));
        }
    }
}

} // verus!
