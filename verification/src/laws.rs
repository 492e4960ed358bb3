//! What holds of every action: a sound project stays sound, and the inverse of
//! an action brings back exactly the project before it.

use vstd::prelude::*;

use crate::action;
use crate::action::ActionV;
use crate::error::ErrV;
use crate::float::Real;
use crate::ident::Id;
use crate::keyframe;
use crate::keyframe::ParamV;
use crate::model;
use crate::model::{ClipV, EffectV, PayloadV, ProjectV, SequenceV, TrackKind, TrackV, TranscriptV, TransformV, WordV};
use crate::seqs;
use crate::seqs::Ident;
use crate::strmap;
use crate::text;
use crate::time;
use crate::time::TimeUs;

verus! {

/// Whether there is a track with an identifier at the given indices.
pub open spec fn has_track(p: ProjectV, s: int, t: int, id: Id) -> bool {
    0 <= s < p.sequences.len() && 0 <= t < p.sequences[s].tracks.len()
        && p.sequences[s].tracks[t].id == id
}

/// Whether there is a clip with an identifier at the given indices.
pub open spec fn has_clip(p: ProjectV, s: int, t: int, c: int, id: Id) -> bool {
    0 <= s < p.sequences.len() && 0 <= t < p.sequences[s].tracks.len() && 0 <= c
        < p.sequences[s].tracks[t].clips.len() && p.sequences[s].tracks[t].clips[c].id == id
}

/// Whether no two sequences share an identifier.
pub open spec fn unique_sequences(p: ProjectV) -> bool {
    forall|i: int, j: int|
        0 <= i < p.sequences.len() && 0 <= j < p.sequences.len() && (#[trigger] p.sequences[i]).id
            == (#[trigger] p.sequences[j]).id ==> i == j
}

/// Whether no two tracks share an identifier.
pub open spec fn unique_tracks(p: ProjectV) -> bool {
    forall|a: int, b: int, c: int, d: int, id: Id|
        #[trigger] has_track(p, a, b, id) && #[trigger] has_track(p, c, d, id) ==> a == c && b == d
}

/// Whether no two clips share an identifier.
pub open spec fn unique_clips(p: ProjectV) -> bool {
    forall|a: int, b: int, c: int, d: int, e: int, f: int, id: Id|
        #[trigger] has_clip(p, a, b, c, id) && #[trigger] has_clip(p, d, e, f, id) ==> a == d && b
            == e && c == f
}

/// Whether the clips follow each other without sharing an instant.
pub open spec fn in_line(clips: Seq<ClipV>) -> bool {
    &&& forall|i: int| 0 <= i < clips.len() ==> lasting(#[trigger] clips[i])
    &&& forall|i: int, j: int|
        0 <= i < j < clips.len() ==> (#[trigger] clips[i]).finish() <= (#[trigger] clips[j]).start
}

/// Whether a clip takes up time, and ends within the range of times.
pub open spec fn lasting(c: ClipV) -> bool {
    c.duration > 0 && c.start + c.duration <= i64::MAX
}

/// Whether two clips share no instant.
pub open spec fn apart(a: ClipV, b: ClipV) -> bool {
    a.finish() <= b.start || b.finish() <= a.start
}

/// Whether a clip takes up time within the range of times, and plays forward.
pub open spec fn sound_clip(c: ClipV) -> bool {
    lasting(c) && !c.speed.at_most(Real::of(0))
}

/// Whether the curves, the name and the settings of a clip are as edits store
/// them.
pub open spec fn tidy_clip(c: ClipV) -> bool {
    &&& c.transform.tidy()
    &&& c.audio.tidy()
    &&& forall|i: int| 0 <= i < c.effects.len() ==> strmap::tidy_params((#[trigger] c.effects[i]).params)
    &&& match c.payload {
        PayloadV::Generator { generator_id, params, color_params } => strmap::tidy_params(params),
        PayloadV::Subtitles { transcript_id, style, mode, max_words } => action::word_cap(max_words)
            == max_words,
        _ => true,
    }
    &&& action::named(c.name) == c.name
}

/// Whether the clips of a track are in line, and each is sound and may stand
/// there.
pub open spec fn sound_track(p: ProjectV, t: TrackV) -> bool {
    &&& in_line(t.clips)
    &&& forall|i: int|
        0 <= i < t.clips.len() ==> sound_clip(#[trigger] t.clips[i]) && action::allowed_on(
            p,
            t.clips[i],
            t.kind,
        )
}

/// Whether all tracks of a sequence are sound, and an index can count them with
/// one more.
pub open spec fn sound_sequence(p: ProjectV, s: SequenceV) -> bool {
    &&& s.tracks.len() < usize::MAX
    &&& forall|t: int| 0 <= t < s.tracks.len() ==> sound_track(p, #[trigger] s.tracks[t])
}

/// A sound project: identifiers are unique, the active sequence exists, the
/// clips of each track follow each other, and each plays forward on a track that
/// takes it.
pub open spec fn sound(p: ProjectV) -> bool {
    &&& unique_sequences(p)
    &&& unique_tracks(p)
    &&& unique_clips(p)
    &&& seqs::holds(p.sequences, p.active_sequence)
    &&& forall|s: int| 0 <= s < p.sequences.len() ==> sound_sequence(p, #[trigger] p.sequences[s])
}

/// Whether no clip of the project has an identifier.
pub open spec fn fresh_clip(p: ProjectV, id: Id) -> bool {
    forall|s: int, t: int, c: int| !#[trigger] has_clip(p, s, t, c, id)
}

/// Whether no track of the project has an identifier.
pub open spec fn fresh_track(p: ProjectV, id: Id) -> bool {
    forall|s: int, t: int| !#[trigger] has_track(p, s, t, id)
}

/// Whether clips have different identifiers.
pub open spec fn different(clips: Seq<ClipV>) -> bool {
    forall|i: int, j: int|
        0 <= i < clips.len() && 0 <= j < clips.len() && (#[trigger] clips[i]).id == (
        #[trigger] clips[j]).id ==> i == j
}

/// Whether an action brings only sound parts with new identifiers into the
/// project, and what it takes away or changes could be asked for again: what
/// holds no material, for one, cannot.
pub open spec fn admissible(p: ProjectV, a: ActionV) -> bool {
    match a {
        ActionV::AddTrack { sequence_id, index, track } => {
            &&& fresh_track(p, track.id)
            &&& sound_track(p, track)
            &&& different(track.clips)
            &&& forall|i: int|
                0 <= i < track.clips.len() ==> fresh_clip(p, (#[trigger] track.clips[i]).id)
        },
        ActionV::InsertClip { track_id, clip } => sound_clip(clip) && fresh_clip(p, clip.id),
        ActionV::ReplaceClips { track_id, remove_ids, insert } => {
            &&& different(insert)
            &&& forall|i: int|
                0 <= i < insert.len() ==> sound_clip(#[trigger] insert[i]) && (remove_ids.contains(
                    insert[i].id,
                ) || fresh_clip(p, insert[i].id))
        },
        ActionV::SetClipBounds { clip_id, start, duration, src_in, src_out } => {
            &&& start + duration <= i64::MAX
            &&& match model::clip_place(p, clip_id) {
                Some(at) => !action::empty_source(model::clip_at(p, at).payload),
                None => true,
            }
        },
        ActionV::MoveClipToTrack { clip_id, to_track, to_start } => match model::clip_place(p, clip_id) {
            Some(at) => to_start + model::clip_at(p, at).duration <= i64::MAX,
            None => true,
        },
        ActionV::SetClipSpeed { clip_id, speed, duration } => match model::clip_place(p, clip_id) {
            Some(at) => model::clip_at(p, at).start + duration <= i64::MAX,
            None => true,
        },
        ActionV::AddSequence { sequence } => new_sequence(p, sequence),
        ActionV::RestoreSequence { index, sequence } => new_sequence(p, sequence),
        ActionV::RestoreAvatarConfig { index, config } => !seqs::holds(p.avatars, config.id),
        ActionV::RemoveClip { clip_id } => true,
        _ => reversible(p, a),
    }
}

/// Whether a sequence is sound, and its parts have identifiers that are new to
/// the project and differ from each other.
pub open spec fn new_sequence(p: ProjectV, sequence: SequenceV) -> bool {
    &&& !seqs::holds(p.sequences, sequence.id)
    &&& sound_sequence(p, sequence)
    &&& forall|i: int, j: int|
        0 <= i < sequence.tracks.len() && 0 <= j < sequence.tracks.len() && (
        #[trigger] sequence.tracks[i]).id == (#[trigger] sequence.tracks[j]).id ==> i == j
    &&& forall|i: int|
        0 <= i < sequence.tracks.len() ==> fresh_track(p, (#[trigger] sequence.tracks[i]).id)
    &&& new_clips(p, sequence)
}

/// Whether the clips of a sequence have identifiers that are new to the
/// project and differ from each other.
pub open spec fn new_clips(p: ProjectV, s: SequenceV) -> bool {
    &&& forall|t: int, c: int, id: Id|
        #![trigger seq_clip(s, t, c, id)]
        seq_clip(s, t, c, id) ==> fresh_clip(p, id)
    &&& forall|t: int, c: int, u: int, d: int, id: Id|
        #[trigger] seq_clip(s, t, c, id) && #[trigger] seq_clip(s, u, d, id) ==> t == u && c == d
}

/// Whether there is a clip with an identifier at the given indices of a
/// sequence.
pub open spec fn seq_clip(s: SequenceV, t: int, c: int, id: Id) -> bool {
    0 <= t < s.tracks.len() && 0 <= c < s.tracks[t].clips.len() && s.tracks[t].clips[c].id == id
}

/// A steady project: identifiers are unique, the active sequence exists, and the
/// clips of each track follow each other within the range of times.
pub open spec fn steady(p: ProjectV) -> bool {
    fit(false, p)
}

/// Whether a clip takes up time and, where that is asked, is sound and may stand
/// on a track of a kind.
pub open spec fn fit_clip(strict: bool, p: ProjectV, c: ClipV, kind: TrackKind) -> bool {
    lasting(c) && (strict ==> sound_clip(c) && action::allowed_on(p, c, kind))
}

/// Whether the clips of a track are in line and fit.
pub open spec fn fit_track(strict: bool, p: ProjectV, t: TrackV) -> bool {
    &&& in_line(t.clips)
    &&& forall|i: int| 0 <= i < t.clips.len() ==> fit_clip(strict, p, #[trigger] t.clips[i], t.kind)
}

/// Whether the tracks of a sequence fit and can be counted with one more.
pub open spec fn fit_sequence(strict: bool, p: ProjectV, s: SequenceV) -> bool {
    &&& s.tracks.len() < usize::MAX
    &&& forall|t: int| 0 <= t < s.tracks.len() ==> fit_track(strict, p, #[trigger] s.tracks[t])
}

/// Whether a project is steady and, where that is asked, sound.
pub open spec fn fit(strict: bool, p: ProjectV) -> bool {
    &&& unique_sequences(p)
    &&& unique_tracks(p)
    &&& unique_clips(p)
    &&& seqs::holds(p.sequences, p.active_sequence)
    &&& forall|s: int|
        0 <= s < p.sequences.len() ==> fit_sequence(strict, p, #[trigger] p.sequences[s])
}

/// Whether what an action takes away or changes could have been asked for: an
/// action that puts it back is not refused, and stores it as it was.
pub open spec fn reversible(p: ProjectV, a: ActionV) -> bool {
    match a {
        ActionV::AddTrack { sequence_id, index, track } => fresh_track(p, track.id),
        ActionV::InsertClip { track_id, clip } => lasting(clip) && fresh_clip(p, clip.id),
        ActionV::RemoveClip { clip_id } => match model::clip_place(p, clip_id) {
            Some(at) => in_place(p, at),
            None => true,
        },
        ActionV::ReplaceClips { track_id, remove_ids, insert } => {
            &&& different(insert)
            &&& forall|i: int|
                0 <= i < insert.len() ==> lasting(#[trigger] insert[i]) && (remove_ids.contains(
                    insert[i].id,
                ) || fresh_clip(p, insert[i].id))
            &&& forall|s: int, t: int, c: int, id: Id|
                #[trigger] has_clip(p, s, t, c, id) && remove_ids.contains(id) ==> in_place(
                    p,
                    (s, t, c),
                )
        },
        ActionV::SetClipBounds { clip_id, start, duration, src_in, src_out } => {
            &&& start + duration <= i64::MAX
            &&& match model::clip_place(p, clip_id) {
                Some(at) => !action::empty_source(model::clip_at(p, at).payload),
                None => true,
            }
        },
        ActionV::MoveClipToTrack { clip_id, to_track, to_start } => match model::clip_place(p, clip_id) {
            Some(at) => to_start + model::clip_at(p, at).duration <= i64::MAX && in_place(p, at),
            None => true,
        },
        ActionV::SetClipSpeed { clip_id, speed, duration } => match model::clip_place(p, clip_id) {
            Some(at) => {
                &&& model::clip_at(p, at).start + duration <= i64::MAX
                &&& !model::clip_at(p, at).speed.at_most(Real::of(0))
            },
            None => true,
        },
        ActionV::SetSequenceProps { sequence_id, resolution, fps } => {
            let s = p.sequences[seqs::pos(p.sequences, sequence_id) as int];
            seqs::holds(p.sequences, sequence_id) ==> s.resolution.0 >= 16 && s.resolution.1 >= 16
                && s.fps.0 != 0 && s.fps.1 != 0
        },
        ActionV::SetWordText { transcript_id, index, display } => {
            let d = p.transcripts[seqs::pos(p.transcripts, transcript_id) as int];
            seqs::holds(p.transcripts, transcript_id) && index < d.words.len()
                ==> action::correction(d.words[index as int].display, d.words[index as int].text)
                == d.words[index as int].display
        },
        ActionV::AddSequence { sequence } => !seqs::holds(p.sequences, sequence.id),
        ActionV::RestoreSequence { index, sequence } => !seqs::holds(p.sequences, sequence.id),
        ActionV::RestoreAvatarConfig { index, config } => !seqs::holds(p.avatars, config.id),
        _ => match edited(a) {
            Some(clip_id) => match model::clip_place(p, clip_id) {
                Some(at) => tidy_clip(model::clip_at(p, at)),
                None => true,
            },
            None => true,
        },
    }
}

/// The clip that an edit in place is about.
pub open spec fn edited(a: ActionV) -> Option<Id> {
    match a {
        ActionV::SetClipTransform { clip_id, transform } => Some(clip_id),
        ActionV::SetClipAudio { clip_id, audio } => Some(clip_id),
        ActionV::SetClipEffects { clip_id, effects } => Some(clip_id),
        ActionV::SetClipTransition { clip_id, transition, out } => Some(clip_id),
        ActionV::SetClipText { clip_id, content, style } => Some(clip_id),
        ActionV::SetClipGenerator { clip_id, generator_id, params, color_params } => Some(clip_id),
        ActionV::SetClipSubtitles { clip_id, style, mode, max_words } => Some(clip_id),
        ActionV::SetClipGroup { clip_id, group } => Some(clip_id),
        ActionV::SetClipName { clip_id, name } => Some(clip_id),
        _ => None,
    }
}

/// Whether a clip stands on a track of a kind that takes it.
pub open spec fn in_place(p: ProjectV, at: (int, int, int)) -> bool {
    action::allowed_on(p, model::clip_at(p, at), model::track_at(p, (at.0, at.1)).kind)
}

/// Whether an action brings only parts that fit.
spec fn able(strict: bool, p: ProjectV, a: ActionV) -> bool {
    &&& strict ==> admissible(p, a)
    &&& reversible(p, a)
    &&& match a {
        ActionV::AddTrack { sequence_id, index, track } => {
            &&& fit_track(strict, p, track)
            &&& different(track.clips)
            &&& forall|i: int|
                0 <= i < track.clips.len() ==> fresh_clip(p, (#[trigger] track.clips[i]).id)
        },
        _ => true,
    }
}

/// Whether a sequence fits, and its parts have identifiers that are new to the
/// project and differ from each other.
spec fn fit_new(strict: bool, p: ProjectV, sequence: SequenceV) -> bool {
    &&& !seqs::holds(p.sequences, sequence.id)
    &&& fit_sequence(strict, p, sequence)
    &&& forall|i: int, j: int|
        0 <= i < sequence.tracks.len() && 0 <= j < sequence.tracks.len() && (
        #[trigger] sequence.tracks[i]).id == (#[trigger] sequence.tracks[j]).id ==> i == j
    &&& forall|i: int|
        0 <= i < sequence.tracks.len() ==> fresh_track(p, (#[trigger] sequence.tracks[i]).id)
    &&& new_clips(p, sequence)
}

/// Whether an action leaves a project that fits, and its inverse brings back the
/// project before it.
#[verifier::opaque]
spec fn redone(strict: bool, p: ProjectV, a: ActionV) -> bool {
    match action::step(p, a) {
        Ok(x) => {
            &&& fit(strict, x.0)
            &&& match action::step(x.0, x.1) {
                Ok(y) => y.0 == p,
                Err(e) => false,
            }
        },
        Err(e) => true,
    }
}

/// Whether the inverse of an action, where the action is not refused, brings
/// back the project before it.
pub open spec fn restored(p: ProjectV, a: ActionV) -> bool {
    match action::step(p, a) {
        Ok(x) => match action::step(x.0, x.1) {
            Ok(y) => y.0 == p,
            Err(e) => false,
        },
        Err(e) => true,
    }
}

proof fn lemma_fit_track(p: ProjectV, t: TrackV)
    ensures
        fit_track(true, p, t) <==> sound_track(p, t),
{
    if sound_track(p, t) {
        assert forall|i: int| 0 <= i < t.clips.len() implies fit_clip(
            true,
            p,
            #[trigger] t.clips[i],
            t.kind,
        ) by {
            assert(sound_clip(t.clips[i]) && action::allowed_on(p, t.clips[i], t.kind));
        }
    }
    if fit_track(true, p, t) {
        assert forall|i: int| 0 <= i < t.clips.len() implies sound_clip(#[trigger] t.clips[i])
            && action::allowed_on(p, t.clips[i], t.kind) by {
            assert(fit_clip(true, p, t.clips[i], t.kind));
        }
    }
}

proof fn lemma_fit_sequence(p: ProjectV, s: SequenceV)
    ensures
        fit_sequence(true, p, s) <==> sound_sequence(p, s),
{
    if sound_sequence(p, s) {
        assert forall|t: int| 0 <= t < s.tracks.len() implies fit_track(
            true,
            p,
            #[trigger] s.tracks[t],
        ) by {
            lemma_fit_track(p, s.tracks[t]);
        }
    }
    if fit_sequence(true, p, s) {
        assert forall|t: int| 0 <= t < s.tracks.len() implies sound_track(
            p,
            #[trigger] s.tracks[t],
        ) by {
            lemma_fit_track(p, s.tracks[t]);
            assert(fit_track(true, p, s.tracks[t]));
        }
    }
}

proof fn lemma_fit(p: ProjectV)
    ensures
        fit(true, p) <==> sound(p),
{
    if sound(p) {
        assert forall|s: int| 0 <= s < p.sequences.len() implies fit_sequence(
            true,
            p,
            #[trigger] p.sequences[s],
        ) by {
            lemma_fit_sequence(p, p.sequences[s]);
            assert(sound_sequence(p, p.sequences[s]));
        }
    }
    if fit(true, p) {
        assert forall|s: int| 0 <= s < p.sequences.len() implies sound_sequence(
            p,
            #[trigger] p.sequences[s],
        ) by {
            lemma_fit_sequence(p, p.sequences[s]);
            assert(fit_sequence(true, p, p.sequences[s]));
        }
    }
}

/// A sound project is steady.
pub proof fn lemma_sound_is_steady(p: ProjectV)
    requires
        sound(p),
    ensures
        steady(p),
{
    assert forall|s: int| 0 <= s < p.sequences.len() implies fit_sequence(
        false,
        p,
        #[trigger] p.sequences[s],
    ) by {
        assert(sound_sequence(p, p.sequences[s]));
        let tracks = p.sequences[s].tracks;
        assert forall|t: int| 0 <= t < tracks.len() implies fit_track(
            false,
            p,
            #[trigger] tracks[t],
        ) by {
            assert(sound_track(p, tracks[t]));
        }
    }
}

/// Whether an action leaves a sound project, and its inverse brings back the
/// project before it.
#[verifier::opaque]
pub open spec fn undone(p: ProjectV, a: ActionV) -> bool {
    match action::step(p, a) {
        Ok(x) => {
            &&& sound(x.0)
            &&& match action::step(x.0, x.1) {
                Ok(y) => y.0 == p,
                Err(e) => false,
            }
        },
        Err(e) => true,
    }
}

// ---- where parts are found ----

/// A clip is found where it is, or is nowhere.
pub proof fn lemma_clip_found(p: ProjectV, id: Id)
    ensures
        match model::clip_place(p, id) {
            Some(at) => has_clip(p, at.0, at.1, at.2, id),
            None => fresh_clip(p, id),
        },
{
    model::lemma_seq_with_clip(p.sequences, id);
    let si = model::seq_with_clip(p.sequences, id) as int;
    if si < p.sequences.len() {
        let ts = p.sequences[si].tracks;
        model::lemma_track_with_clip(ts, id);
        let ti = model::track_with_clip(ts, id) as int;
        seqs::lemma_pos(ts[ti].clips, id);
        assert(ts[ti].clips[seqs::pos(ts[ti].clips, id) as int].ident() == id);
    } else {
        assert forall|s: int, t: int, c: int| !#[trigger] has_clip(p, s, t, c, id) by {
            if has_clip(p, s, t, c, id) {
                let ts = p.sequences[s].tracks;
                assert(model::track_with_clip(ts, id) >= ts.len());
                model::lemma_track_with_clip(ts, id);
                assert(!seqs::holds(ts[t].clips, id));
                seqs::lemma_pos(ts[t].clips, id);
                assert(ts[t].clips[c].ident() != id);
            }
        }
    }
}

/// A clip is found at its only place.
pub proof fn lemma_clip_at(p: ProjectV, s: int, t: int, c: int, id: Id)
    requires
        unique_clips(p),
        has_clip(p, s, t, c, id),
    ensures
        model::clip_place(p, id) == Some((s, t, c)),
{
    lemma_clip_found(p, id);
}

/// A track is found where it is, or is nowhere.
pub proof fn lemma_track_found(p: ProjectV, id: Id)
    ensures
        match model::track_place(p, id) {
            Some(at) => has_track(p, at.0, at.1, id),
            None => fresh_track(p, id),
        },
{
    model::lemma_seq_with_track(p.sequences, id);
    let si = model::seq_with_track(p.sequences, id) as int;
    if si < p.sequences.len() {
        let ts = p.sequences[si].tracks;
        seqs::lemma_pos(ts, id);
        assert(ts[seqs::pos(ts, id) as int].ident() == id);
    } else {
        assert forall|s: int, t: int| !#[trigger] has_track(p, s, t, id) by {
            if has_track(p, s, t, id) {
                let ts = p.sequences[s].tracks;
                assert(!seqs::holds(ts, id));
                seqs::lemma_pos(ts, id);
                assert(ts[t].ident() != id);
            }
        }
    }
}

/// A track is found at its only place.
pub proof fn lemma_track_at(p: ProjectV, s: int, t: int, id: Id)
    requires
        unique_tracks(p),
        has_track(p, s, t, id),
    ensures
        model::track_place(p, id) == Some((s, t)),
{
    lemma_track_found(p, id);
}

proof fn lemma_sequence_at(p: ProjectV, s: int)
    requires
        unique_sequences(p),
        0 <= s < p.sequences.len(),
    ensures
        seqs::pos(p.sequences, p.sequences[s].id) == s,
        seqs::holds(p.sequences, p.sequences[s].id),
{
    assert forall|j: int| 0 <= j < s implies (#[trigger] p.sequences[j]).ident()
        != p.sequences[s].id by {}
    seqs::lemma_pos_at(p.sequences, p.sequences[s].id, s as nat);
}

// ---- changing the clips of one track ----

/// Other clips on a track leave all else as it is.
pub proof fn lemma_with_clips(p: ProjectV, s: int, t: int, clips: Seq<ClipV>)
    requires
        0 <= s < p.sequences.len(),
        0 <= t < p.sequences[s].tracks.len(),
    ensures
        ({
            let q = model::with_clips(p, (s, t), clips);
            &&& q.sequences.len() == p.sequences.len()
            &&& q.active_sequence == p.active_sequence
            &&& q.assets == p.assets
            &&& q.transcripts == p.transcripts
            &&& model::track_at(q, (s, t)) == (TrackV { clips, ..model::track_at(p, (s, t)) })
            &&& forall|a: int| 0 <= a < p.sequences.len() ==> {
                &&& (#[trigger] q.sequences[a]).id == p.sequences[a].id
                &&& q.sequences[a].resolution == p.sequences[a].resolution
                &&& q.sequences[a].fps == p.sequences[a].fps
                &&& q.sequences[a].tracks.len() == p.sequences[a].tracks.len()
                &&& a != s ==> q.sequences[a] == p.sequences[a]
            }
            &&& forall|b: int|
                0 <= b < p.sequences[s].tracks.len() && b != t ==> (
                #[trigger] q.sequences[s].tracks[b]) == p.sequences[s].tracks[b]
            &&& forall|a: int, b: int, id: Id|
                #[trigger] has_track(q, a, b, id) == has_track(p, a, b, id)
            &&& forall|a: int, b: int, c: int, id: Id|
                #[trigger] has_clip(q, a, b, c, id) == if a == s && b == t {
                    0 <= c < clips.len() && clips[c].id == id
                } else {
                    has_clip(p, a, b, c, id)
                }
        }),
{
    let q = model::with_clips(p, (s, t), clips);
    assert forall|a: int, b: int, id: Id| #[trigger] has_track(q, a, b, id) == has_track(
        p,
        a,
        b,
        id,
    ) by {
        if 0 <= a < p.sequences.len() && a == s {
            if 0 <= b < p.sequences[s].tracks.len() && b == t {
            }
        }
    }
}

proof fn lemma_holds_same(p: ProjectV, q: ProjectV, id: Id)
    requires
        q.sequences.len() == p.sequences.len(),
        forall|a: int|
            0 <= a < p.sequences.len() ==> (#[trigger] q.sequences[a]).id == p.sequences[a].id,
    ensures
        seqs::pos(q.sequences, id) == seqs::pos(p.sequences, id),
        seqs::holds(q.sequences, id) == seqs::holds(p.sequences, id),
{
    seqs::lemma_pos(p.sequences, id);
    let i = seqs::pos(p.sequences, id);
    assert forall|j: int| 0 <= j < i implies (#[trigger] q.sequences[j]).ident() != id by {
        assert(p.sequences[j].ident() != id);
    }
    if i < p.sequences.len() {
        assert(q.sequences[i as int].id == p.sequences[i as int].id);
    }
    seqs::lemma_pos_at(q.sequences, id, i);
}

/// A sound project stays sound when one track gets other sound clips with
/// identifiers that no other track has.
proof fn lemma_sound_with_clips(strict: bool, p: ProjectV, s: int, t: int, clips: Seq<ClipV>)
    requires
        fit(strict, p),
        0 <= s < p.sequences.len(),
        0 <= t < p.sequences[s].tracks.len(),
        different(clips),
        fit_track(strict, p, (TrackV { clips, ..model::track_at(p, (s, t)) })),
        forall|i: int, a: int, b: int, c: int|
            0 <= i < clips.len() && (a != s || b != t) ==> !#[trigger] has_clip(
                p,
                a,
                b,
                c,
                (#[trigger] clips[i]).id,
            ),
    ensures
        fit(strict, model::with_clips(p, (s, t), clips)),
{
    let q = model::with_clips(p, (s, t), clips);
    lemma_with_clips(p, s, t, clips);
    lemma_holds_same(p, q, p.active_sequence);
    assert(unique_sequences(q)) by {
        assert forall|i: int, j: int|
            0 <= i < q.sequences.len() && 0 <= j < q.sequences.len() && (
            #[trigger] q.sequences[i]).id == (#[trigger] q.sequences[j]).id implies i == j by {
            assert(p.sequences[i].id == p.sequences[j].id);
        }
    }
    assert(unique_tracks(q)) by {
        assert forall|a: int, b: int, c: int, d: int, id: Id|
            #[trigger] has_track(q, a, b, id) && #[trigger] has_track(q, c, d, id) implies a == c
            && b == d by {
            assert(has_track(p, a, b, id) && has_track(p, c, d, id));
        }
    }
    assert(unique_clips(q)) by {
        assert forall|a: int, b: int, c: int, d: int, e: int, f: int, id: Id|
            #[trigger] has_clip(q, a, b, c, id) && #[trigger] has_clip(q, d, e, f, id) implies a
            == d && b == e && c == f by {
            if a == s && b == t {
                assert(clips[c].id == id);
                if d == s && e == t {
                    assert(clips[f].id == id);
                } else {
                    assert(has_clip(p, d, e, f, clips[c].id));
                }
            } else {
                assert(has_clip(p, a, b, c, id));
                if d == s && e == t {
                    assert(clips[f].id == id);
                    assert(has_clip(p, a, b, c, clips[f].id));
                } else {
                    assert(has_clip(p, d, e, f, id));
                }
            }
        }
    }
    assert forall|a: int| 0 <= a < q.sequences.len() implies fit_sequence(strict, q,
        #[trigger] q.sequences[a],
    ) by {
        assert(fit_sequence(strict, p, p.sequences[a]));
        assert forall|b: int| 0 <= b < q.sequences[a].tracks.len() implies fit_track(strict, 
            q,
            #[trigger] q.sequences[a].tracks[b],
        ) by {
            if a == s && b == t {
                assert(q.sequences[a].tracks[b] == model::track_at(q, (s, t)));
                lemma_sound_track_same(strict, p, q, q.sequences[a].tracks[b]);
            } else {
                assert(q.sequences[a].tracks[b] == p.sequences[a].tracks[b]);
                assert(fit_track(strict, p, p.sequences[a].tracks[b]));
                lemma_sound_track_same(strict, p, q, q.sequences[a].tracks[b]);
            }
        }
    }
}

/// Whether a track is sound depends on the project only through its assets.
proof fn lemma_sound_track_same(strict: bool, p: ProjectV, q: ProjectV, t: TrackV)
    requires
        p.assets == q.assets,
        fit_track(strict, p, t),
    ensures
        fit_track(strict, q, t),
{
    assert forall|i: int| 0 <= i < t.clips.len() implies fit_clip(
        strict,
        q,
        #[trigger] t.clips[i],
        t.kind,
    ) by {
        assert(fit_clip(strict, p, t.clips[i], t.kind));
    }
}

proof fn lemma_sound_sequence_same(strict: bool, p: ProjectV, q: ProjectV, s: SequenceV)
    requires
        p.assets == q.assets,
        fit_sequence(strict, p, s),
    ensures
        fit_sequence(strict, q, s),
{
    assert forall|t: int| 0 <= t < s.tracks.len() implies fit_track(strict, q, #[trigger] s.tracks[t]) by {
        lemma_sound_track_same(strict, p, q, s.tracks[t]);
    }
}

proof fn lemma_with_clips_back(p: ProjectV, s: int, t: int, clips: Seq<ClipV>)
    requires
        0 <= s < p.sequences.len(),
        0 <= t < p.sequences[s].tracks.len(),
    ensures
        model::with_clips(model::with_clips(p, (s, t), clips), (s, t), model::track_at(p, (s, t)).clips) == p,
{
    let q = model::with_clips(p, (s, t), clips);
    let r = model::with_clips(q, (s, t), model::track_at(p, (s, t)).clips);
    let ps = p.sequences[s];
    let rs = r.sequences[s];
    assert(rs.tracks =~= ps.tracks);
    assert(r.sequences =~= p.sequences);
}

proof fn lemma_with_clips_twice(p: ProjectV, s: int, t: int, x: Seq<ClipV>, y: Seq<ClipV>)
    requires
        0 <= s < p.sequences.len(),
        0 <= t < p.sequences[s].tracks.len(),
    ensures
        model::with_clips(model::with_clips(p, (s, t), x), (s, t), y) == model::with_clips(p, (s, t), y),
{
    let q = model::with_clips(model::with_clips(p, (s, t), x), (s, t), y);
    let r = model::with_clips(p, (s, t), y);
    assert(q.sequences[s].tracks =~= r.sequences[s].tracks);
    assert(q.sequences =~= r.sequences);
}

// ---- clips in line ----

/// Whether clips start one after the other.
spec fn rising(clips: Seq<ClipV>) -> bool {
    forall|i: int, j: int|
        0 <= i < j < clips.len() ==> (#[trigger] clips[i]).start < (#[trigger] clips[j]).start
}

proof fn lemma_in_line_rising(clips: Seq<ClipV>)
    requires
        in_line(clips),
    ensures
        rising(clips),
{
    assert forall|i: int, j: int| 0 <= i < j < clips.len() implies (#[trigger] clips[i]).start < (
    #[trigger] clips[j]).start by {
        assert(lasting(clips[i]));
        assert(clips[i].finish() <= clips[j].start);
    }
}

/// Two rising lists with the same clips are one.
proof fn lemma_rising_unique(a: Seq<ClipV>, b: Seq<ClipV>)
    requires
        rising(a),
        rising(b),
        forall|x: ClipV|
            #![trigger a.contains(x)]
            #![trigger b.contains(x)]
            a.contains(x) <==> b.contains(x),
    ensures
        a == b,
    decreases a.len(),
{
    if a.len() == 0 {
        if b.len() > 0 {
            assert(b.contains(b[0]));
        }
        assert(a =~= b);
    } else {
        assert(a.contains(a[0]));
        let k = choose|k: int| 0 <= k < b.len() && b[k] == a[0];
        assert(b.contains(b[0]));
        let m = choose|m: int| 0 <= m < a.len() && a[m] == b[0];
        if k > 0 {
            assert(b[0].start < b[k].start);
            if m > 0 {
                assert(a[0].start < a[m].start);
            }
        }
        assert(b[0] == a[0]);
        let x = a.drop_first();
        let y = b.drop_first();
        assert forall|i: int, j: int| 0 <= i < j < x.len() implies (#[trigger] x[i]).start < (
        #[trigger] x[j]).start by {
            assert(a[i + 1].start < a[j + 1].start);
        }
        assert forall|i: int, j: int| 0 <= i < j < y.len() implies (#[trigger] y[i]).start < (
        #[trigger] y[j]).start by {
            assert(b[i + 1].start < b[j + 1].start);
        }
        assert forall|z: ClipV| x.contains(z) implies y.contains(z) by {
            let i = choose|i: int| 0 <= i < x.len() && x[i] == z;
            assert(a[i + 1] == z);
            assert(a.contains(z));
            let j = choose|j: int| 0 <= j < b.len() && b[j] == z;
            assert(a[0].start < a[i + 1].start);
            assert(j > 0);
            assert(y[j - 1] == z);
        }
        assert forall|z: ClipV| y.contains(z) implies x.contains(z) by {
            let i = choose|i: int| 0 <= i < y.len() && y[i] == z;
            assert(b[i + 1] == z);
            assert(b.contains(z));
            let j = choose|j: int| 0 <= j < a.len() && a[j] == z;
            assert(b[0].start < b[i + 1].start);
            assert(j > 0);
            assert(x[j - 1] == z);
        }
        lemma_rising_unique(x, y);
        assert(x.len() == a.len() - 1 && y.len() == b.len() - 1);
        assert forall|i: int| 0 <= i < a.len() implies a[i] == b[i] by {
            if i > 0 {
                assert(a[i] == x[i - 1]);
                assert(b[i] == y[i - 1]);
            }
        }
        assert(a =~= b);
    }
}

/// Putting a clip in adds just that clip.
pub proof fn lemma_put_in_contains(clips: Seq<ClipV>, c: ClipV)
    ensures
        forall|x: ClipV|
            #![trigger action::put_in(clips, c).contains(x)]
            #![trigger clips.contains(x)]
            action::put_in(clips, c).contains(x) <==> (x == c || clips.contains(x)),
        action::put_in(clips, c).len() == clips.len() + 1,
{
    model::lemma_place(clips, c.start);
    let k = model::place(clips, c.start) as int;
    let r = action::put_in(clips, c);
    assert forall|x: ClipV| r.contains(x) implies (x == c || clips.contains(x)) by {
        let i = choose|i: int| 0 <= i < r.len() && r[i] == x;
        if i < k {
            assert(clips[i] == x);
        } else if i > k {
            assert(clips[i - 1] == x);
        }
    }
    assert forall|x: ClipV| (x == c || clips.contains(x)) implies r.contains(x) by {
        if x == c {
            assert(r[k] == c);
        } else {
            let i = choose|i: int| 0 <= i < clips.len() && clips[i] == x;
            if i < k {
                assert(r[i] == x);
            } else {
                assert(r[i + 1] == x);
            }
        }
    }
}

/// A clip that shares no instant with clips in line can be put in line.
proof fn lemma_put_in_line(clips: Seq<ClipV>, c: ClipV)
    requires
        in_line(clips),
        lasting(c),
        forall|i: int| 0 <= i < clips.len() ==> apart(#[trigger] clips[i], c),
    ensures
        in_line(action::put_in(clips, c)),
{
    model::lemma_place(clips, c.start);
    let k = model::place(clips, c.start) as int;
    let r = action::put_in(clips, c);
    assert forall|i: int| 0 <= i < r.len() implies lasting(#[trigger] r[i]) by {
        if i < k {
            assert(r[i] == clips[i]);
        } else if i > k {
            assert(r[i] == clips[i - 1]);
        }
    }
    assert forall|i: int, j: int| 0 <= i < j < r.len() implies (#[trigger] r[i]).finish() <= (
    #[trigger] r[j]).start by {
        let a = if i < k {
            i
        } else {
            i - 1
        };
        let b = if j < k {
            j
        } else {
            j - 1
        };
        if i != k {
            assert(r[i] == clips[a]);
            assert(lasting(clips[a]));
        }
        if j != k {
            assert(r[j] == clips[b]);
            assert(lasting(clips[b]));
        }
        if i == k {
            assert(apart(clips[b], c));
            assert(clips[k].start >= c.start);
            if b > k {
                assert(clips[k].finish() <= clips[b].start);
                assert(lasting(clips[k]));
            }
        } else if j == k {
            assert(apart(clips[a], c));
            assert(clips[a].start < c.start);
        } else {
            assert(clips[a].finish() <= clips[b].start);
        }
    }
}

proof fn lemma_remove_in_line(clips: Seq<ClipV>, k: int)
    requires
        in_line(clips),
        0 <= k < clips.len(),
    ensures
        in_line(clips.remove(k)),
        forall|i: int|
            0 <= i < clips.len() - 1 ==> apart(#[trigger] clips.remove(k)[i], clips[k]),
        action::put_in(clips.remove(k), clips[k]) == clips,
{
    let r = clips.remove(k);
    assert forall|i: int| 0 <= i < r.len() implies lasting(#[trigger] r[i]) by {
        let a = if i < k {
            i
        } else {
            i + 1
        };
        assert(r[i] == clips[a]);
    }
    assert forall|i: int, j: int| 0 <= i < j < r.len() implies (#[trigger] r[i]).finish() <= (
    #[trigger] r[j]).start by {
        let a = if i < k {
            i
        } else {
            i + 1
        };
        let b = if j < k {
            j
        } else {
            j + 1
        };
        assert(r[i] == clips[a] && r[j] == clips[b]);
    }
    assert forall|i: int| 0 <= i < clips.len() - 1 implies apart(#[trigger] r[i], clips[k]) by {
        if i < k {
            assert(clips[i].finish() <= clips[k].start);
        } else {
            assert(clips[k].finish() <= clips[i + 1].start);
        }
    }
    assert forall|j: int| 0 <= j < k implies (#[trigger] r[j]).start < clips[k].start by {
        assert(clips[j].finish() <= clips[k].start);
        assert(lasting(clips[j]));
    }
    if k < r.len() {
        assert(clips[k].finish() <= clips[k + 1].start);
        assert(lasting(clips[k]));
    }
    model::lemma_place_at(r, clips[k].start, k as nat);
    assert(action::put_in(r, clips[k]) =~= clips);
}

/// A clip that hits nothing on a track shares no instant with its clips.
proof fn lemma_not_hit(t: TrackV, start: TimeUs, duration: TimeUs, exclude: Option<Id>, c: ClipV)
    requires
        !t.hit(start, duration, exclude),
        c.start == start,
        c.duration == duration,
    ensures
        forall|i: int|
            0 <= i < t.clips.len() && Some((#[trigger] t.clips[i]).id) != exclude ==> apart(
                t.clips[i],
                c,
            ),
{
    assert forall|i: int|
        0 <= i < t.clips.len() && Some((#[trigger] t.clips[i]).id) != exclude implies apart(
        t.clips[i],
        c,
    ) by {
        assert(!model::overlap(t.clips[i], start, time::later(start, duration)));
    }
}

proof fn lemma_no_hit(t: TrackV, c: ClipV, exclude: Option<Id>)
    requires
        forall|i: int|
            0 <= i < t.clips.len() && Some((#[trigger] t.clips[i]).id) != exclude ==> apart(
                t.clips[i],
                c,
            ),
    ensures
        !t.hit(c.start, c.duration, exclude),
{
    if t.hit(c.start, c.duration, exclude) {
        let i = choose|i: int|
            0 <= i < t.clips.len() && Some((#[trigger] t.clips[i]).id) != exclude && model::overlap(
                t.clips[i],
                c.start,
                time::later(c.start, c.duration),
            );
        assert(apart(t.clips[i], c));
    }
}

/// Clips on a track of a sound project have different identifiers.
pub proof fn lemma_track_different(p: ProjectV, s: int, t: int)
    requires
        unique_clips(p),
        0 <= s < p.sequences.len(),
        0 <= t < p.sequences[s].tracks.len(),
    ensures
        different(model::track_at(p, (s, t)).clips),
{
    let clips = model::track_at(p, (s, t)).clips;
    assert forall|i: int, j: int|
        0 <= i < clips.len() && 0 <= j < clips.len() && (#[trigger] clips[i]).id == (
        #[trigger] clips[j]).id implies i == j by {
        assert(has_clip(p, s, t, i, clips[i].id));
        assert(has_clip(p, s, t, j, clips[i].id));
    }
}

// ---- inserting and removing a clip ----

/// A new sound clip that shares no instant with others can be put on a track
/// where it may stand.
proof fn lemma_sound_put(strict: bool, p: ProjectV, s: int, t: int, clip: ClipV)
    requires
        fit(strict, p),
        0 <= s < p.sequences.len(),
        0 <= t < p.sequences[s].tracks.len(),
        fit_clip(strict, p, clip, model::track_at(p, (s, t)).kind),
        fresh_clip(p, clip.id),
        forall|i: int|
            0 <= i < model::track_at(p, (s, t)).clips.len() ==> apart(
                #[trigger] model::track_at(p, (s, t)).clips[i],
                clip,
            ),
    ensures
        ({
            let tr = model::track_at(p, (s, t));
            let q = model::with_clips(p, (s, t), action::put_in(tr.clips, clip));
            &&& fit(strict, q)
            &&& model::clip_place(q, clip.id) == Some((s, t, model::place(tr.clips, clip.start) as int))
            &&& action::put_in(tr.clips, clip)[model::place(tr.clips, clip.start) as int] == clip
            &&& action::put_in(tr.clips, clip).remove(model::place(tr.clips, clip.start) as int) == tr.clips
        }),
{
    let tr = model::track_at(p, (s, t));
    assert(fit_sequence(strict, p, p.sequences[s]));
    assert(fit_track(strict, p, tr));
    lemma_put_in_line(tr.clips, clip);
    let clips = action::put_in(tr.clips, clip);
    model::lemma_place(tr.clips, clip.start);
    let k = model::place(tr.clips, clip.start) as int;
    lemma_track_different(p, s, t);
    assert forall|i: int| 0 <= i < clips.len() implies clips[i] == (if i < k {
        tr.clips[i]
    } else if i == k {
        clip
    } else {
        tr.clips[i - 1]
    }) by {}
    assert(different(clips)) by {
        assert forall|i: int, j: int|
            0 <= i < clips.len() && 0 <= j < clips.len() && (#[trigger] clips[i]).id == (
            #[trigger] clips[j]).id implies i == j by {
            assert(!has_clip(p, s, t, i, clip.id));
            assert(!has_clip(p, s, t, j, clip.id));
            assert(!has_clip(p, s, t, i - 1, clip.id));
            assert(!has_clip(p, s, t, j - 1, clip.id));
        }
    }
    assert forall|i: int, a: int, b: int, c: int|
        0 <= i < clips.len() && (a != s || b != t) implies !#[trigger] has_clip(
        p,
        a,
        b,
        c,
        (#[trigger] clips[i]).id,
    ) by {
        if i != k {
            let m = if i < k {
                i
            } else {
                i - 1
            };
            assert(has_clip(p, s, t, m, clips[i].id));
        }
    }
    assert(fit_track(strict, p, (TrackV { clips, ..tr })));
    lemma_sound_with_clips(strict, p, s, t, clips);
    let q = model::with_clips(p, (s, t), clips);
    lemma_with_clips(p, s, t, clips);
    assert(has_clip(q, s, t, k, clip.id));
    lemma_clip_at(q, s, t, k, clip.id);
    assert(clips.remove(k) =~= tr.clips);
}

proof fn lemma_insert_inverse(strict: bool, p: ProjectV, track_id: Id, clip: ClipV)
    requires
        fit(strict, p),
        able(strict, p, (ActionV::InsertClip { track_id, clip })),
        action::step(p, (ActionV::InsertClip { track_id, clip })) is Ok,
    ensures
        redone(strict, p, (ActionV::InsertClip { track_id, clip })),
{
    reveal(redone);
    lemma_track_found(p, track_id);
    let (s, t) = model::track_place(p, track_id)->0;
    let tr = model::track_at(p, (s, t));
    lemma_not_hit(tr, clip.start, clip.duration, None, clip);
    lemma_sound_put(strict, p, s, t, clip);
    let clips = action::put_in(tr.clips, clip);
    lemma_with_clips(p, s, t, clips);
    lemma_with_clips_back(p, s, t, clips);
}

/// A part of the clips of a track, in line and with a clip taken out.
proof fn lemma_sound_without(strict: bool, p: ProjectV, s: int, t: int, k: int)
    requires
        fit(strict, p),
        0 <= s < p.sequences.len(),
        0 <= t < p.sequences[s].tracks.len(),
        0 <= k < model::track_at(p, (s, t)).clips.len(),
    ensures
        fit(strict, model::with_clips(p, (s, t), model::track_at(p, (s, t)).clips.remove(k))),
{
    let tr = model::track_at(p, (s, t));
    assert(fit_sequence(strict, p, p.sequences[s]));
    assert(fit_track(strict, p, tr));
    let clips = tr.clips.remove(k);
    lemma_remove_in_line(tr.clips, k);
    lemma_track_different(p, s, t);
    assert forall|i: int| 0 <= i < clips.len() implies clips[i] == tr.clips[if i < k {
        i
    } else {
        i + 1
    }] by {}
    assert(fit_track(strict, p, (TrackV { clips, ..tr })));
    assert forall|i: int, a: int, b: int, c: int|
        0 <= i < clips.len() && (a != s || b != t) implies !#[trigger] has_clip(
        p,
        a,
        b,
        c,
        (#[trigger] clips[i]).id,
    ) by {
        let m = if i < k {
            i
        } else {
            i + 1
        };
        assert(has_clip(p, s, t, m, clips[i].id));
    }
    lemma_sound_with_clips(strict, p, s, t, clips);
}

proof fn lemma_remove_inverse(strict: bool, p: ProjectV, clip_id: Id)
    requires
        fit(strict, p),
        able(strict, p, (ActionV::RemoveClip { clip_id })),
        action::step(p, (ActionV::RemoveClip { clip_id })) is Ok,
    ensures
        redone(strict, p, (ActionV::RemoveClip { clip_id })),
{
    reveal(redone);
    lemma_clip_found(p, clip_id);
    let (s, t, k) = model::clip_place(p, clip_id)->0;
    let tr = model::track_at(p, (s, t));
    let c = tr.clips[k];
    assert(fit_sequence(strict, p, p.sequences[s]));
    assert(fit_track(strict, p, tr));
    lemma_sound_without(strict, p, s, t, k);
    let clips = tr.clips.remove(k);
    let q = model::with_clips(p, (s, t), clips);
    lemma_with_clips(p, s, t, clips);
    lemma_remove_in_line(tr.clips, k);
    assert(has_track(p, s, t, tr.id));
    assert(has_track(q, s, t, tr.id));
    lemma_track_at(q, s, t, tr.id);
    lemma_no_hit(model::track_at(q, (s, t)), c, None);
    assert(action::allowed_on(q, c, tr.kind)) by {
        assert(action::allowed_on(p, c, tr.kind));
    }
    lemma_with_clips_back(p, s, t, clips);
}

// ---- bounds ----

/// Sorting keeps the clips.
pub proof fn lemma_sorted_contains(x: Seq<ClipV>)
    ensures
        forall|y: ClipV|
            #![trigger action::sorted_clips(x).contains(y)]
            #![trigger x.contains(y)]
            action::sorted_clips(x).contains(y) <==> x.contains(y),
    decreases x.len(),
{
    if x.len() > 0 {
        let r = action::sorted_clips(x.drop_last());
        lemma_sorted_contains(x.drop_last());
        action::lemma_after_place(r, x.last().start);
        let k = action::after_place(r, x.last().start) as int;
        let o = action::sorted_clips(x);
        assert forall|y: ClipV| o.contains(y) implies x.contains(y) by {
            let i = choose|i: int| 0 <= i < o.len() && o[i] == y;
            if i == k {
                assert(x[x.len() - 1] == y);
            } else {
                let m = if i < k {
                    i
                } else {
                    i - 1
                };
                assert(r[m] == y);
                assert(r.contains(y));
                let j = choose|j: int| 0 <= j < x.drop_last().len() && x.drop_last()[j] == y;
                assert(x[j] == y);
            }
        }
        assert forall|y: ClipV| x.contains(y) implies o.contains(y) by {
            let j = choose|j: int| 0 <= j < x.len() && x[j] == y;
            if j == x.len() - 1 {
                assert(o[k] == y);
            } else {
                assert(x.drop_last()[j] == y);
                assert(r.contains(y));
                let i = choose|i: int| 0 <= i < r.len() && r[i] == y;
                if i < k {
                    assert(o[i] == y);
                } else {
                    assert(o[i + 1] == y);
                }
            }
        }
    }
}

proof fn lemma_sorted_rising(x: Seq<ClipV>)
    requires
        forall|i: int, j: int|
            0 <= i < x.len() && 0 <= j < x.len() && i != j ==> (#[trigger] x[i]).start != (
            #[trigger] x[j]).start,
    ensures
        rising(action::sorted_clips(x)),
    decreases x.len(),
{
    if x.len() > 0 {
        let w = x.drop_last();
        assert forall|i: int, j: int| 0 <= i < w.len() && 0 <= j < w.len() && i != j implies (
        #[trigger] w[i]).start != (#[trigger] w[j]).start by {
            assert(x[i].start != x[j].start);
        }
        lemma_sorted_rising(w);
        lemma_sorted_contains(w);
        let r = action::sorted_clips(w);
        let c = x.last();
        action::lemma_after_place(r, c.start);
        let k = action::after_place(r, c.start) as int;
        let o = action::sorted_clips(x);
        assert forall|i: int| 0 <= i < r.len() implies (#[trigger] r[i]).start != c.start by {
            assert(r.contains(r[i]));
            let j = choose|j: int| 0 <= j < w.len() && w[j] == r[i];
            assert(x[j].start != x[x.len() - 1].start);
        }
        assert forall|i: int, j: int| 0 <= i < j < o.len() implies (#[trigger] o[i]).start < (
        #[trigger] o[j]).start by {
            let a = if i < k {
                i
            } else {
                i - 1
            };
            let b = if j < k {
                j
            } else {
                j - 1
            };
            if i != k {
                assert(o[i] == r[a]);
            }
            if j != k {
                assert(o[j] == r[b]);
            }
            if i == k {
                if b > k {
                    assert(r[k].start < r[b].start);
                }
            } else if j == k {
                assert(r[a].start <= c.start);
            } else {
                assert(r[a].start < r[b].start);
            }
        }
    }
}

/// Sorting clips of which one was changed puts that one in line.
proof fn lemma_sorted_is_put(clips: Seq<ClipV>, k: int, c: ClipV)
    requires
        in_line(clips),
        0 <= k < clips.len(),
        lasting(c),
        forall|i: int| 0 <= i < clips.len() && i != k ==> apart(#[trigger] clips[i], c),
    ensures
        action::sorted_clips(clips.update(k, c)) == action::put_in(clips.remove(k), c),
        in_line(action::put_in(clips.remove(k), c)),
        forall|i: int| 0 <= i < clips.len() - 1 ==> apart(#[trigger] clips.remove(k)[i], c),
{
    let x = clips.update(k, c);
    let r = clips.remove(k);
    lemma_remove_in_line(clips, k);
    assert forall|i: int| 0 <= i < clips.len() - 1 implies apart(#[trigger] r[i], c) by {
        let a = if i < k {
            i
        } else {
            i + 1
        };
        assert(r[i] == clips[a]);
    }
    lemma_put_in_line(r, c);
    assert forall|i: int, j: int| 0 <= i < x.len() && 0 <= j < x.len() && i != j implies (
    #[trigger] x[i]).start != (#[trigger] x[j]).start by {
        if i == k {
            assert(apart(clips[j], c) && lasting(clips[j]));
        } else if j == k {
            assert(apart(clips[i], c) && lasting(clips[i]));
        } else if i < j {
            assert(clips[i].finish() <= clips[j].start && lasting(clips[i]));
        } else {
            assert(clips[j].finish() <= clips[i].start && lasting(clips[j]));
        }
    }
    lemma_sorted_rising(x);
    lemma_sorted_contains(x);
    lemma_put_in_contains(r, c);
    lemma_in_line_rising(action::put_in(r, c));
    assert forall|y: ClipV| x.contains(y) implies action::put_in(r, c).contains(y) by {
        let j = choose|j: int| 0 <= j < x.len() && x[j] == y;
        if j != k {
            assert(r[if j < k {
                j
            } else {
                j - 1
            }] == y);
            assert(r.contains(y));
        }
    }
    assert forall|y: ClipV| action::put_in(r, c).contains(y) implies x.contains(y) by {
        if y == c {
            assert(x[k] == y);
        } else {
            let j = choose|j: int| 0 <= j < r.len() && r[j] == y;
            assert(x[if j < k {
                j
            } else {
                j + 1
            }] == y);
        }
    }
    lemma_rising_unique(action::sorted_clips(x), action::put_in(r, c));
}

/// One clip of a track taken out and another with its identifier put in.
proof fn lemma_sound_swap(strict: bool, p: ProjectV, s: int, t: int, k: int, c: ClipV)
    requires
        fit(strict, p),
        0 <= s < p.sequences.len(),
        0 <= t < p.sequences[s].tracks.len(),
        0 <= k < model::track_at(p, (s, t)).clips.len(),
        fit_clip(strict, p, c, model::track_at(p, (s, t)).kind),
        c.id == model::track_at(p, (s, t)).clips[k].id,
        forall|i: int|
            0 <= i < model::track_at(p, (s, t)).clips.len() && i != k ==> apart(
                #[trigger] model::track_at(p, (s, t)).clips[i],
                c,
            ),
    ensures
        ({
            let tr = model::track_at(p, (s, t));
            let r = tr.clips.remove(k);
            let q = model::with_clips(p, (s, t), action::put_in(r, c));
            let j = model::place(r, c.start) as int;
            &&& fit(strict, q)
            &&& model::clip_place(q, c.id) == Some((s, t, j))
            &&& action::put_in(r, c)[j] == c
            &&& action::put_in(r, c).remove(j) == r
            &&& action::put_in(r, tr.clips[k]) == tr.clips
        }),
{
    let tr = model::track_at(p, (s, t));
    let r = tr.clips.remove(k);
    assert(fit_sequence(strict, p, p.sequences[s]));
    assert(fit_track(strict, p, tr));
    lemma_remove_in_line(tr.clips, k);
    lemma_sound_without(strict, p, s, t, k);
    let p1 = model::with_clips(p, (s, t), r);
    lemma_with_clips(p, s, t, r);
    assert(has_clip(p, s, t, k, c.id));
    assert(fresh_clip(p1, c.id)) by {
        assert forall|a: int, b: int, d: int| !#[trigger] has_clip(p1, a, b, d, c.id) by {
            if has_clip(p1, a, b, d, c.id) {
                if a == s && b == t {
                    let m = if d < k {
                        d
                    } else {
                        d + 1
                    };
                    assert(r[d] == tr.clips[m]);
                    assert(has_clip(p, s, t, m, c.id));
                } else {
                    assert(has_clip(p, a, b, d, c.id));
                }
            }
        }
    }
    assert forall|i: int| 0 <= i < model::track_at(p1, (s, t)).clips.len() implies apart(
        #[trigger] model::track_at(p1, (s, t)).clips[i],
        c,
    ) by {
        assert(r[i] == tr.clips[if i < k {
            i
        } else {
            i + 1
        }]);
    }
    assert(fit_clip(strict, p1, c, tr.kind));
    lemma_sound_put(strict, p1, s, t, c);
    lemma_with_clips_twice(p, s, t, r, action::put_in(r, c));
}

#[verifier::spinoff_prover]
proof fn lemma_bounds_inverse(strict: bool, p: ProjectV,
    clip_id: Id,
    start: TimeUs,
    duration: TimeUs,
    src_in: Option<TimeUs>,
    src_out: Option<TimeUs>,
)
    requires
        fit(strict, p),
        able(strict, p, (ActionV::SetClipBounds { clip_id, start, duration, src_in, src_out })),
        action::step(p, (ActionV::SetClipBounds { clip_id, start, duration, src_in, src_out })) is Ok,
    ensures
        redone(strict, p, (ActionV::SetClipBounds { clip_id, start, duration, src_in, src_out })),
{
    reveal(redone);
    lemma_clip_found(p, clip_id);
    let (s, t, k) = model::clip_place(p, clip_id)->0;
    let tr = model::track_at(p, (s, t));
    let c = tr.clips[k];
    assert(fit_sequence(strict, p, p.sequences[s]));
    assert(fit_track(strict, p, tr));
    assert(fit_clip(strict, p, c, tr.kind));
    let d = ClipV { start, duration, payload: action::with_source(c.payload, src_in, src_out), ..c };
    lemma_not_hit(tr, start, duration, Some(clip_id), d);
    lemma_track_different(p, s, t);
    assert forall|i: int| 0 <= i < tr.clips.len() && i != k implies apart(
        #[trigger] tr.clips[i],
        d,
    ) by {
        assert(tr.clips[i].id != tr.clips[k].id);
    }
    lemma_sorted_is_put(tr.clips, k, d);
    assert(fit_clip(strict, p, d, tr.kind));
    lemma_sound_swap(strict, p, s, t, k, d);
    let r = tr.clips.remove(k);
    let clips = action::put_in(r, d);
    let j = model::place(r, d.start) as int;
    let q = model::with_clips(p, (s, t), clips);
    lemma_with_clips(p, s, t, clips);
    let tq = model::track_at(q, (s, t));
    // The way back.
    lemma_remove_in_line(tr.clips, k);
    model::lemma_place(r, d.start);
    assert(in_line(clips));
    assert forall|i: int| 0 <= i < clips.len() && i != j implies apart(#[trigger] clips[i], c) by {
        let m = if i < j {
            i
        } else {
            i - 1
        };
        assert(clips[i] == r[m]);
        assert(apart(r[m], c));
    }
    assert(different(clips)) by {
        lemma_track_different(q, s, t);
    }
    assert forall|i: int|
        0 <= i < tq.clips.len() && Some((#[trigger] tq.clips[i]).id) != Some(clip_id) implies apart(
        tq.clips[i],
        c,
    ) by {
        assert(i != j);
        assert(clips[i] == tq.clips[i]);
    }
    lemma_no_hit(tq, c, Some(clip_id));
    lemma_sorted_is_put(clips, j, c);
    let source = action::source_of(c.payload);
    assert(action::with_source(d.payload, source.0, source.1) == c.payload);
    assert(ClipV {
        start: c.start,
        duration: c.duration,
        payload: action::with_source(d.payload, source.0, source.1),
        ..d
    } == c);
    lemma_with_clips_back(p, s, t, clips);
}

// ---- moving ----

/// A clip that was moved can go back: it is found where it went, its old place is
/// free, and taking it out there and putting it in here gives the project before.
#[verifier::rlimit(60)]
#[verifier::spinoff_prover]
proof fn lemma_way_back(strict: bool, p: ProjectV, clip_id: Id, to_track: Id, to_start: TimeUs)
    requires
        fit(strict, p),
        able(strict, p, (ActionV::MoveClipToTrack { clip_id, to_track, to_start })),
        action::move_clip_step(p, clip_id, to_track, to_start) is Ok,
    ensures
        ({
            let (s, t, k) = model::clip_place(p, clip_id)->0;
            let (u, v) = model::track_place(p, to_track)->0;
            let from = model::track_at(p, (s, t));
            let c = from.clips[k];
            let d = ClipV { start: to_start, ..c };
            let r = from.clips.remove(k);
            let p1 = model::with_clips(p, (s, t), r);
            let there = model::track_at(p1, (u, v)).clips;
            let j = model::place(there, to_start) as int;
            let q = model::with_clips(p1, (u, v), action::put_in(there, d));
            let tq = model::track_at(q, (u, v));
            let home = model::track_at(q, (s, t));
            &&& fit(strict, q)
            &&& model::clip_place(q, clip_id) == Some((u, v, j))
            &&& model::track_place(q, from.id) == Some((s, t))
            &&& tq.clips[j] == d
            &&& home.kind == from.kind
            &&& !home.hit(
                c.start,
                c.duration,
                if from.id == tq.id {
                    Some(clip_id)
                } else {
                    None
                },
            )
            &&& action::allowed_on(q, d, from.kind)
            &&& model::with_clips(q, (u, v), tq.clips.remove(j)) == p1
            &&& model::track_at(p1, (s, t)).clips == r
            &&& action::put_in(r, c) == from.clips
            &&& model::with_clips(p1, (s, t), from.clips) == p
        }),
{
    lemma_clip_found(p, clip_id);
    lemma_track_found(p, to_track);
    let (s, t, k) = model::clip_place(p, clip_id)->0;
    let (u, v) = model::track_place(p, to_track)->0;
    let from = model::track_at(p, (s, t));
    let target = model::track_at(p, (u, v));
    let c = from.clips[k];
    let d = ClipV { start: to_start, ..c };
    assert(fit_sequence(strict, p, p.sequences[s]));
    assert(fit_sequence(strict, p, p.sequences[u]));
    assert(fit_track(strict, p, from));
    assert(fit_track(strict, p, target));
    assert(fit_clip(strict, p, c, from.kind));
    assert(has_track(p, s, t, from.id));
    let exclude = if to_track == from.id {
        Some(clip_id)
    } else {
        None
    };
    lemma_not_hit(target, to_start, c.duration, exclude, d);
    let r = from.clips.remove(k);
    lemma_remove_in_line(from.clips, k);
    lemma_track_different(p, s, t);
    lemma_sound_without(strict, p, s, t, k);
    let p1 = model::with_clips(p, (s, t), r);
    lemma_with_clips(p, s, t, r);
    assert(fresh_clip(p1, clip_id)) by {
        assert forall|a: int, b: int, e: int| !#[trigger] has_clip(p1, a, b, e, clip_id) by {
            if has_clip(p1, a, b, e, clip_id) {
                if a == s && b == t {
                    let m = if e < k {
                        e
                    } else {
                        e + 1
                    };
                    assert(r[e] == from.clips[m]);
                    assert(has_clip(p, s, t, m, clip_id));
                } else {
                    assert(has_clip(p, a, b, e, clip_id));
                }
            }
        }
    }
    let target1 = model::track_at(p1, (u, v));
    assert forall|i: int| 0 <= i < target1.clips.len() implies apart(
        #[trigger] target1.clips[i],
        d,
    ) by {
        if u == s && v == t {
            let m = if i < k {
                i
            } else {
                i + 1
            };
            assert(target1.clips[i] == from.clips[m]);
            assert(from.clips[m].id != from.clips[k].id);
            assert(apart(target.clips[m], d));
        } else {
            assert(to_track != from.id) by {
                if to_track == from.id {
                    assert(has_track(p, u, v, from.id));
                }
            }
            assert(target1 == target);
            assert(apart(target.clips[i], d));
        }
    }
    assert(fit_clip(strict, p1, d, target1.kind));
    lemma_sound_put(strict, p1, u, v, d);
    let clips = action::put_in(target1.clips, d);
    let q = model::with_clips(p1, (u, v), clips);
    lemma_with_clips(p1, u, v, clips);
    let j = model::place(target1.clips, d.start) as int;
    // The way back: out of the target, and in line where it came from.
    assert(has_track(p1, s, t, from.id));
    assert(has_track(q, s, t, from.id));
    lemma_track_at(q, s, t, from.id);
    let home = model::track_at(q, (s, t));
    let tq = model::track_at(q, (u, v));
    assert(tq.id == target.id);
    let exclude2 = if from.id == tq.id {
        Some(clip_id)
    } else {
        None
    };
    model::lemma_place(target1.clips, d.start);
    assert forall|i: int|
        0 <= i < home.clips.len() && Some((#[trigger] home.clips[i]).id) != exclude2 implies apart(
        home.clips[i],
        c,
    ) by {
        if u == s && v == t {
            assert(i != j);
            let m = if i < j {
                i
            } else {
                i - 1
            };
            assert(home.clips[i] == r[m]);
            assert(apart(r[m], c));
        } else {
            assert(home.clips[i] == r[i]);
            assert(apart(r[i], c));
        }
    }
    lemma_no_hit(home, c, exclude2);
    assert(action::allowed_on(q, d, from.kind));
    lemma_with_clips_back(p1, u, v, clips);
    lemma_with_clips_back(p, s, t, r);
    assert(ClipV { start: c.start, ..d } == c);
}

proof fn lemma_move_inverse(strict: bool, p: ProjectV, clip_id: Id, to_track: Id, to_start: TimeUs)
    requires
        fit(strict, p),
        able(strict, p, (ActionV::MoveClipToTrack { clip_id, to_track, to_start })),
        action::step(p, (ActionV::MoveClipToTrack { clip_id, to_track, to_start })) is Ok,
    ensures
        redone(strict, p, (ActionV::MoveClipToTrack { clip_id, to_track, to_start })),
{
    reveal(redone);
    lemma_way_back(strict, p, clip_id, to_track, to_start);
}

// ---- time ranges ----

/// Whether two ranges share no instant.
pub open spec fn parted(a: (TimeUs, TimeUs), b: (TimeUs, TimeUs)) -> bool {
    a.1 <= b.0 || b.1 <= a.0
}

pub open spec fn all_parted(l: Seq<(TimeUs, TimeUs)>) -> bool {
    forall|i: int, j: int|
        0 <= i < l.len() && 0 <= j < l.len() && i != j ==> parted(#[trigger] l[i], #[trigger] l[j])
}

proof fn lemma_range_place_is(s: Seq<(TimeUs, TimeUs)>, x: (TimeUs, TimeUs))
    ensures
        action::range_place(s, x) <= s.len(),
        forall|j: int| 0 <= j < action::range_place(s, x) ==> !action::range_before(x, #[trigger] s[j]),
        action::range_place(s, x) < s.len() ==> action::range_before(x, s[action::range_place(s, x) as int]),
    decreases s.len(),
{
    if s.len() > 0 && !action::range_before(x, s[0]) {
        let r = s.drop_first();
        lemma_range_place_is(r, x);
        assert forall|j: int| 0 <= j < action::range_place(s, x) implies !action::range_before(
            x,
            #[trigger] s[j],
        ) by {
            if j > 0 {
                assert(s[j] == r[j - 1]);
            }
        }
    }
}

/// Sorted ranges are in order, and are parted just if the ranges were.
#[verifier::rlimit(60)]
#[verifier::spinoff_prover]
pub proof fn lemma_sorted_ranges(l: Seq<(TimeUs, TimeUs)>)
    ensures
        action::sorted_ranges(l).len() == l.len(),
        forall|i: int, j: int|
            0 <= i < j < l.len() ==> !action::range_before(
                #[trigger] action::sorted_ranges(l)[j],
                #[trigger] action::sorted_ranges(l)[i],
            ),
        forall|x: (TimeUs, TimeUs)|
            #![trigger action::sorted_ranges(l).contains(x)]
            #![trigger l.contains(x)]
            action::sorted_ranges(l).contains(x) <==> l.contains(x),
        all_parted(action::sorted_ranges(l)) <==> all_parted(l),
    decreases l.len(),
{
    if l.len() > 0 {
        let w = l.drop_last();
        let x = l.last();
        let r = action::sorted_ranges(w);
        let o = action::sorted_ranges(l);
        lemma_sorted_ranges(w);
        lemma_range_place_is(r, x);
        let k = action::range_place(r, x) as int;
        assert forall|i: int| 0 <= i < o.len() implies o[i] == (if i < k {
            r[i]
        } else if i == k {
            x
        } else {
            r[i - 1]
        }) by {}
        assert forall|i: int, j: int| 0 <= i < j < l.len() implies !action::range_before(
            #[trigger] o[j],
            #[trigger] o[i],
        ) by {
            let a = if i < k {
                i
            } else {
                i - 1
            };
            let b = if j < k {
                j
            } else {
                j - 1
            };
            if i == k {
                if b > k {
                    assert(!action::range_before(r[b], r[k]));
                }
            } else if j == k {
                assert(!action::range_before(x, r[a]));
            } else {
                assert(!action::range_before(r[b], r[a]));
            }
        }
        assert forall|y: (TimeUs, TimeUs)| o.contains(y) implies l.contains(y) by {
            let i = choose|i: int| 0 <= i < o.len() && o[i] == y;
            if i == k {
                assert(l[l.len() - 1] == y);
            } else {
                assert(r.contains(y)) by {
                    assert(r[if i < k {
                        i
                    } else {
                        i - 1
                    }] == y);
                }
                let j = choose|j: int| 0 <= j < w.len() && w[j] == y;
                assert(l[j] == y);
            }
        }
        assert forall|y: (TimeUs, TimeUs)| l.contains(y) implies o.contains(y) by {
            let j = choose|j: int| 0 <= j < l.len() && l[j] == y;
            if j == l.len() - 1 {
                assert(o[k] == y);
            } else {
                assert(w[j] == y);
                assert(r.contains(y));
                let i = choose|i: int| 0 <= i < r.len() && r[i] == y;
                assert(o[if i < k {
                    i
                } else {
                    i + 1
                }] == y);
            }
        }
        if all_parted(l) {
            assert(all_parted(w)) by {
                assert forall|i: int, j: int|
                    0 <= i < w.len() && 0 <= j < w.len() && i != j implies parted(
                    #[trigger] w[i],
                    #[trigger] w[j],
                ) by {
                    assert(parted(l[i], l[j]));
                }
            }
            assert forall|i: int| 0 <= i < r.len() implies parted(#[trigger] r[i], x) by {
                assert(r.contains(r[i]));
                let j = choose|j: int| 0 <= j < w.len() && w[j] == r[i];
                assert(parted(l[j], l[l.len() - 1]));
            }
            assert forall|i: int, j: int|
                0 <= i < o.len() && 0 <= j < o.len() && i != j implies parted(
                #[trigger] o[i],
                #[trigger] o[j],
            ) by {
                let a = if i < k {
                    i
                } else {
                    i - 1
                };
                let b = if j < k {
                    j
                } else {
                    j - 1
                };
                if i == k {
                    assert(parted(r[b], x));
                } else if j == k {
                    assert(parted(r[a], x));
                } else {
                    assert(parted(r[a], r[b]));
                }
            }
        }
        if all_parted(o) {
            assert(all_parted(r)) by {
                assert forall|i: int, j: int|
                    0 <= i < r.len() && 0 <= j < r.len() && i != j implies parted(
                    #[trigger] r[i],
                    #[trigger] r[j],
                ) by {
                    let a = if i < k {
                        i
                    } else {
                        i + 1
                    };
                    let b = if j < k {
                        j
                    } else {
                        j + 1
                    };
                    assert(parted(o[a], o[b]));
                }
            }
            assert forall|i: int| 0 <= i < w.len() implies parted(#[trigger] w[i], x) by {
                assert(w.contains(w[i]));
                assert(r.contains(w[i]));
                let j = choose|j: int| 0 <= j < r.len() && r[j] == w[i];
                let a = if j < k {
                    j
                } else {
                    j + 1
                };
                assert(o[a] == w[i] && o[k] == x);
                assert(parted(o[a], o[k]));
            }
            assert forall|i: int, j: int|
                0 <= i < l.len() && 0 <= j < l.len() && i != j implies parted(
                #[trigger] l[i],
                #[trigger] l[j],
            ) by {
                if i == l.len() - 1 {
                    assert(parted(w[j], x));
                } else if j == l.len() - 1 {
                    assert(parted(w[i], x));
                } else {
                    assert(parted(w[i], w[j]));
                }
            }
        }
    }
}

/// Ranges that last clash just if two of them share an instant.
proof fn lemma_clash(l: Seq<(TimeUs, TimeUs)>)
    requires
        forall|i: int| 0 <= i < l.len() ==> (#[trigger] l[i]).0 < l[i].1,
    ensures
        action::clash(action::sorted_ranges(l)) <==> !all_parted(l),
{
    let o = action::sorted_ranges(l);
    lemma_sorted_ranges(l);
    assert forall|i: int| 0 <= i < o.len() implies (#[trigger] o[i]).0 < o[i].1 by {
        assert(o.contains(o[i]));
        let j = choose|j: int| 0 <= j < l.len() && l[j] == o[i];
        assert(l[j].0 < l[j].1);
    }
    if all_parted(o) {
        if action::clash(o) {
            let i = choose|i: int| 0 <= i < o.len() - 1 && (#[trigger] o[i]).1 > o[i + 1].0;
            assert(parted(o[i], o[i + 1]));
            assert(!action::range_before(o[i + 1], o[i]));
        }
    }
    if !action::clash(o) {
        assert forall|i: int, j: int|
            0 <= i < o.len() && 0 <= j < o.len() && i != j implies parted(
            #[trigger] o[i],
            #[trigger] o[j],
        ) by {
            if i < j {
                lemma_chain(o, i, j);
            } else {
                lemma_chain(o, j, i);
            }
        }
    }
}

proof fn lemma_chain(o: Seq<(TimeUs, TimeUs)>, i: int, j: int)
    requires
        0 <= i < j < o.len(),
        !action::clash(o),
        forall|i: int| 0 <= i < o.len() ==> (#[trigger] o[i]).0 < o[i].1,
    ensures
        o[i].1 <= o[j].0,
    decreases j - i,
{
    assert(o[i].1 <= o[i + 1].0);
    if i + 1 < j {
        lemma_chain(o, i + 1, j);
        assert(o[i + 1].0 < o[i + 1].1);
    }
}

// ---- replacing clips ----

/// Taking clips off leaves the others.
#[verifier::spinoff_prover]
pub proof fn lemma_take_off(clips: Seq<ClipV>, ids: Seq<Id>)
    requires
        in_line(clips),
        different(clips),
        action::take_off(clips, ids) is Ok,
    ensures
        ({
            let x = action::take_off(clips, ids)->Ok_0;
            &&& in_line(x.0)
            &&& different(x.0)
            &&& x.1.len() == ids.len()
            &&& forall|i: int| 0 <= i < ids.len() ==> (#[trigger] x.1[i]).id == ids[i]
            &&& different(x.1)
            &&& forall|c: ClipV|
                #![trigger x.0.contains(c)]
                #![trigger clips.contains(c)]
                x.0.contains(c) <==> (clips.contains(c) && !ids.contains(c.id))
            &&& forall|c: ClipV|
                #![trigger x.1.contains(c)]
                #![trigger clips.contains(c)]
                x.1.contains(c) <==> (clips.contains(c) && ids.contains(c.id))
        }),
    decreases ids.len(),
{
    let x = action::take_off(clips, ids)->Ok_0;
    if ids.len() == 0 {
        assert forall|c: ClipV| !ids.contains(c.id) by {}
        assert forall|c: ClipV| !(#[trigger] x.1.contains(c)) by {}
    } else {
        let w = ids.drop_last();
        let id = ids.last();
        lemma_take_off(clips, w);
        let y = action::take_off(clips, w)->Ok_0;
        seqs::lemma_pos(y.0, id);
        let k = seqs::pos(y.0, id) as int;
        assert(y.0[k].ident() == id);
        let c0 = y.0[k];
        assert(y.0.contains(c0));
        lemma_remove_in_line(y.0, k);
        let r = y.0.remove(k);
        assert forall|i: int| 0 <= i < r.len() implies r[i] == y.0[if i < k {
            i
        } else {
            i + 1
        }] by {}
        assert(different(r));
        assert forall|i: int| 0 <= i < ids.len() implies (#[trigger] x.1[i]).id == ids[i] by {
            if i < w.len() {
                assert(x.1[i] == y.1[i]);
                assert(y.1[i].id == w[i]);
            }
        }
        assert(!w.contains(id));
        assert(different(x.1)) by {
            assert forall|i: int, j: int|
                0 <= i < x.1.len() && 0 <= j < x.1.len() && (#[trigger] x.1[i]).id == (
                #[trigger] x.1[j]).id implies i == j by {
                if i < w.len() {
                    assert(x.1[i] == y.1[i]);
                    assert(w[i] == ids[i]);
                }
                if j < w.len() {
                    assert(x.1[j] == y.1[j]);
                    assert(w[j] == ids[j]);
                }
                if i == w.len() && j < w.len() {
                    assert(w.contains(w[j]));
                }
                if j == w.len() && i < w.len() {
                    assert(w.contains(w[i]));
                }
            }
        }
        assert forall|c: ClipV| #[trigger] ids.contains(c.id) <==> (w.contains(c.id) || c.id == id) by {
            if ids.contains(c.id) {
                let i = choose|i: int| 0 <= i < ids.len() && ids[i] == c.id;
                if i < w.len() {
                    assert(w[i] == c.id);
                }
            }
            if w.contains(c.id) {
                let i = choose|i: int| 0 <= i < w.len() && w[i] == c.id;
                assert(ids[i] == c.id);
            }
            if c.id == id {
                assert(ids[ids.len() - 1] == c.id);
            }
        }
        assert forall|c: ClipV| x.0.contains(c) implies (clips.contains(c) && !ids.contains(c.id)) by {
            let i = choose|i: int| 0 <= i < r.len() && r[i] == c;
            let m = if i < k {
                i
            } else {
                i + 1
            };
            assert(y.0[m] == c);
            assert(y.0.contains(c));
            assert(y.0[m].id != y.0[k].id);
        }
        assert forall|c: ClipV| (clips.contains(c) && !ids.contains(c.id)) implies x.0.contains(c) by {
            assert(y.0.contains(c));
            let i = choose|i: int| 0 <= i < y.0.len() && y.0[i] == c;
            assert(i != k);
            assert(r[if i < k {
                i
            } else {
                i - 1
            }] == c);
        }
        assert forall|c: ClipV| x.1.contains(c) implies (clips.contains(c) && ids.contains(c.id)) by {
            let i = choose|i: int| 0 <= i < x.1.len() && x.1[i] == c;
            if i < w.len() {
                assert(y.1[i] == c);
                assert(y.1.contains(c));
            } else {
                assert(c == c0);
            }
        }
        assert forall|c: ClipV| (clips.contains(c) && ids.contains(c.id)) implies x.1.contains(c) by {
            if w.contains(c.id) {
                assert(y.1.contains(c));
                let i = choose|i: int| 0 <= i < y.1.len() && y.1[i] == c;
                assert(x.1[i] == c);
            } else {
                let i = choose|i: int| 0 <= i < clips.len() && clips[i] == c;
                let j = choose|j: int| 0 <= j < clips.len() && clips[j] == c0;
                assert(clips[i].id == clips[j].id);
                assert(x.1[w.len() as int] == c0);
            }
        }
    }
}

proof fn lemma_take_off_ok(clips: Seq<ClipV>, ids: Seq<Id>)
    requires
        in_line(clips),
        different(clips),
        forall|i: int, j: int| 0 <= i < j < ids.len() ==> ids[i] != ids[j],
        forall|i: int|
            0 <= i < ids.len() ==> exists|k: int|
                0 <= k < clips.len() && (#[trigger] clips[k]).id == #[trigger] ids[i],
    ensures
        action::take_off(clips, ids) is Ok,
    decreases ids.len(),
{
    if ids.len() > 0 {
        let w = ids.drop_last();
        let id = ids.last();
        assert forall|i: int| 0 <= i < w.len() implies exists|k: int|
            0 <= k < clips.len() && (#[trigger] clips[k]).id == #[trigger] w[i] by {
            assert(w[i] == ids[i]);
        }
        lemma_take_off_ok(clips, w);
        lemma_take_off(clips, w);
        let y = action::take_off(clips, w)->Ok_0;
        assert(ids[ids.len() - 1] == id);
        let k = choose|k: int| 0 <= k < clips.len() && (#[trigger] clips[k]).id == id;
        assert(clips.contains(clips[k]));
        assert(!w.contains(id)) by {
            if w.contains(id) {
                let i = choose|i: int| 0 <= i < w.len() && w[i] == id;
                assert(ids[i] != ids[ids.len() - 1]);
            }
        }
        assert(y.0.contains(clips[k]));
        let j = choose|j: int| 0 <= j < y.0.len() && y.0[j] == clips[k];
        seqs::lemma_pos(y.0, id);
        if !seqs::holds(y.0, id) {
            assert(y.0[j].ident() != id);
        }
    }
}

proof fn lemma_put_all(clips: Seq<ClipV>, list: Seq<ClipV>)
    requires
        in_line(clips),
        forall|i: int| 0 <= i < list.len() ==> lasting(#[trigger] list[i]),
        forall|i: int, j: int|
            0 <= i < list.len() && 0 <= j < list.len() && i != j ==> apart(
                #[trigger] list[i],
                #[trigger] list[j],
            ),
        forall|i: int, j: int|
            0 <= i < clips.len() && 0 <= j < list.len() ==> apart(
                #[trigger] clips[i],
                #[trigger] list[j],
            ),
    ensures
        in_line(action::put_all(clips, list)),
        action::put_all(clips, list).len() == clips.len() + list.len(),
        forall|c: ClipV|
            #![trigger action::put_all(clips, list).contains(c)]
            #![trigger clips.contains(c)]
            #![trigger list.contains(c)]
            action::put_all(clips, list).contains(c) <==> (clips.contains(c) || list.contains(c)),
    decreases list.len(),
{
    if list.len() > 0 {
        let w = list.drop_last();
        let x = list.last();
        assert forall|i: int| 0 <= i < w.len() implies w[i] == list[i] by {}
        assert forall|i: int| 0 <= i < w.len() implies lasting(#[trigger] w[i]) by {
            assert(lasting(list[i]));
        }
        assert forall|i: int, j: int| 0 <= i < w.len() && 0 <= j < w.len() && i != j implies apart(
            #[trigger] w[i],
            #[trigger] w[j],
        ) by {
            assert(apart(list[i], list[j]));
        }
        assert forall|i: int, j: int| 0 <= i < clips.len() && 0 <= j < w.len() implies apart(
            #[trigger] clips[i],
            #[trigger] w[j],
        ) by {
            assert(apart(clips[i], list[j]));
        }
        lemma_put_all(clips, w);
        let r = action::put_all(clips, w);
        assert forall|i: int| 0 <= i < r.len() implies apart(#[trigger] r[i], x) by {
            assert(r.contains(r[i]));
            if clips.contains(r[i]) {
                let m = choose|m: int| 0 <= m < clips.len() && clips[m] == r[i];
                assert(apart(clips[m], list[list.len() - 1]));
            } else {
                assert(w.contains(r[i]));
                let m = choose|m: int| 0 <= m < w.len() && w[m] == r[i];
                assert(apart(list[m], list[list.len() - 1]));
            }
        }
        assert(lasting(list[list.len() - 1]));
        lemma_put_in_line(r, x);
        lemma_put_in_contains(r, x);
        assert forall|c: ClipV| list.contains(c) <==> (w.contains(c) || c == x) by {
            if list.contains(c) {
                let i = choose|i: int| 0 <= i < list.len() && list[i] == c;
                if i < w.len() {
                    assert(w[i] == c);
                }
            }
            if w.contains(c) {
                let i = choose|i: int| 0 <= i < w.len() && w[i] == c;
                assert(list[i] == c);
            }
            if c == x {
                assert(list[list.len() - 1] == c);
            }
        }
    } else {
        assert forall|c: ClipV| !list.contains(c) by {}
    }
}

proof fn lemma_misfit(p: ProjectV, list: Seq<ClipV>, kind: TrackKind)
    ensures
        action::first_misfit(p, list, kind) is None <==> forall|i: int|
            0 <= i < list.len() ==> action::allowed_on(p, #[trigger] list[i], kind),
    decreases list.len(),
{
    if list.len() > 0 {
        let r = list.drop_first();
        lemma_misfit(p, r, kind);
        if action::allowed_on(p, list[0], kind) {
            if forall|i: int| 0 <= i < r.len() ==> action::allowed_on(p, #[trigger] r[i], kind) {
                assert forall|i: int| 0 <= i < list.len() implies action::allowed_on(
                    p,
                    #[trigger] list[i],
                    kind,
                ) by {
                    if i > 0 {
                        assert(list[i] == r[i - 1]);
                    }
                }
            } else {
                let i = choose|i: int| 0 <= i < r.len() && !action::allowed_on(p, #[trigger] r[i], kind);
                assert(list[i + 1] == r[i]);
            }
        }
    }
}

/// Two lists of lasting clips whose ranges do not clash are apart from each
/// other and within each.
proof fn lemma_apart_lists(a: Seq<ClipV>, b: Seq<ClipV>)
    requires
        forall|i: int| 0 <= i < a.len() ==> lasting(#[trigger] a[i]),
        forall|i: int| 0 <= i < b.len() ==> lasting(#[trigger] b[i]),
    ensures
        !action::clash(action::sorted_ranges(action::ranges(a) + action::ranges(b))) <==> {
            &&& forall|i: int, j: int|
                0 <= i < a.len() && 0 <= j < a.len() && i != j ==> apart(
                    #[trigger] a[i],
                    #[trigger] a[j],
                )
            &&& forall|i: int, j: int|
                0 <= i < b.len() && 0 <= j < b.len() && i != j ==> apart(
                    #[trigger] b[i],
                    #[trigger] b[j],
                )
            &&& forall|i: int, j: int|
                0 <= i < a.len() && 0 <= j < b.len() ==> apart(#[trigger] a[i], #[trigger] b[j])
        },
{
    let l = action::ranges(a) + action::ranges(b);
    let n = a.len() as int;
    assert forall|i: int| 0 <= i < l.len() implies l[i] == (if i < n {
        (a[i].start, a[i].finish())
    } else {
        (b[i - n].start, b[i - n].finish())
    }) by {}
    assert forall|i: int| 0 <= i < l.len() implies (#[trigger] l[i]).0 < l[i].1 by {
        if i < n {
            assert(lasting(a[i]));
        } else {
            assert(lasting(b[i - n]));
        }
    }
    lemma_clash(l);
    if all_parted(l) {
        assert forall|i: int, j: int|
            0 <= i < a.len() && 0 <= j < a.len() && i != j implies apart(
            #[trigger] a[i],
            #[trigger] a[j],
        ) by {
            assert(parted(l[i], l[j]));
        }
        assert forall|i: int, j: int|
            0 <= i < b.len() && 0 <= j < b.len() && i != j implies apart(
            #[trigger] b[i],
            #[trigger] b[j],
        ) by {
            assert(parted(l[n + i], l[n + j]));
        }
        assert forall|i: int, j: int| 0 <= i < a.len() && 0 <= j < b.len() implies apart(
            #[trigger] a[i],
            #[trigger] b[j],
        ) by {
            assert(parted(l[i], l[n + j]));
        }
    }
    if (forall|i: int, j: int|
        0 <= i < a.len() && 0 <= j < a.len() && i != j ==> apart(#[trigger] a[i], #[trigger] a[j]))
        && (forall|i: int, j: int|
        0 <= i < b.len() && 0 <= j < b.len() && i != j ==> apart(#[trigger] b[i], #[trigger] b[j]))
        && (forall|i: int, j: int|
        0 <= i < a.len() && 0 <= j < b.len() ==> apart(#[trigger] a[i], #[trigger] b[j])) {
        assert forall|i: int, j: int|
            0 <= i < l.len() && 0 <= j < l.len() && i != j implies parted(
            #[trigger] l[i],
            #[trigger] l[j],
        ) by {
            if i < n && j < n {
                assert(apart(a[i], a[j]));
            } else if i < n {
                assert(apart(a[i], b[j - n]));
            } else if j < n {
                assert(apart(a[j], b[i - n]));
            } else {
                assert(apart(b[i - n], b[j - n]));
            }
        }
    }
}

proof fn lemma_in_line_apart(clips: Seq<ClipV>, i: int, j: int)
    requires
        in_line(clips),
        0 <= i < clips.len(),
        0 <= j < clips.len(),
        i != j,
    ensures
        apart(clips[i], clips[j]),
{
    if i < j {
        assert(clips[i].finish() <= clips[j].start);
    } else {
        assert(clips[j].finish() <= clips[i].start);
    }
}

#[verifier::rlimit(60)]
#[verifier::spinoff_prover]
proof fn lemma_replace_inverse(strict: bool, p: ProjectV, track_id: Id, remove_ids: Seq<Id>, insert: Seq<ClipV>)
    requires
        fit(strict, p),
        able(strict, p, (ActionV::ReplaceClips { track_id, remove_ids, insert })),
        action::step(p, (ActionV::ReplaceClips { track_id, remove_ids, insert })) is Ok,
    ensures
        redone(strict, p, (ActionV::ReplaceClips { track_id, remove_ids, insert })),
{
    reveal(redone);
    lemma_track_found(p, track_id);
    let (s, t) = model::track_place(p, track_id)->0;
    let tr = model::track_at(p, (s, t));
    assert(fit_sequence(strict, p, p.sequences[s]));
    assert(fit_track(strict, p, tr));
    lemma_track_different(p, s, t);
    lemma_take_off(tr.clips, remove_ids);
    let x = action::take_off(tr.clips, remove_ids)->Ok_0;
    let rest = x.0;
    let gone = x.1;
    lemma_misfit(p, insert, tr.kind);
    assert forall|i: int| 0 <= i < insert.len() implies lasting(#[trigger] insert[i]) by {
        assert(lasting(insert[i]));
    }
    lemma_apart_lists(rest, insert);
    lemma_put_all(rest, insert);
    let clips = action::put_all(rest, insert);
    // The clips that stay and those that come have different identifiers.
    assert forall|i: int, j: int| 0 <= i < rest.len() && 0 <= j < insert.len() implies (
    #[trigger] rest[i]).id != (#[trigger] insert[j]).id by {
        assert(rest.contains(rest[i]));
        assert(tr.clips.contains(rest[i]));
        let m = choose|m: int| 0 <= m < tr.clips.len() && tr.clips[m] == rest[i];
        assert(has_clip(p, s, t, m, rest[i].id));
    }
    lemma_put_all_sound(strict, p, s, t, rest, insert, tr.kind);
    assert forall|i: int, a: int, b: int, c: int|
        0 <= i < clips.len() && (a != s || b != t) implies !#[trigger] has_clip(
        p,
        a,
        b,
        c,
        (#[trigger] clips[i]).id,
    ) by {
        assert(clips.contains(clips[i]));
        if rest.contains(clips[i]) {
            assert(tr.clips.contains(clips[i]));
            let m = choose|m: int| 0 <= m < tr.clips.len() && tr.clips[m] == clips[i];
            assert(has_clip(p, s, t, m, clips[i].id));
        } else {
            assert(insert.contains(clips[i]));
            let m = choose|m: int| 0 <= m < insert.len() && insert[m] == clips[i];
            if remove_ids.contains(insert[m].id) {
                let n = choose|n: int| 0 <= n < remove_ids.len() && remove_ids[n] == insert[m].id;
                assert(gone[n].id == remove_ids[n]);
                assert(gone.contains(gone[n]));
                assert(tr.clips.contains(gone[n]));
                let o = choose|o: int| 0 <= o < tr.clips.len() && tr.clips[o] == gone[n];
                assert(has_clip(p, s, t, o, clips[i].id));
            }
        }
    }
    assert(fit_track(strict, p, (TrackV { clips, ..tr })));
    lemma_sound_with_clips(strict, p, s, t, clips);
    let q = model::with_clips(p, (s, t), clips);
    lemma_with_clips(p, s, t, clips);
    assert(has_track(p, s, t, tr.id));
    assert(has_track(q, s, t, track_id));
    lemma_track_at(q, s, t, track_id);
    // The way back.
    let back = insert.map_values(|c: ClipV| c.id);
    lemma_take_back(rest, insert, clips, back);
    lemma_misfit(q, gone, tr.kind);
    assert forall|i: int| 0 <= i < gone.len() implies action::allowed_on(q, #[trigger] gone[i], tr.kind)
        && lasting(gone[i]) by {
        assert(gone.contains(gone[i]));
        assert(tr.clips.contains(gone[i]));
        let m = choose|m: int| 0 <= m < tr.clips.len() && tr.clips[m] == gone[i];
        assert(fit_clip(strict, p, tr.clips[m], tr.kind));
        assert(has_clip(p, s, t, m, gone[i].id));
        assert(in_place(p, (s, t, m)));
    }
    lemma_apart_back(tr.clips, remove_ids);
    lemma_apart_lists(rest, gone);
    lemma_put_all(rest, gone);
    lemma_in_line_rising(tr.clips);
    lemma_in_line_rising(action::put_all(rest, gone));
    lemma_rising_unique(action::put_all(rest, gone), tr.clips);
    lemma_with_clips_back(p, s, t, clips);
}

/// What is left and what was taken off a line of clips are apart.
proof fn lemma_apart_back(clips: Seq<ClipV>, ids: Seq<Id>)
    requires
        in_line(clips),
        different(clips),
        action::take_off(clips, ids) is Ok,
    ensures
        ({
            let x = action::take_off(clips, ids)->Ok_0;
            &&& forall|i: int, j: int|
                0 <= i < x.0.len() && 0 <= j < x.0.len() && i != j ==> apart(
                    #[trigger] x.0[i],
                    #[trigger] x.0[j],
                )
            &&& forall|i: int, j: int|
                0 <= i < x.1.len() && 0 <= j < x.1.len() && i != j ==> apart(
                    #[trigger] x.1[i],
                    #[trigger] x.1[j],
                )
            &&& forall|i: int, j: int|
                0 <= i < x.0.len() && 0 <= j < x.1.len() ==> apart(
                    #[trigger] x.0[i],
                    #[trigger] x.1[j],
                )
        }),
{
    lemma_take_off(clips, ids);
    let x = action::take_off(clips, ids)->Ok_0;
    assert forall|i: int, j: int| 0 <= i < x.0.len() && 0 <= j < x.0.len() && i != j implies apart(
        #[trigger] x.0[i],
        #[trigger] x.0[j],
    ) by {
        lemma_in_line_apart(x.0, i, j);
    }
    assert forall|i: int, j: int| 0 <= i < x.1.len() && 0 <= j < x.1.len() && i != j implies apart(
        #[trigger] x.1[i],
        #[trigger] x.1[j],
    ) by {
        assert(x.1.contains(x.1[i]) && x.1.contains(x.1[j]));
        let a = choose|a: int| 0 <= a < clips.len() && clips[a] == x.1[i];
        let b = choose|b: int| 0 <= b < clips.len() && clips[b] == x.1[j];
        assert(x.1[i].id != x.1[j].id);
        lemma_in_line_apart(clips, a, b);
    }
    assert forall|i: int, j: int| 0 <= i < x.0.len() && 0 <= j < x.1.len() implies apart(
        #[trigger] x.0[i],
        #[trigger] x.1[j],
    ) by {
        assert(x.0.contains(x.0[i]) && x.1.contains(x.1[j]));
        let a = choose|a: int| 0 <= a < clips.len() && clips[a] == x.0[i];
        let b = choose|b: int| 0 <= b < clips.len() && clips[b] == x.1[j];
        assert(ids.contains(x.1[j].id) && !ids.contains(x.0[i].id));
        lemma_in_line_apart(clips, a, b);
    }
}

/// Clips with different identifiers and sound ones make a sound track.
proof fn lemma_put_all_sound(strict: bool, p: ProjectV,
    s: int,
    t: int,
    rest: Seq<ClipV>,
    insert: Seq<ClipV>,
    kind: TrackKind,
)
    requires
        fit(strict, p),
        0 <= s < p.sequences.len(),
        0 <= t < p.sequences[s].tracks.len(),
        kind == model::track_at(p, (s, t)).kind,
        forall|c: ClipV| rest.contains(c) ==> #[trigger] model::track_at(p, (s, t)).clips.contains(c),
        different(rest),
        different(insert),
        forall|i: int, j: int|
            0 <= i < rest.len() && 0 <= j < insert.len() ==> (#[trigger] rest[i]).id != (
            #[trigger] insert[j]).id,
        forall|i: int|
            0 <= i < insert.len() ==> fit_clip(strict, p, #[trigger] insert[i], kind),
        in_line(action::put_all(rest, insert)),
        forall|c: ClipV|
            #![trigger action::put_all(rest, insert).contains(c)]
            action::put_all(rest, insert).contains(c) <==> (rest.contains(c) || insert.contains(c)),
    ensures
        different(action::put_all(rest, insert)),
        fit_track(strict, p, (TrackV { clips: action::put_all(rest, insert), ..model::track_at(p, (s, t)) })),
{
    let tr = model::track_at(p, (s, t));
    let clips = action::put_all(rest, insert);
    assert(fit_sequence(strict, p, p.sequences[s]));
    assert(fit_track(strict, p, tr));
    lemma_in_line_rising(clips);
    assert forall|i: int, j: int|
        0 <= i < clips.len() && 0 <= j < clips.len() && (#[trigger] clips[i]).id == (
        #[trigger] clips[j]).id implies i == j by {
        assert(clips.contains(clips[i]) && clips.contains(clips[j]));
        lemma_one_clip(rest, insert, clips[i], clips[j]);
        if i < j {
            assert(clips[i].start < clips[j].start);
        } else if j < i {
            assert(clips[j].start < clips[i].start);
        }
    }
    assert forall|i: int| 0 <= i < clips.len() implies fit_clip(
        strict,
        p,
        #[trigger] clips[i],
        tr.kind,
    ) by {
        assert(clips.contains(clips[i]));
        if rest.contains(clips[i]) {
            assert(tr.clips.contains(clips[i]));
            let m = choose|m: int| 0 <= m < tr.clips.len() && tr.clips[m] == clips[i];
            assert(fit_clip(strict, p, tr.clips[m], tr.kind));
        } else {
            let m = choose|m: int| 0 <= m < insert.len() && insert[m] == clips[i];
            assert(fit_clip(strict, p, insert[m], kind));
        }
    }
}

proof fn lemma_one_clip(rest: Seq<ClipV>, insert: Seq<ClipV>, a: ClipV, b: ClipV)
    requires
        different(rest),
        different(insert),
        forall|i: int, j: int|
            0 <= i < rest.len() && 0 <= j < insert.len() ==> (#[trigger] rest[i]).id != (
            #[trigger] insert[j]).id,
        rest.contains(a) || insert.contains(a),
        rest.contains(b) || insert.contains(b),
        a.id == b.id,
    ensures
        a == b,
{
    if rest.contains(a) {
        let i = choose|i: int| 0 <= i < rest.len() && rest[i] == a;
        if rest.contains(b) {
            let j = choose|j: int| 0 <= j < rest.len() && rest[j] == b;
            assert(rest[i].id == rest[j].id);
        } else {
            let j = choose|j: int| 0 <= j < insert.len() && insert[j] == b;
            assert(rest[i].id != insert[j].id);
        }
    } else {
        let i = choose|i: int| 0 <= i < insert.len() && insert[i] == a;
        if rest.contains(b) {
            let j = choose|j: int| 0 <= j < rest.len() && rest[j] == b;
            assert(rest[j].id != insert[i].id);
        } else {
            let j = choose|j: int| 0 <= j < insert.len() && insert[j] == b;
            assert(insert[i].id == insert[j].id);
        }
    }
}

/// Taking off what was put on leaves what was there.
proof fn lemma_take_back(rest: Seq<ClipV>, insert: Seq<ClipV>, clips: Seq<ClipV>, back: Seq<Id>)
    requires
        in_line(rest),
        different(insert),
        in_line(clips),
        different(clips),
        forall|c: ClipV|
            #![trigger clips.contains(c)]
            #![trigger rest.contains(c)]
            #![trigger insert.contains(c)]
            clips.contains(c) <==> (rest.contains(c) || insert.contains(c)),
        forall|i: int, j: int|
            0 <= i < rest.len() && 0 <= j < insert.len() ==> (#[trigger] rest[i]).id != (
            #[trigger] insert[j]).id,
        back == insert.map_values(|c: ClipV| c.id),
    ensures
        action::take_off(clips, back) is Ok,
        action::take_off(clips, back)->Ok_0.0 == rest,
{
    assert forall|i: int, j: int| 0 <= i < j < back.len() implies back[i] != back[j] by {
        assert(insert[i].id == back[i] && insert[j].id == back[j]);
    }
    assert forall|i: int| 0 <= i < back.len() implies exists|k: int|
        0 <= k < clips.len() && (#[trigger] clips[k]).id == #[trigger] back[i] by {
        assert(insert.contains(insert[i]));
        assert(clips.contains(insert[i]));
        let k = choose|k: int| 0 <= k < clips.len() && clips[k] == insert[i];
        assert(clips[k].id == back[i]);
    }
    lemma_take_off_ok(clips, back);
    lemma_take_off(clips, back);
    let y = action::take_off(clips, back)->Ok_0;
    assert forall|c: ClipV| y.0.contains(c) implies rest.contains(c) by {
        assert(clips.contains(c));
        if insert.contains(c) {
            let i = choose|i: int| 0 <= i < insert.len() && insert[i] == c;
            assert(back[i] == c.id);
            assert(back.contains(c.id));
        }
    }
    assert forall|c: ClipV| rest.contains(c) implies y.0.contains(c) by {
        assert(clips.contains(c));
        if back.contains(c.id) {
            let i = choose|i: int| 0 <= i < back.len() && back[i] == c.id;
            let j = choose|j: int| 0 <= j < rest.len() && rest[j] == c;
            assert(rest[j].id != insert[i].id);
        }
    }
    lemma_in_line_rising(rest);
    lemma_in_line_rising(y.0);
    lemma_rising_unique(y.0, rest);
}

// ---- edits of one clip ----

proof fn lemma_param_same(p: ParamV)
    requires
        p.tidy(),
    ensures
        p.sanitized() == p,
{
    if let ParamV::Curve(keys) = p {
        keyframe::lemma_tidied_same(keys);
    }
}

proof fn lemma_param_tidy(p: ParamV)
    ensures
        p.sanitized().tidy(),
{
    if let ParamV::Curve(keys) = p {
        keyframe::lemma_tidied_increasing(keys);
    }
}

proof fn lemma_params(m: Seq<(Seq<char>, ParamV)>)
    ensures
        strmap::tidy_params(strmap::sanitized_params(m)),
        strmap::tidy_params(m) ==> strmap::sanitized_params(m) == m,
{
    let r = strmap::sanitized_params(m);
    assert forall|i: int| 0 <= i < r.len() implies (#[trigger] r[i]).1.tidy() by {
        lemma_param_tidy(m[i].1);
    }
    if strmap::tidy_params(m) {
        assert forall|i: int| 0 <= i < m.len() implies r[i] == m[i] by {
            assert(m[i].1.tidy());
            lemma_param_same(m[i].1);
        }
        assert(r =~= m);
    }
}

proof fn lemma_transform(t: TransformV)
    ensures
        t.sanitized().tidy(),
        t.tidy() ==> t.sanitized() == t,
{
    lemma_param_tidy(t.position.0);
    lemma_param_tidy(t.position.1);
    lemma_param_tidy(t.scale.0);
    lemma_param_tidy(t.scale.1);
    lemma_param_tidy(t.rotation);
    lemma_param_tidy(t.crop.0);
    lemma_param_tidy(t.crop.1);
    lemma_param_tidy(t.crop.2);
    lemma_param_tidy(t.crop.3);
    lemma_param_tidy(t.opacity);
    if t.tidy() {
        lemma_param_same(t.position.0);
        lemma_param_same(t.position.1);
        lemma_param_same(t.scale.0);
        lemma_param_same(t.scale.1);
        lemma_param_same(t.rotation);
        lemma_param_same(t.crop.0);
        lemma_param_same(t.crop.1);
        lemma_param_same(t.crop.2);
        lemma_param_same(t.crop.3);
        lemma_param_same(t.opacity);
    }
}

proof fn lemma_effects(effects: Seq<EffectV>)
    ensures
        ({
            let r = effects.map_values(|e: EffectV| e.sanitized());
            &&& r.len() == effects.len()
            &&& forall|i: int| 0 <= i < r.len() ==> strmap::tidy_params((#[trigger] r[i]).params)
            &&& (forall|i: int|
                0 <= i < effects.len() ==> strmap::tidy_params((#[trigger] effects[i]).params)) ==> r
                == effects
        }),
{
    let r = effects.map_values(|e: EffectV| e.sanitized());
    assert forall|i: int| 0 <= i < r.len() implies strmap::tidy_params((#[trigger] r[i]).params) by {
        lemma_params(effects[i].params);
    }
    if forall|i: int| 0 <= i < effects.len() ==> strmap::tidy_params((#[trigger] effects[i]).params) {
        assert forall|i: int| 0 <= i < effects.len() implies r[i] == effects[i] by {
            assert(strmap::tidy_params(effects[i].params));
            lemma_params(effects[i].params);
        }
        assert(r =~= effects);
    }
}

/// Editing keeps a clip sound, in its place and allowed where it stands, and
/// the inverse edit brings the clip back.
proof fn lemma_edit(p: ProjectV, c: ClipV, a: ActionV, kind: TrackKind)
    requires
        tidy_clip(c),
        action::change_clip(c, a) is Ok,
    ensures
        ({
            let x = action::change_clip(c, a)->Ok_0;
            &&& sound_clip(c) ==> sound_clip(x.0)
            &&& action::allowed_on(p, c, kind) ==> action::allowed_on(p, x.0, kind)
            &&& x.0.id == c.id
            &&& x.0.start == c.start
            &&& x.0.duration == c.duration
            &&& match action::change_clip(x.0, x.1) {
                Ok(y) => y.0 == c,
                Err(e) => false,
            }
        }),
{
    match a {
        ActionV::SetClipTransform { clip_id, transform } => {
            lemma_transform(transform);
            lemma_transform(c.transform);
        },
        ActionV::SetClipAudio { clip_id, audio } => {
            lemma_param_tidy(audio.gain_db);
            lemma_param_tidy(audio.pan);
            lemma_param_same(c.audio.gain_db);
            lemma_param_same(c.audio.pan);
        },
        ActionV::SetClipEffects { clip_id, effects } => {
            lemma_effects(effects);
            lemma_effects(c.effects);
        },
        ActionV::SetClipGenerator { clip_id, generator_id, params, color_params } => {
            lemma_params(params);
            if let PayloadV::Generator { generator_id: g, params: ps, color_params: cs } = c.payload {
                lemma_params(ps);
            }
        },
        _ => {},
    }
}

/// Another sound clip with the same identifier and the same start, apart from
/// the others, can stand in the place of a clip.
proof fn lemma_sound_update(strict: bool, p: ProjectV, s: int, t: int, k: int, c: ClipV)
    requires
        fit(strict, p),
        0 <= s < p.sequences.len(),
        0 <= t < p.sequences[s].tracks.len(),
        0 <= k < model::track_at(p, (s, t)).clips.len(),
        fit_clip(strict, p, c, model::track_at(p, (s, t)).kind),
        c.id == model::track_at(p, (s, t)).clips[k].id,
        c.start == model::track_at(p, (s, t)).clips[k].start,
        forall|i: int|
            0 <= i < model::track_at(p, (s, t)).clips.len() && i != k ==> apart(
                #[trigger] model::track_at(p, (s, t)).clips[i],
                c,
            ),
    ensures
        fit(strict, model::with_clip(p, (s, t, k), c)),
        model::clip_place(model::with_clip(p, (s, t, k), c), c.id) == Some((s, t, k)),
        model::clip_at(model::with_clip(p, (s, t, k), c), (s, t, k)) == c,
        model::track_at(model::with_clip(p, (s, t, k), c), (s, t)).clips == model::track_at(p, (s, t)).clips.update(k, c),
        model::with_clip(model::with_clip(p, (s, t, k), c), (s, t, k), model::track_at(p, (s, t)).clips[k]) == p,
{
    let tr = model::track_at(p, (s, t));
    let r = tr.clips.remove(k);
    assert(fit_sequence(strict, p, p.sequences[s]));
    assert(fit_track(strict, p, tr));
    lemma_sound_swap(strict, p, s, t, k, c);
    lemma_remove_in_line(tr.clips, k);
    model::lemma_place(r, c.start);
    lemma_in_line_rising(tr.clips);
    assert forall|j: int| 0 <= j < k implies (#[trigger] r[j]).start < c.start by {
        assert(tr.clips[j].start < tr.clips[k].start);
    }
    if k < r.len() {
        assert(tr.clips[k].start < tr.clips[k + 1].start);
        assert(r[k] == tr.clips[k + 1]);
    }
    model::lemma_place_at(r, c.start, k as nat);
    assert(action::put_in(r, c) =~= tr.clips.update(k, c));
    let q = model::with_clip(p, (s, t, k), c);
    lemma_with_clips(p, s, t, tr.clips.update(k, c));
    lemma_with_clips_back(p, s, t, tr.clips.update(k, c));
    assert(tr.clips.update(k, c).update(k, tr.clips[k]) =~= tr.clips);
}

proof fn lemma_edit_inverse(strict: bool, p: ProjectV, clip_id: Id, a: ActionV)
    requires
        fit(strict, p),
        tidy_clip(model::clip_at(p, model::clip_place(p, clip_id)->Some_0)),
        action::edit_step(p, clip_id, a) is Ok,
    ensures
        ({
            let x = action::edit_step(p, clip_id, a)->Ok_0;
            &&& fit(strict, x.0)
            &&& match action::edit_step(x.0, clip_id, x.1) {
                Ok(y) => y.0 == p,
                Err(e) => false,
            }
        }),
{
    lemma_clip_found(p, clip_id);
    let (s, t, k) = model::clip_place(p, clip_id)->0;
    let tr = model::track_at(p, (s, t));
    let c = tr.clips[k];
    assert(fit_sequence(strict, p, p.sequences[s]));
    assert(fit_track(strict, p, tr));
    assert(fit_clip(strict, p, c, tr.kind));
    lemma_edit(p, c, a, tr.kind);
    let d = action::change_clip(c, a)->Ok_0.0;
    assert forall|i: int| 0 <= i < tr.clips.len() && i != k implies apart(
        #[trigger] tr.clips[i],
        d,
    ) by {
        lemma_in_line_apart(tr.clips, i, k);
    }
    lemma_sound_update(strict, p, s, t, k, d);
}

proof fn lemma_speed_inverse(strict: bool, p: ProjectV, clip_id: Id, speed: Real, duration: TimeUs)
    requires
        fit(strict, p),
        able(strict, p, (ActionV::SetClipSpeed { clip_id, speed, duration })),
        action::step(p, (ActionV::SetClipSpeed { clip_id, speed, duration })) is Ok,
    ensures
        redone(strict, p, (ActionV::SetClipSpeed { clip_id, speed, duration })),
{
    reveal(redone);
    lemma_clip_found(p, clip_id);
    let (s, t, k) = model::clip_place(p, clip_id)->0;
    let tr = model::track_at(p, (s, t));
    let c = tr.clips[k];
    assert(fit_sequence(strict, p, p.sequences[s]));
    assert(fit_track(strict, p, tr));
    assert(fit_clip(strict, p, c, tr.kind));
    let d = ClipV { speed, duration, ..c };
    lemma_not_hit(tr, c.start, duration, Some(clip_id), d);
    lemma_track_different(p, s, t);
    assert forall|i: int| 0 <= i < tr.clips.len() && i != k implies apart(
        #[trigger] tr.clips[i],
        d,
    ) by {
        assert(tr.clips[i].id != tr.clips[k].id);
    }
    assert(fit_clip(strict, p, d, tr.kind));
    lemma_sound_update(strict, p, s, t, k, d);
    let q = model::with_clip(p, (s, t, k), d);
    let tq = model::track_at(q, (s, t));
    assert forall|i: int|
        0 <= i < tq.clips.len() && Some((#[trigger] tq.clips[i]).id) != Some(clip_id) implies apart(
        tq.clips[i],
        c,
    ) by {
        assert(i != k);
        lemma_in_line_apart(tr.clips, i, k);
    }
    lemma_no_hit(tq, c, Some(clip_id));
    assert(ClipV { speed: c.speed, duration: c.duration, ..d } == c);
}

// ---- tracks and sequences ----

/// The project with other tracks in a sequence.
spec fn with_tracks(p: ProjectV, s: int, tracks: Seq<TrackV>) -> ProjectV {
    ProjectV {
        sequences: p.sequences.update(s, SequenceV { tracks, ..p.sequences[s] }),
        ..p
    }
}

/// A sound project stays sound when a sequence gets other sound tracks with
/// identifiers that no other sequence has.
proof fn lemma_sound_with_tracks(strict: bool, p: ProjectV, s: int, tracks: Seq<TrackV>, sq: SequenceV)
    requires
        fit(strict, p),
        0 <= s < p.sequences.len(),
        sq == (SequenceV { tracks, ..p.sequences[s] }),
        tracks.len() < usize::MAX,
        forall|t: int| 0 <= t < tracks.len() ==> fit_track(strict, p, #[trigger] tracks[t]),
        forall|i: int, j: int|
            0 <= i < tracks.len() && 0 <= j < tracks.len() && (#[trigger] tracks[i]).id == (
            #[trigger] tracks[j]).id ==> i == j,
        forall|i: int, a: int, b: int|
            0 <= i < tracks.len() && a != s ==> !#[trigger] has_track(
                p,
                a,
                b,
                (#[trigger] tracks[i]).id,
            ),
        forall|t: int, c: int, id: Id, a: int, b: int, d: int|
            #[trigger] seq_clip(sq, t, c, id) && a != s ==> !#[trigger] has_clip(p, a, b, d, id),
        forall|t: int, c: int, u: int, d: int, id: Id|
            #[trigger] seq_clip(sq, t, c, id) && #[trigger] seq_clip(sq, u, d, id) ==> t == u && c
                == d,
    ensures
        fit(strict, with_tracks(p, s, tracks)),
{
    let q = with_tracks(p, s, tracks);
    lemma_holds_same(p, q, p.active_sequence);
    assert(unique_sequences(q)) by {
        assert forall|i: int, j: int|
            0 <= i < q.sequences.len() && 0 <= j < q.sequences.len() && (
            #[trigger] q.sequences[i]).id == (#[trigger] q.sequences[j]).id implies i == j by {
            assert(p.sequences[i].id == p.sequences[j].id);
        }
    }
    assert(unique_tracks(q)) by {
        assert forall|a: int, b: int, c: int, d: int, id: Id|
            #[trigger] has_track(q, a, b, id) && #[trigger] has_track(q, c, d, id) implies a == c
            && b == d by {
            if a == s {
                assert(tracks[b].id == id);
                if c == s {
                    assert(tracks[d].id == id);
                } else {
                    assert(has_track(p, c, d, tracks[b].id));
                }
            } else {
                assert(has_track(p, a, b, id));
                if c == s {
                    assert(tracks[d].id == id);
                    assert(has_track(p, a, b, tracks[d].id));
                } else {
                    assert(has_track(p, c, d, id));
                }
            }
        }
    }
    assert(unique_clips(q)) by {
        assert forall|a: int, b: int, c: int, d: int, e: int, f: int, id: Id|
            #[trigger] has_clip(q, a, b, c, id) && #[trigger] has_clip(q, d, e, f, id) implies a
            == d && b == e && c == f by {
            if a == s {
                assert(seq_clip(sq, b, c, id));
                if d == s {
                    assert(seq_clip(sq, e, f, id));
                } else {
                    assert(has_clip(p, d, e, f, id));
                }
            } else {
                assert(has_clip(p, a, b, c, id));
                if d == s {
                    assert(seq_clip(sq, e, f, id));
                } else {
                    assert(has_clip(p, d, e, f, id));
                }
            }
        }
    }
    assert forall|a: int| 0 <= a < q.sequences.len() implies fit_sequence(strict, q,
        #[trigger] q.sequences[a],
    ) by {
        assert(fit_sequence(strict, p, p.sequences[a]));
        if a == s {
            assert(fit_sequence(strict, p, sq));
            lemma_sound_sequence_same(strict, p, q, sq);
        } else {
            lemma_sound_sequence_same(strict, p, q, p.sequences[a]);
        }
    }
}

#[verifier::rlimit(80)]
#[verifier::spinoff_prover]
proof fn lemma_add_track_inverse(strict: bool, p: ProjectV, sequence_id: Id, index: usize, track: TrackV)
    requires
        fit(strict, p),
        able(strict, p, (ActionV::AddTrack { sequence_id, index, track })),
        action::step(p, (ActionV::AddTrack { sequence_id, index, track })) is Ok,
        p.sequences[seqs::pos(p.sequences, sequence_id) as int].tracks.len() + 1 < usize::MAX,
    ensures
        redone(strict, p, (ActionV::AddTrack { sequence_id, index, track })),
{
    reveal(redone);
    seqs::lemma_pos(p.sequences, sequence_id);
    let s = seqs::pos(p.sequences, sequence_id) as int;
    let old_tracks = p.sequences[s].tracks;
    let i = if index <= old_tracks.len() {
        index as int
    } else {
        old_tracks.len() as int
    };
    let tracks = old_tracks.insert(i, track);
    let sq = SequenceV { tracks, ..p.sequences[s] };
    assert(fit_sequence(strict, p, p.sequences[s]));
    assert forall|t: int| 0 <= t < tracks.len() implies tracks[t] == (if t < i {
        old_tracks[t]
    } else if t == i {
        track
    } else {
        old_tracks[t - 1]
    }) by {}
    assert forall|t: int| 0 <= t < tracks.len() implies fit_track(strict, p, #[trigger] tracks[t]) by {
        if t != i {
            assert(fit_track(strict, p, old_tracks[if t < i {
                t
            } else {
                t - 1
            }]));
        }
    }
    assert forall|a: int, b: int|
        0 <= a < tracks.len() && 0 <= b < tracks.len() && (#[trigger] tracks[a]).id == (
        #[trigger] tracks[b]).id implies a == b by {
        let x = if a < i {
            a
        } else {
            a - 1
        };
        let y = if b < i {
            b
        } else {
            b - 1
        };
        if a != i {
            assert(has_track(p, s, x, tracks[a].id));
        }
        if b != i {
            assert(has_track(p, s, y, tracks[b].id));
        }
    }
    assert forall|t: int, a: int, b: int| 0 <= t < tracks.len() && a != s implies
        !#[trigger] has_track(p, a, b, (#[trigger] tracks[t]).id) by {
        if t != i {
            assert(has_track(p, s, if t < i {
                t
            } else {
                t - 1
            }, tracks[t].id));
        }
    }
    assert forall|t: int, c: int, id: Id| #[trigger] seq_clip(sq, t, c, id) implies (if t == i {
        track.clips[c].id == id && fresh_clip(p, id)
    } else {
        has_clip(p, s, if t < i {
            t
        } else {
            t - 1
        }, c, id)
    }) by {
        assert(tracks[t] == sq.tracks[t]);
    }
    assert forall|t: int, c: int, id: Id, a: int, b: int, d: int|
        #[trigger] seq_clip(sq, t, c, id) && a != s implies !#[trigger] has_clip(
        p,
        a,
        b,
        d,
        id,
    ) by {}
    assert forall|t: int, c: int, u: int, d: int, id: Id|
        #[trigger] seq_clip(sq, t, c, id) && #[trigger] seq_clip(sq, u, d, id) implies t == u && c
        == d by {
        if t == i && u == i {
            assert(track.clips[c].id == track.clips[d].id);
        }
    }
    lemma_sound_with_tracks(strict, p, s, tracks, sq);
    let q = with_tracks(p, s, tracks);
    assert(has_track(q, s, i, track.id));
    lemma_track_at(q, s, i, track.id);
    assert(tracks.remove(i) =~= old_tracks);
    assert(with_tracks(q, s, old_tracks).sequences =~= p.sequences);
}

proof fn lemma_remove_track_inverse(strict: bool, p: ProjectV, track_id: Id)
    requires
        fit(strict, p),
        action::step(p, (ActionV::RemoveTrack { track_id })) is Ok,
    ensures
        redone(strict, p, (ActionV::RemoveTrack { track_id })),
{
    reveal(redone);
    lemma_track_found(p, track_id);
    let (s, i) = model::track_place(p, track_id)->0;
    let old_tracks = p.sequences[s].tracks;
    let tracks = old_tracks.remove(i);
    let sq = SequenceV { tracks, ..p.sequences[s] };
    assert(fit_sequence(strict, p, p.sequences[s]));
    assert forall|t: int| 0 <= t < tracks.len() implies tracks[t] == old_tracks[if t < i {
        t
    } else {
        t + 1
    }] by {}
    assert forall|t: int| 0 <= t < tracks.len() implies fit_track(strict, p, #[trigger] tracks[t]) by {
        assert(fit_track(strict, p, old_tracks[if t < i {
            t
        } else {
            t + 1
        }]));
    }
    assert forall|t: int| 0 <= t < tracks.len() implies has_track(p, s, if t < i {
        t
    } else {
        t + 1
    }, (#[trigger] tracks[t]).id) by {}
    assert forall|t: int, c: int, id: Id| #[trigger] seq_clip(sq, t, c, id) implies has_clip(
        p,
        s,
        if t < i {
            t
        } else {
            t + 1
        },
        c,
        id,
    ) by {
        assert(tracks[t] == sq.tracks[t]);
    }
    lemma_sound_with_tracks(strict, p, s, tracks, sq);
    let q = with_tracks(p, s, tracks);
    lemma_holds_same(p, q, p.sequences[s].id);
    lemma_sequence_at(p, s);
    assert(tracks.insert(i, old_tracks[i]) =~= old_tracks);
    assert(with_tracks(q, s, old_tracks).sequences =~= p.sequences);
}

proof fn lemma_prop_inverse(strict: bool, p: ProjectV, a: ActionV)
    requires
        fit(strict, p),
        a is SetTrackProp,
        action::step(p, a) is Ok,
    ensures
        redone(strict, p, a),
{
    reveal(redone);
    let track_id = a->SetTrackProp_track_id;
    let prop = a->prop;
    lemma_track_found(p, track_id);
    let (s, t) = model::track_place(p, track_id)->0;
    let tr = model::track_at(p, (s, t));
    let tr2 = action::with_prop(tr, prop);
    let q = model::with_track(p, (s, t), tr2);
    let tracks = p.sequences[s].tracks.update(t, tr2);
    let sq = SequenceV { tracks, ..p.sequences[s] };
    assert(fit_sequence(strict, p, p.sequences[s]));
    assert forall|i: int| 0 <= i < tracks.len() implies fit_track(strict, p, #[trigger] tracks[i])
        && has_track(p, s, i, tracks[i].id) by {
        assert(fit_track(strict, p, p.sequences[s].tracks[i]));
        if i == t {
            assert(tr2.clips == tr.clips && tr2.kind == tr.kind);
        }
    }
    assert forall|i: int, c: int, id: Id| #[trigger] seq_clip(sq, i, c, id) implies has_clip(
        p,
        s,
        i,
        c,
        id,
    ) by {
        assert(tracks[i] == sq.tracks[i]);
    }
    lemma_sound_with_tracks(strict, p, s, tracks, sq);
    assert(q == with_tracks(p, s, tracks));
    assert(has_track(q, s, t, track_id));
    lemma_track_at(q, s, t, track_id);
    assert(tracks.update(t, tr) =~= p.sequences[s].tracks);
    assert(model::with_track(q, (s, t), tr).sequences =~= p.sequences);
    assert(action::with_prop(tr2, action::prop_of(tr, prop)) == tr);
}

/// Where an item was before one was put in at a place.
spec fn before_gap(a: int, k: int) -> int {
    if a < k {
        a
    } else {
        a - 1
    }
}

/// Where an item was before the one at a place was taken out.
spec fn past_gap(a: int, k: int) -> int {
    if a < k {
        a
    } else {
        a + 1
    }
}

proof fn lemma_add_sequence_inverse(strict: bool, p: ProjectV, a: ActionV, k: int, sequence: SequenceV)
    requires
        fit(strict, p),
        fit_new(strict, p, sequence),
        0 <= k <= p.sequences.len(),
        action::step(p, a) == Ok::<(ProjectV, ActionV), ErrV>(
            (
                ProjectV { sequences: p.sequences.insert(k, sequence), ..p },
                ActionV::RemoveSequence { sequence_id: sequence.id },
            ),
        ),
    ensures
        redone(strict, p, a),
{
    reveal(redone);
    let q = ProjectV { sequences: p.sequences.insert(k, sequence), ..p };
    seqs::lemma_pos(p.sequences, sequence.id);
    seqs::lemma_pos(p.sequences, p.active_sequence);
    let i = seqs::pos(p.sequences, p.active_sequence) as int;
    assert(p.sequences[i].ident() == p.active_sequence);
    assert forall|a: int| 0 <= a < q.sequences.len() && a != k implies #[trigger] q.sequences[a]
        == p.sequences[before_gap(a, k)] && p.sequences[before_gap(a, k)].id != sequence.id by {
        assert(p.sequences[before_gap(a, k)].ident() != sequence.id);
    }
    assert(unique_sequences(q)) by {
        assert forall|a: int, b: int|
            0 <= a < q.sequences.len() && 0 <= b < q.sequences.len() && (
            #[trigger] q.sequences[a]).id == (#[trigger] q.sequences[b]).id implies a == b by {
            if a != k && b != k {
                assert(p.sequences[before_gap(a, k)].id == p.sequences[before_gap(b, k)].id);
            }
        }
    }
    assert(unique_tracks(q)) by {
        assert forall|a: int, b: int, c: int, d: int, id: Id|
            #[trigger] has_track(q, a, b, id) && #[trigger] has_track(q, c, d, id) implies a == c
            && b == d by {
            if a != k {
                assert(q.sequences[a] == p.sequences[before_gap(a, k)]);
                assert(has_track(p, before_gap(a, k), b, id));
            } else {
                assert(sequence.tracks[b].id == id);
            }
            if c != k {
                assert(q.sequences[c] == p.sequences[before_gap(c, k)]);
                assert(has_track(p, before_gap(c, k), d, id));
            } else {
                assert(sequence.tracks[d].id == id);
            }
        }
    }
    assert(unique_clips(q)) by {
        assert forall|a: int, b: int, c: int, d: int, e: int, f: int, id: Id|
            #[trigger] has_clip(q, a, b, c, id) && #[trigger] has_clip(q, d, e, f, id) implies a
            == d && b == e && c == f by {
            if a != k {
                assert(q.sequences[a] == p.sequences[before_gap(a, k)]);
                assert(has_clip(p, before_gap(a, k), b, c, id));
            } else {
                assert(seq_clip(sequence, b, c, id));
            }
            if d != k {
                assert(q.sequences[d] == p.sequences[before_gap(d, k)]);
                assert(has_clip(p, before_gap(d, k), e, f, id));
            } else {
                assert(seq_clip(sequence, e, f, id));
            }
        }
    }
    assert forall|a: int| 0 <= a < q.sequences.len() implies fit_sequence(strict, q,
        #[trigger] q.sequences[a],
    ) by {
        if a != k {
            assert(fit_sequence(strict, p, p.sequences[before_gap(a, k)]));
            lemma_sound_sequence_same(strict, p, q, p.sequences[before_gap(a, k)]);
        } else {
            lemma_sound_sequence_same(strict, p, q, sequence);
        }
    }
    let j = if i < k {
        i
    } else {
        i + 1
    };
    assert(q.sequences[j] == p.sequences[before_gap(j, k)]);
    lemma_sequence_at(q, j);
    lemma_sequence_at(q, k);
    assert(q.sequences.remove(k) =~= p.sequences);
}

proof fn lemma_remove_sequence_inverse(strict: bool, p: ProjectV, sequence_id: Id)
    requires
        fit(strict, p),
        action::step(p, (ActionV::RemoveSequence { sequence_id })) is Ok,
    ensures
        redone(strict, p, (ActionV::RemoveSequence { sequence_id })),
{
    reveal(redone);
    seqs::lemma_pos(p.sequences, sequence_id);
    let k = seqs::pos(p.sequences, sequence_id) as int;
    let q = ProjectV { sequences: p.sequences.remove(k), ..p };
    assert forall|a: int| 0 <= a < q.sequences.len() implies #[trigger] q.sequences[a]
        == p.sequences[past_gap(a, k)] by {}
    seqs::lemma_pos(p.sequences, p.active_sequence);
    let i = seqs::pos(p.sequences, p.active_sequence) as int;
    assert(i != k) by {
        assert(p.sequences[i].ident() == p.active_sequence);
        assert(p.sequences[k].ident() == sequence_id);
    }
    assert(unique_sequences(q)) by {
        assert forall|a: int, b: int|
            0 <= a < q.sequences.len() && 0 <= b < q.sequences.len() && (
            #[trigger] q.sequences[a]).id == (#[trigger] q.sequences[b]).id implies a == b by {
            assert(p.sequences[past_gap(a, k)].id == p.sequences[past_gap(b, k)].id);
        }
    }
    assert(unique_tracks(q)) by {
        assert forall|a: int, b: int, c: int, d: int, id: Id|
            #[trigger] has_track(q, a, b, id) && #[trigger] has_track(q, c, d, id) implies a == c
            && b == d by {
            assert(q.sequences[a] == p.sequences[past_gap(a, k)] && q.sequences[c] == p.sequences[past_gap(c, k)]);
            assert(has_track(p, past_gap(a, k), b, id) && has_track(p, past_gap(c, k), d, id));
        }
    }
    assert(unique_clips(q)) by {
        assert forall|a: int, b: int, c: int, d: int, e: int, f: int, id: Id|
            #[trigger] has_clip(q, a, b, c, id) && #[trigger] has_clip(q, d, e, f, id) implies a
            == d && b == e && c == f by {
            assert(q.sequences[a] == p.sequences[past_gap(a, k)] && q.sequences[d] == p.sequences[past_gap(d, k)]);
            assert(has_clip(p, past_gap(a, k), b, c, id) && has_clip(p, past_gap(d, k), e, f, id));
        }
    }
    assert forall|a: int| 0 <= a < q.sequences.len() implies fit_sequence(strict, q,
        #[trigger] q.sequences[a],
    ) by {
        assert(fit_sequence(strict, p, p.sequences[past_gap(a, k)]));
        lemma_sound_sequence_same(strict, p, q, p.sequences[past_gap(a, k)]);
    }
    let j = if i < k {
        i
    } else {
        i - 1
    };
    assert(q.sequences[j] == p.sequences[past_gap(j, k)]);
    assert(p.sequences[i].ident() == p.active_sequence);
    lemma_sequence_at(q, j);
    assert(q.sequences.insert(k, p.sequences[k]) =~= p.sequences);
}

/// A project that differs from a sound one in nothing that soundness looks at,
/// up to the properties of one sequence.
proof fn lemma_sequence_props_inverse(strict: bool, p: ProjectV,
    sequence_id: Id,
    resolution: (u32, u32),
    fps: (u32, u32),
)
    requires
        fit(strict, p),
        able(strict, p, (ActionV::SetSequenceProps { sequence_id, resolution, fps })),
        action::step(p, (ActionV::SetSequenceProps { sequence_id, resolution, fps })) is Ok,
    ensures
        redone(strict, p, (ActionV::SetSequenceProps { sequence_id, resolution, fps })),
{
    reveal(redone);
    seqs::lemma_pos(p.sequences, sequence_id);
    let n = seqs::pos(p.sequences, sequence_id) as int;
    let s2 = SequenceV { resolution, fps, ..p.sequences[n] };
    let q = ProjectV { sequences: p.sequences.update(n, s2), ..p };
    assert forall|a: int| 0 <= a < q.sequences.len() implies (#[trigger] q.sequences[a]).id
        == p.sequences[a].id && q.sequences[a].tracks == p.sequences[a].tracks by {}
    lemma_holds_same(p, q, p.active_sequence);
    lemma_holds_same(p, q, sequence_id);
    assert(unique_sequences(q)) by {
        assert forall|a: int, b: int|
            0 <= a < q.sequences.len() && 0 <= b < q.sequences.len() && (
            #[trigger] q.sequences[a]).id == (#[trigger] q.sequences[b]).id implies a == b by {
            assert(p.sequences[a].id == p.sequences[b].id);
        }
    }
    assert(unique_tracks(q)) by {
        assert forall|a: int, b: int, c: int, d: int, id: Id|
            #[trigger] has_track(q, a, b, id) && #[trigger] has_track(q, c, d, id) implies a == c
            && b == d by {
            assert(has_track(p, a, b, id) && has_track(p, c, d, id));
        }
    }
    assert(unique_clips(q)) by {
        assert forall|a: int, b: int, c: int, d: int, e: int, f: int, id: Id|
            #[trigger] has_clip(q, a, b, c, id) && #[trigger] has_clip(q, d, e, f, id) implies a
            == d && b == e && c == f by {
            assert(has_clip(p, a, b, c, id) && has_clip(p, d, e, f, id));
        }
    }
    assert forall|a: int| 0 <= a < q.sequences.len() implies fit_sequence(strict, q,
        #[trigger] q.sequences[a],
    ) by {
        assert(fit_sequence(strict, p, p.sequences[a]));
        lemma_sound_sequence_same(strict, p, q, p.sequences[a]);
    }
    assert(fit_sequence(strict, p, p.sequences[n]));
    assert(q.sequences.update(n, p.sequences[n]) =~= p.sequences);
}

/// A project that differs from a sound one in nothing that soundness looks at
/// is sound.
proof fn lemma_sound_same(strict: bool, p: ProjectV, q: ProjectV)
    requires
        fit(strict, p),
        q.sequences == p.sequences,
        q.assets == p.assets,
        seqs::holds(q.sequences, q.active_sequence),
    ensures
        fit(strict, q),
{
    assert(unique_tracks(q)) by {
        assert forall|a: int, b: int, c: int, d: int, id: Id|
            #[trigger] has_track(q, a, b, id) && #[trigger] has_track(q, c, d, id) implies a == c
            && b == d by {
            assert(has_track(p, a, b, id) && has_track(p, c, d, id));
        }
    }
    assert(unique_clips(q)) by {
        assert forall|a: int, b: int, c: int, d: int, e: int, f: int, id: Id|
            #[trigger] has_clip(q, a, b, c, id) && #[trigger] has_clip(q, d, e, f, id) implies a
            == d && b == e && c == f by {
            assert(has_clip(p, a, b, c, id) && has_clip(p, d, e, f, id));
        }
    }
    assert forall|a: int| 0 <= a < q.sequences.len() implies fit_sequence(strict, q,
        #[trigger] q.sequences[a],
    ) by {
        lemma_sound_sequence_same(strict, p, q, p.sequences[a]);
    }
}

proof fn lemma_word_inverse(strict: bool, p: ProjectV,
    transcript_id: Id,
    index: usize,
    display: Option<Seq<char>>,
)
    requires
        fit(strict, p),
        able(strict, p, (ActionV::SetWordText { transcript_id, index, display })),
        action::step(p, (ActionV::SetWordText { transcript_id, index, display })) is Ok,
    ensures
        redone(strict, p, (ActionV::SetWordText { transcript_id, index, display })),
{
    reveal(redone);
    seqs::lemma_pos(p.transcripts, transcript_id);
    let i = seqs::pos(p.transcripts, transcript_id) as int;
    let doc = p.transcripts[i];
    let w = doc.words[index as int];
    let w2 = WordV { display: action::correction(display, w.text), ..w };
    let doc2 = TranscriptV { words: doc.words.update(index as int, w2), ..doc };
    let q = ProjectV { transcripts: p.transcripts.update(i, doc2), ..p };
    lemma_sound_same(strict, p, q);
    assert forall|j: int| 0 <= j < i implies (#[trigger] q.transcripts[j]).ident()
        != transcript_id by {
        assert(p.transcripts[j].ident() != transcript_id);
    }
    assert(q.transcripts[i].ident() == transcript_id) by {
        assert(p.transcripts[i].ident() == transcript_id);
    }
    seqs::lemma_pos_at(q.transcripts, transcript_id, i as nat);
    assert(action::correction(w.display, w.text) == w.display);
    assert(doc2.words.update(index as int, w) =~= doc.words);
    assert(q.transcripts.update(i, doc) =~= p.transcripts);
}

proof fn lemma_upsert_avatar_inverse(strict: bool, p: ProjectV, config: model::AvatarV)
    requires
        fit(strict, p),
        able(strict, p, (ActionV::UpsertAvatarConfig { config })),
        action::step(p, (ActionV::UpsertAvatarConfig { config })) is Ok,
    ensures
        redone(strict, p, (ActionV::UpsertAvatarConfig { config })),
{
    reveal(redone);
    seqs::lemma_pos(p.avatars, config.id);
    let i = seqs::pos(p.avatars, config.id) as int;
    if seqs::holds(p.avatars, config.id) {
        let q = ProjectV { avatars: p.avatars.update(i, config), ..p };
        lemma_sound_same(strict, p, q);
        assert(p.avatars[i].ident() == config.id);
        assert forall|j: int| 0 <= j < i implies (#[trigger] q.avatars[j]).ident()
            != config.id by {
            assert(p.avatars[j].ident() != config.id);
        }
        seqs::lemma_pos_at(q.avatars, config.id, i as nat);
        assert(q.avatars.update(i, p.avatars[i]) =~= p.avatars);
    } else {
        let q = ProjectV { avatars: p.avatars.push(config), ..p };
        lemma_sound_same(strict, p, q);
        assert forall|j: int| 0 <= j < p.avatars.len() implies (
        #[trigger] q.avatars[j]).ident() != config.id by {
            assert(p.avatars[j].ident() != config.id);
        }
        seqs::lemma_pos_at(q.avatars, config.id, p.avatars.len());
        assert(q.avatars.remove(p.avatars.len() as int) =~= p.avatars);
    }
}

proof fn lemma_remove_avatar_inverse(strict: bool, p: ProjectV, config_id: Id)
    requires
        fit(strict, p),
        able(strict, p, (ActionV::RemoveAvatarConfig { config_id })),
        action::step(p, (ActionV::RemoveAvatarConfig { config_id })) is Ok,
    ensures
        redone(strict, p, (ActionV::RemoveAvatarConfig { config_id })),
{
    reveal(redone);
    seqs::lemma_pos(p.avatars, config_id);
    let i = seqs::pos(p.avatars, config_id) as int;
    let c = p.avatars[i];
    assert(c.ident() == config_id);
    let q = ProjectV { avatars: p.avatars.remove(i), ..p };
    lemma_sound_same(strict, p, q);
    assert(q.avatars.insert(i, c) =~= p.avatars);
}

proof fn lemma_restore_avatar_inverse(strict: bool, p: ProjectV, index: nat, config: model::AvatarV)
    requires
        fit(strict, p),
        able(strict, p, (ActionV::RestoreAvatarConfig { index, config })),
        action::step(p, (ActionV::RestoreAvatarConfig { index, config })) is Ok,
    ensures
        redone(strict, p, (ActionV::RestoreAvatarConfig { index, config })),
{
    reveal(redone);
    let k = action::slot(index, p.avatars.len());
    let q = ProjectV { avatars: p.avatars.insert(k, config), ..p };
    lemma_sound_same(strict, p, q);
    seqs::lemma_pos(p.avatars, config.id);
    assert forall|j: int| 0 <= j < k implies (#[trigger] q.avatars[j]).ident()
        != config.id by {
        assert(p.avatars[j].ident() != config.id);
    }
    assert(q.avatars[k] == config);
    seqs::lemma_pos_at(q.avatars, config.id, k as nat);
    assert(q.avatars.remove(k) =~= p.avatars);
}

proof fn lemma_avatar_inverse(strict: bool, p: ProjectV, a: ActionV)
    requires
        fit(strict, p),
        a is UpsertAvatarConfig || a is RestoreAvatarConfig || a is RemoveAvatarConfig,
        able(strict, p, a),
        action::step(p, a) is Ok,
    ensures
        redone(strict, p, a),
{
    match a {
        ActionV::UpsertAvatarConfig { config } => {
            lemma_upsert_avatar_inverse(strict, p, config);
        },
        ActionV::RemoveAvatarConfig { config_id } => {
            lemma_remove_avatar_inverse(strict, p, config_id);
        },
        ActionV::RestoreAvatarConfig { index, config } => {
            lemma_restore_avatar_inverse(strict, p, index, config);
        },
        _ => {},
    }
}

#[verifier::spinoff_prover]
proof fn lemma_edit_undone(strict: bool, p: ProjectV, clip_id: Id, a: ActionV)
    requires
        fit(strict, p),
        able(strict, p, a),
        edited(a) == Some(clip_id),
        action::step(p, a) is Ok,
    ensures
        redone(strict, p, a),
{
    reveal(redone);
    assert(action::step(p, a) == action::edit_step(p, clip_id, a));
    lemma_edit_inverse(strict, p, clip_id, a);
    let x = action::edit_step(p, clip_id, a)->Ok_0;
    let c = model::clip_at(p, model::clip_place(p, clip_id)->0);
    assert(edited(action::change_clip(c, a)->Ok_0.1) == Some(clip_id));
    assert(action::step(x.0, x.1) == action::edit_step(x.0, clip_id, x.1));
}

proof fn lemma_plain_undone(strict: bool, p: ProjectV, a: ActionV)
    requires
        fit(strict, p),
        a is SetProjectName || a is SetActiveSequence,
        action::step(p, a) is Ok,
    ensures
        redone(strict, p, a),
{
    reveal(redone);
    match a {
        ActionV::SetProjectName { name } => {
            lemma_sound_same(strict, p, ProjectV { name, ..p });
        },
        ActionV::SetActiveSequence { sequence_id } => {
            lemma_sound_same(strict, p, ProjectV { active_sequence: sequence_id, ..p });
        },
        _ => {},
    }
}

/// Whether there is room for the action: one more track must be countable.
pub open spec fn has_room(p: ProjectV, a: ActionV) -> bool {
    match a {
        ActionV::AddTrack { sequence_id, index, track } => p.sequences[seqs::pos(
            p.sequences,
            sequence_id,
        ) as int].tracks.len() + 1 < usize::MAX,
        _ => true,
    }
}

/// An action on a project that fits leaves one that fits, and its inverse
/// restores the project.
#[verifier::rlimit(60)]
#[verifier::spinoff_prover]
proof fn lemma_redone(strict: bool, p: ProjectV, a: ActionV)
    requires
        fit(strict, p),
        able(strict, p, a),
        has_room(p, a),
        match a {
            ActionV::AddSequence { sequence } => fit_new(strict, p, sequence),
            ActionV::RestoreSequence { index, sequence } => fit_new(strict, p, sequence),
            _ => true,
        },
    ensures
        redone(strict, p, a),
{
    if action::step(p, a) is Ok {
        match a {
            ActionV::SetProjectName { name } => {
                lemma_plain_undone(strict, p, a);
            },
            ActionV::AddTrack { sequence_id, index, track } => {
                lemma_add_track_inverse(strict, p, sequence_id, index, track);
            },
            ActionV::RemoveTrack { track_id } => {
                lemma_remove_track_inverse(strict, p, track_id);
            },
            ActionV::InsertClip { track_id, clip } => {
                lemma_insert_inverse(strict, p, track_id, clip);
            },
            ActionV::RemoveClip { clip_id } => {
                lemma_remove_inverse(strict, p, clip_id);
            },
            ActionV::ReplaceClips { track_id, remove_ids, insert } => {
                lemma_replace_inverse(strict, p, track_id, remove_ids, insert);
            },
            ActionV::SetClipBounds { clip_id, start, duration, src_in, src_out } => {
                lemma_bounds_inverse(strict, p, clip_id, start, duration, src_in, src_out);
            },
            ActionV::MoveClipToTrack { clip_id, to_track, to_start } => {
                lemma_move_inverse(strict, p, clip_id, to_track, to_start);
            },
            ActionV::SetTrackProp { track_id, prop } => {
                lemma_prop_inverse(strict, p, a);
            },
            ActionV::SetClipTransform { clip_id, transform } => {
                lemma_edit_undone(strict, p, clip_id, a);
            },
            ActionV::SetClipAudio { clip_id, audio } => {
                lemma_edit_undone(strict, p, clip_id, a);
            },
            ActionV::SetClipEffects { clip_id, effects } => {
                lemma_edit_undone(strict, p, clip_id, a);
            },
            ActionV::SetClipTransition { clip_id, transition, out } => {
                lemma_edit_undone(strict, p, clip_id, a);
            },
            ActionV::SetClipText { clip_id, content, style } => {
                lemma_edit_undone(strict, p, clip_id, a);
            },
            ActionV::SetClipGenerator { clip_id, generator_id, params, color_params } => {
                lemma_edit_undone(strict, p, clip_id, a);
            },
            ActionV::SetClipSubtitles { clip_id, style, mode, max_words } => {
                lemma_edit_undone(strict, p, clip_id, a);
            },
            ActionV::SetClipSpeed { clip_id, speed, duration } => {
                lemma_speed_inverse(strict, p, clip_id, speed, duration);
            },
            ActionV::SetClipGroup { clip_id, group } => {
                lemma_edit_undone(strict, p, clip_id, a);
            },
            ActionV::SetClipName { clip_id, name } => {
                lemma_edit_undone(strict, p, clip_id, a);
            },
            ActionV::AddSequence { sequence } => {
                let n = p.sequences.len() as int;
                assert(p.sequences.push(sequence) =~= p.sequences.insert(n, sequence));
                lemma_add_sequence_inverse(strict, p, a, n, sequence);
            },
            ActionV::RestoreSequence { index, sequence } => {
                lemma_add_sequence_inverse(strict, p,
                    a,
                    action::slot(index, p.sequences.len()),
                    sequence,
                );
            },
            ActionV::SetSequenceProps { sequence_id, resolution, fps } => {
                lemma_sequence_props_inverse(strict, p, sequence_id, resolution, fps);
            },
            ActionV::SetWordText { transcript_id, index, display } => {
                lemma_word_inverse(strict, p, transcript_id, index, display);
            },
            ActionV::UpsertAvatarConfig { config } => {
                lemma_avatar_inverse(strict, p, a);
            },
            ActionV::RestoreAvatarConfig { index, config } => {
                lemma_avatar_inverse(strict, p, a);
            },
            ActionV::RemoveAvatarConfig { config_id } => {
                lemma_avatar_inverse(strict, p, a);
            },
            ActionV::RemoveSequence { sequence_id } => {
                lemma_remove_sequence_inverse(strict, p, sequence_id);
            },
            ActionV::SetActiveSequence { sequence_id } => {
                lemma_plain_undone(strict, p, a);
            },
        }
    } else {
        reveal(redone);
    }
}

/// What is admissible in a sound project is reversible.
proof fn lemma_admissible(p: ProjectV, a: ActionV)
    requires
        sound(p),
        admissible(p, a),
    ensures
        able(true, p, a),
        match a {
            ActionV::AddSequence { sequence } => fit_new(true, p, sequence),
            ActionV::RestoreSequence { index, sequence } => fit_new(true, p, sequence),
            _ => true,
        },
{
    assert forall|s: int, t: int, c: int, id: Id| #[trigger] has_clip(p, s, t, c, id) implies in_place(
        p,
        (s, t, c),
    ) && sound_clip(model::clip_at(p, (s, t, c))) by {
        assert(sound_sequence(p, p.sequences[s]));
        assert(sound_track(p, p.sequences[s].tracks[t]));
        assert(sound_clip(p.sequences[s].tracks[t].clips[c]));
    }
    match a {
        ActionV::AddTrack { sequence_id, index, track } => {
            lemma_fit_track(p, track);
        },
        ActionV::AddSequence { sequence } => {
            lemma_fit_sequence(p, sequence);
        },
        ActionV::RestoreSequence { index, sequence } => {
            lemma_fit_sequence(p, sequence);
        },
        ActionV::RemoveClip { clip_id } => {
            lemma_clip_found(p, clip_id);
        },
        ActionV::MoveClipToTrack { clip_id, to_track, to_start } => {
            lemma_clip_found(p, clip_id);
        },
        ActionV::SetClipSpeed { clip_id, speed, duration } => {
            lemma_clip_found(p, clip_id);
        },
        ActionV::ReplaceClips { track_id, remove_ids, insert } => {
            assert forall|i: int| 0 <= i < insert.len() implies lasting(#[trigger] insert[i]) && (
            remove_ids.contains(insert[i].id) || fresh_clip(p, insert[i].id)) by {
                assert(sound_clip(insert[i]));
            }
        },
        _ => {},
    }
}

/// The law of undo: an admissible action on a sound project leaves a sound
/// project, and the inverse that it gives back restores the project exactly.
pub proof fn law_inverse_restores(p: ProjectV, a: ActionV)
    requires
        sound(p),
        admissible(p, a),
        has_room(p, a),
    ensures
        undone(p, a),
{
    lemma_fit(p);
    lemma_admissible(p, a);
    lemma_redone(true, p, a);
    reveal(redone);
    reveal(undone);
    if let Ok(x) = action::step(p, a) {
        lemma_fit(x.0);
    }
}

/// A new track goes where it came from.
#[verifier::spinoff_prover]
proof fn lemma_track_goes(p: ProjectV, a: ActionV)
    requires
        unique_sequences(p),
        unique_tracks(p),
        a is AddTrack,
        fresh_track(p, a->track.id),
    ensures
        restored(p, a),
{
    if let ActionV::AddTrack { sequence_id, index, track } = a {
        if action::step(p, a) is Ok {
            seqs::lemma_pos(p.sequences, sequence_id);
            let s = seqs::pos(p.sequences, sequence_id) as int;
            let old_tracks = p.sequences[s].tracks;
            let i = if index <= old_tracks.len() {
                index as int
            } else {
                old_tracks.len() as int
            };
            let tracks = old_tracks.insert(i, track);
            let q = with_tracks(p, s, tracks);
            assert(unique_tracks(q)) by {
                assert forall|a: int, b: int, c: int, d: int, id: Id|
                    #[trigger] has_track(q, a, b, id) && #[trigger] has_track(q, c, d, id) implies a
                    == c && b == d by {
                    lemma_track_was(p, s, i, track, a, b, id);
                    lemma_track_was(p, s, i, track, c, d, id);
                }
            }
            assert(has_track(q, s, i, track.id));
            lemma_track_at(q, s, i, track.id);
            assert(tracks.remove(i) =~= old_tracks);
            assert(with_tracks(q, s, old_tracks).sequences =~= p.sequences);
        }
    }
}

proof fn lemma_track_was(p: ProjectV, s: int, i: int, track: TrackV, a: int, b: int, id: Id)
    requires
        0 <= s < p.sequences.len(),
        0 <= i <= p.sequences[s].tracks.len(),
        has_track(with_tracks(p, s, p.sequences[s].tracks.insert(i, track)), a, b, id),
    ensures
        if a == s && b == i {
            track.id == id
        } else {
            has_track(
                p,
                a,
                if a == s {
                    before_gap(b, i)
                } else {
                    b
                },
                id,
            )
        },
{
    let tracks = p.sequences[s].tracks.insert(i, track);
    if a == s && b != i {
        assert(tracks[b] == p.sequences[s].tracks[before_gap(b, i)]);
    }
}

/// A new sequence goes where it came from.
proof fn lemma_sequence_goes(p: ProjectV, a: ActionV, k: int, sequence: SequenceV)
    requires
        unique_sequences(p),
        seqs::holds(p.sequences, p.active_sequence),
        !seqs::holds(p.sequences, sequence.id),
        0 <= k <= p.sequences.len(),
        action::step(p, a) == Ok::<(ProjectV, ActionV), ErrV>(
            (
                ProjectV { sequences: p.sequences.insert(k, sequence), ..p },
                ActionV::RemoveSequence { sequence_id: sequence.id },
            ),
        ),
    ensures
        restored(p, a),
{
    let q = ProjectV { sequences: p.sequences.insert(k, sequence), ..p };
    seqs::lemma_pos(p.sequences, sequence.id);
    seqs::lemma_pos(p.sequences, p.active_sequence);
    assert forall|a: int| 0 <= a < k implies (#[trigger] q.sequences[a]).ident() != sequence.id by {
        assert(p.sequences[a].ident() != sequence.id);
    }
    assert(q.sequences[k].ident() == sequence.id);
    seqs::lemma_pos_at(q.sequences, sequence.id, k as nat);
    assert(q.sequences.remove(k) =~= p.sequences);
}

/// The law of the inverse: where the parts of a project have identifiers of
/// their own and its clips follow each other, the inverse that an action gives
/// back restores the project exactly. What the action brings must be new and
/// take up time, and what it takes away or changes must be something that could
/// be asked for.
pub proof fn law_inverse_brings_back(p: ProjectV, a: ActionV)
    requires
        steady(p),
        reversible(p, a),
    ensures
        restored(p, a),
{
    if action::step(p, a) is Ok {
        match a {
            ActionV::AddTrack { sequence_id, index, track } => {
                lemma_track_goes(p, a);
            },
            ActionV::AddSequence { sequence } => {
                let n = p.sequences.len() as int;
                assert(p.sequences.push(sequence) =~= p.sequences.insert(n, sequence));
                lemma_sequence_goes(p, a, n, sequence);
            },
            ActionV::RestoreSequence { index, sequence } => {
                lemma_sequence_goes(p, a, action::slot(index, p.sequences.len()), sequence);
            },
            _ => {
                lemma_redone(false, p, a);
                reveal(redone);
            },
        }
    }
}

/// The project after a list of actions, with their inverses in the same order.
pub open spec fn run(p: ProjectV, actions: Seq<ActionV>) -> Result<(ProjectV, Seq<ActionV>), ErrV>
    decreases actions.len(),
{
    if actions.len() == 0 {
        Ok((p, Seq::<ActionV>::empty()))
    } else {
        match run(p, actions.drop_last()) {
            Err(e) => Err(e),
            Ok(x) => match action::step(x.0, actions.last()) {
                Err(e) => Err(e),
                Ok(y) => Ok((y.0, x.1.push(y.1))),
            },
        }
    }
}

/// The project after the inverses of a list are applied, the last one first.
pub open spec fn run_back(p: ProjectV, inverses: Seq<ActionV>) -> Result<ProjectV, ErrV>
    decreases inverses.len(),
{
    if inverses.len() == 0 {
        Ok(p)
    } else {
        match action::step(p, inverses.last()) {
            Err(e) => Err(e),
            Ok(y) => run_back(y.0, inverses.drop_last()),
        }
    }
}

/// Whether each action of a list is admissible when its turn comes.
pub open spec fn admissible_run(p: ProjectV, actions: Seq<ActionV>) -> bool
    decreases actions.len(),
{
    if actions.len() == 0 {
        true
    } else {
        &&& admissible_run(p, actions.drop_last())
        &&& match run(p, actions.drop_last()) {
            Err(e) => true,
            Ok(x) => admissible(x.0, actions.last()) && has_room(x.0, actions.last()),
        }
    }
}

/// The law of undo for transactions: admissible actions on a sound project
/// leave a sound project, and their inverses in reverse order restore the
/// project exactly.
pub proof fn law_transaction_undoes(p: ProjectV, actions: Seq<ActionV>)
    requires
        sound(p),
        admissible_run(p, actions),
    ensures
        match run(p, actions) {
            Ok(x) => sound(x.0) && run_back(x.0, x.1) == Ok::<ProjectV, ErrV>(p),
            Err(e) => true,
        },
    decreases actions.len(),
{
    reveal(undone);
    if actions.len() > 0 {
        law_transaction_undoes(p, actions.drop_last());
        if let Ok(x) = run(p, actions.drop_last()) {
            law_inverse_restores(x.0, actions.last());
            if let Ok(y) = action::step(x.0, actions.last()) {
                let invs = x.1.push(y.1);
                assert(invs.drop_last() =~= x.1);
                assert(invs.last() == y.1);
            }
        }
    }
}

} // verus!
