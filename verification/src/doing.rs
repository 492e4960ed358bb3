//! What actions do to a project: which clips a track has afterwards, and what
//! stays.

use vstd::prelude::*;

use crate::action;
use crate::action::{ActionV, TrackPropV};
use crate::ident::Id;
use crate::laws;
use crate::model;
use crate::model::{ClipV, PayloadV, ProjectV, TrackV};
use crate::seqs;
use crate::strmap;
use crate::text;
use crate::time;
use crate::time::TimeUs;

verus! {

/// Whether a track has the same clips afterwards, but for one: it is taken away,
/// and another may stand in its place.
pub open spec fn but_one(before: Seq<ClipV>, after: Seq<ClipV>, id: Id, now: Option<ClipV>) -> bool {
    &&& after.len() == before.len() - 1 + if now is Some {
        1int
    } else {
        0
    }
    &&& forall|x: ClipV| #[trigger]
        after.contains(x) <==> now == Some(x) || before.contains(x) && x.id != id
}

/// Whether a range is free of clips other than one.
pub open spec fn free_but(clips: Seq<ClipV>, id: Option<Id>, start: TimeUs, end: TimeUs) -> bool {
    forall|i: int|
        0 <= i < clips.len() && Some((#[trigger] clips[i]).id) != id ==> clips[i].finish() <= start
            || end <= clips[i].start
}

proof fn lemma_sorted_contains(clips: Seq<ClipV>)
    ensures
        action::sorted_clips(clips).len() == clips.len(),
        forall|x: ClipV| #[trigger]
            action::sorted_clips(clips).contains(x) <==> clips.contains(x),
    decreases clips.len(),
{
    if clips.len() > 0 {
        let rest = clips.drop_last();
        lemma_sorted_contains(rest);
        let r = action::sorted_clips(rest);
        let c = clips.last();
        action::lemma_after_place(r, c.start);
        let k = action::after_place(r, c.start) as int;
        let all = r.insert(k, c);
        assert(all[k] == c);
        assert forall|x: ClipV| #[trigger] all.contains(x) <==> clips.contains(x) by {
            if all.contains(x) {
                let i = choose|i: int| 0 <= i < all.len() && all[i] == x;
                if i < k {
                    assert(r[i] == x);
                    assert(r.contains(x));
                } else if i > k {
                    assert(r[i - 1] == x);
                    assert(r.contains(x));
                } else {
                    assert(clips[clips.len() - 1] == x);
                }
                if r.contains(x) {
                    let j = choose|j: int| 0 <= j < rest.len() && rest[j] == x;
                    assert(clips[j] == x);
                }
            }
            if clips.contains(x) {
                let j = choose|j: int| 0 <= j < clips.len() && clips[j] == x;
                if j < rest.len() {
                    assert(rest[j] == x);
                    assert(r.contains(x));
                    let i = choose|i: int| 0 <= i < r.len() && r[i] == x;
                    if i < k {
                        assert(all[i] == x);
                    } else {
                        assert(all[i + 1] == x);
                    }
                }
            }
        }
    }
}

proof fn lemma_updated(clips: Seq<ClipV>, k: int, c: ClipV)
    requires
        laws::different(clips),
        0 <= k < clips.len(),
    ensures
        but_one(clips, clips.update(k, c), clips[k].id, Some(c)),
{
    let r = clips.update(k, c);
    assert(r[k] == c);
    assert forall|x: ClipV| #[trigger] r.contains(x) <==> x == c || clips.contains(x) && x.id
        != clips[k].id by {
        if r.contains(x) {
            let i = choose|i: int| 0 <= i < r.len() && r[i] == x;
            if i != k {
                assert(clips[i] == x);
            }
        }
        if clips.contains(x) && x.id != clips[k].id {
            let i = choose|i: int| 0 <= i < clips.len() && clips[i] == x;
            assert(r[i] == x);
        }
    }
}

proof fn lemma_removed(clips: Seq<ClipV>, k: int)
    requires
        laws::different(clips),
        0 <= k < clips.len(),
    ensures
        but_one(clips, clips.remove(k), clips[k].id, None),
{
    let r = clips.remove(k);
    assert forall|x: ClipV| #[trigger] r.contains(x) <==> clips.contains(x) && x.id != clips[k].id by {
        if r.contains(x) {
            let i = choose|i: int| 0 <= i < r.len() && r[i] == x;
            if i < k {
                assert(clips[i] == x);
            } else {
                assert(clips[i + 1] == x);
            }
        }
        if clips.contains(x) && x.id != clips[k].id {
            let i = choose|i: int| 0 <= i < clips.len() && clips[i] == x;
            if i < k {
                assert(r[i] == x);
            } else {
                assert(r[i - 1] == x);
            }
        }
    }
}

proof fn lemma_free(t: TrackV, start: TimeUs, duration: TimeUs, exclude: Option<Id>)
    ensures
        !t.hit(start, duration, exclude) <==> free_but(
            t.clips,
            exclude,
            start,
            time::later(start, duration),
        ),
{
    let end = time::later(start, duration);
    if t.hit(start, duration, exclude) {
        let i = choose|i: int|
            0 <= i < t.clips.len() && Some((#[trigger] t.clips[i]).id) != exclude && model::overlap(
                t.clips[i],
                start,
                end,
            );
        assert(!free_but(t.clips, exclude, start, end));
    } else {
        assert forall|i: int|
            0 <= i < t.clips.len() && Some((#[trigger] t.clips[i]).id) != exclude implies t.clips[i].finish()
            <= start || end <= t.clips[i].start by {
            assert(!model::overlap(t.clips[i], start, end));
        }
    }
}

/// New bounds change the place of a clip and, where they are given, the ends of
/// its source, and nothing else. They are refused where the clip would last no
/// time, run into another, or have no material.
pub proof fn law_bounds_are_set(
    p: ProjectV,
    clip_id: Id,
    start: TimeUs,
    duration: TimeUs,
    src_in: Option<TimeUs>,
    src_out: Option<TimeUs>,
)
    requires
        laws::sound(p),
        model::clip_place(p, clip_id) is Some,
    ensures
        ({
            let at = model::clip_place(p, clip_id)->Some_0;
            let c = model::clip_at(p, at);
            let clips = model::track_at(p, (at.0, at.1)).clips;
            let a = match src_in {
                Some(v) => v,
                None => c.payload->Media_src_in,
            };
            let b = match src_out {
                Some(v) => v,
                None => c.payload->Media_src_out,
            };
            let payload = if c.payload is Media {
                PayloadV::Media { asset_id: c.payload->Media_asset_id, src_in: a, src_out: b }
            } else {
                c.payload
            };
            let can = duration > 0 && free_but(
                clips,
                Some(clip_id),
                start,
                time::held(start + duration),
            ) && (c.payload is Media ==> a < b);
            match action::step(
                p,
                (ActionV::SetClipBounds { clip_id, start, duration, src_in, src_out }),
            ) {
                Ok(x) => {
                    let after = model::track_at(x.0, (at.0, at.1)).clips;
                    &&& can
                    &&& x.0 == model::with_clips(p, (at.0, at.1), after)
                    &&& but_one(clips, after, clip_id, Some(ClipV { start, duration, payload, ..c }))
                },
                Err(e) => !can,
            }
        }),
{
    laws::lemma_clip_found(p, clip_id);
    let at = model::clip_place(p, clip_id)->Some_0;
    let t = model::track_at(p, (at.0, at.1));
    let c = model::clip_at(p, at);
    laws::lemma_track_different(p, at.0, at.1);
    lemma_free(t, start, duration, Some(clip_id));
    let changed = ClipV {
        start,
        duration,
        payload: action::with_source(c.payload, src_in, src_out),
        ..c
    };
    lemma_updated(t.clips, at.2, changed);
    lemma_sorted_contains(t.clips.update(at.2, changed));
}

/// Another speed changes the speed and the duration of a clip and nothing else. It
/// is refused where it is not above zero, or the clip would last no time or run
/// into another.
pub proof fn law_speed_is_set(p: ProjectV, clip_id: Id, speed: crate::float::Real, duration: TimeUs)
    requires
        laws::sound(p),
        model::clip_place(p, clip_id) is Some,
    ensures
        ({
            let at = model::clip_place(p, clip_id)->Some_0;
            let c = model::clip_at(p, at);
            let clips = model::track_at(p, (at.0, at.1)).clips;
            let can = duration > 0 && !speed.at_most(crate::float::Real::of(0)) && free_but(
                clips,
                Some(clip_id),
                c.start,
                time::held(c.start + duration),
            );
            match action::step(p, (ActionV::SetClipSpeed { clip_id, speed, duration })) {
                Ok(x) => {
                    let after = model::track_at(x.0, (at.0, at.1)).clips;
                    &&& can
                    &&& x.0 == model::with_clips(p, (at.0, at.1), after)
                    &&& but_one(clips, after, clip_id, Some(ClipV { speed, duration, ..c }))
                },
                Err(e) => !can,
            }
        }),
{
    laws::lemma_clip_found(p, clip_id);
    let at = model::clip_place(p, clip_id)->Some_0;
    let t = model::track_at(p, (at.0, at.1));
    let c = model::clip_at(p, at);
    laws::lemma_track_different(p, at.0, at.1);
    lemma_free(t, c.start, duration, Some(clip_id));
    lemma_updated(t.clips, at.2, ClipV { speed, duration, ..c });
}

/// A clip is put on a track beside those that are there, where it may stand and
/// there is room; nothing else changes.
pub proof fn law_clip_is_inserted(p: ProjectV, track_id: Id, clip: ClipV)
    requires
        model::track_place(p, track_id) is Some,
    ensures
        ({
            let at = model::track_place(p, track_id)->Some_0;
            let t = model::track_at(p, at);
            let can = action::allowed_on(p, clip, t.kind) && free_but(
                t.clips,
                None,
                clip.start,
                time::held(clip.start + clip.duration),
            );
            match action::step(p, (ActionV::InsertClip { track_id, clip })) {
                Ok(x) => {
                    let after = model::track_at(x.0, at).clips;
                    &&& can
                    &&& x.0 == model::with_clips(p, at, after)
                    &&& after.len() == t.clips.len() + 1
                    &&& forall|y: ClipV| #[trigger]
                        after.contains(y) <==> y == clip || t.clips.contains(y)
                },
                Err(e) => !can,
            }
        }),
{
    laws::lemma_track_found(p, track_id);
    let at = model::track_place(p, track_id)->Some_0;
    let t = model::track_at(p, at);
    lemma_free(t, clip.start, clip.duration, None);
    laws::lemma_put_in_contains(t.clips, clip);
}

/// A clip that is removed is gone from its track; nothing else changes.
pub proof fn law_clip_is_removed(p: ProjectV, clip_id: Id)
    requires
        laws::sound(p),
        model::clip_place(p, clip_id) is Some,
    ensures
        ({
            let at = model::clip_place(p, clip_id)->Some_0;
            let clips = model::track_at(p, (at.0, at.1)).clips;
            match action::step(p, (ActionV::RemoveClip { clip_id })) {
                Ok(x) => {
                    let after = model::track_at(x.0, (at.0, at.1)).clips;
                    &&& x.0 == model::with_clips(p, (at.0, at.1), after)
                    &&& but_one(clips, after, clip_id, None)
                },
                Err(e) => false,
            }
        }),
{
    laws::lemma_clip_found(p, clip_id);
    let at = model::clip_place(p, clip_id)->Some_0;
    laws::lemma_track_different(p, at.0, at.1);
    lemma_removed(model::track_at(p, (at.0, at.1)).clips, at.2);
}

/// A clip that is moved leaves its track and stands on the other at its new start,
/// beside those that are there, with nothing else changed. It is refused where it
/// may not stand there or would run into another.
pub proof fn law_clip_is_moved(p: ProjectV, clip_id: Id, to_track: Id, to_start: TimeUs)
    requires
        laws::sound(p),
        model::clip_place(p, clip_id) is Some,
        model::track_place(p, to_track) is Some,
    ensures
        ({
            let at = model::clip_place(p, clip_id)->Some_0;
            let from = (at.0, at.1);
            let to = model::track_place(p, to_track)->Some_0;
            let c = model::clip_at(p, at);
            let clips = model::track_at(p, from).clips;
            let there = model::track_at(p, to);
            let moved = ClipV { start: to_start, ..c };
            let can = action::allowed_on(p, c, there.kind) && free_but(
                there.clips,
                if from == to {
                    Some(clip_id)
                } else {
                    None
                },
                to_start,
                time::held(to_start + c.duration),
            );
            match action::step(p, (ActionV::MoveClipToTrack { clip_id, to_track, to_start })) {
                Ok(x) => {
                    let left = model::track_at(x.0, from).clips;
                    let after = model::track_at(x.0, to).clips;
                    &&& can
                    &&& x.0 == model::with_clips(model::with_clips(p, from, left), to, after)
                    &&& if from == to {
                        but_one(clips, after, clip_id, Some(moved))
                    } else {
                        &&& but_one(clips, left, clip_id, None)
                        &&& after.len() == there.clips.len() + 1
                        &&& forall|y: ClipV| #[trigger]
                            after.contains(y) <==> y == moved || there.clips.contains(y)
                    }
                },
                Err(e) => !can,
            }
        }),
{
    laws::lemma_clip_found(p, clip_id);
    laws::lemma_track_found(p, to_track);
    let at = model::clip_place(p, clip_id)->Some_0;
    let from = (at.0, at.1);
    let to = model::track_place(p, to_track)->Some_0;
    let c = model::clip_at(p, at);
    let clips = model::track_at(p, from).clips;
    let there = model::track_at(p, to);
    let moved = ClipV { start: to_start, ..c };
    laws::lemma_track_different(p, at.0, at.1);
    assert(laws::has_track(p, to.0, to.1, to_track));
    assert(laws::has_track(p, at.0, at.1, model::track_at(p, from).id));
    assert(to_track == model::track_at(p, from).id <==> from == to);
    lemma_free(there, to_start, c.duration, if from == to { Some(clip_id) } else { None });
    lemma_removed(clips, at.2);
    let rest = clips.remove(at.2);
    let q = model::with_clips(p, from, rest);
    let target = model::track_at(q, to).clips;
    laws::lemma_put_in_contains(target, moved);
    if let Ok(x) = action::step(p, (ActionV::MoveClipToTrack { clip_id, to_track, to_start })) {
        let after = action::put_in(target, moved);
        if from == to {
            assert(target == rest);
            assert(model::track_at(x.0, from).clips == after);
            assert(x.0.sequences =~= model::with_clips(
                model::with_clips(p, from, after),
                to,
                after,
            ).sequences) by {
                assert(p.sequences[to.0].tracks.update(to.1, TrackV { clips: after, ..there }).update(
                    to.1,
                    TrackV { clips: after, ..there },
                ) =~= p.sequences[to.0].tracks.update(to.1, TrackV { clips: rest, ..there }).update(
                    to.1,
                    TrackV { clips: after, ..there },
                ));
            }
            assert forall|y: ClipV| #[trigger] after.contains(y) <==> y == moved || clips.contains(y)
                && y.id != clip_id by {
                assert(rest.contains(y) <==> clips.contains(y) && y.id != clip_id);
                assert(target.contains(y) <==> rest.contains(y));
            }
        } else {
            assert(target == there.clips);
            assert(model::track_at(x.0, from).clips == rest);
        }
    }
}

/// What an action on one clip makes of it: what the action names is set, and
/// nothing else. Curves are put in order, names that are blank become none, and a
/// cap on words lies between 1 and 20. Only a text has content, only a generator
/// parameters, and only subtitles a mode.
pub proof fn law_clip_is_edited(c: ClipV, a: ActionV)
    ensures
        match (a, action::change_clip(c, a)) {
            (ActionV::SetClipTransform { transform, .. }, Ok(x)) => x.0 == (ClipV {
                transform: transform.sanitized(),
                ..c
            }),
            (ActionV::SetClipAudio { audio, .. }, Ok(x)) => x.0 == (ClipV {
                audio: audio.sanitized(),
                ..c
            }),
            (ActionV::SetClipEffects { effects, .. }, Ok(x)) => {
                &&& x.0 == (ClipV { effects: x.0.effects, ..c })
                &&& x.0.effects.len() == effects.len()
                &&& forall|i: int|
                    0 <= i < effects.len() ==> #[trigger] x.0.effects[i] == effects[i].sanitized()
            },
            (ActionV::SetClipTransition { transition, out, .. }, Ok(x)) => x.0 == if out {
                ClipV { transition_out: transition, ..c }
            } else {
                ClipV { transition_in: transition, ..c }
            },
            (ActionV::SetClipText { content, style, .. }, Ok(x)) => c.payload is Text && x.0
                == (ClipV { payload: PayloadV::Text { content, style }, ..c }),
            (ActionV::SetClipText { .. }, Err(e)) => !(c.payload is Text),
            (ActionV::SetClipGenerator { generator_id, params, color_params, .. }, Ok(x)) => {
                &&& c.payload is Generator
                &&& x.0 == (ClipV {
                    payload: PayloadV::Generator {
                        generator_id,
                        params: strmap::sanitized_params(params),
                        color_params,
                    },
                    ..c
                })
            },
            (ActionV::SetClipGenerator { .. }, Err(e)) => !(c.payload is Generator),
            (ActionV::SetClipSubtitles { style, mode, max_words, .. }, Ok(x)) => {
                let cap = x.0.payload->Subtitles_max_words;
                &&& c.payload is Subtitles
                &&& x.0 == (ClipV {
                    payload: PayloadV::Subtitles {
                        transcript_id: c.payload->Subtitles_transcript_id,
                        style,
                        mode,
                        max_words: cap,
                    },
                    ..c
                })
                &&& cap is Some <==> max_words is Some
                &&& cap is Some ==> 1 <= cap->Some_0 <= 20
                &&& max_words is Some && 1 <= max_words->Some_0 <= 20 ==> cap == max_words
                &&& max_words is Some && max_words->Some_0 > 20 ==> cap == Some(20u32)
                &&& max_words is Some && max_words->Some_0 < 1 ==> cap == Some(1u32)
            },
            (ActionV::SetClipSubtitles { .. }, Err(e)) => !(c.payload is Subtitles),
            (ActionV::SetClipGroup { group, .. }, Ok(x)) => x.0 == (ClipV { group, ..c }),
            (ActionV::SetClipName { name, .. }, Ok(x)) => {
                &&& x.0 == (ClipV { name: x.0.name, ..c })
                &&& x.0.name == if name is Some && !text::is_blank(name->Some_0) {
                    name
                } else {
                    None
                }
            },
            (ActionV::SetClipTransform { .. }, Err(e)) => false,
            (ActionV::SetClipAudio { .. }, Err(e)) => false,
            (ActionV::SetClipEffects { .. }, Err(e)) => false,
            (ActionV::SetClipTransition { .. }, Err(e)) => false,
            (ActionV::SetClipGroup { .. }, Err(e)) => false,
            (ActionV::SetClipName { .. }, Err(e)) => false,
            _ => true,
        },
{
}

/// An action on one clip changes that clip in its place, and nothing else.
pub proof fn law_edit_stays_in_place(p: ProjectV, clip_id: Id, a: ActionV)
    requires
        laws::sound(p),
        model::clip_place(p, clip_id) is Some,
    ensures
        ({
            let at = model::clip_place(p, clip_id)->Some_0;
            let c = model::clip_at(p, at);
            let clips = model::track_at(p, (at.0, at.1)).clips;
            match action::edit_step(p, clip_id, a) {
                Ok(x) => {
                    let after = model::track_at(x.0, (at.0, at.1)).clips;
                    &&& x.0 == model::with_clips(p, (at.0, at.1), after)
                    &&& action::change_clip(c, a) is Ok
                    &&& but_one(clips, after, clip_id, Some(action::change_clip(c, a)->Ok_0.0))
                },
                Err(e) => action::change_clip(c, a) is Err,
            }
        }),
{
    laws::lemma_clip_found(p, clip_id);
    let at = model::clip_place(p, clip_id)->Some_0;
    let t = model::track_at(p, (at.0, at.1));
    laws::lemma_track_different(p, at.0, at.1);
    if let Ok(x) = action::change_clip(model::clip_at(p, at), a) {
        lemma_updated(t.clips, at.2, x.0);
    }
}

/// A property of a track is set, and the track keeps the others and its clips.
pub proof fn law_property_is_set(p: ProjectV, track_id: Id, prop: TrackPropV)
    requires
        model::track_place(p, track_id) is Some,
    ensures
        ({
            let at = model::track_place(p, track_id)->Some_0;
            let t = model::track_at(p, at);
            match action::step(p, (ActionV::SetTrackProp { track_id, prop })) {
                Ok(x) => x.0 == model::with_track(
                    p,
                    at,
                    match prop {
                        TrackPropV::Name(name) => TrackV { name, ..t },
                        TrackPropV::Muted(muted) => TrackV { muted, ..t },
                        TrackPropV::Solo(solo) => TrackV { solo, ..t },
                        TrackPropV::Locked(locked) => TrackV { locked, ..t },
                        TrackPropV::VolumeDb(volume_db) => TrackV { volume_db, ..t },
                    },
                ),
                Err(e) => false,
            }
        }),
{
}

/// A word of a transcript gets another spelling, and loses it where that is blank or
/// what it says anyway; nothing else changes.
pub proof fn law_word_is_corrected(p: ProjectV, transcript_id: Id, index: usize, display: Option<Seq<char>>)
    requires
        seqs::holds(p.transcripts, transcript_id),
    ensures
        ({
            let i = seqs::pos(p.transcripts, transcript_id) as int;
            let doc = p.transcripts[i];
            let r = action::step(p, (ActionV::SetWordText { transcript_id, index, display }));
            if index < doc.words.len() {
                let w = doc.words[index as int];
                let spelt = if display is Some && !text::is_blank(display->Some_0)
                    && display->Some_0 != w.text {
                    display
                } else {
                    None
                };
                &&& r is Ok
                &&& r->Ok_0.0 == (ProjectV {
                    transcripts: p.transcripts.update(
                        i,
                        model::TranscriptV {
                            words: doc.words.update(
                                index as int,
                                model::WordV { display: spelt, ..w },
                            ),
                            ..doc
                        },
                    ),
                    ..p
                })
            } else {
                r is Err
            }
        }),
{
}

} // verus!
