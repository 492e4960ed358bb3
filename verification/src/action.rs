//! Primitive actions with a mechanical inverse. Every change of a project goes
//! through [`apply`], which gives back the inverse action: the basis of undo
//! and redo.
//!
//! The primitives do not look at locks: so undo works even after a track was
//! locked.

use vstd::prelude::*;

use crate::error;
use crate::error::{invalid, not_found, ErrV, UeError, UeResult};
use crate::float::Real;
use crate::ident::Id;
use crate::keyframe::{Param, ParamV};
use crate::model;
use crate::model::{AudioProps, AudioV, AvatarConfig, AvatarV, Clip, ClipPayload, ClipV, EffectInstance, EffectV, MediaKind, PayloadV, Project, ProjectV, Sequence, SequenceV, SubtitleMode, TextStyle, Track, TrackKind, TrackV, TranscriptV, Transform2D, TransformV, TransitionRef, TransitionV, WordV};
use crate::seqs;
use crate::seqs::{duplicate_all, duplicate_text, find, swap_in, Duplicate};
use crate::strmap;
use crate::strmap::StrMap;
use crate::text;
use crate::text::{blank, copy_text, int_to_text, same_text};
use crate::time;
use crate::time::TimeUs;

verus! {

/// A property of a track.
#[derive(Debug, PartialEq)]
pub enum TrackProp {
    Name(String),
    Muted(bool),
    Solo(bool),
    Locked(bool),
    VolumeDb(Real),
}

/// A primitive change of a project.
#[allow(inconsistent_fields)]
#[derive(Debug, PartialEq)]
pub enum Action {
    SetProjectName { name: String },
    AddTrack { sequence_id: Id, index: usize, track: Track },
    RemoveTrack { track_id: Id },
    InsertClip { track_id: Id, clip: Clip },
    RemoveClip { clip_id: Id },
    /// Takes clips off a track and puts others on it, as a split and an
    /// overwrite need it.
    ReplaceClips { track_id: Id, remove_ids: Vec<Id>, insert: Vec<Clip> },
    /// Moves and trims a clip. The source range is for media clips only.
    SetClipBounds {
        clip_id: Id,
        start: TimeUs,
        duration: TimeUs,
        src_in: Option<TimeUs>,
        src_out: Option<TimeUs>,
    },
    MoveClipToTrack { clip_id: Id, to_track: Id, to_start: TimeUs },
    SetTrackProp { track_id: Id, prop: TrackProp },
    SetClipTransform { clip_id: Id, transform: Transform2D },
    SetClipAudio { clip_id: Id, audio: AudioProps },
    SetClipEffects { clip_id: Id, effects: Vec<EffectInstance> },
    /// The transition at the start of a clip, or at its end where `out` is set.
    SetClipTransition { clip_id: Id, transition: Option<TransitionRef>, out: bool },
    SetClipText { clip_id: Id, content: String, style: TextStyle },
    SetClipGenerator {
        clip_id: Id,
        generator_id: String,
        params: StrMap<Param>,
        color_params: StrMap<String>,
    },
    SetClipSubtitles {
        clip_id: Id,
        style: TextStyle,
        mode: SubtitleMode,
        max_words: Option<u32>,
    },
    /// Another speed for the same source material; the duration that follows
    /// from it comes with the action.
    SetClipSpeed { clip_id: Id, speed: Real, duration: TimeUs },
    SetClipGroup { clip_id: Id, group: Option<Id> },
    SetClipName { clip_id: Id, name: Option<String> },
    /// A new sequence, behind the others.
    AddSequence { sequence: Sequence },
    /// A sequence back at its place among the others.
    RestoreSequence { index: usize, sequence: Sequence },
    SetSequenceProps { sequence_id: Id, resolution: (u32, u32), fps: (u32, u32) },
    /// Corrects the shown text of a word; none shows the word itself again.
    SetWordText { transcript_id: Id, index: usize, display: Option<String> },
    UpsertAvatarConfig { config: AvatarConfig },
    /// An avatar back at its place among the others.
    RestoreAvatarConfig { index: usize, config: AvatarConfig },
    RemoveAvatarConfig { config_id: Id },
    RemoveSequence { sequence_id: Id },
    SetActiveSequence { sequence_id: Id },
}

/// The contents of a `TrackProp`.
pub enum TrackPropV {
    Name(Seq<char>),
    Muted(bool),
    Solo(bool),
    Locked(bool),
    VolumeDb(Real),
}

/// The contents of an `Action`.
#[allow(inconsistent_fields)]
#[verifier::ext_equal]
pub enum ActionV {
    SetProjectName { name: Seq<char> },
    AddTrack { sequence_id: Id, index: usize, track: TrackV },
    RemoveTrack { track_id: Id },
    InsertClip { track_id: Id, clip: ClipV },
    RemoveClip { clip_id: Id },
    ReplaceClips { track_id: Id, remove_ids: Seq<Id>, insert: Seq<ClipV> },
    SetClipBounds {
        clip_id: Id,
        start: TimeUs,
        duration: TimeUs,
        src_in: Option<TimeUs>,
        src_out: Option<TimeUs>,
    },
    MoveClipToTrack { clip_id: Id, to_track: Id, to_start: TimeUs },
    SetTrackProp { track_id: Id, prop: TrackPropV },
    SetClipTransform { clip_id: Id, transform: TransformV },
    SetClipAudio { clip_id: Id, audio: AudioV },
    SetClipEffects { clip_id: Id, effects: Seq<EffectV> },
    SetClipTransition { clip_id: Id, transition: Option<TransitionV>, out: bool },
    SetClipText { clip_id: Id, content: Seq<char>, style: TextStyle },
    SetClipGenerator {
        clip_id: Id,
        generator_id: Seq<char>,
        params: Seq<(Seq<char>, ParamV)>,
        color_params: Seq<(Seq<char>, Seq<char>)>,
    },
    SetClipSubtitles {
        clip_id: Id,
        style: TextStyle,
        mode: SubtitleMode,
        max_words: Option<u32>,
    },
    SetClipSpeed { clip_id: Id, speed: Real, duration: TimeUs },
    SetClipGroup { clip_id: Id, group: Option<Id> },
    SetClipName { clip_id: Id, name: Option<Seq<char>> },
    AddSequence { sequence: SequenceV },
    RestoreSequence { index: nat, sequence: SequenceV },
    SetSequenceProps { sequence_id: Id, resolution: (u32, u32), fps: (u32, u32) },
    SetWordText { transcript_id: Id, index: usize, display: Option<Seq<char>> },
    UpsertAvatarConfig { config: AvatarV },
    RestoreAvatarConfig { index: nat, config: AvatarV },
    RemoveAvatarConfig { config_id: Id },
    RemoveSequence { sequence_id: Id },
    SetActiveSequence { sequence_id: Id },
}

impl View for TrackProp {
    type V = TrackPropV;

    open spec fn view(&self) -> TrackPropV {
        match *self {
            TrackProp::Name(s) => TrackPropV::Name(s@),
            TrackProp::Muted(b) => TrackPropV::Muted(b),
            TrackProp::Solo(b) => TrackPropV::Solo(b),
            TrackProp::Locked(b) => TrackPropV::Locked(b),
            TrackProp::VolumeDb(v) => TrackPropV::VolumeDb(v),
        }
    }
}

impl Duplicate for TrackProp {
    fn duplicate(&self) -> (r: TrackProp) {
        match self {
            TrackProp::Name(s) => TrackProp::Name(s.clone()),
            TrackProp::Muted(b) => TrackProp::Muted(*b),
            TrackProp::Solo(b) => TrackProp::Solo(*b),
            TrackProp::Locked(b) => TrackProp::Locked(*b),
            TrackProp::VolumeDb(v) => TrackProp::VolumeDb(*v),
        }
    }
}

/// The view of an optional transition.
pub open spec fn opt_transition(o: Option<TransitionRef>) -> Option<TransitionV> {
    match o {
        Some(x) => Some(x@),
        None => None,
    }
}

impl View for Action {
    type V = ActionV;

    open spec fn view(&self) -> ActionV {
        match *self {
            Action::SetProjectName { name } => ActionV::SetProjectName { name: name@ },
            Action::AddTrack { sequence_id, index, track } => ActionV::AddTrack {
                sequence_id,
                index,
                track: track@,
            },
            Action::RemoveTrack { track_id } => ActionV::RemoveTrack { track_id },
            Action::InsertClip { track_id, clip } => ActionV::InsertClip { track_id, clip: clip@ },
            Action::RemoveClip { clip_id } => ActionV::RemoveClip { clip_id },
            Action::ReplaceClips { track_id, remove_ids, insert } => ActionV::ReplaceClips {
                track_id,
                remove_ids: remove_ids@,
                insert: seqs::views(insert@),
            },
            Action::SetClipBounds { clip_id, start, duration, src_in, src_out } => {
                ActionV::SetClipBounds { clip_id, start, duration, src_in, src_out }
            },
            Action::MoveClipToTrack { clip_id, to_track, to_start } => ActionV::MoveClipToTrack {
                clip_id,
                to_track,
                to_start,
            },
            Action::SetTrackProp { track_id, prop } => ActionV::SetTrackProp {
                track_id,
                prop: prop@,
            },
            Action::SetClipTransform { clip_id, transform } => ActionV::SetClipTransform {
                clip_id,
                transform: transform@,
            },
            Action::SetClipAudio { clip_id, audio } => ActionV::SetClipAudio {
                clip_id,
                audio: audio@,
            },
            Action::SetClipEffects { clip_id, effects } => ActionV::SetClipEffects {
                clip_id,
                effects: seqs::views(effects@),
            },
            Action::SetClipTransition { clip_id, transition, out } => ActionV::SetClipTransition {
                clip_id,
                transition: opt_transition(transition),
                out,
            },
            Action::SetClipText { clip_id, content, style } => ActionV::SetClipText {
                clip_id,
                content: content@,
                style,
            },
            Action::SetClipGenerator { clip_id, generator_id, params, color_params } => {
                ActionV::SetClipGenerator {
                    clip_id,
                    generator_id: generator_id@,
                    params: params@,
                    color_params: color_params@,
                }
            },
            Action::SetClipSubtitles { clip_id, style, mode, max_words } => {
                ActionV::SetClipSubtitles { clip_id, style, mode, max_words }
            },
            Action::SetClipSpeed { clip_id, speed, duration } => ActionV::SetClipSpeed {
                clip_id,
                speed,
                duration,
            },
            Action::SetClipGroup { clip_id, group } => ActionV::SetClipGroup { clip_id, group },
            Action::SetClipName { clip_id, name } => ActionV::SetClipName {
                clip_id,
                name: model::opt_text(name),
            },
            Action::AddSequence { sequence } => ActionV::AddSequence { sequence: sequence@ },
            Action::RestoreSequence { index, sequence } => ActionV::RestoreSequence {
                index: index as nat,
                sequence: sequence@,
            },
            Action::SetSequenceProps { sequence_id, resolution, fps } => {
                ActionV::SetSequenceProps { sequence_id, resolution, fps }
            },
            Action::SetWordText { transcript_id, index, display } => ActionV::SetWordText {
                transcript_id,
                index,
                display: model::opt_text(display),
            },
            Action::UpsertAvatarConfig { config } => ActionV::UpsertAvatarConfig {
                config: config@,
            },
            Action::RestoreAvatarConfig { index, config } => ActionV::RestoreAvatarConfig {
                index: index as nat,
                config: config@,
            },
            Action::RemoveAvatarConfig { config_id } => ActionV::RemoveAvatarConfig { config_id },
            Action::RemoveSequence { sequence_id } => ActionV::RemoveSequence { sequence_id },
            Action::SetActiveSequence { sequence_id } => ActionV::SetActiveSequence {
                sequence_id,
            },
        }
    }
}

fn duplicate_ids(v: &Vec<Id>) -> (r: Vec<Id>)
    ensures
        r@ == v@,
{
    let r: Vec<Id> = v.clone();
    assert(r@ == v@);
    r
}

impl Duplicate for Action {
    fn duplicate(&self) -> (r: Action) {
        match self {
            Action::SetProjectName { name } => Action::SetProjectName { name: name.clone() },
            Action::AddTrack { sequence_id, index, track } => Action::AddTrack {
                sequence_id: *sequence_id,
                index: *index,
                track: track.duplicate(),
            },
            Action::RemoveTrack { track_id } => Action::RemoveTrack { track_id: *track_id },
            Action::InsertClip { track_id, clip } => Action::InsertClip {
                track_id: *track_id,
                clip: clip.duplicate(),
            },
            Action::RemoveClip { clip_id } => Action::RemoveClip { clip_id: *clip_id },
            Action::ReplaceClips { track_id, remove_ids, insert } => Action::ReplaceClips {
                track_id: *track_id,
                remove_ids: duplicate_ids(remove_ids),
                insert: duplicate_all(insert),
            },
            Action::SetClipBounds { clip_id, start, duration, src_in, src_out } => {
                Action::SetClipBounds {
                    clip_id: *clip_id,
                    start: *start,
                    duration: *duration,
                    src_in: *src_in,
                    src_out: *src_out,
                }
            },
            Action::MoveClipToTrack { clip_id, to_track, to_start } => Action::MoveClipToTrack {
                clip_id: *clip_id,
                to_track: *to_track,
                to_start: *to_start,
            },
            Action::SetTrackProp { track_id, prop } => Action::SetTrackProp {
                track_id: *track_id,
                prop: prop.duplicate(),
            },
            Action::SetClipTransform { clip_id, transform } => Action::SetClipTransform {
                clip_id: *clip_id,
                transform: transform.duplicate(),
            },
            Action::SetClipAudio { clip_id, audio } => Action::SetClipAudio {
                clip_id: *clip_id,
                audio: audio.duplicate(),
            },
            Action::SetClipEffects { clip_id, effects } => Action::SetClipEffects {
                clip_id: *clip_id,
                effects: duplicate_all(effects),
            },
            Action::SetClipTransition { clip_id, transition, out } => Action::SetClipTransition {
                clip_id: *clip_id,
                transition: match transition {
                    Some(x) => Some(x.duplicate()),
                    None => None,
                },
                out: *out,
            },
            Action::SetClipText { clip_id, content, style } => Action::SetClipText {
                clip_id: *clip_id,
                content: content.clone(),
                style: style.duplicate(),
            },
            Action::SetClipGenerator { clip_id, generator_id, params, color_params } => {
                Action::SetClipGenerator {
                    clip_id: *clip_id,
                    generator_id: generator_id.clone(),
                    params: params.duplicate(),
                    color_params: color_params.duplicate(),
                }
            },
            Action::SetClipSubtitles { clip_id, style, mode, max_words } => {
                Action::SetClipSubtitles {
                    clip_id: *clip_id,
                    style: style.duplicate(),
                    mode: *mode,
                    max_words: *max_words,
                }
            },
            Action::SetClipSpeed { clip_id, speed, duration } => Action::SetClipSpeed {
                clip_id: *clip_id,
                speed: *speed,
                duration: *duration,
            },
            Action::SetClipGroup { clip_id, group } => Action::SetClipGroup {
                clip_id: *clip_id,
                group: *group,
            },
            Action::SetClipName { clip_id, name } => Action::SetClipName {
                clip_id: *clip_id,
                name: duplicate_text(name),
            },
            Action::AddSequence { sequence } => Action::AddSequence {
                sequence: sequence.duplicate(),
            },
            Action::RestoreSequence { index, sequence } => Action::RestoreSequence {
                index: *index,
                sequence: sequence.duplicate(),
            },
            Action::SetSequenceProps { sequence_id, resolution, fps } => {
                Action::SetSequenceProps {
                    sequence_id: *sequence_id,
                    resolution: *resolution,
                    fps: *fps,
                }
            },
            Action::SetWordText { transcript_id, index, display } => Action::SetWordText {
                transcript_id: *transcript_id,
                index: *index,
                display: duplicate_text(display),
            },
            Action::UpsertAvatarConfig { config } => Action::UpsertAvatarConfig {
                config: config.duplicate(),
            },
            Action::RestoreAvatarConfig { index, config } => Action::RestoreAvatarConfig {
                index: *index,
                config: config.duplicate(),
            },
            Action::RemoveAvatarConfig { config_id } => Action::RemoveAvatarConfig {
                config_id: *config_id,
            },
            Action::RemoveSequence { sequence_id } => Action::RemoveSequence {
                sequence_id: *sequence_id,
            },
            Action::SetActiveSequence { sequence_id } => Action::SetActiveSequence {
                sequence_id: *sequence_id,
            },
        }
    }
}

impl Clone for Action {
    fn clone(&self) -> (r: Action)
        ensures
            r@ == self@,
    {
        self.duplicate()
    }
}

/// What comes of an action: the project after it and the inverse action, or
/// why it was refused.
pub type Step = Result<(ProjectV, ActionV), ErrV>;

/// Whether a call did what a step says; a refused action leaves the project as
/// it was.
pub open spec fn did(before: ProjectV, after: ProjectV, r: UeResult<Action>, s: Step) -> bool {
    match s {
        Ok(x) => r is Ok && r->Ok_0@ == x.1 && after == x.0,
        Err(e) => r is Err && r->Err_0@ == e && after == before,
    }
}

/// The kind of track that a clip goes to by itself.
pub open spec fn natural_kind(p: ProjectV, c: ClipV) -> TrackKind {
    match c.payload {
        PayloadV::Media { asset_id, src_in, src_out } => match model::asset_of(p, asset_id) {
            Some(a) => if a.kind == MediaKind::Audio {
                TrackKind::Audio
            } else {
                TrackKind::Video
            },
            None => TrackKind::Video,
        },
        _ => TrackKind::Video,
    }
}

/// The kind of track that a clip goes to by itself.
pub fn natural_track_kind(project: &Project, clip: &Clip) -> (k: TrackKind)
    ensures
        k == natural_kind(project@, clip@),
{
    match &clip.payload {
        ClipPayload::Media { asset_id, .. } => match project.asset(*asset_id) {
            Some(a) => if a.kind == MediaKind::Audio {
                TrackKind::Audio
            } else {
                TrackKind::Video
            },
            None => TrackKind::Video,
        },
        _ => TrackKind::Video,
    }
}

/// Whether a clip can stand on a track of a kind. A video can go on an audio
/// track too: there only its sound is used.
pub open spec fn allowed_on(p: ProjectV, c: ClipV, kind: TrackKind) -> bool {
    match c.payload {
        PayloadV::Media { asset_id, src_in, src_out } => match model::asset_of(p, asset_id) {
            Some(a) => match a.kind {
                MediaKind::Audio => kind == TrackKind::Audio,
                MediaKind::Image => kind == TrackKind::Video,
                MediaKind::Video => true,
            },
            None => true,
        },
        _ => kind == TrackKind::Video,
    }
}

fn clip_allowed_on(project: &Project, clip: &Clip, kind: TrackKind) -> (r: bool)
    ensures
        r == allowed_on(project@, clip@, kind),
{
    match &clip.payload {
        ClipPayload::Media { asset_id, .. } => match project.asset(*asset_id) {
            Some(a) => match a.kind {
                MediaKind::Audio => kind == TrackKind::Audio,
                MediaKind::Image => kind == TrackKind::Video,
                MediaKind::Video => true,
            },
            None => true,
        },
        _ => kind == TrackKind::Video,
    }
}

/// The name of a kind of track.
pub open spec fn kind_text(kind: TrackKind) -> Seq<char> {
    match kind {
        TrackKind::Video => "Video"@,
        TrackKind::Audio => "Audio"@,
    }
}

/// The error for a clip on the wrong kind of track.
pub open spec fn wrong_kind(id: Id, kind: TrackKind) -> ErrV {
    ErrV::Invalid("clip "@ + id.text() + " cannot go on a track of kind "@ + kind_text(kind))
}

fn wrong_kind_error(id: Id, kind: TrackKind) -> (e: UeError)
    ensures
        e@ == wrong_kind(id, kind),
{
    let mut s: String = copy_text("clip ");
    let t: String = id.to_text();
    s.append(t.as_str());
    s.append(" cannot go on a track of kind ");
    match kind {
        TrackKind::Video => s.append("Video"),
        TrackKind::Audio => s.append("Audio"),
    }
    UeError::Invalid(s)
}

/// The clips with one more in its place.
pub open spec fn put_in(clips: Seq<ClipV>, c: ClipV) -> Seq<ClipV> {
    clips.insert(model::place(clips, c.start) as int, c)
}

/// The error for a clip that would stand over another.
pub open spec fn over_track(c: ClipV, track_id: Id) -> ErrV {
    ErrV::Overlap(
        "clip "@ + c.id.text() + " at ["@ + text::int_text(c.start as int) + ", "@ + text::int_text(
            c.finish() as int,
        ) + ") over track "@ + track_id.text(),
    )
}

fn over_track_error(c: &Clip, track_id: Id) -> (e: UeError)
    ensures
        e@ == over_track(c@, track_id),
{
    let mut s: String = copy_text("clip ");
    let a: String = c.id.to_text();
    s.append(a.as_str());
    s.append(" at [");
    let b: String = int_to_text(c.start);
    s.append(b.as_str());
    s.append(", ");
    let d: String = int_to_text(c.end());
    s.append(d.as_str());
    s.append(") over track ");
    let t: String = track_id.to_text();
    s.append(t.as_str());
    UeError::Overlap(s)
}

/// A clip put on a track, where it may stand and nothing is in its way.
pub open spec fn insert_clip_step(p: ProjectV, track_id: Id, clip: ClipV) -> Step {
    match model::track_place(p, track_id) {
        None => Err(error::missing("track "@, track_id)),
        Some(at) => {
            let t = model::track_at(p, at);
            if !allowed_on(p, clip, t.kind) {
                Err(wrong_kind(clip.id, t.kind))
            } else if t.hit(clip.start, clip.duration, None) {
                Err(over_track(clip, t.id))
            } else {
                Ok(
                    (
                        model::with_clips(p, at, put_in(t.clips, clip)),
                        ActionV::RemoveClip { clip_id: clip.id },
                    ),
                )
            }
        },
    }
}

fn apply_insert_clip(project: &mut Project, track_id: Id, clip: Clip) -> (r: UeResult<Action>)
    ensures
        did(old(project)@, final(project)@, r, insert_clip_step(old(project)@, track_id, clip@)),
{
    let (si, ti) = match project.locate_track(track_id) {
        Some(at) => at,
        None => {
            return Err(not_found("track ", track_id));
        },
    };
    let ghost p = project@;
    let ghost t = model::track_at(p, (si as int, ti as int));
    assert(project.sequences@[si as int].tracks@[ti as int]@ == t);
    let kind: TrackKind = project.sequences[si].tracks[ti].kind;
    if !clip_allowed_on(project, &clip, kind) {
        return Err(wrong_kind_error(clip.id, kind));
    }
    if project.sequences[si].tracks[ti].collides(clip.start, clip.duration, None) {
        return Err(over_track_error(&clip, project.sequences[si].tracks[ti].id));
    }
    let clip_id: Id = clip.id;
    let at: usize = project.sequences[si].tracks[ti].insertion_index(clip.start);
    let ghost c = clip@;
    project.sequences[si].tracks[ti].clips.insert(at, clip);
    proof {
        lemma_changed(*old(project), *project, si as int, ti as int);
        assert(project.sequences@[si as int].tracks@[ti as int]@.clips =~= put_in(t.clips, c));
    }
    Ok(Action::RemoveClip { clip_id })
}

/// The view of a project after its track at the given indices was changed in
/// place.
proof fn lemma_changed(p: Project, q: Project, si: int, ti: int)
    requires
        0 <= si < p.sequences.len(),
        0 <= ti < p.sequences@[si].tracks.len(),
        q == (Project { sequences: q.sequences, ..p }),
        q.sequences@ == p.sequences@.update(si, q.sequences@[si]),
        q.sequences@[si] == (Sequence { tracks: q.sequences@[si].tracks, ..p.sequences@[si] }),
        q.sequences@[si].tracks@ == p.sequences@[si].tracks@.update(
            ti,
            q.sequences@[si].tracks@[ti],
        ),
    ensures
        q@ == model::with_track(p@, (si, ti), q.sequences@[si].tracks@[ti]@),
        model::track_at(p@, (si, ti)) == p.sequences@[si].tracks@[ti]@,
{
    let t = q.sequences@[si].tracks@[ti];
    assert(seqs::views(q.sequences@[si].tracks@) =~= seqs::views(p.sequences@[si].tracks@).update(ti, t@));
    assert(seqs::views(q.sequences@) =~= seqs::views(p.sequences@).update(si, q.sequences@[si]@));
}

/// A clip taken off its track.
pub open spec fn remove_clip_step(p: ProjectV, clip_id: Id) -> Step {
    match model::clip_place(p, clip_id) {
        None => Err(error::missing("clip "@, clip_id)),
        Some(at) => {
            let t = model::track_at(p, (at.0, at.1));
            Ok(
                (
                    model::with_clips(p, (at.0, at.1), t.clips.remove(at.2)),
                    ActionV::InsertClip { track_id: t.id, clip: model::clip_at(p, at) },
                ),
            )
        },
    }
}

fn apply_remove_clip(project: &mut Project, clip_id: Id) -> (r: UeResult<Action>)
    ensures
        did(old(project)@, final(project)@, r, remove_clip_step(old(project)@, clip_id)),
{
    let (si, ti, ci) = match project.locate_clip(clip_id) {
        Some(at) => at,
        None => {
            return Err(not_found("clip ", clip_id));
        },
    };
    let track_id: Id = project.sequences[si].tracks[ti].id;
    let clip: Clip = project.sequences[si].tracks[ti].clips.remove(ci);
    proof {
        lemma_changed(*old(project), *project, si as int, ti as int);
        assert(project.sequences@[si as int].tracks@[ti as int]@.clips =~= model::track_at(
            old(project)@,
            (si as int, ti as int),
        ).clips.remove(ci as int));
    }
    Ok(Action::InsertClip { track_id, clip })
}

/// A track put into a sequence.
pub open spec fn add_track_step(
    p: ProjectV,
    sequence_id: Id,
    index: usize,
    track: TrackV,
) -> Step {
    if !seqs::holds(p.sequences, sequence_id) {
        Err(error::missing("sequence "@, sequence_id))
    } else {
        let si = seqs::pos(p.sequences, sequence_id) as int;
        let s = p.sequences[si];
        let i = if index <= s.tracks.len() {
            index as int
        } else {
            s.tracks.len() as int
        };
        Ok(
            (
                ProjectV {
                    sequences: p.sequences.update(
                        si,
                        SequenceV { tracks: s.tracks.insert(i, track), ..s },
                    ),
                    ..p
                },
                ActionV::RemoveTrack { track_id: track.id },
            ),
        )
    }
}

fn apply_add_track(project: &mut Project, sequence_id: Id, index: usize, track: Track) -> (r:
    UeResult<Action>)
    ensures
        did(
            old(project)@,
            final(project)@,
            r,
            add_track_step(old(project)@, sequence_id, index, track@),
        ),
{
    let si: usize = match find(&project.sequences, sequence_id) {
        Some(i) => i,
        None => {
            return Err(not_found("sequence ", sequence_id));
        },
    };
    let track_id: Id = track.id;
    let ghost t = track@;
    let ghost s = project.sequences@[si as int];
    let n: usize = project.sequences[si].tracks.len();
    let i: usize = if index <= n { index } else { n };
    project.sequences[si].tracks.insert(i, track);
    proof {
        let s2 = project.sequences@[si as int];
        assert(seqs::views(s2.tracks@) =~= seqs::views(s.tracks@).insert(i as int, t));
        assert(seqs::views(project.sequences@) =~= seqs::views(old(project).sequences@).update(
            si as int,
            s2@,
        ));
    }
    Ok(Action::RemoveTrack { track_id })
}

/// A track taken out of its sequence.
pub open spec fn remove_track_step(p: ProjectV, track_id: Id) -> Step {
    match model::track_place(p, track_id) {
        None => Err(error::missing("track "@, track_id)),
        Some(at) => {
            let s = p.sequences[at.0];
            Ok(
                (
                    ProjectV {
                        sequences: p.sequences.update(
                            at.0,
                            SequenceV { tracks: s.tracks.remove(at.1), ..s },
                        ),
                        ..p
                    },
                    ActionV::AddTrack {
                        sequence_id: s.id,
                        index: at.1 as usize,
                        track: s.tracks[at.1],
                    },
                ),
            )
        },
    }
}

fn apply_remove_track(project: &mut Project, track_id: Id) -> (r: UeResult<Action>)
    ensures
        did(old(project)@, final(project)@, r, remove_track_step(old(project)@, track_id)),
{
    let (si, ti) = match project.locate_track(track_id) {
        Some(at) => at,
        None => {
            return Err(not_found("track ", track_id));
        },
    };
    let sequence_id: Id = project.sequences[si].id;
    let ghost s = project.sequences@[si as int];
    let track: Track = project.sequences[si].tracks.remove(ti);
    proof {
        let s2 = project.sequences@[si as int];
        assert(seqs::views(s2.tracks@) =~= seqs::views(s.tracks@).remove(ti as int));
        assert(seqs::views(project.sequences@) =~= seqs::views(old(project).sequences@).update(
            si as int,
            s2@,
        ));
    }
    Ok(Action::AddTrack { sequence_id, index: ti, track })
}

/// The clips without those named, and those taken off in the order of the
/// names; or the first name that is not there.
pub open spec fn take_off(clips: Seq<ClipV>, ids: Seq<Id>) -> Result<
    (Seq<ClipV>, Seq<ClipV>),
    Id,
>
    decreases ids.len(),
{
    if ids.len() == 0 {
        Ok((clips, Seq::<ClipV>::empty()))
    } else {
        match take_off(clips, ids.drop_last()) {
            Err(e) => Err(e),
            Ok(x) => if seqs::holds(x.0, ids.last()) {
                let i = seqs::pos(x.0, ids.last()) as int;
                Ok((x.0.remove(i), x.1.push(x.0[i])))
            } else {
                Err(ids.last())
            },
        }
    }
}

/// The clips with others put in, one after the other.
pub open spec fn put_all(clips: Seq<ClipV>, list: Seq<ClipV>) -> Seq<ClipV>
    decreases list.len(),
{
    if list.len() == 0 {
        clips
    } else {
        put_in(put_all(clips, list.drop_last()), list.last())
    }
}

/// The first clip that cannot stand on a track of a kind.
pub open spec fn first_misfit(p: ProjectV, list: Seq<ClipV>, kind: TrackKind) -> Option<Id>
    decreases list.len(),
{
    if list.len() == 0 {
        None
    } else if !allowed_on(p, list[0], kind) {
        Some(list[0].id)
    } else {
        first_misfit(p, list.drop_first(), kind)
    }
}

/// The time ranges of clips.
pub open spec fn ranges(list: Seq<ClipV>) -> Seq<(TimeUs, TimeUs)> {
    list.map_values(|c: ClipV| (c.start, c.finish()))
}

/// Whether a time range comes before another: by its start, then by its end.
pub open spec fn range_before(a: (TimeUs, TimeUs), b: (TimeUs, TimeUs)) -> bool {
    a.0 < b.0 || (a.0 == b.0 && a.1 < b.1)
}

/// The first range that comes after the given one, or the count of ranges.
pub open spec fn range_place(s: Seq<(TimeUs, TimeUs)>, x: (TimeUs, TimeUs)) -> nat
    decreases s.len(),
{
    if s.len() == 0 || range_before(x, s[0]) {
        0
    } else {
        1 + range_place(s.drop_first(), x)
    }
}

/// Time ranges in order.
pub open spec fn sorted_ranges(s: Seq<(TimeUs, TimeUs)>) -> Seq<(TimeUs, TimeUs)>
    decreases s.len(),
{
    if s.len() == 0 {
        s
    } else {
        let r = sorted_ranges(s.drop_last());
        r.insert(range_place(r, s.last()) as int, s.last())
    }
}

/// Whether a range in the list ends after the next one starts.
pub open spec fn clash(s: Seq<(TimeUs, TimeUs)>) -> bool {
    exists|i: int| 0 <= i < s.len() - 1 && (#[trigger] s[i]).1 > s[i + 1].0
}

/// Clips of a track taken off and others put on, all at once.
pub open spec fn replace_clips_step(
    p: ProjectV,
    track_id: Id,
    remove_ids: Seq<Id>,
    insert: Seq<ClipV>,
) -> Step {
    match model::track_place(p, track_id) {
        None => Err(error::missing("track "@, track_id)),
        Some(at) => {
            let t = model::track_at(p, at);
            match take_off(t.clips, remove_ids) {
                Err(id) => Err(
                    ErrV::NotFound("clip "@ + id.text() + " in track "@ + track_id.text()),
                ),
                Ok(x) => match first_misfit(p, insert, t.kind) {
                    Some(id) => Err(wrong_kind(id, t.kind)),
                    None => if clash(sorted_ranges(ranges(x.0) + ranges(insert))) {
                        Err(
                            ErrV::Overlap(
                                "replace_clips would produce an overlap in track "@
                                    + track_id.text(),
                            ),
                        )
                    } else {
                        Ok(
                            (
                                model::with_clips(p, at, put_all(x.0, insert)),
                                ActionV::ReplaceClips {
                                    track_id,
                                    remove_ids: insert.map_values(|c: ClipV| c.id),
                                    insert: x.1,
                                },
                            ),
                        )
                    },
                },
            }
        },
    }
}

proof fn lemma_range_place(s: Seq<(TimeUs, TimeUs)>, x: (TimeUs, TimeUs), i: nat)
    requires
        i <= s.len(),
        forall|j: int| 0 <= j < i ==> !range_before(x, #[trigger] s[j]),
        i < s.len() ==> range_before(x, s[i as int]),
    ensures
        range_place(s, x) == i,
    decreases s.len(),
{
    if i > 0 {
        let r = s.drop_first();
        assert(!range_before(x, s[0]));
        assert forall|j: int| 0 <= j < i - 1 implies !range_before(x, #[trigger] r[j]) by {
            assert(r[j] == s[j + 1]);
        }
        lemma_range_place(r, x, (i - 1) as nat);
    }
}

/// Puts time ranges in order.
pub fn sort_ranges(v: &Vec<(TimeUs, TimeUs)>) -> (r: Vec<(TimeUs, TimeUs)>)
    ensures
        r@ == sorted_ranges(v@),
{
    let mut r: Vec<(TimeUs, TimeUs)> = Vec::new();
    let mut i: usize = 0;
    while i < v.len()
        invariant
            i <= v.len(),
            r@ == sorted_ranges(v@.take(i as int)),
        decreases v.len() - i,
    {
        let x: (TimeUs, TimeUs) = v[i];
        proof {
            let t = v@.take(i as int + 1);
            assert(t.drop_last() == v@.take(i as int));
            assert(t.last() == x);
        }
        let mut k: usize = 0;
        while k < r.len() && !(x.0 < r[k].0 || (x.0 == r[k].0 && x.1 < r[k].1))
            invariant
                k <= r.len(),
                forall|j: int| 0 <= j < k ==> !range_before(x, #[trigger] r@[j]),
            decreases r.len() - k,
        {
            k = k + 1;
        }
        proof {
            lemma_range_place(r@, x, k as nat);
        }
        r.insert(k, x);
        i = i + 1;
    }
    assert(v@.take(v@.len() as int) == v@);
    r
}

fn has_clash(v: &Vec<(TimeUs, TimeUs)>) -> (r: bool)
    ensures
        r == clash(v@),
{
    let mut i: usize = 1;
    while i < v.len()
        invariant
            1 <= i,
            v.len() > 0 ==> i <= v.len(),
            forall|j: int| 0 <= j < i - 1 && j < v.len() - 1 ==> (#[trigger] v@[j]).1 <= v@[j + 1].0,
        decreases v.len() - i,
    {
        if v[i - 1].1 > v[i].0 {
            assert(v@[i - 1].1 > v@[i - 1 + 1].0);
            return true;
        }
        i = i + 1;
    }
    false
}

fn find_misfit(project: &Project, list: &Vec<Clip>, kind: TrackKind) -> (r: Option<Id>)
    ensures
        r == first_misfit(project@, seqs::views(list@), kind),
{
    let mut i: usize = 0;
    assert(seqs::views(list@).skip(0) == seqs::views(list@));
    while i < list.len()
        invariant
            i <= list.len(),
            first_misfit(project@, seqs::views(list@), kind) == first_misfit(
                project@,
                seqs::views(list@).skip(i as int),
                kind,
            ),
        decreases list.len() - i,
    {
        proof {
            assert(seqs::views(list@).skip(i as int)[0] == list@[i as int]@);
            assert(seqs::views(list@).skip(i as int).drop_first() == seqs::views(list@).skip(i as int + 1));
        }
        if !clip_allowed_on(project, &list[i], kind) {
            return Some(list[i].id);
        }
        i = i + 1;
    }
    assert(seqs::views(list@).skip(i as int) == Seq::<ClipV>::empty());
    None
}

/// Takes clips off a list. Where a name is missing, the list is left as it
/// was.
fn take_clips(clips: &mut Vec<Clip>, ids: &Vec<Id>) -> (r: Result<Vec<Clip>, Id>)
    ensures
        match take_off(seqs::views(old(clips)@), ids@) {
            Ok(x) => r is Ok && seqs::views(final(clips)@) == x.0 && seqs::views(r->Ok_0@) == x.1,
            Err(id) => r is Err && r->Err_0 == id && seqs::views(final(clips)@) == seqs::views(old(clips)@),
        },
{
    let keep: Vec<Clip> = duplicate_all(clips);
    let mut removed: Vec<Clip> = Vec::new();
    let mut i: usize = 0;
    assert(seqs::views(removed@) == Seq::<ClipV>::empty());
    while i < ids.len()
        invariant
            i <= ids.len(),
            seqs::views(keep@) == seqs::views(old(clips)@),
            take_off(seqs::views(old(clips)@), ids@.take(i as int)) == Ok::<(Seq<ClipV>, Seq<ClipV>), Id>(
                (seqs::views(clips@), seqs::views(removed@)),
            ),
        decreases ids.len() - i,
    {
        proof {
            let t = ids@.take(i as int + 1);
            assert(t.drop_last() == ids@.take(i as int));
            assert(t.last() == ids@[i as int]);
        }
        match find(clips, ids[i]) {
            Some(k) => {
                let ghost before = clips@;
                let c: Clip = clips.remove(k);
                let ghost gone = removed@;
                removed.push(c);
                proof {
                    assert(seqs::views(clips@) =~= seqs::views(before).remove(k as int));
                    assert(seqs::views(removed@) =~= seqs::views(gone).push(seqs::views(before)[k as int]));
                }
            },
            None => {
                proof {
                    lemma_take_off_stops(seqs::views(old(clips)@), ids@, i as int + 1);
                }
                let id: Id = ids[i];
                *clips = keep;
                return Err(id);
            },
        }
        i = i + 1;
    }
    assert(ids@.take(ids@.len() as int) == ids@);
    Ok(removed)
}

proof fn lemma_take_off_stops(clips: Seq<ClipV>, ids: Seq<Id>, n: int)
    requires
        0 <= n <= ids.len(),
        take_off(clips, ids.take(n)) is Err,
    ensures
        take_off(clips, ids) == take_off(clips, ids.take(n)),
    decreases ids.len(),
{
    if n == ids.len() {
        assert(ids.take(n) == ids);
    } else {
        assert(ids.drop_last().take(n) == ids.take(n));
        lemma_take_off_stops(clips, ids.drop_last(), n);
    }
}

/// Puts clips in, one after the other.
fn put_clips(clips: &mut Vec<Clip>, list: Vec<Clip>)
    ensures
        seqs::views(final(clips)@) == put_all(seqs::views(old(clips)@), seqs::views(list@)),
{
    let mut list: Vec<Clip> = list;
    let ghost all = seqs::views(list@);
    let mut done: Vec<Clip> = Vec::new();
    let n: usize = list.len();
    let mut i: usize = 0;
    assert(all.take(0) == Seq::<ClipV>::empty());
    assert(all.skip(0) == all);
    while i < n
        invariant
            i <= n,
            n == all.len(),
            seqs::views(list@) == all.skip(i as int),
            seqs::views(clips@) == put_all(seqs::views(old(clips)@), all.take(i as int)),
        decreases n - i,
    {
        assert(list.len() == n - i) by {
            assert(seqs::views(list@).len() == list@.len());
        }
        let ghost rest = list@;
        let c: Clip = list.remove(0);
        proof {
            assert(all.skip(i as int)[0] == rest[0]@);
            assert(seqs::views(list@) =~= seqs::views(rest).remove(0));
            assert(all.skip(i as int).remove(0) =~= all.skip(i as int + 1));
            let t = all.take(i as int + 1);
            assert(t.drop_last() == all.take(i as int));
            assert(t.last() == c@);
        }
        let at: usize = place_of(clips, c.start);
        let ghost before = clips@;
        let ghost cv = c@;
        clips.insert(at, c);
        proof {
            assert(seqs::views(clips@) =~= put_in(seqs::views(before), cv));
        }
        i = i + 1;
    }
    assert(all.take(n as int) == all);
}

fn place_of(clips: &Vec<Clip>, start: TimeUs) -> (i: usize)
    ensures
        i == model::place(seqs::views(clips@), start),
        i <= clips.len(),
{
    let mut i: usize = 0;
    while i < clips.len() && clips[i].start < start
        invariant
            i <= clips.len(),
            forall|j: int| 0 <= j < i ==> (#[trigger] seqs::views(clips@)[j]).start < start,
        decreases clips.len() - i,
    {
        assert(seqs::views(clips@)[i as int] == clips@[i as int]@);
        i = i + 1;
    }
    proof {
        if i < clips.len() {
            assert(seqs::views(clips@)[i as int] == clips@[i as int]@);
        }
        crate::model::lemma_place_at(seqs::views(clips@), start, i as nat);
    }
    i
}

fn ranges_of(list: &Vec<Clip>, out: &mut Vec<(TimeUs, TimeUs)>)
    ensures
        final(out)@ == old(out)@ + ranges(seqs::views(list@)),
{
    let mut i: usize = 0;
    assert(out@ + ranges(seqs::views(list@)).take(0) == out@);
    while i < list.len()
        invariant
            i <= list.len(),
            out@ == old(out)@ + ranges(seqs::views(list@)).take(i as int),
        decreases list.len() - i,
    {
        out.push((list[i].start, list[i].end()));
        assert(out@ == old(out)@ + ranges(seqs::views(list@)).take(i as int + 1));
        i = i + 1;
    }
    assert(ranges(seqs::views(list@)).take(i as int) == ranges(seqs::views(list@)));
}

fn ids_of(list: &Vec<Clip>) -> (r: Vec<Id>)
    ensures
        r@ == seqs::views(list@).map_values(|c: ClipV| c.id),
{
    let mut r: Vec<Id> = Vec::new();
    let mut i: usize = 0;
    let ghost all = seqs::views(list@).map_values(|c: ClipV| c.id);
    assert(all.take(0) == r@);
    while i < list.len()
        invariant
            i <= list.len(),
            all == seqs::views(list@).map_values(|c: ClipV| c.id),
            r@ == all.take(i as int),
        decreases list.len() - i,
    {
        r.push(list[i].id);
        assert(r@ == all.take(i as int + 1));
        i = i + 1;
    }
    assert(all.take(i as int) == all);
    r
}

#[verifier::spinoff_prover]
fn apply_replace_clips(
    project: &mut Project,
    track_id: Id,
    remove_ids: Vec<Id>,
    insert: Vec<Clip>,
) -> (r: UeResult<Action>)
    ensures
        did(
            old(project)@,
            final(project)@,
            r,
            replace_clips_step(old(project)@, track_id, remove_ids@, seqs::views(insert@)),
        ),
{
    let (si, ti) = match project.locate_track(track_id) {
        Some(at) => at,
        None => {
            return Err(not_found("track ", track_id));
        },
    };
    let ghost p = project@;
    let ghost t = model::track_at(p, (si as int, ti as int));
    assert(project.sequences@[si as int].tracks@[ti as int]@ == t);
    let mut clips: Vec<Clip> = duplicate_all(&project.sequences[si].tracks[ti].clips);
    let removed: Vec<Clip> = match take_clips(&mut clips, &remove_ids) {
        Ok(v) => v,
        Err(id) => {
            let mut s: String = copy_text("clip ");
            let a: String = id.to_text();
            s.append(a.as_str());
            s.append(" in track ");
            let b: String = track_id.to_text();
            s.append(b.as_str());
            return Err(UeError::NotFound(s));
        },
    };
    let kind: TrackKind = project.sequences[si].tracks[ti].kind;
    if let Some(id) = find_misfit(project, &insert, kind) {
        return Err(wrong_kind_error(id, kind));
    }
    let mut all: Vec<(TimeUs, TimeUs)> = Vec::new();
    ranges_of(&clips, &mut all);
    ranges_of(&insert, &mut all);
    proof {
        assert(all@ == ranges(seqs::views(clips@)) + ranges(seqs::views(insert@)));
    }
    let sorted: Vec<(TimeUs, TimeUs)> = sort_ranges(&all);
    if has_clash(&sorted) {
        let mut s: String = copy_text("replace_clips would produce an overlap in track ");
        let b: String = track_id.to_text();
        s.append(b.as_str());
        return Err(UeError::Overlap(s));
    }
    let inserted: Vec<Id> = ids_of(&insert);
    put_clips(&mut clips, insert);
    project.sequences[si].tracks[ti].clips = clips;
    proof {
        lemma_changed(*old(project), *project, si as int, ti as int);
    }
    Ok(Action::ReplaceClips { track_id, remove_ids: inserted, insert: removed })
}

/// The first clip that starts after a time, or the count of clips.
pub open spec fn after_place(clips: Seq<ClipV>, start: TimeUs) -> nat
    decreases clips.len(),
{
    if clips.len() == 0 || clips[0].start > start {
        0
    } else {
        1 + after_place(clips.drop_first(), start)
    }
}

/// The clips in order of start; those that start together stay in their order.
pub open spec fn sorted_clips(clips: Seq<ClipV>) -> Seq<ClipV>
    decreases clips.len(),
{
    if clips.len() == 0 {
        clips
    } else {
        let r = sorted_clips(clips.drop_last());
        r.insert(after_place(r, clips.last().start) as int, clips.last())
    }
}

pub broadcast proof fn lemma_after_place(clips: Seq<ClipV>, start: TimeUs)
    ensures
        #![trigger after_place(clips, start)]
        after_place(clips, start) <= clips.len(),
        forall|j: int| 0 <= j < after_place(clips, start) ==> (#[trigger] clips[j]).start <= start,
        after_place(clips, start) < clips.len() ==> clips[after_place(clips, start) as int].start
            > start,
    decreases clips.len(),
{
    if clips.len() > 0 && clips[0].start <= start {
        let r = clips.drop_first();
        lemma_after_place(r, start);
        assert forall|j: int| 0 <= j < after_place(clips, start) implies (#[trigger] clips[j]).start
            <= start by {
            if j > 0 {
                assert(clips[j] == r[j - 1]);
            }
        }
    }
}

/// Where a start goes is where all before it are no later.
pub proof fn lemma_after_place_at(clips: Seq<ClipV>, start: TimeUs, i: nat)
    requires
        i <= clips.len(),
        forall|j: int| 0 <= j < i ==> (#[trigger] clips[j]).start <= start,
        i < clips.len() ==> clips[i as int].start > start,
    ensures
        after_place(clips, start) == i,
{
    lemma_after_place(clips, start);
    let p = after_place(clips, start);
    if p < i {
        assert(clips[p as int].start <= start);
    } else if i < p {
        assert(clips[i as int].start <= start);
    }
}

/// Sorting keeps the number of clips.
pub proof fn lemma_sorted_clips_len(clips: Seq<ClipV>)
    ensures
        sorted_clips(clips).len() == clips.len(),
    decreases clips.len(),
{
    if clips.len() > 0 {
        lemma_sorted_clips_len(clips.drop_last());
        lemma_after_place(sorted_clips(clips.drop_last()), clips.last().start);
    }
}

/// Puts clips in order of start.
#[verifier::spinoff_prover]
fn sort_clips(clips: &mut Vec<Clip>)
    ensures
        seqs::views(final(clips)@) == sorted_clips(seqs::views(old(clips)@)),
{
    let ghost all = seqs::views(clips@);
    let n: usize = clips.len();
    let mut i: usize = 0;
    assert(sorted_clips(all.take(0)) + all.skip(0) == all);
    while i < n
        invariant
            i <= n,
            n == all.len(),
            clips.len() == n,
            seqs::views(clips@) == sorted_clips(all.take(i as int)) + all.skip(i as int),
        decreases n - i,
    {
        let ghost head = sorted_clips(all.take(i as int));
        proof {
            lemma_sorted_clips_len(all.take(i as int));
            let t = all.take(i as int + 1);
            assert(t.drop_last() == all.take(i as int));
            assert(t.last() == all[i as int]);
        }
        let ghost before = clips@;
        let c: Clip = clips.remove(i);
        proof {
            assert(c@ == seqs::views(before)[i as int]);
            assert(c@ == all[i as int]);
            assert(seqs::views(clips@) =~= seqs::views(before).remove(i as int));
            assert((head + all.skip(i as int)).remove(i as int) =~= head + all.skip(i as int + 1));
        }
        let mut k: usize = 0;
        while k < i && clips[k].start <= c.start
            invariant
                k <= i,
                i < n,
                n == all.len(),
                clips.len() == n - 1,
                head.len() == i,
                seqs::views(clips@) == head + all.skip(i as int + 1),
                forall|j: int| 0 <= j < k ==> (#[trigger] head[j]).start <= c.start,
            decreases i - k,
        {
            assert(seqs::views(clips@)[k as int] == clips@[k as int]@);
            assert(head[k as int] == seqs::views(clips@)[k as int]);
            k = k + 1;
        }
        proof {
            if k < i {
                assert(seqs::views(clips@)[k as int] == clips@[k as int]@);
                assert(head[k as int] == seqs::views(clips@)[k as int]);
            }
            lemma_after_place_at(head, c.start, k as nat);
        }
        let ghost mid = clips@;
        let ghost cv = c@;
        clips.insert(k, c);
        proof {
            assert(seqs::views(clips@) =~= seqs::views(mid).insert(k as int, cv));
            assert(seqs::views(clips@) =~= sorted_clips(all.take(i as int + 1)) + all.skip(i as int + 1));
        }
        i = i + 1;
    }
    assert(all.take(n as int) == all);
    assert(sorted_clips(all) + all.skip(n as int) == sorted_clips(all));
}

/// A media payload with another source range where one is given.
pub open spec fn with_source(
    payload: PayloadV,
    src_in: Option<TimeUs>,
    src_out: Option<TimeUs>,
) -> PayloadV {
    match payload {
        PayloadV::Media { asset_id, src_in: i, src_out: o } => PayloadV::Media {
            asset_id,
            src_in: match src_in {
                Some(v) => v,
                None => i,
            },
            src_out: match src_out {
                Some(v) => v,
                None => o,
            },
        },
        _ => payload,
    }
}

/// Whether a media payload holds no material.
pub open spec fn empty_source(payload: PayloadV) -> bool {
    match payload {
        PayloadV::Media { asset_id, src_in, src_out } => src_in >= src_out,
        _ => false,
    }
}

/// The source range of a media payload.
pub open spec fn source_of(payload: PayloadV) -> (Option<TimeUs>, Option<TimeUs>) {
    match payload {
        PayloadV::Media { asset_id, src_in, src_out } => (Some(src_in), Some(src_out)),
        _ => (None, None),
    }
}

/// A clip with other bounds on its track and in its source.
pub open spec fn set_bounds_step(
    p: ProjectV,
    clip_id: Id,
    start: TimeUs,
    duration: TimeUs,
    src_in: Option<TimeUs>,
    src_out: Option<TimeUs>,
) -> Step {
    if duration <= 0 {
        Err(ErrV::Invalid("duration <= 0"@))
    } else {
        match model::clip_place(p, clip_id) {
            None => Err(error::missing("clip "@, clip_id)),
            Some(at) => {
                let t = model::track_at(p, (at.0, at.1));
                let c = model::clip_at(p, at);
                let payload = with_source(c.payload, src_in, src_out);
                let source = source_of(c.payload);
                if t.hit(start, duration, Some(clip_id)) {
                    Err(ErrV::Overlap("set_clip_bounds of "@ + clip_id.text()))
                } else if empty_source(payload) {
                    Err(ErrV::Invalid("src_in >= src_out"@))
                } else {
                    let changed = ClipV { start, duration, payload, ..c };
                    Ok(
                        (
                            model::with_clips(
                                p,
                                (at.0, at.1),
                                sorted_clips(t.clips.update(at.2, changed)),
                            ),
                            ActionV::SetClipBounds {
                                clip_id,
                                start: c.start,
                                duration: c.duration,
                                src_in: source.0,
                                src_out: source.1,
                            },
                        ),
                    )
                }
            },
        }
    }
}

fn apply_set_bounds(
    project: &mut Project,
    clip_id: Id,
    start: TimeUs,
    duration: TimeUs,
    src_in: Option<TimeUs>,
    src_out: Option<TimeUs>,
) -> (r: UeResult<Action>)
    ensures
        did(
            old(project)@,
            final(project)@,
            r,
            set_bounds_step(old(project)@, clip_id, start, duration, src_in, src_out),
        ),
{
    if duration <= 0 {
        return Err(invalid("duration <= 0"));
    }
    let (si, ti, ci) = match project.locate_clip(clip_id) {
        Some(at) => at,
        None => {
            return Err(not_found("clip ", clip_id));
        },
    };
    let ghost p = project@;
    let ghost t = model::track_at(p, (si as int, ti as int));
    assert(project.sequences@[si as int].tracks@[ti as int]@ == t);
    assert(t.clips[ci as int] == project.sequences@[si as int].tracks@[ti as int].clips@[ci as int]@);
    if project.sequences[si].tracks[ti].collides(start, duration, Some(clip_id)) {
        let mut s: String = copy_text("set_clip_bounds of ");
        let a: String = clip_id.to_text();
        s.append(a.as_str());
        return Err(UeError::Overlap(s));
    }
    let mut old_in: Option<TimeUs> = None;
    let mut old_out: Option<TimeUs> = None;
    let mut new_source: Option<(Id, TimeUs, TimeUs)> = None;
    match &project.sequences[si].tracks[ti].clips[ci].payload {
        ClipPayload::Media { asset_id, src_in: i, src_out: o } => {
            let x: TimeUs = match src_in {
                Some(v) => v,
                None => *i,
            };
            let y: TimeUs = match src_out {
                Some(v) => v,
                None => *o,
            };
            if x >= y {
                return Err(invalid("src_in >= src_out"));
            }
            old_in = Some(*i);
            old_out = Some(*o);
            new_source = Some((*asset_id, x, y));
        },
        _ => {},
    }
    let old_start: TimeUs = project.sequences[si].tracks[ti].clips[ci].start;
    let old_duration: TimeUs = project.sequences[si].tracks[ti].clips[ci].duration;
    set_bounds_in(&mut project.sequences[si].tracks[ti], ci, start, duration, new_source);
    proof {
        lemma_changed(*old(project), *project, si as int, ti as int);
    }
    Ok(
        Action::SetClipBounds {
            clip_id,
            start: old_start,
            duration: old_duration,
            src_in: old_in,
            src_out: old_out,
        },
    )
}

/// Gives a clip of a track other bounds, and puts the track in order.
fn set_bounds_in(
    track: &mut Track,
    ci: usize,
    start: TimeUs,
    duration: TimeUs,
    source: Option<(Id, TimeUs, TimeUs)>,
)
    requires
        ci < old(track).clips.len(),
    ensures
        final(track)@ == (TrackV {
            clips: sorted_clips(
                old(track)@.clips.update(
                    ci as int,
                    (ClipV {
                        start,
                        duration,
                        payload: match source {
                            Some(x) => PayloadV::Media { asset_id: x.0, src_in: x.1, src_out: x.2 },
                            None => old(track)@.clips[ci as int].payload,
                        },
                        ..old(track)@.clips[ci as int]
                    }),
                ),
            ),
            ..old(track)@
        }),
{
    let ghost t = track@;
    let clip: &mut Clip = &mut track.clips[ci];
    clip.start = start;
    clip.duration = duration;
    if let Some((asset_id, src_in, src_out)) = source {
        clip.payload = ClipPayload::Media { asset_id, src_in, src_out };
    }
    proof {
        let changed = ClipV {
            start,
            duration,
            payload: match source {
                Some(x) => PayloadV::Media { asset_id: x.0, src_in: x.1, src_out: x.2 },
                None => t.clips[ci as int].payload,
            },
            ..t.clips[ci as int]
        };
        assert(t.clips[ci as int] == old(track).clips@[ci as int]@);
        assert(track.clips@[ci as int]@ == changed);
        assert(seqs::views(track.clips@) =~= t.clips.update(ci as int, changed));
    }
    sort_clips(&mut track.clips);
}

/// The error for a clip that cannot be moved to a place.
pub open spec fn blocked_move(clip_id: Id, to_track: Id, to_start: TimeUs) -> ErrV {
    ErrV::Overlap(
        "move of "@ + clip_id.text() + " to "@ + to_track.text() + "@"@ + text::int_text(to_start as int),
    )
}

/// A clip on another track or at another time.
pub open spec fn move_clip_step(p: ProjectV, clip_id: Id, to_track: Id, to_start: TimeUs) -> Step {
    match model::clip_place(p, clip_id) {
        None => Err(error::missing("clip "@, clip_id)),
        Some(at) => {
            let from = model::track_at(p, (at.0, at.1));
            let c = model::clip_at(p, at);
            match model::track_place(p, to_track) {
                None => Err(error::missing("track "@, to_track)),
                Some(to) => {
                    let target = model::track_at(p, to);
                    let exclude = if to_track == from.id {
                        Some(clip_id)
                    } else {
                        None
                    };
                    if target.hit(to_start, c.duration, exclude) {
                        Err(blocked_move(clip_id, to_track, to_start))
                    } else if !allowed_on(p, c, target.kind) {
                        Err(wrong_kind(clip_id, target.kind))
                    } else {
                        let q = model::with_clips(p, (at.0, at.1), from.clips.remove(at.2));
                        let moved = ClipV { start: to_start, ..c };
                        Ok(
                            (
                                model::with_clips(q, to, put_in(model::track_at(q, to).clips, moved)),
                                ActionV::MoveClipToTrack {
                                    clip_id,
                                    to_track: from.id,
                                    to_start: c.start,
                                },
                            ),
                        )
                    }
                },
            }
        },
    }
}

#[verifier::spinoff_prover]
fn apply_move_clip(project: &mut Project, clip_id: Id, to_track: Id, to_start: TimeUs) -> (r:
    UeResult<Action>)
    ensures
        did(
            old(project)@,
            final(project)@,
            r,
            move_clip_step(old(project)@, clip_id, to_track, to_start),
        ),
{
    let (si, ti, ci) = match project.locate_clip(clip_id) {
        Some(at) => at,
        None => {
            return Err(not_found("clip ", clip_id));
        },
    };
    let ghost p = project@;
    let ghost from = model::track_at(p, (si as int, ti as int));
    assert(project.sequences@[si as int].tracks@[ti as int]@ == from);
    assert(from.clips[ci as int]
        == project.sequences@[si as int].tracks@[ti as int].clips@[ci as int]@);
    let from_track: Id = project.sequences[si].tracks[ti].id;
    let from_start: TimeUs = project.sequences[si].tracks[ti].clips[ci].start;
    let duration: TimeUs = project.sequences[si].tracks[ti].clips[ci].duration;
    let (sj, tj) = match project.locate_track(to_track) {
        Some(at) => at,
        None => {
            return Err(not_found("track ", to_track));
        },
    };
    assert(project.sequences@[sj as int].tracks@[tj as int]@ == model::track_at(p, (sj as int, tj as int)));
    let exclude: Option<Id> = if to_track == from_track { Some(clip_id) } else { None };
    if project.sequences[sj].tracks[tj].collides(to_start, duration, exclude) {
        let mut s: String = copy_text("move of ");
        let a: String = clip_id.to_text();
        s.append(a.as_str());
        s.append(" to ");
        let b: String = to_track.to_text();
        s.append(b.as_str());
        s.append("@");
        let d: String = int_to_text(to_start);
        s.append(d.as_str());
        return Err(UeError::Overlap(s));
    }
    let kind: TrackKind = project.sequences[sj].tracks[tj].kind;
    if !clip_allowed_on(project, &project.sequences[si].tracks[ti].clips[ci], kind) {
        return Err(wrong_kind_error(clip_id, kind));
    }
    let mut clip: Clip = project.sequences[si].tracks[ti].clips.remove(ci);
    let ghost mid = *project;
    proof {
        lemma_changed(*old(project), mid, si as int, ti as int);
        assert(mid.sequences@[si as int].tracks@[ti as int]@.clips =~= from.clips.remove(
            ci as int,
        ));
        assert(mid@ == model::with_clips(p, (si as int, ti as int), from.clips.remove(ci as int)));
    }
    clip.start = to_start;
    let at: usize = project.sequences[sj].tracks[tj].insertion_index(to_start);
    let ghost cv = clip@;
    project.sequences[sj].tracks[tj].clips.insert(at, clip);
    proof {
        lemma_changed(mid, *project, sj as int, tj as int);
        let target = model::track_at(mid@, (sj as int, tj as int));
        assert(project.sequences@[sj as int].tracks@[tj as int]@.clips =~= put_in(target.clips, cv));
    }
    Ok(Action::MoveClipToTrack { clip_id, to_track: from_track, to_start: from_start })
}

/// A track with another value of a property.
pub open spec fn with_prop(t: TrackV, prop: TrackPropV) -> TrackV {
    match prop {
        TrackPropV::Name(v) => TrackV { name: v, ..t },
        TrackPropV::Muted(v) => TrackV { muted: v, ..t },
        TrackPropV::Solo(v) => TrackV { solo: v, ..t },
        TrackPropV::Locked(v) => TrackV { locked: v, ..t },
        TrackPropV::VolumeDb(v) => TrackV { volume_db: v, ..t },
    }
}

/// The value that a track has of the property that `prop` names.
pub open spec fn prop_of(t: TrackV, prop: TrackPropV) -> TrackPropV {
    match prop {
        TrackPropV::Name(v) => TrackPropV::Name(t.name),
        TrackPropV::Muted(v) => TrackPropV::Muted(t.muted),
        TrackPropV::Solo(v) => TrackPropV::Solo(t.solo),
        TrackPropV::Locked(v) => TrackPropV::Locked(t.locked),
        TrackPropV::VolumeDb(v) => TrackPropV::VolumeDb(t.volume_db),
    }
}

/// A track with another property.
pub open spec fn set_prop_step(p: ProjectV, track_id: Id, prop: TrackPropV) -> Step {
    match model::track_place(p, track_id) {
        None => Err(error::missing("track "@, track_id)),
        Some(at) => {
            let t = model::track_at(p, at);
            Ok(
                (
                    model::with_track(p, at, with_prop(t, prop)),
                    ActionV::SetTrackProp { track_id, prop: prop_of(t, prop) },
                ),
            )
        },
    }
}

fn apply_set_prop(project: &mut Project, track_id: Id, prop: TrackProp) -> (r: UeResult<Action>)
    ensures
        did(old(project)@, final(project)@, r, set_prop_step(old(project)@, track_id, prop@)),
{
    let (si, ti) = match project.locate_track(track_id) {
        Some(at) => at,
        None => {
            return Err(not_found("track ", track_id));
        },
    };
    let before: TrackProp = edit_track(&mut project.sequences[si].tracks[ti], prop);
    proof {
        lemma_changed(*old(project), *project, si as int, ti as int);
    }
    Ok(Action::SetTrackProp { track_id, prop: before })
}

fn edit_track(track: &mut Track, prop: TrackProp) -> (before: TrackProp)
    ensures
        final(track)@ == with_prop(old(track)@, prop@),
        before@ == prop_of(old(track)@, prop@),
{
    match prop {
        TrackProp::Name(v) => TrackProp::Name(swap_in(&mut track.name, v)),
        TrackProp::Muted(v) => TrackProp::Muted(swap_in(&mut track.muted, v)),
        TrackProp::Solo(v) => TrackProp::Solo(swap_in(&mut track.solo, v)),
        TrackProp::Locked(v) => TrackProp::Locked(swap_in(&mut track.locked, v)),
        TrackProp::VolumeDb(v) => TrackProp::VolumeDb(swap_in(&mut track.volume_db, v)),
    }
}

/// The step of an action that changes one clip in its place.
pub open spec fn edit_step(p: ProjectV, clip_id: Id, a: ActionV) -> Step {
    match model::clip_place(p, clip_id) {
        None => Err(error::missing("clip "@, clip_id)),
        Some(at) => match change_clip(model::clip_at(p, at), a) {
            Err(e) => Err(e),
            Ok(x) => Ok((model::with_clip(p, at, x.0), x.1)),
        },
    }
}

/// The view of a project after one clip was changed in its place.
proof fn lemma_clip_changed(p: Project, q: Project, si: int, ti: int, ci: int)
    requires
        0 <= si < p.sequences.len(),
        0 <= ti < p.sequences@[si].tracks.len(),
        0 <= ci < p.sequences@[si].tracks@[ti].clips.len(),
        q == (Project { sequences: q.sequences, ..p }),
        q.sequences@ == p.sequences@.update(si, q.sequences@[si]),
        q.sequences@[si] == (Sequence { tracks: q.sequences@[si].tracks, ..p.sequences@[si] }),
        q.sequences@[si].tracks@ == p.sequences@[si].tracks@.update(
            ti,
            q.sequences@[si].tracks@[ti],
        ),
        q.sequences@[si].tracks@[ti] == (Track {
            clips: q.sequences@[si].tracks@[ti].clips,
            ..p.sequences@[si].tracks@[ti]
        }),
        q.sequences@[si].tracks@[ti].clips@ == p.sequences@[si].tracks@[ti].clips@.update(
            ci,
            q.sequences@[si].tracks@[ti].clips@[ci],
        ),
    ensures
        q@ == model::with_clip(p@, (si, ti, ci), q.sequences@[si].tracks@[ti].clips@[ci]@),
        model::clip_at(p@, (si, ti, ci)) == p.sequences@[si].tracks@[ti].clips@[ci]@,
{
    lemma_changed(p, q, si, ti);
    let c = q.sequences@[si].tracks@[ti].clips@[ci];
    assert(seqs::views(q.sequences@[si].tracks@[ti].clips@) =~= seqs::views(
        p.sequences@[si].tracks@[ti].clips@,
    ).update(ci, c@));
}

/// What an action on one clip makes of the clip, with the inverse action.
pub open spec fn change_clip(c: ClipV, a: ActionV) -> Result<(ClipV, ActionV), ErrV> {
    match a {
        ActionV::SetClipTransform { clip_id, transform } => Ok(
            (
                ClipV { transform: transform.sanitized(), ..c },
                ActionV::SetClipTransform { clip_id, transform: c.transform },
            ),
        ),
        ActionV::SetClipAudio { clip_id, audio } => Ok(
            (
                ClipV { audio: audio.sanitized(), ..c },
                ActionV::SetClipAudio { clip_id, audio: c.audio },
            ),
        ),
        ActionV::SetClipEffects { clip_id, effects } => Ok(
            (
                ClipV { effects: effects.map_values(|e: EffectV| e.sanitized()), ..c },
                ActionV::SetClipEffects { clip_id, effects: c.effects },
            ),
        ),
        ActionV::SetClipTransition { clip_id, transition, out } => if out {
            Ok(
                (
                    ClipV { transition_out: transition, ..c },
                    ActionV::SetClipTransition { clip_id, transition: c.transition_out, out },
                ),
            )
        } else {
            Ok(
                (
                    ClipV { transition_in: transition, ..c },
                    ActionV::SetClipTransition { clip_id, transition: c.transition_in, out },
                ),
            )
        },
        ActionV::SetClipText { clip_id, content, style } => match c.payload {
            PayloadV::Text { content: c0, style: s0 } => Ok(
                (
                    ClipV { payload: PayloadV::Text { content, style }, ..c },
                    ActionV::SetClipText { clip_id, content: c0, style: s0 },
                ),
            ),
            _ => Err(ErrV::Invalid("clip is not a text clip"@)),
        },
        ActionV::SetClipGenerator { clip_id, generator_id, params, color_params } => {
            match c.payload {
                PayloadV::Generator { generator_id: g, params: ps, color_params: cs } => Ok(
                    (
                        ClipV {
                            payload: PayloadV::Generator {
                                generator_id,
                                params: strmap::sanitized_params(params),
                                color_params,
                            },
                            ..c
                        },
                        ActionV::SetClipGenerator {
                            clip_id,
                            generator_id: g,
                            params: ps,
                            color_params: cs,
                        },
                    ),
                ),
                _ => Err(ErrV::Invalid("clip is not a generator"@)),
            }
        },
        ActionV::SetClipSubtitles { clip_id, style, mode, max_words } => match c.payload {
            PayloadV::Subtitles { transcript_id, style: s0, mode: m0, max_words: w0 } => Ok(
                (
                    ClipV {
                        payload: PayloadV::Subtitles {
                            transcript_id,
                            style,
                            mode,
                            max_words: word_cap(max_words),
                        },
                        ..c
                    },
                    ActionV::SetClipSubtitles { clip_id, style: s0, mode: m0, max_words: w0 },
                ),
            ),
            _ => Err(ErrV::Invalid("clip is not a subtitles clip"@)),
        },
        ActionV::SetClipGroup { clip_id, group } => Ok(
            (ClipV { group, ..c }, ActionV::SetClipGroup { clip_id, group: c.group }),
        ),
        ActionV::SetClipName { clip_id, name } => Ok(
            (
                ClipV { name: named(name), ..c },
                ActionV::SetClipName { clip_id, name: c.name },
            ),
        ),
        _ => Err(ErrV::Invalid(Seq::<char>::empty())),
    }
}

/// A name, unless it is blank.
pub open spec fn named(name: Option<Seq<char>>) -> Option<Seq<char>> {
    match name {
        Some(n) => if text::is_blank(n) {
            None
        } else {
            Some(n)
        },
        None => None,
    }
}

/// A cap on the words of a caption, between 1 and 20.
pub open spec fn word_cap(max_words: Option<u32>) -> Option<u32> {
    match max_words {
        Some(w) => if w < 1 {
            Some(1u32)
        } else if w > 20 {
            Some(20u32)
        } else {
            Some(w)
        },
        None => None,
    }
}

fn cap_words(max_words: Option<u32>) -> (r: Option<u32>)
    ensures
        r == word_cap(max_words),
{
    match max_words {
        Some(w) => if w < 1 {
            Some(1)
        } else if w > 20 {
            Some(20)
        } else {
            Some(w)
        },
        None => None,
    }
}

fn sanitize_effects(effects: &Vec<EffectInstance>) -> (r: Vec<EffectInstance>)
    ensures
        seqs::views(r@) == seqs::views(effects@).map_values(|e: EffectV| e.sanitized()),
{
    let mut r: Vec<EffectInstance> = Vec::new();
    let mut i: usize = 0;
    while i < effects.len()
        invariant
            i <= effects.len(),
            r.len() == i,
            forall|j: int| 0 <= j < i ==> (#[trigger] r@[j])@ == effects@[j]@.sanitized(),
        decreases effects.len() - i,
    {
        let e: &EffectInstance = &effects[i];
        r.push(
            EffectInstance {
                effect_id: e.effect_id.clone(),
                enabled: e.enabled,
                params: e.params.sanitized(),
                color_params: e.color_params.duplicate(),
            },
        );
        i = i + 1;
    }
    assert(seqs::views(r@) =~= seqs::views(effects@).map_values(|e: EffectV| e.sanitized()));
    r
}

/// Changes a clip as an action says, and gives back the inverse.
#[verifier::spinoff_prover]
fn edit_clip(clip: &mut Clip, action: Action) -> (r: UeResult<Action>)
    requires
        action is SetClipTransform || action is SetClipAudio || action is SetClipEffects
            || action is SetClipTransition || action is SetClipText || action is SetClipGenerator
            || action is SetClipSubtitles || action is SetClipGroup || action is SetClipName,
    ensures
        match change_clip(old(clip)@, action@) {
            Ok(x) => r is Ok && final(clip)@ == x.0 && r->Ok_0@ == x.1,
            Err(e) => r is Err && r->Err_0@ == e && final(clip)@ == old(clip)@,
        },
{
    match action {
        Action::SetClipTransform { clip_id, transform } => {
            let before: Transform2D = swap_in(&mut clip.transform, transform.sanitized());
            Ok(Action::SetClipTransform { clip_id, transform: before })
        },
        Action::SetClipAudio { clip_id, audio } => {
            let before: AudioProps = swap_in(&mut clip.audio, audio.sanitized());
            Ok(Action::SetClipAudio { clip_id, audio: before })
        },
        Action::SetClipEffects { clip_id, effects } => {
            let before: Vec<EffectInstance> = swap_in(
                &mut clip.effects,
                sanitize_effects(&effects),
            );
            Ok(Action::SetClipEffects { clip_id, effects: before })
        },
        Action::SetClipTransition { clip_id, transition, out } => {
            if out {
                let before: Option<TransitionRef> = swap_in(&mut clip.transition_out, transition);
                Ok(Action::SetClipTransition { clip_id, transition: before, out })
            } else {
                let before: Option<TransitionRef> = swap_in(&mut clip.transition_in, transition);
                Ok(Action::SetClipTransition { clip_id, transition: before, out })
            }
        },
        Action::SetClipText { clip_id, content, style } => match &mut clip.payload {
            ClipPayload::Text { content: c, style: s } => {
                let old_content: String = swap_in(c, content);
                let old_style: TextStyle = swap_in(s, style);
                Ok(Action::SetClipText { clip_id, content: old_content, style: old_style })
            },
            _ => Err(invalid("clip is not a text clip")),
        },
        Action::SetClipGenerator { clip_id, generator_id, params, color_params } => {
            match &mut clip.payload {
                ClipPayload::Generator { generator_id: g, params: p, color_params: c } => {
                    let old_id: String = swap_in(g, generator_id);
                    let old_params: StrMap<Param> = swap_in(p, params.sanitized());
                    let old_colors: StrMap<String> = swap_in(c, color_params);
                    Ok(
                        Action::SetClipGenerator {
                            clip_id,
                            generator_id: old_id,
                            params: old_params,
                            color_params: old_colors,
                        },
                    )
                },
                _ => Err(invalid("clip is not a generator")),
            }
        },
        Action::SetClipSubtitles { clip_id, style, mode, max_words } => match &mut clip.payload {
            ClipPayload::Subtitles { style: s, mode: m, max_words: w, .. } => {
                let old_style: TextStyle = swap_in(s, style);
                let old_mode: SubtitleMode = swap_in(m, mode);
                let old_words: Option<u32> = swap_in(w, cap_words(max_words));
                Ok(
                    Action::SetClipSubtitles {
                        clip_id,
                        style: old_style,
                        mode: old_mode,
                        max_words: old_words,
                    },
                )
            },
            _ => Err(invalid("clip is not a subtitles clip")),
        },
        Action::SetClipGroup { clip_id, group } => {
            let before: Option<Id> = swap_in(&mut clip.group, group);
            Ok(Action::SetClipGroup { clip_id, group: before })
        },
        Action::SetClipName { clip_id, name } => {
            let kept: Option<String> = match name {
                Some(n) => if blank(n.as_str()) {
                    None
                } else {
                    Some(n)
                },
                None => None,
            };
            let before: Option<String> = swap_in(&mut clip.name, kept);
            Ok(Action::SetClipName { clip_id, name: before })
        },
        _ => Err(invalid("")),
    }
}

fn apply_edit_clip(project: &mut Project, clip_id: Id, action: Action) -> (r: UeResult<Action>)
    requires
        action is SetClipTransform || action is SetClipAudio || action is SetClipEffects
            || action is SetClipTransition || action is SetClipText || action is SetClipGenerator
            || action is SetClipSubtitles || action is SetClipGroup || action is SetClipName,
    ensures
        did(
            old(project)@,
            final(project)@,
            r,
            edit_step(old(project)@, clip_id, action@),
        ),
{
    let (si, ti, ci) = match project.locate_clip(clip_id) {
        Some(at) => at,
        None => {
            return Err(not_found("clip ", clip_id));
        },
    };
    let r: UeResult<Action> = edit_clip(&mut project.sequences[si].tracks[ti].clips[ci], action);
    proof {
        lemma_clip_changed(*old(project), *project, si as int, ti as int, ci as int);
        if r is Err {
            let c = model::clip_at(old(project)@, (si as int, ti as int, ci as int));
            assert(model::with_clip(old(project)@, (si as int, ti as int, ci as int), c).sequences
                =~= old(project)@.sequences) by {
                let p = old(project)@;
                let s = p.sequences[si as int];
                let t = s.tracks[ti as int];
                assert(t.clips.update(ci as int, c) =~= t.clips);
                assert(s.tracks.update(ti as int, t) =~= s.tracks);
                assert(p.sequences.update(si as int, s) =~= p.sequences);
            }
        }
    }
    r
}

/// A clip at another speed, with the duration that goes with it.
pub open spec fn set_speed_step(p: ProjectV, clip_id: Id, speed: Real, duration: TimeUs) -> Step {
    if speed.at_most(Real::of(0)) || duration <= 0 {
        Err(ErrV::Invalid("invalid speed or duration"@))
    } else {
        match model::clip_place(p, clip_id) {
            None => Err(error::missing("clip "@, clip_id)),
            Some(at) => {
                let t = model::track_at(p, (at.0, at.1));
                let c = model::clip_at(p, at);
                if t.hit(c.start, duration, Some(clip_id)) {
                    Err(
                        ErrV::Overlap(
                            "changing the speed of "@ + clip_id.text()
                                + " would collide with the next clip"@,
                        ),
                    )
                } else {
                    Ok(
                        (
                            model::with_clip(p, at, ClipV { speed, duration, ..c }),
                            ActionV::SetClipSpeed {
                                clip_id,
                                speed: c.speed,
                                duration: c.duration,
                            },
                        ),
                    )
                }
            },
        }
    }
}

fn apply_set_speed(project: &mut Project, clip_id: Id, speed: Real, duration: TimeUs) -> (r:
    UeResult<Action>)
    ensures
        did(
            old(project)@,
            final(project)@,
            r,
            set_speed_step(old(project)@, clip_id, speed, duration),
        ),
{
    if speed.le(Real::from_int(0)) || duration <= 0 {
        return Err(invalid("invalid speed or duration"));
    }
    let (si, ti, ci) = match project.locate_clip(clip_id) {
        Some(at) => at,
        None => {
            return Err(not_found("clip ", clip_id));
        },
    };
    assert(model::track_at(project@, (si as int, ti as int))
        == project.sequences@[si as int].tracks@[ti as int]@);
    assert(model::clip_at(project@, (si as int, ti as int, ci as int))
        == project.sequences@[si as int].tracks@[ti as int].clips@[ci as int]@);
    let start: TimeUs = project.sequences[si].tracks[ti].clips[ci].start;
    if project.sequences[si].tracks[ti].collides(start, duration, Some(clip_id)) {
        let mut s: String = copy_text("changing the speed of ");
        let a: String = clip_id.to_text();
        s.append(a.as_str());
        s.append(" would collide with the next clip");
        return Err(UeError::Overlap(s));
    }
    let clip: &mut Clip = &mut project.sequences[si].tracks[ti].clips[ci];
    let old_speed: Real = swap_in(&mut clip.speed, speed);
    let old_duration: TimeUs = swap_in(&mut clip.duration, duration);
    proof {
        lemma_clip_changed(*old(project), *project, si as int, ti as int, ci as int);
    }
    Ok(Action::SetClipSpeed { clip_id, speed: old_speed, duration: old_duration })
}

/// A correction of a word, unless it is blank or the word itself.
pub open spec fn correction(display: Option<Seq<char>>, text: Seq<char>) -> Option<Seq<char>> {
    match display {
        Some(d) => if text::is_blank(d) || d == text {
            None
        } else {
            Some(d)
        },
        None => None,
    }
}

/// A word of a transcript with another correction.
pub open spec fn set_word_step(
    p: ProjectV,
    transcript_id: Id,
    index: usize,
    display: Option<Seq<char>>,
) -> Step {
    if !seqs::holds(p.transcripts, transcript_id) {
        Err(error::missing("transcript "@, transcript_id))
    } else {
        let i = seqs::pos(p.transcripts, transcript_id) as int;
        let doc = p.transcripts[i];
        if index >= doc.words.len() {
            Err(ErrV::NotFound("word "@ + crate::text::digits(index as nat)))
        } else {
            let w = doc.words[index as int];
            let changed = WordV { display: correction(display, w.text), ..w };
            Ok(
                (
                    ProjectV {
                        transcripts: p.transcripts.update(
                            i,
                            TranscriptV { words: doc.words.update(index as int, changed), ..doc },
                        ),
                        ..p
                    },
                    ActionV::SetWordText { transcript_id, index, display: w.display },
                ),
            )
        }
    }
}

fn apply_set_word(
    project: &mut Project,
    transcript_id: Id,
    index: usize,
    display: Option<String>,
) -> (r: UeResult<Action>)
    ensures
        did(
            old(project)@,
            final(project)@,
            r,
            set_word_step(old(project)@, transcript_id, index, model::opt_text(display)),
        ),
{
    let i: usize = match find(&project.transcripts, transcript_id) {
        Some(i) => i,
        None => {
            return Err(not_found("transcript ", transcript_id));
        },
    };
    let ghost doc = project@.transcripts[i as int];
    assert(doc == project.transcripts@[i as int]@);
    if index >= project.transcripts[i].words.len() {
        let mut s: String = copy_text("word ");
        let n: String = crate::text::nat_to_text(index as u128);
        s.append(n.as_str());
        return Err(UeError::NotFound(s));
    }
    let ghost w = doc.words[index as int];
    assert(w == project.transcripts@[i as int].words@[index as int]@);
    let kept: Option<String> = match display {
        Some(d) => if blank(d.as_str()) || same_text(
            d.as_str(),
            project.transcripts[i].words[index].text.as_str(),
        ) {
            None
        } else {
            Some(d)
        },
        None => None,
    };
    let before: Option<String> = swap_in(&mut project.transcripts[i].words[index].display, kept);
    proof {
        let doc2 = project.transcripts@[i as int];
        let changed = WordV { display: correction(model::opt_text(display), w.text), ..w };
        assert(seqs::views(doc2.words@) =~= doc.words.update(index as int, changed));
        assert(seqs::views(project.transcripts@) =~= old(project)@.transcripts.update(i as int, doc2@));
    }
    Ok(Action::SetWordText { transcript_id, index, display: before })
}

/// An avatar changed, or added where it is new.
pub open spec fn upsert_avatar_step(p: ProjectV, config: AvatarV) -> Step {
    if seqs::holds(p.avatars, config.id) {
        let i = seqs::pos(p.avatars, config.id) as int;
        Ok(
            (
                ProjectV { avatars: p.avatars.update(i, config), ..p },
                ActionV::UpsertAvatarConfig { config: p.avatars[i] },
            ),
        )
    } else {
        Ok(
            (
                ProjectV { avatars: p.avatars.push(config), ..p },
                ActionV::RemoveAvatarConfig { config_id: config.id },
            ),
        )
    }
}

fn apply_upsert_avatar(project: &mut Project, config: AvatarConfig) -> (r: UeResult<Action>)
    ensures
        did(old(project)@, final(project)@, r, upsert_avatar_step(old(project)@, config@)),
{
    let config_id: Id = config.id;
    let ghost c = config@;
    match find(&project.avatars, config_id) {
        Some(i) => {
            let before: AvatarConfig = swap_in(&mut project.avatars[i], config);
            assert(seqs::views(project.avatars@) =~= old(project)@.avatars.update(i as int, c));
            Ok(Action::UpsertAvatarConfig { config: before })
        },
        None => {
            project.avatars.push(config);
            assert(seqs::views(project.avatars@) =~= old(project)@.avatars.push(c));
            Ok(Action::RemoveAvatarConfig { config_id })
        },
    }
}

/// An avatar put back at its place among the others.
pub open spec fn restore_avatar_step(p: ProjectV, index: nat, config: AvatarV) -> Step {
    Ok(
        (
            ProjectV { avatars: p.avatars.insert(slot(index, p.avatars.len()), config), ..p },
            ActionV::RemoveAvatarConfig { config_id: config.id },
        ),
    )
}

fn apply_restore_avatar(project: &mut Project, index: usize, config: AvatarConfig) -> (r: UeResult<
    Action,
>)
    ensures
        did(
            old(project)@,
            final(project)@,
            r,
            restore_avatar_step(old(project)@, index as nat, config@),
        ),
{
    let config_id: Id = config.id;
    let ghost c = config@;
    let n: usize = project.avatars.len();
    let i: usize = if index <= n { index } else { n };
    project.avatars.insert(i, config);
    assert(seqs::views(project.avatars@) =~= old(project)@.avatars.insert(i as int, c));
    Ok(Action::RemoveAvatarConfig { config_id })
}

/// An avatar taken out.
pub open spec fn remove_avatar_step(p: ProjectV, config_id: Id) -> Step {
    if seqs::holds(p.avatars, config_id) {
        let i = seqs::pos(p.avatars, config_id) as int;
        Ok(
            (
                ProjectV { avatars: p.avatars.remove(i), ..p },
                ActionV::RestoreAvatarConfig { index: i as nat, config: p.avatars[i] },
            ),
        )
    } else {
        Err(error::missing("avatar config "@, config_id))
    }
}

fn apply_remove_avatar(project: &mut Project, config_id: Id) -> (r: UeResult<Action>)
    ensures
        did(old(project)@, final(project)@, r, remove_avatar_step(old(project)@, config_id)),
{
    match find(&project.avatars, config_id) {
        Some(i) => {
            let config: AvatarConfig = project.avatars.remove(i);
            assert(seqs::views(project.avatars@) =~= old(project)@.avatars.remove(i as int));
            Ok(Action::RestoreAvatarConfig { index: i, config })
        },
        None => Err(not_found("avatar config ", config_id)),
    }
}

/// A sequence with another frame.
pub open spec fn set_sequence_step(
    p: ProjectV,
    sequence_id: Id,
    resolution: (u32, u32),
    fps: (u32, u32),
) -> Step {
    if resolution.0 < 16 || resolution.1 < 16 || fps.0 == 0 || fps.1 == 0 {
        Err(ErrV::Invalid("invalid resolution or fps"@))
    } else if !seqs::holds(p.sequences, sequence_id) {
        Err(error::missing("sequence "@, sequence_id))
    } else {
        let i = seqs::pos(p.sequences, sequence_id) as int;
        let s = p.sequences[i];
        Ok(
            (
                ProjectV {
                    sequences: p.sequences.update(i, SequenceV { resolution, fps, ..s }),
                    ..p
                },
                ActionV::SetSequenceProps { sequence_id, resolution: s.resolution, fps: s.fps },
            ),
        )
    }
}

fn apply_set_sequence(
    project: &mut Project,
    sequence_id: Id,
    resolution: (u32, u32),
    fps: (u32, u32),
) -> (r: UeResult<Action>)
    ensures
        did(
            old(project)@,
            final(project)@,
            r,
            set_sequence_step(old(project)@, sequence_id, resolution, fps),
        ),
{
    if resolution.0 < 16 || resolution.1 < 16 || fps.0 == 0 || fps.1 == 0 {
        return Err(invalid("invalid resolution or fps"));
    }
    match find(&project.sequences, sequence_id) {
        Some(i) => {
            let s: &mut Sequence = &mut project.sequences[i];
            let old_resolution: (u32, u32) = swap_in(&mut s.resolution, resolution);
            let old_fps: (u32, u32) = swap_in(&mut s.fps, fps);
            proof {
                let s2 = project.sequences@[i as int];
                assert(seqs::views(project.sequences@) =~= old(project)@.sequences.update(i as int, s2@));
            }
            Ok(Action::SetSequenceProps { sequence_id, resolution: old_resolution, fps: old_fps })
        },
        None => Err(not_found("sequence ", sequence_id)),
    }
}

/// One more sequence.
pub open spec fn add_sequence_step(p: ProjectV, sequence: SequenceV) -> Step {
    Ok(
        (
            ProjectV { sequences: p.sequences.push(sequence), ..p },
            ActionV::RemoveSequence { sequence_id: sequence.id },
        ),
    )
}

/// The index of a place in a list, no further than its end.
pub open spec fn slot(index: nat, len: nat) -> int {
    if index <= len {
        index as int
    } else {
        len as int
    }
}

/// A sequence put back at its place among the others.
pub open spec fn restore_sequence_step(p: ProjectV, index: nat, sequence: SequenceV) -> Step {
    Ok(
        (
            ProjectV {
                sequences: p.sequences.insert(slot(index, p.sequences.len()), sequence),
                ..p
            },
            ActionV::RemoveSequence { sequence_id: sequence.id },
        ),
    )
}

fn apply_restore_sequence(project: &mut Project, index: usize, sequence: Sequence) -> (r: UeResult<
    Action,
>)
    ensures
        did(
            old(project)@,
            final(project)@,
            r,
            restore_sequence_step(old(project)@, index as nat, sequence@),
        ),
{
    let sequence_id: Id = sequence.id;
    let ghost s = sequence@;
    let n: usize = project.sequences.len();
    let i: usize = if index <= n { index } else { n };
    project.sequences.insert(i, sequence);
    assert(seqs::views(project.sequences@) =~= old(project)@.sequences.insert(i as int, s));
    Ok(Action::RemoveSequence { sequence_id })
}

/// A sequence taken out; the active one cannot be.
pub open spec fn remove_sequence_step(p: ProjectV, sequence_id: Id) -> Step {
    if p.active_sequence == sequence_id {
        Err(ErrV::Invalid("cannot delete the active sequence"@))
    } else if !seqs::holds(p.sequences, sequence_id) {
        Err(error::missing("sequence "@, sequence_id))
    } else {
        let i = seqs::pos(p.sequences, sequence_id) as int;
        Ok(
            (
                ProjectV { sequences: p.sequences.remove(i), ..p },
                ActionV::RestoreSequence { index: i as nat, sequence: p.sequences[i] },
            ),
        )
    }
}

fn apply_remove_sequence(project: &mut Project, sequence_id: Id) -> (r: UeResult<Action>)
    ensures
        did(old(project)@, final(project)@, r, remove_sequence_step(old(project)@, sequence_id)),
{
    if project.active_sequence == sequence_id {
        return Err(invalid("cannot delete the active sequence"));
    }
    match find(&project.sequences, sequence_id) {
        Some(i) => {
            let sequence: Sequence = project.sequences.remove(i);
            assert(seqs::views(project.sequences@) =~= old(project)@.sequences.remove(i as int));
            Ok(Action::RestoreSequence { index: i, sequence })
        },
        None => Err(not_found("sequence ", sequence_id)),
    }
}

/// Another sequence made the active one.
pub open spec fn set_active_step(p: ProjectV, sequence_id: Id) -> Step {
    if seqs::holds(p.sequences, sequence_id) {
        Ok(
            (
                ProjectV { active_sequence: sequence_id, ..p },
                ActionV::SetActiveSequence { sequence_id: p.active_sequence },
            ),
        )
    } else {
        Err(error::missing("sequence "@, sequence_id))
    }
}

/// What comes of an action on a project.
pub open spec fn step(p: ProjectV, a: ActionV) -> Step {
    match a {
        ActionV::SetProjectName { name } => Ok(
            (ProjectV { name, ..p }, ActionV::SetProjectName { name: p.name }),
        ),
        ActionV::AddTrack { sequence_id, index, track } => add_track_step(
            p,
            sequence_id,
            index,
            track,
        ),
        ActionV::RemoveTrack { track_id } => remove_track_step(p, track_id),
        ActionV::InsertClip { track_id, clip } => insert_clip_step(p, track_id, clip),
        ActionV::RemoveClip { clip_id } => remove_clip_step(p, clip_id),
        ActionV::ReplaceClips { track_id, remove_ids, insert } => replace_clips_step(
            p,
            track_id,
            remove_ids,
            insert,
        ),
        ActionV::SetClipBounds { clip_id, start, duration, src_in, src_out } => set_bounds_step(
            p,
            clip_id,
            start,
            duration,
            src_in,
            src_out,
        ),
        ActionV::MoveClipToTrack { clip_id, to_track, to_start } => move_clip_step(
            p,
            clip_id,
            to_track,
            to_start,
        ),
        ActionV::SetTrackProp { track_id, prop } => set_prop_step(p, track_id, prop),
        ActionV::SetClipTransform { clip_id, transform } => edit_step(p, clip_id, a),
        ActionV::SetClipAudio { clip_id, audio } => edit_step(p, clip_id, a),
        ActionV::SetClipEffects { clip_id, effects } => edit_step(p, clip_id, a),
        ActionV::SetClipTransition { clip_id, transition, out } => edit_step(p, clip_id, a),
        ActionV::SetClipText { clip_id, content, style } => edit_step(p, clip_id, a),
        ActionV::SetClipGenerator { clip_id, generator_id, params, color_params } => edit_step(p, clip_id, a),
        ActionV::SetClipSubtitles { clip_id, style, mode, max_words } => edit_step(p, clip_id, a),
        ActionV::SetClipSpeed { clip_id, speed, duration } => set_speed_step(
            p,
            clip_id,
            speed,
            duration,
        ),
        ActionV::SetClipGroup { clip_id, group } => edit_step(p, clip_id, a),
        ActionV::SetClipName { clip_id, name } => edit_step(p, clip_id, a),
        ActionV::AddSequence { sequence } => add_sequence_step(p, sequence),
        ActionV::RestoreSequence { index, sequence } => restore_sequence_step(p, index, sequence),
        ActionV::SetSequenceProps { sequence_id, resolution, fps } => set_sequence_step(
            p,
            sequence_id,
            resolution,
            fps,
        ),
        ActionV::SetWordText { transcript_id, index, display } => set_word_step(
            p,
            transcript_id,
            index,
            display,
        ),
        ActionV::UpsertAvatarConfig { config } => upsert_avatar_step(p, config),
        ActionV::RestoreAvatarConfig { index, config } => restore_avatar_step(p, index, config),
        ActionV::RemoveAvatarConfig { config_id } => remove_avatar_step(p, config_id),
        ActionV::RemoveSequence { sequence_id } => remove_sequence_step(p, sequence_id),
        ActionV::SetActiveSequence { sequence_id } => set_active_step(p, sequence_id),
    }
}

/// Applies an action that edits one clip in its place.
fn apply_edit(project: &mut Project, action: Action) -> (r: UeResult<Action>)
    requires
        action is SetClipTransform
            || action is SetClipAudio
            || action is SetClipEffects
            || action is SetClipTransition
            || action is SetClipText
            || action is SetClipGenerator
            || action is SetClipSubtitles
            || action is SetClipGroup
            || action is SetClipName,
    ensures
        did(old(project)@, final(project)@, r, step(old(project)@, action@)),
{
    match action {
        Action::SetClipTransform { clip_id, transform } => apply_edit_clip(
            project,
            clip_id,
            Action::SetClipTransform { clip_id, transform },
        ),
        Action::SetClipAudio { clip_id, audio } => apply_edit_clip(
            project,
            clip_id,
            Action::SetClipAudio { clip_id, audio },
        ),
        Action::SetClipEffects { clip_id, effects } => apply_edit_clip(
            project,
            clip_id,
            Action::SetClipEffects { clip_id, effects },
        ),
        Action::SetClipTransition { clip_id, transition, out } => apply_edit_clip(
            project,
            clip_id,
            Action::SetClipTransition { clip_id, transition, out },
        ),
        Action::SetClipText { clip_id, content, style } => apply_edit_clip(
            project,
            clip_id,
            Action::SetClipText { clip_id, content, style },
        ),
        Action::SetClipGenerator { clip_id, generator_id, params, color_params } => {
            apply_edit_clip(
                project,
                clip_id,
                Action::SetClipGenerator { clip_id, generator_id, params, color_params },
            )
        },
        Action::SetClipSubtitles { clip_id, style, mode, max_words } => apply_edit_clip(
            project,
            clip_id,
            Action::SetClipSubtitles { clip_id, style, mode, max_words },
        ),
        Action::SetClipGroup { clip_id, group } => apply_edit_clip(
            project,
            clip_id,
            Action::SetClipGroup { clip_id, group },
        ),
        Action::SetClipName { clip_id, name } => apply_edit_clip(
            project,
            clip_id,
            Action::SetClipName { clip_id, name },
        ),
        other => Ok(other),
    }
}

/// Applies an action on the project, its sequences, transcripts or avatars.
fn apply_whole(project: &mut Project, action: Action) -> (r: UeResult<Action>)
    requires
        action is SetProjectName
            || action is AddSequence
            || action is RestoreSequence
            || action is SetSequenceProps
            || action is SetWordText
            || action is UpsertAvatarConfig
            || action is RestoreAvatarConfig
            || action is RemoveAvatarConfig
            || action is RemoveSequence
            || action is SetActiveSequence,
    ensures
        did(old(project)@, final(project)@, r, step(old(project)@, action@)),
{
    match action {
        Action::SetProjectName { name } => {
            let before: String = swap_in(&mut project.name, name);
            Ok(Action::SetProjectName { name: before })
        },
        Action::AddSequence { sequence } => {
            let sequence_id: Id = sequence.id;
            let ghost s = sequence@;
            project.sequences.push(sequence);
            assert(seqs::views(project.sequences@) =~= old(project)@.sequences.push(s));
            Ok(Action::RemoveSequence { sequence_id })
        },
        Action::RestoreSequence { index, sequence } => apply_restore_sequence(
            project,
            index,
            sequence,
        ),
        Action::SetSequenceProps { sequence_id, resolution, fps } => apply_set_sequence(
            project,
            sequence_id,
            resolution,
            fps,
        ),
        Action::SetWordText { transcript_id, index, display } => apply_set_word(
            project,
            transcript_id,
            index,
            display,
        ),
        Action::UpsertAvatarConfig { config } => apply_upsert_avatar(project, config),
        Action::RestoreAvatarConfig { index, config } => apply_restore_avatar(
            project,
            index,
            config,
        ),
        Action::RemoveAvatarConfig { config_id } => apply_remove_avatar(project, config_id),
        Action::RemoveSequence { sequence_id } => apply_remove_sequence(project, sequence_id),
        Action::SetActiveSequence { sequence_id } => {
            if project.sequence(sequence_id).is_none() {
                return Err(not_found("sequence ", sequence_id));
            }
            let before: Id = swap_in(&mut project.active_sequence, sequence_id);
            Ok(Action::SetActiveSequence { sequence_id: before })
        },
        other => Ok(other),
    }
}

/// Tells whether an action edits one clip in its place.
fn edits_clip(action: &Action) -> (b: bool)
    ensures
        b == (action is SetClipTransform
            || action is SetClipAudio
            || action is SetClipEffects
            || action is SetClipTransition
            || action is SetClipText
            || action is SetClipGenerator
            || action is SetClipSubtitles
            || action is SetClipGroup
            || action is SetClipName),
{
    match action {
        Action::SetClipTransform { .. } => true,
        Action::SetClipAudio { .. } => true,
        Action::SetClipEffects { .. } => true,
        Action::SetClipTransition { .. } => true,
        Action::SetClipText { .. } => true,
        Action::SetClipGenerator { .. } => true,
        Action::SetClipSubtitles { .. } => true,
        Action::SetClipGroup { .. } => true,
        Action::SetClipName { .. } => true,
        _ => false,
    }
}

/// Applies an action and gives back its inverse. A refused action leaves the
/// project as it was.
pub fn apply(project: &mut Project, action: Action) -> (r: UeResult<Action>)
    ensures
        did(old(project)@, final(project)@, r, step(old(project)@, action@)),
{
    match action {
        Action::AddTrack { sequence_id, index, track } => apply_add_track(
            project,
            sequence_id,
            index,
            track,
        ),
        Action::RemoveTrack { track_id } => apply_remove_track(project, track_id),
        Action::InsertClip { track_id, clip } => apply_insert_clip(project, track_id, clip),
        Action::RemoveClip { clip_id } => apply_remove_clip(project, clip_id),
        Action::ReplaceClips { track_id, remove_ids, insert } => apply_replace_clips(
            project,
            track_id,
            remove_ids,
            insert,
        ),
        Action::SetClipBounds { clip_id, start, duration, src_in, src_out } => apply_set_bounds(
            project,
            clip_id,
            start,
            duration,
            src_in,
            src_out,
        ),
        Action::MoveClipToTrack { clip_id, to_track, to_start } => apply_move_clip(
            project,
            clip_id,
            to_track,
            to_start,
        ),
        Action::SetTrackProp { track_id, prop } => apply_set_prop(project, track_id, prop),
        Action::SetClipSpeed { clip_id, speed, duration } => apply_set_speed(
            project,
            clip_id,
            speed,
            duration,
        ),
        other => if edits_clip(&other) {
            apply_edit(project, other)
        } else {
            apply_whole(project, other)
        },
    }
}

} // verus!
