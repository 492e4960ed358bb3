//! The picture of a sequence as a flat list of segments: a range of an asset
//! (the top track wins), a generated source, or black.

use vstd::prelude::*;

use crate::export::{ExportErrV, ExportError, ExportResult};
use crate::float::Real;
use crate::ident::Id;
use crate::model;
use crate::model::{
    Clip, ClipPayload, ClipV, PayloadV, Project, ProjectV, Sequence, SequenceV, Track, TrackKind,
    TrackV, TransitionRef, TransitionV,
};
use crate::ops;
use crate::ops::{divide_time, scale_time};
use crate::render;
use crate::render::{clip_vf, effects_fit, merge_registries, EffectDef, EffectDefV, Labels};
use crate::seqs;
use crate::seqs::{duplicate_all, duplicate_text, Duplicate};
use crate::text::same_text;
use crate::time;
use crate::time::{hold, max2, min2, minus, plus, TimeUs};

verus! {

/// A transition: its duration and its effect.
pub type Cross = (TimeUs, String);

/// The contents of a `Cross`.
pub type CrossV = (TimeUs, Seq<char>);

/// The contents of a transition.
pub open spec fn cross_view(c: Option<Cross>) -> Option<CrossV> {
    match c {
        Some(x) => Some((x.0, x.1@)),
        None => None,
    }
}

/// Copies a transition.
pub fn copy_cross(c: &Option<Cross>) -> (r: Option<Cross>)
    ensures
        cross_view(r) == cross_view(*c),
{
    match c {
        Some(x) => Some((x.0, x.1.clone())),
        None => None,
    }
}

/// A piece of the picture.
#[derive(Debug, PartialEq)]
pub enum Segment {
    /// A generated source that lasts for its window.
    Gen { source: String, duration: TimeUs, vf: Option<String> },
    Source {
        asset_id: Id,
        src_in: TimeUs,
        src_out: TimeUs,
        speed: Real,
        /// The chain of effects and transform.
        vf: Option<String>,
        /// The transition from the segment before, its material taken into the
        /// source ranges of both.
        transition_in: Option<Cross>,
        /// A transition that has nothing to come from: it runs from black.
        entrance: Option<Cross>,
        /// A transition to black at the end.
        exit: Option<Cross>,
    },
    Black { duration: TimeUs },
}

/// The contents of a `Segment`.
#[verifier::ext_equal]
pub enum SegmentV {
    Gen { source: Seq<char>, duration: TimeUs, vf: Option<Seq<char>> },
    Source {
        asset_id: Id,
        src_in: TimeUs,
        src_out: TimeUs,
        speed: Real,
        vf: Option<Seq<char>>,
        transition_in: Option<CrossV>,
        entrance: Option<CrossV>,
        exit: Option<CrossV>,
    },
    Black { duration: TimeUs },
}

impl View for Segment {
    type V = SegmentV;

    open spec fn view(&self) -> SegmentV {
        match self {
            Segment::Gen { source, duration, vf } => SegmentV::Gen {
                source: source@,
                duration: *duration,
                vf: model::opt_text(*vf),
            },
            Segment::Source {
                asset_id,
                src_in,
                src_out,
                speed,
                vf,
                transition_in,
                entrance,
                exit,
            } => SegmentV::Source {
                asset_id: *asset_id,
                src_in: *src_in,
                src_out: *src_out,
                speed: *speed,
                vf: model::opt_text(*vf),
                transition_in: cross_view(*transition_in),
                entrance: cross_view(*entrance),
                exit: cross_view(*exit),
            },
            Segment::Black { duration } => SegmentV::Black { duration: *duration },
        }
    }
}

impl Duplicate for Segment {
    fn duplicate(&self) -> (r: Segment) {
        match self {
            Segment::Gen { source, duration, vf } => Segment::Gen {
                source: source.clone(),
                duration: *duration,
                vf: duplicate_text(vf),
            },
            Segment::Source {
                asset_id,
                src_in,
                src_out,
                speed,
                vf,
                transition_in,
                entrance,
                exit,
            } => Segment::Source {
                asset_id: *asset_id,
                src_in: *src_in,
                src_out: *src_out,
                speed: *speed,
                vf: duplicate_text(vf),
                transition_in: copy_cross(transition_in),
                entrance: copy_cross(entrance),
                exit: copy_cross(exit),
            },
            Segment::Black { duration } => Segment::Black { duration: *duration },
        }
    }
}

impl SegmentV {
    /// How long the segment lasts in the output.
    pub open spec fn length(self) -> TimeUs {
        match self {
            SegmentV::Source { asset_id, src_in, src_out, speed, .. } => ops::divided_time(
                time::sooner(src_out, src_in),
                speed,
            ),
            SegmentV::Gen { source, duration, vf } => duration,
            SegmentV::Black { duration } => duration,
        }
    }

    /// How long the segment overlaps the one before.
    pub open spec fn overlap(self) -> TimeUs {
        match self {
            SegmentV::Source { transition_in: Some(t), .. } => t.0,
            _ => 0,
        }
    }
}

impl Segment {
    /// How long the segment lasts in the output: the source divided by the
    /// speed.
    pub fn duration(&self) -> (d: TimeUs)
        ensures
            d == self@.length(),
    {
        match self {
            Segment::Source { src_in, src_out, speed, .. } => divide_time(
                minus(*src_out, *src_in),
                *speed,
            ),
            Segment::Gen { duration, .. } => *duration,
            Segment::Black { duration } => *duration,
        }
    }
}

/// What a generator draws for a clip in a window of some duration.
#[derive(Debug)]
pub struct Drawn {
    pub clip_id: Id,
    pub duration: TimeUs,
    pub source: String,
}

/// The contents of a `Drawn`.
#[verifier::ext_equal]
pub struct DrawnV {
    pub clip_id: Id,
    pub duration: TimeUs,
    pub source: Seq<char>,
}

impl View for Drawn {
    type V = DrawnV;

    open spec fn view(&self) -> DrawnV {
        DrawnV { clip_id: self.clip_id, duration: self.duration, source: self.source@ }
    }
}

/// The source drawn for a clip and a duration; none for an unknown generator.
pub open spec fn source_for(drawn: Seq<DrawnV>, clip_id: Id, duration: TimeUs) -> Option<Seq<char>>
    decreases drawn.len(),
{
    if drawn.len() == 0 {
        None
    } else if drawn[0].clip_id == clip_id && drawn[0].duration == duration {
        Some(drawn[0].source)
    } else {
        source_for(drawn.drop_first(), clip_id, duration)
    }
}

/// Finds the source drawn for a clip and a duration.
pub fn find_source(drawn: &Vec<Drawn>, clip_id: Id, duration: TimeUs) -> (r: Option<String>)
    ensures
        model::opt_text(r) == source_for(seqs::views(drawn@), clip_id, duration),
{
    let ghost all = seqs::views(drawn@);
    let mut i: usize = 0;
    assert(all.skip(0) =~= all);
    while i < drawn.len()
        invariant
            i <= drawn.len(),
            all == seqs::views(drawn@),
            source_for(all, clip_id, duration) == source_for(all.skip(i as int), clip_id, duration),
        decreases drawn.len() - i,
    {
        assert(all.skip(i as int)[0] == drawn@[i as int]@);
        assert(all.skip(i as int).drop_first() =~= all.skip(i as int + 1));
        if drawn[i].clip_id == clip_id && drawn[i].duration == duration {
            return Some(drawn[i].source.clone());
        }
        i = i + 1;
    }
    None
}

// ---- borders ----

/// Whether a track shows.
pub open spec fn shows(t: TrackV) -> bool {
    t.kind == TrackKind::Video && !t.muted
}

/// Tells whether a track shows.
pub fn track_shows(t: &Track) -> (b: bool)
    ensures
        b == shows(t@),
{
    t.kind == TrackKind::Video && !t.muted
}

/// Whether a clip fills the picture.
pub open spec fn fills(c: ClipV) -> bool {
    c.payload is Media || c.payload is Generator
}

/// Tells whether a clip fills the picture.
pub fn clip_fills(c: &Clip) -> (b: bool)
    ensures
        b == fills(c@),
{
    match &c.payload {
        ClipPayload::Media { .. } => true,
        ClipPayload::Generator { .. } => true,
        _ => false,
    }
}

/// How many times of a rising list are below a time.
pub open spec fn below(times: Seq<TimeUs>, t: TimeUs) -> nat
    decreases times.len(),
{
    if times.len() == 0 || times[0] >= t {
        0
    } else {
        1 + below(times.drop_first(), t)
    }
}

/// A rising list of times with one more, unless it is there.
pub open spec fn with_time(times: Seq<TimeUs>, t: TimeUs) -> Seq<TimeUs> {
    let i = below(times, t) as int;
    if i < times.len() && times[i] == t {
        times
    } else {
        times.insert(i, t)
    }
}

fn add_time(times: &mut Vec<TimeUs>, t: TimeUs)
    ensures
        final(times)@ == with_time(old(times)@, t),
{
    let ghost all = times@;
    let mut i: usize = 0;
    assert(all.skip(0) =~= all);
    while i < times.len() && times[i] < t
        invariant
            i <= times.len(),
            times@ == all,
            below(all, t) == i + below(all.skip(i as int), t),
        decreases times.len() - i,
    {
        assert(all.skip(i as int)[0] == all[i as int]);
        assert(all.skip(i as int).drop_first() =~= all.skip(i as int + 1));
        i = i + 1;
    }
    proof {
        if i < times.len() {
            assert(all.skip(i as int)[0] == all[i as int]);
        }
    }
    if i < times.len() && times[i] == t {
        return;
    }
    times.insert(i, t);
}

/// The borders of clips that fill the picture.
pub open spec fn clip_borders(clips: Seq<ClipV>, times: Seq<TimeUs>) -> Seq<TimeUs>
    decreases clips.len(),
{
    if clips.len() == 0 {
        times
    } else {
        let r = clip_borders(clips.drop_last(), times);
        let c = clips.last();
        if fills(c) {
            with_time(with_time(r, c.start), c.finish())
        } else {
            r
        }
    }
}

fn add_borders(clips: &Vec<Clip>, times: &mut Vec<TimeUs>)
    ensures
        final(times)@ == clip_borders(seqs::views(clips@), old(times)@),
{
    let ghost all = seqs::views(clips@);
    let ghost t0 = times@;
    let mut i: usize = 0;
    assert(all.take(0) =~= Seq::<ClipV>::empty());
    while i < clips.len()
        invariant
            i <= clips.len(),
            all == seqs::views(clips@),
            times@ == clip_borders(all.take(i as int), t0),
        decreases clips.len() - i,
    {
        let c: &Clip = &clips[i];
        proof {
            assert(all.take(i as int + 1).drop_last() =~= all.take(i as int));
            assert(all.take(i as int + 1).last() == c@);
        }
        if clip_fills(c) {
            add_time(times, c.start);
            add_time(times, c.end());
        }
        i = i + 1;
    }
    assert(all.take(i as int) =~= all);
}

/// The borders on tracks that show, from zero on.
pub open spec fn borders(tracks: Seq<TrackV>) -> Seq<TimeUs>
    decreases tracks.len(),
{
    if tracks.len() == 0 {
        seq![0i64]
    } else if shows(tracks.last()) {
        clip_borders(tracks.last().clips, borders(tracks.drop_last()))
    } else {
        borders(tracks.drop_last())
    }
}

/// Finds the times at which the picture of a sequence can change.
pub fn find_borders(s: &Sequence) -> (times: Vec<TimeUs>)
    ensures
        times@ == borders(s@.tracks),
{
    let ghost all = s@.tracks;
    let mut times: Vec<TimeUs> = Vec::new();
    times.push(0);
    let mut i: usize = 0;
    assert(all.take(0) =~= Seq::<TrackV>::empty());
    assert(times@ =~= seq![0i64]);
    while i < s.tracks.len()
        invariant
            i <= s.tracks.len(),
            all == s@.tracks,
            times@ == borders(all.take(i as int)),
        decreases s.tracks.len() - i,
    {
        proof {
            assert(all.take(i as int + 1).drop_last() =~= all.take(i as int));
            assert(all.take(i as int + 1).last() == s.tracks@[i as int]@);
        }
        if track_shows(&s.tracks[i]) {
            add_borders(&s.tracks[i].clips, &mut times);
        }
        i = i + 1;
    }
    assert(all.take(i as int) =~= all);
    times
}

// ---- windows ----

/// Half of a time, towards zero.
pub open spec fn halved(t: TimeUs) -> TimeUs {
    if t >= 0 {
        (t / 2) as i64
    } else {
        (-((-t) / 2)) as i64
    }
}

/// Halves a time, towards zero.
pub fn halve(t: TimeUs) -> (r: TimeUs)
    ensures
        r == halved(t),
{
    if t >= 0 {
        t / 2
    } else {
        let n: i128 = -(t as i128);
        (-(n / 2)) as i64
    }
}

/// The middle of a window.
pub open spec fn middle(a: TimeUs, b: TimeUs) -> TimeUs {
    time::later(a, halved(time::sooner(b, a)))
}

/// The first clip that covers a time.
pub open spec fn covering(clips: Seq<ClipV>, t: TimeUs) -> Option<ClipV>
    decreases clips.len(),
{
    if clips.len() == 0 {
        None
    } else if clips[0].start <= t && t < clips[0].finish() {
        Some(clips[0])
    } else {
        covering(clips.drop_first(), t)
    }
}

/// Finds the first clip that covers a time.
pub fn find_covering(clips: &Vec<Clip>, t: TimeUs) -> (r: Option<usize>)
    ensures
        match r {
            Some(i) => i < clips.len() && covering(seqs::views(clips@), t) == Some(
                clips@[i as int]@,
            ) && clips@[i as int]@.start <= t < clips@[i as int]@.finish(),
            None => covering(seqs::views(clips@), t) is None,
        },
{
    let ghost all = seqs::views(clips@);
    let mut i: usize = 0;
    assert(all.skip(0) =~= all);
    while i < clips.len()
        invariant
            i <= clips.len(),
            all == seqs::views(clips@),
            covering(all, t) == covering(all.skip(i as int), t),
        decreases clips.len() - i,
    {
        assert(all.skip(i as int)[0] == clips@[i as int]@);
        assert(all.skip(i as int).drop_first() =~= all.skip(i as int + 1));
        if clips[i].start <= t && t < clips[i].end() {
            return Some(i);
        }
        i = i + 1;
    }
    None
}

// ---- what can be drawn ----

/// Whether the chains of clips can be written.
pub open spec fn drawable_clips(registry: Seq<EffectDefV>, clips: Seq<ClipV>) -> bool {
    forall|k: int| 0 <= k < clips.len() ==> render::fitting(registry, (#[trigger] clips[k]).effects)
}

/// Whether the chains of all clips can be written that tracks show.
pub open spec fn drawable(registry: Seq<EffectDefV>, tracks: Seq<TrackV>) -> bool {
    forall|i: int|
        0 <= i < tracks.len() && shows(#[trigger] tracks[i]) ==> drawable_clips(
            registry,
            tracks[i].clips,
        )
}

/// Whether the chains of all clips can be written that a sequence shows.
pub open spec fn flattens(p: ProjectV, sequence_id: Id, registry: Seq<EffectDefV>) -> bool {
    seqs::holds(p.sequences, sequence_id) ==> drawable(
        registry,
        p.sequences[seqs::pos(p.sequences, sequence_id) as int].tracks,
    )
}

fn clips_fit(registry: &Vec<EffectDef>, clips: &Vec<Clip>) -> (b: bool)
    ensures
        b == drawable_clips(seqs::views(registry@), seqs::views(clips@)),
{
    let ghost all = seqs::views(clips@);
    let ghost reg = seqs::views(registry@);
    let mut i: usize = 0;
    while i < clips.len()
        invariant
            i <= clips.len(),
            all == seqs::views(clips@),
            reg == seqs::views(registry@),
            forall|k: int| 0 <= k < i ==> render::fitting(reg, (#[trigger] all[k]).effects),
        decreases clips.len() - i,
    {
        assert(all[i as int] == clips@[i as int]@);
        if !effects_fit(registry, &clips[i].effects) {
            return false;
        }
        i = i + 1;
    }
    true
}

/// Tells whether the chains of all clips can be written that a sequence shows.
pub fn can_flatten(project: &Project, sequence_id: Id, registry: &Vec<EffectDef>) -> (b: bool)
    ensures
        b == flattens(project@, sequence_id, seqs::views(registry@)),
{
    let seq: &Sequence = match project.sequence(sequence_id) {
        Some(s) => s,
        None => {
            return true;
        },
    };
    let ghost all = seq@.tracks;
    let ghost reg = seqs::views(registry@);
    let mut i: usize = 0;
    while i < seq.tracks.len()
        invariant
            i <= seq.tracks.len(),
            seqs::holds(project@.sequences, sequence_id),
            seq@ == project@.sequences[seqs::pos(project@.sequences, sequence_id) as int],
            all == seq@.tracks,
            reg == seqs::views(registry@),
            forall|k: int|
                0 <= k < i && shows(#[trigger] all[k]) ==> drawable_clips(reg, all[k].clips),
        decreases seq.tracks.len() - i,
    {
        assert(all[i as int] == seq.tracks@[i as int]@);
        if track_shows(&seq.tracks[i]) && !clips_fit(registry, &seq.tracks[i].clips) {
            assert(shows(all[i as int]) && !drawable_clips(reg, all[i as int].clips));
            return false;
        }
        i = i + 1;
    }
    true
}

// ---- segments of clips ----

/// A transition as a segment holds it.
pub open spec fn cross_of(t: Option<TransitionV>) -> Option<CrossV> {
    match t {
        Some(x) => Some((x.duration, x.effect_id)),
        None => None,
    }
}

/// A transition of a clip as a segment holds it.
pub fn cross_from(t: &Option<TransitionRef>) -> (r: Option<Cross>)
    ensures
        cross_view(r) == match *t {
            Some(x) => Some((x@.duration, x@.effect_id)),
            None => None,
        },
{
    match t {
        Some(x) => Some((x.duration, x.effect_id.clone())),
        None => None,
    }
}

/// What a media clip shows in a window.
pub open spec fn source_segment(
    c: ClipV,
    asset_id: Id,
    src_in: TimeUs,
    src_out: TimeUs,
    a: TimeUs,
    b: TimeUs,
    vf: Option<Seq<char>>,
) -> SegmentV {
    SegmentV::Source {
        asset_id,
        src_in: time::later(src_in, ops::scaled_time(time::sooner(a, c.start), c.speed)),
        src_out: time::min_time(
            time::later(src_in, ops::scaled_time(time::sooner(b, c.start), c.speed)),
            src_out,
        ),
        speed: c.speed,
        vf,
        transition_in: if a == c.start {
            cross_of(c.transition_in)
        } else {
            None
        },
        entrance: None,
        exit: if b == c.finish() {
            cross_of(c.transition_out)
        } else {
            None
        },
    }
}

/// A segment of a window, where there is one, and the labels after it.
pub type Seen = Result<(Option<SegmentV>, Labels), ExportErrV>;

/// What a clip shows in a window.
pub open spec fn clip_shows(
    p: ProjectV,
    s: SequenceV,
    registry: Seq<EffectDefV>,
    drawn: Seq<DrawnV>,
    c: ClipV,
    a: TimeUs,
    b: TimeUs,
    labels: Labels,
) -> Seen {
    let vf = render::clip_chain(
        registry,
        c.effects,
        0,
        c.transform,
        Some(s.resolution),
        false,
        "t"@,
        false,
        labels,
    );
    let after = render::clip_labels(
        registry,
        c.effects,
        0,
        c.transform,
        Some(s.resolution),
        labels,
    );
    match c.payload {
        PayloadV::Generator { .. } => match source_for(drawn, c.id, time::sooner(b, a)) {
            Some(source) => Ok(
                (Some(SegmentV::Gen { source, duration: time::sooner(b, a), vf }), after),
            ),
            None => Ok((None, labels)),
        },
        PayloadV::Media { asset_id, src_in, src_out } => if model::asset_of(p, asset_id) is None {
            Err(ExportErrV::MissingAsset(asset_id))
        } else {
            Ok((Some(source_segment(c, asset_id, src_in, src_out, a, b, vf)), after))
        },
        _ => Ok((None, labels)),
    }
}

/// What shows in a window: of the top track that shows something.
pub open spec fn window_shows(
    p: ProjectV,
    s: SequenceV,
    registry: Seq<EffectDefV>,
    drawn: Seq<DrawnV>,
    tracks: Seq<TrackV>,
    a: TimeUs,
    b: TimeUs,
    labels: Labels,
) -> Seen
    decreases tracks.len(),
{
    if tracks.len() == 0 {
        Ok((None, labels))
    } else {
        let here: Seen = match covering(tracks.last().clips, middle(a, b)) {
            Some(c) => if shows(tracks.last()) {
                clip_shows(p, s, registry, drawn, c, a, b, labels)
            } else {
                Ok((None, labels))
            },
            None => Ok((None, labels)),
        };
        match here {
            Err(e) => Err(e),
            Ok(x) => match x.0 {
                Some(y) => here,
                None => window_shows(p, s, registry, drawn, tracks.drop_last(), a, b, labels),
            },
        }
    }
}

/// Whether a look into a window came out as it should.
pub open spec fn saw(r: ExportResult<Option<Segment>>, labels: Labels, s: Seen) -> bool {
    match s {
        Err(e) => r is Err && r->Err_0@ == e,
        Ok(x) => r is Ok && labels == x.1 && match (r->Ok_0, x.0) {
            (Some(y), Some(z)) => y@ == z,
            (None, None) => true,
            _ => false,
        },
    }
}

fn show_clip(
    project: &Project,
    seq: &Sequence,
    registry: &Vec<EffectDef>,
    drawn: &Vec<Drawn>,
    clip: &Clip,
    a: TimeUs,
    b: TimeUs,
    labels: &mut Labels,
) -> (r: ExportResult<Option<Segment>>)
    requires
        render::fitting(seqs::views(registry@), clip@.effects),
    ensures
        saw(
            r,
            *final(labels),
            clip_shows(
                project@,
                seq@,
                seqs::views(registry@),
                seqs::views(drawn@),
                clip@,
                a,
                b,
                *old(labels),
            ),
        ),
{
    match &clip.payload {
        ClipPayload::Generator { .. } => {
            let duration: TimeUs = minus(b, a);
            match find_source(drawn, clip.id, duration) {
                Some(source) => {
                    let vf: Option<String> = clip_vf(
                        registry,
                        &clip.effects,
                        &clip.transform,
                        Some(seq.resolution),
                        labels,
                    );
                    Ok(Some(Segment::Gen { source, duration, vf }))
                },
                None => Ok(None),
            }
        },
        ClipPayload::Media { asset_id, src_in, src_out } => {
            if project.asset(*asset_id).is_none() {
                return Err(ExportError::MissingAsset(*asset_id));
            }
            let vf: Option<String> = clip_vf(
                registry,
                &clip.effects,
                &clip.transform,
                Some(seq.resolution),
                labels,
            );
            let s_in: TimeUs = plus(*src_in, scale_time(minus(a, clip.start), clip.speed));
            let s_out: TimeUs = plus(*src_in, scale_time(minus(b, clip.start), clip.speed));
            let transition_in: Option<Cross> = if a == clip.start {
                cross_from(&clip.transition_in)
            } else {
                None
            };
            let exit: Option<Cross> = if b == clip.end() {
                cross_from(&clip.transition_out)
            } else {
                None
            };
            Ok(
                Some(
                    Segment::Source {
                        asset_id: *asset_id,
                        src_in: s_in,
                        src_out: min2(s_out, *src_out),
                        speed: clip.speed,
                        vf,
                        transition_in,
                        entrance: None,
                        exit,
                    },
                ),
            )
        },
        _ => Ok(None),
    }
}

fn show_window(
    project: &Project,
    seq: &Sequence,
    registry: &Vec<EffectDef>,
    drawn: &Vec<Drawn>,
    a: TimeUs,
    b: TimeUs,
    labels: &mut Labels,
) -> (r: ExportResult<Option<Segment>>)
    requires
        drawable(seqs::views(registry@), seq@.tracks),
    ensures
        saw(
            r,
            *final(labels),
            window_shows(
                project@,
                seq@,
                seqs::views(registry@),
                seqs::views(drawn@),
                seq@.tracks,
                a,
                b,
                *old(labels),
            ),
        ),
{
    let ghost reg = seqs::views(registry@);
    let ghost dr = seqs::views(drawn@);
    let ghost all = seq@.tracks;
    let ghost l0 = *labels;
    let mid: TimeUs = plus(a, halve(minus(b, a)));
    let mut n: usize = seq.tracks.len();
    assert(all.take(n as int) =~= all);
    while n > 0
        invariant
            n <= seq.tracks.len(),
            all == seq@.tracks,
            mid == middle(a, b),
            *labels == l0,
            l0 == *old(labels),
            reg == seqs::views(registry@),
            dr == seqs::views(drawn@),
            drawable(reg, seq@.tracks),
            window_shows(project@, seq@, reg, dr, all, a, b, l0) == window_shows(
                project@,
                seq@,
                reg,
                dr,
                all.take(n as int),
                a,
                b,
                l0,
            ),
        decreases n,
    {
        proof {
            assert(all.take(n as int).last() == seq.tracks@[n - 1]@);
            assert(all.take(n as int).drop_last() =~= all.take(n - 1));
        }
        n = n - 1;
        let track: &Track = &seq.tracks[n];
        if track_shows(track) {
            if let Some(i) = find_covering(&track.clips, mid) {
                assert(track@.clips[i as int] == track.clips@[i as int]@);
                assert(all[n as int].clips[i as int] == track.clips@[i as int]@);
                match show_clip(project, seq, registry, drawn, &track.clips[i], a, b, labels) {
                    Ok(x) => match x {
                        Some(y) => {
                            return Ok(Some(y));
                        },
                        None => {},
                    },
                    Err(e) => {
                        return Err(e);
                    },
                }
            }
        }
    }
    assert(all.take(0) =~= Seq::<TrackV>::empty());
    Ok(None)
}

/// The segments of the windows between borders, and the labels after them.
pub open spec fn window_list(
    p: ProjectV,
    s: SequenceV,
    registry: Seq<EffectDefV>,
    drawn: Seq<DrawnV>,
    times: Seq<TimeUs>,
    labels: Labels,
) -> Result<(Seq<SegmentV>, Labels), ExportErrV>
    decreases times.len(),
{
    if times.len() < 2 {
        Ok((Seq::<SegmentV>::empty(), labels))
    } else {
        let a = times[times.len() - 2];
        let b = times.last();
        match window_list(p, s, registry, drawn, times.drop_last(), labels) {
            Err(e) => Err(e),
            Ok(x) => match window_shows(p, s, registry, drawn, s.tracks, a, b, x.1) {
                Err(e) => Err(e),
                Ok(y) => match y.0 {
                    Some(z) => Ok((x.0.push(z), y.1)),
                    None => Ok(
                        (x.0.push(SegmentV::Black { duration: time::sooner(b, a) }), y.1),
                    ),
                },
            },
        }
    }
}

proof fn lemma_windows_stop(
    p: ProjectV,
    s: SequenceV,
    registry: Seq<EffectDefV>,
    drawn: Seq<DrawnV>,
    times: Seq<TimeUs>,
    labels: Labels,
    n: int,
)
    requires
        0 <= n <= times.len(),
        window_list(p, s, registry, drawn, times.take(n), labels) is Err,
    ensures
        window_list(p, s, registry, drawn, times, labels) == window_list(
            p,
            s,
            registry,
            drawn,
            times.take(n),
            labels,
        ),
    decreases times.len(),
{
    if n == times.len() {
        assert(times.take(n) =~= times);
    } else {
        assert(times.drop_last().take(n) =~= times.take(n));
        lemma_windows_stop(p, s, registry, drawn, times.drop_last(), labels, n);
    }
}

fn push_segment(v: &mut Vec<Segment>, x: Segment)
    ensures
        seqs::views(final(v)@) == seqs::views(old(v)@).push(x@),
{
    v.push(x);
    assert(seqs::views(v@) =~= seqs::views(old(v)@).push(x@));
}

fn list_windows(
    project: &Project,
    seq: &Sequence,
    registry: &Vec<EffectDef>,
    drawn: &Vec<Drawn>,
    times: &Vec<TimeUs>,
    labels: &mut Labels,
) -> (r: ExportResult<Vec<Segment>>)
    requires
        drawable(seqs::views(registry@), seq@.tracks),
    ensures
        match window_list(
            project@,
            seq@,
            seqs::views(registry@),
            seqs::views(drawn@),
            times@,
            *old(labels),
        ) {
            Ok(x) => r is Ok && seqs::views(r->Ok_0@) == x.0 && *final(labels) == x.1,
            Err(e) => r is Err && r->Err_0@ == e,
        },
{
    let ghost reg = seqs::views(registry@);
    let ghost dr = seqs::views(drawn@);
    let ghost l0 = *labels;
    let mut out: Vec<Segment> = Vec::new();
    assert(seqs::views(out@) =~= Seq::<SegmentV>::empty());
    if times.len() < 2 {
        return Ok(out);
    }
    let mut i: usize = 1;
    while i < times.len()
        invariant
            1 <= i <= times.len(),
            reg == seqs::views(registry@),
            dr == seqs::views(drawn@),
            l0 == *old(labels),
            drawable(reg, seq@.tracks),
            window_list(project@, seq@, reg, dr, times@.take(i as int), l0) == Ok::<
                (Seq<SegmentV>, Labels),
                ExportErrV,
            >((seqs::views(out@), *labels)),
        decreases times.len() - i,
    {
        let a: TimeUs = times[i - 1];
        let b: TimeUs = times[i];
        proof {
            let t = times@.take(i as int + 1);
            assert(t.drop_last() =~= times@.take(i as int));
            assert(t[t.len() - 2] == a);
            assert(t.last() == b);
        }
        match show_window(project, seq, registry, drawn, a, b, labels) {
            Ok(x) => match x {
                Some(y) => push_segment(&mut out, y),
                None => push_segment(&mut out, Segment::Black { duration: minus(b, a) }),
            },
            Err(e) => {
                proof {
                    lemma_windows_stop(project@, seq@, reg, dr, times@, l0, i as int + 1);
                }
                return Err(e);
            },
        }
        i = i + 1;
    }
    assert(times@.take(i as int) =~= times@);
    Ok(out)
}

// ---- tidying ----

/// Segments without black at the end.
pub open spec fn without_tail(list: Seq<SegmentV>) -> Seq<SegmentV>
    decreases list.len(),
{
    if list.len() > 0 && list.last() is Black {
        without_tail(list.drop_last())
    } else {
        list
    }
}

fn drop_tail(list: &mut Vec<Segment>)
    ensures
        seqs::views(final(list)@) == without_tail(seqs::views(old(list)@)),
{
    let ghost all = seqs::views(list@);
    while list.len() > 0
        invariant
            without_tail(all) == without_tail(seqs::views(list@)),
        ensures
            without_tail(all) == seqs::views(list@),
        decreases list.len(),
    {
        let n: usize = list.len();
        assert(seqs::views(list@).last() == list@[n - 1]@);
        let black: bool = match &list[n - 1] {
            Segment::Black { .. } => true,
            _ => false,
        };
        if !black {
            break;
        }
        let ghost before = list@;
        list.pop();
        assert(seqs::views(list@) =~= seqs::views(before).drop_last());
    }
}

/// Whether a segment goes on where another ends: the same asset, chain and
/// speed, and no transition between them.
pub open spec fn goes_on(x: SegmentV, y: SegmentV) -> bool {
    match (x, y) {
        (
            SegmentV::Source { asset_id: a1, src_out: o1, vf: v1, speed: s1, .. },
            SegmentV::Source {
                asset_id: a2,
                src_in: i2,
                vf: v2,
                speed: s2,
                transition_in: None,
                entrance: None,
                ..
            },
        ) => a1 == a2 && o1 == i2 && v1 == v2 && s1 == s2,
        _ => false,
    }
}

/// Two segments as one, where they can be.
pub open spec fn fused(x: SegmentV, y: SegmentV) -> Option<SegmentV> {
    match (x, y) {
        (
            SegmentV::Source {
                asset_id,
                src_in,
                src_out,
                speed,
                vf,
                transition_in,
                entrance,
                exit,
            },
            SegmentV::Source { src_out: o2, exit: x2, .. },
        ) => if goes_on(x, y) {
            Some(
                SegmentV::Source {
                    asset_id,
                    src_in,
                    src_out: o2,
                    speed,
                    vf,
                    transition_in,
                    entrance,
                    exit: x2,
                },
            )
        } else {
            None
        },
        (SegmentV::Black { duration: d1 }, SegmentV::Black { duration: d2 }) => Some(
            SegmentV::Black { duration: time::later(d1, d2) },
        ),
        _ => None,
    }
}

/// Segments with those that go on made one.
pub open spec fn fused_list(list: Seq<SegmentV>) -> Seq<SegmentV>
    decreases list.len(),
{
    if list.len() == 0 {
        list
    } else {
        let r = fused_list(list.drop_last());
        if r.len() > 0 {
            match fused(r.last(), list.last()) {
                Some(x) => r.drop_last().push(x),
                None => r.push(list.last()),
            }
        } else {
            r.push(list.last())
        }
    }
}

fn same_opt(a: &Option<String>, b: &Option<String>) -> (r: bool)
    ensures
        r == (model::opt_text(*a) == model::opt_text(*b)),
{
    match (a, b) {
        (Some(x), Some(y)) => same_text(x.as_str(), y.as_str()),
        (None, None) => true,
        _ => false,
    }
}

fn fuse(x: &Segment, y: &Segment) -> (r: Option<Segment>)
    ensures
        match fused(x@, y@) {
            Some(z) => r is Some && r->Some_0@ == z,
            None => r is None,
        },
{
    match (x, y) {
        (
            Segment::Source {
                asset_id,
                src_in,
                src_out,
                speed,
                vf,
                transition_in,
                entrance,
                exit,
            },
            Segment::Source {
                asset_id: a2,
                src_in: i2,
                src_out: o2,
                speed: s2,
                vf: v2,
                transition_in: t2,
                entrance: e2,
                exit: x2,
            },
        ) => {
            if t2.is_none() && e2.is_none() && *asset_id == *a2 && *src_out == *i2 && *speed == *s2
                && same_opt(vf, v2) {
                Some(
                    Segment::Source {
                        asset_id: *asset_id,
                        src_in: *src_in,
                        src_out: *o2,
                        speed: *speed,
                        vf: duplicate_text(vf),
                        transition_in: copy_cross(transition_in),
                        entrance: copy_cross(entrance),
                        exit: copy_cross(x2),
                    },
                )
            } else {
                None
            }
        },
        (Segment::Black { duration: d1 }, Segment::Black { duration: d2 }) => Some(
            Segment::Black { duration: plus(*d1, *d2) },
        ),
        _ => None,
    }
}

fn fuse_list(list: Vec<Segment>) -> (out: Vec<Segment>)
    ensures
        seqs::views(out@) == fused_list(seqs::views(list@)),
{
    let ghost all = seqs::views(list@);
    let mut out: Vec<Segment> = Vec::new();
    let mut i: usize = 0;
    assert(seqs::views(out@) =~= all.take(0));
    while i < list.len()
        invariant
            i <= list.len(),
            all == seqs::views(list@),
            seqs::views(out@) == fused_list(all.take(i as int)),
        decreases list.len() - i,
    {
        proof {
            assert(all.take(i as int + 1).drop_last() =~= all.take(i as int));
            assert(all.take(i as int + 1).last() == list@[i as int]@);
        }
        let n: usize = out.len();
        let joined: Option<Segment> = if n > 0 {
            assert(seqs::views(out@).last() == out@[n - 1]@);
            fuse(&out[n - 1], &list[i])
        } else {
            None
        };
        match joined {
            Some(x) => {
                let ghost before = out@;
                let ghost xv = x@;
                out.pop();
                out.push(x);
                assert(seqs::views(out@) =~= seqs::views(before).drop_last().push(xv));
            },
            None => {
                push_segment(&mut out, list[i].duplicate());
            },
        }
        i = i + 1;
    }
    assert(all.take(i as int) =~= all);
    out
}

// ---- transitions ----

/// A transition shorter than this is not worth it.
pub const MIN_TRANSITION: TimeUs = 40_000;

/// A segment whose transition runs from black.
pub open spec fn demoted(s: SegmentV) -> SegmentV {
    match s {
        SegmentV::Source {
            asset_id,
            src_in,
            src_out,
            speed,
            vf,
            transition_in,
            entrance,
            exit,
        } => SegmentV::Source {
            asset_id,
            src_in,
            src_out,
            speed,
            vf,
            transition_in: None,
            entrance: transition_in,
            exit,
        },
        _ => s,
    }
}

/// The whole part of a time divided by a speed.
pub open spec fn whole_over(t: TimeUs, speed: Real) -> TimeUs {
    Real::of(t as int).over(speed).to_whole_int() as i64
}

/// Divides a time by a speed and keeps the whole part.
pub fn divide_whole(t: TimeUs, speed: Real) -> (r: TimeUs)
    ensures
        r == whole_over(t, speed),
{
    Real::from_int(t).div(speed).to_int()
}

/// The duration of an asset; zero for one that is not there.
pub open spec fn asset_length(p: ProjectV, id: Id) -> TimeUs {
    match model::asset_of(p, id) {
        Some(a) => a.probe.duration_us,
        None => 0,
    }
}

/// Half of a transition as long as both sides have material for it.
pub open spec fn half_for(p: ProjectV, x: SegmentV, y: SegmentV) -> TimeUs {
    match (x, y) {
        (
            SegmentV::Source { asset_id, src_out, speed: s1, .. },
            SegmentV::Source { src_in, speed: s2, transition_in: Some(t), .. },
        ) => time::min_time(
            time::min_time(
                halved(t.0),
                whole_over(
                    time::max_time(time::sooner(asset_length(p, asset_id), src_out), 0),
                    s1,
                ),
            ),
            whole_over(src_in, s2),
        ),
        _ => 0,
    }
}

/// Twice a time.
pub open spec fn doubled(t: TimeUs) -> TimeUs {
    time::held(t * 2)
}

/// Segments with the transition into one of them settled: its material taken
/// from both sides, or made an entrance from black where there is none.
#[verifier::opaque]
pub open spec fn settled_at(p: ProjectV, list: Seq<SegmentV>, i: int) -> Seq<SegmentV> {
    match list[i] {
        SegmentV::Source {
            asset_id: a2,
            src_in: i2,
            src_out: o2,
            speed: s2,
            vf: v2,
            transition_in: Some(t),
            entrance: e2,
            exit: x2,
        } => if i == 0 || !(list[i - 1] is Source) || doubled(half_for(p, list[i - 1], list[i]))
            < MIN_TRANSITION {
            list.update(i, demoted(list[i]))
        } else {
            let half = half_for(p, list[i - 1], list[i]);
            match list[i - 1] {
                SegmentV::Source {
                    asset_id,
                    src_in,
                    src_out,
                    speed,
                    vf,
                    transition_in,
                    entrance,
                    exit,
                } => list.update(
                    i - 1,
                    SegmentV::Source {
                        asset_id,
                        src_in,
                        src_out: time::later(src_out, ops::scaled_time(half, speed)),
                        speed,
                        vf,
                        transition_in,
                        entrance,
                        exit,
                    },
                ).update(
                    i,
                    SegmentV::Source {
                        asset_id: a2,
                        src_in: time::sooner(i2, ops::scaled_time(half, s2)),
                        src_out: o2,
                        speed: s2,
                        vf: v2,
                        transition_in: Some((doubled(half), t.1)),
                        entrance: e2,
                        exit: x2,
                    },
                ),
                _ => list,
            }
        },
        _ => list,
    }
}

/// Segments with the transitions into the first of them settled.
pub open spec fn settled(p: ProjectV, list: Seq<SegmentV>, n: nat) -> Seq<SegmentV>
    decreases n,
{
    if n == 0 {
        list
    } else {
        settled_at(p, settled(p, list, (n - 1) as nat), n - 1)
    }
}

fn demote(s: &Segment) -> (r: Segment)
    ensures
        r@ == demoted(s@),
{
    match s {
        Segment::Source { asset_id, src_in, src_out, speed, vf, transition_in, entrance, exit } => {
            Segment::Source {
                asset_id: *asset_id,
                src_in: *src_in,
                src_out: *src_out,
                speed: *speed,
                vf: duplicate_text(vf),
                transition_in: None,
                entrance: copy_cross(transition_in),
                exit: copy_cross(exit),
            }
        },
        _ => s.duplicate(),
    }
}

/// Longer at its end by material for a transition out of it.
fn lengthened(s: &Segment, half: TimeUs) -> (r: Segment)
    requires
        s@ is Source,
    ensures
        s@ matches SegmentV::Source { asset_id, src_in, src_out, speed, vf, transition_in, entrance, exit } && r@ == (SegmentV::Source {
            asset_id,
            src_in,
            src_out: time::later(src_out, ops::scaled_time(half, speed)),
            speed,
            vf,
            transition_in,
            entrance,
            exit,
        }),
{
    match s {
        Segment::Source { asset_id, src_in, src_out, speed, vf, transition_in, entrance, exit } => {
            Segment::Source {
                asset_id: *asset_id,
                src_in: *src_in,
                src_out: plus(*src_out, scale_time(half, *speed)),
                speed: *speed,
                vf: duplicate_text(vf),
                transition_in: copy_cross(transition_in),
                entrance: copy_cross(entrance),
                exit: copy_cross(exit),
            }
        },
        _ => s.duplicate(),
    }
}

fn put_segment(list: &mut Vec<Segment>, i: usize, x: Segment)
    requires
        i < old(list).len(),
    ensures
        seqs::views(final(list)@) == seqs::views(old(list)@).update(i as int, x@),
        final(list).len() == old(list).len(),
{
    list.set(i, x);
    assert(seqs::views(list@) =~= seqs::views(old(list)@).update(i as int, x@));
}

fn settle_at(project: &Project, list: &mut Vec<Segment>, i: usize)
    requires
        i < old(list).len(),
    ensures
        seqs::views(final(list)@) == settled_at(project@, seqs::views(old(list)@), i as int),
        final(list).len() == old(list).len(),
{
    reveal(settled_at);
    let ghost all = seqs::views(list@);
    assert(all[i as int] == list@[i as int]@);
    let changed: Segment = match &list[i] {
        Segment::Source {
            asset_id,
            src_in,
            src_out,
            speed,
            vf,
            transition_in: Some(t),
            entrance,
            exit,
        } => {
            if i == 0 {
                let d: Segment = demote(&list[i]);
                put_segment(list, i, d);
                return;
            }
            assert(all[i - 1] == list@[i - 1]@);
            match &list[i - 1] {
                Segment::Source { asset_id: a1, src_out: o1, speed: s1, .. } => {
                    let length: TimeUs = match project.asset(*a1) {
                        Some(a) => a.probe.duration_us,
                        None => 0,
                    };
                    let left: TimeUs = divide_whole(max2(minus(length, *o1), 0), *s1);
                    let right: TimeUs = divide_whole(*src_in, *speed);
                    let half: TimeUs = min2(min2(halve(t.0), left), right);
                    let whole: TimeUs = hold((half as i128) * 2);
                    if whole < MIN_TRANSITION {
                        let d: Segment = demote(&list[i]);
                        put_segment(list, i, d);
                        return;
                    }
                    let cur: Segment = Segment::Source {
                        asset_id: *asset_id,
                        src_in: minus(*src_in, scale_time(half, *speed)),
                        src_out: *src_out,
                        speed: *speed,
                        vf: duplicate_text(vf),
                        transition_in: Some((whole, t.1.clone())),
                        entrance: copy_cross(entrance),
                        exit: copy_cross(exit),
                    };
                    let prev: Segment = lengthened(&list[i - 1], half);
                    put_segment(list, i - 1, prev);
                    cur
                },
                _ => demote(&list[i]),
            }
        },
        _ => {
            return;
        },
    };
    put_segment(list, i, changed);
}

fn apply_transition_handles(project: &Project, list: &mut Vec<Segment>)
    ensures
        seqs::views(final(list)@) == settled(
            project@,
            seqs::views(old(list)@),
            old(list)@.len(),
        ),
{
    let ghost all = seqs::views(list@);
    let mut i: usize = 0;
    while i < list.len()
        invariant
            i <= list.len(),
            list.len() == old(list).len(),
            all == seqs::views(old(list)@),
            seqs::views(list@) == settled(project@, all, i as nat),
        decreases list.len() - i,
    {
        settle_at(project, list, i);
        i = i + 1;
    }
}

// ---- the list ----

/// The segments of a sequence, and the labels after them.
pub open spec fn edl_spec(
    p: ProjectV,
    sequence_id: Id,
    registry: Seq<EffectDefV>,
    drawn: Seq<DrawnV>,
    labels: Labels,
) -> Result<(Seq<SegmentV>, Labels), ExportErrV> {
    if !seqs::holds(p.sequences, sequence_id) {
        Err(ExportErrV::NoSequence(sequence_id))
    } else {
        let s = p.sequences[seqs::pos(p.sequences, sequence_id) as int];
        let times = borders(s.tracks);
        if times.len() < 2 {
            Err(ExportErrV::EmptyTimeline)
        } else {
            match window_list(p, s, registry, drawn, times, labels) {
                Err(e) => Err(e),
                Ok(x) => {
                    let list = without_tail(x.0);
                    if list.len() == 0 {
                        Err(ExportErrV::EmptyTimeline)
                    } else {
                        let f = fused_list(list);
                        Ok((settled(p, f, f.len()), x.1))
                    }
                },
            }
        }
    }
}

/// Flattens the picture of a sequence with a registry of effects and the
/// sources that generators draw.
pub fn flatten(
    project: &Project,
    sequence_id: Id,
    registry: &Vec<EffectDef>,
    drawn: &Vec<Drawn>,
    labels: &mut Labels,
) -> (r: ExportResult<Vec<Segment>>)
    requires
        flattens(project@, sequence_id, seqs::views(registry@)),
    ensures
        match edl_spec(
            project@,
            sequence_id,
            seqs::views(registry@),
            seqs::views(drawn@),
            *old(labels),
        ) {
            Ok(x) => r is Ok && seqs::views(r->Ok_0@) == x.0 && *final(labels) == x.1,
            Err(e) => r is Err && r->Err_0@ == e,
        },
{
    let seq: &Sequence = match project.sequence(sequence_id) {
        Some(s) => s,
        None => {
            return Err(ExportError::NoSequence(sequence_id));
        },
    };
    let times: Vec<TimeUs> = find_borders(seq);
    if times.len() < 2 {
        return Err(ExportError::EmptyTimeline);
    }
    let mut list: Vec<Segment> = match list_windows(project, seq, registry, drawn, &times, labels) {
        Ok(l) => l,
        Err(e) => {
            return Err(e);
        },
    };
    drop_tail(&mut list);
    assert(seqs::views(list@).len() == list.len());
    if list.len() == 0 {
        return Err(ExportError::EmptyTimeline);
    }
    let mut out: Vec<Segment> = fuse_list(list);
    assert(seqs::views(out@).len() == out.len());
    apply_transition_handles(project, &mut out);
    Ok(out)
}

/// Flattens the picture of a sequence with the core effects and packs of the
/// user over them.
pub fn build_video_edl_with(
    project: &Project,
    sequence_id: Id,
    extra_packs: &Vec<EffectDef>,
    core: &Vec<EffectDef>,
    drawn: &Vec<Drawn>,
    labels: &mut Labels,
) -> (r: ExportResult<Vec<Segment>>)
    requires
        flattens(
            project@,
            sequence_id,
            render::merged(seqs::views(core@), seqs::views(extra_packs@)),
        ),
    ensures
        match edl_spec(
            project@,
            sequence_id,
            render::merged(seqs::views(core@), seqs::views(extra_packs@)),
            seqs::views(drawn@),
            *old(labels),
        ) {
            Ok(x) => r is Ok && seqs::views(r->Ok_0@) == x.0 && *final(labels) == x.1,
            Err(e) => r is Err && r->Err_0@ == e,
        },
{
    let registry: Vec<EffectDef> = merge_registries(duplicate_all(core), duplicate_all(extra_packs));
    flatten(project, sequence_id, &registry, drawn, labels)
}

/// Flattens the picture of a sequence with the core effects alone.
pub fn build_video_edl(
    project: &Project,
    sequence_id: Id,
    core: &Vec<EffectDef>,
    drawn: &Vec<Drawn>,
    labels: &mut Labels,
) -> (r: ExportResult<Vec<Segment>>)
    requires
        flattens(project@, sequence_id, seqs::views(core@)),
    ensures
        match edl_spec(
            project@,
            sequence_id,
            seqs::views(core@),
            seqs::views(drawn@),
            *old(labels),
        ) {
            Ok(x) => r is Ok && seqs::views(r->Ok_0@) == x.0 && *final(labels) == x.1,
            Err(e) => r is Err && r->Err_0@ == e,
        },
{
    flatten(project, sequence_id, core, drawn, labels)
}

/// The sum of the lengths of segments.
pub open spec fn total_length(list: Seq<SegmentV>) -> TimeUs
    decreases list.len(),
{
    if list.len() == 0 {
        0
    } else {
        time::later(total_length(list.drop_last()), list.last().length())
    }
}

/// The sum of the overlaps of segments.
pub open spec fn total_overlap(list: Seq<SegmentV>) -> TimeUs
    decreases list.len(),
{
    if list.len() == 0 {
        0
    } else {
        time::later(total_overlap(list.drop_last()), list.last().overlap())
    }
}

/// The time that segments take in the output: transitions overlap material.
pub open spec fn edl_length(list: Seq<SegmentV>) -> TimeUs {
    time::sooner(total_length(list), total_overlap(list))
}

/// How long segments last in the output: transitions overlap material and so
/// shorten it.
pub fn edl_duration(segments: &Vec<Segment>) -> (d: TimeUs)
    ensures
        d == edl_length(seqs::views(segments@)),
{
    let ghost all = seqs::views(segments@);
    let mut raw: TimeUs = 0;
    let mut overlapped: TimeUs = 0;
    let mut i: usize = 0;
    assert(all.take(0) =~= Seq::<SegmentV>::empty());
    while i < segments.len()
        invariant
            i <= segments.len(),
            all == seqs::views(segments@),
            raw == total_length(all.take(i as int)),
            overlapped == total_overlap(all.take(i as int)),
        decreases segments.len() - i,
    {
        proof {
            assert(all.take(i as int + 1).drop_last() =~= all.take(i as int));
            assert(all.take(i as int + 1).last() == segments@[i as int]@);
        }
        raw = plus(raw, segments[i].duration());
        let o: TimeUs = match &segments[i] {
            Segment::Source { transition_in: Some(t), .. } => t.0,
            _ => 0,
        };
        overlapped = plus(overlapped, o);
        i = i + 1;
    }
    assert(all.take(i as int) =~= all);
    minus(raw, overlapped)
}

// ---- what holds of every list ----

/// The transition into a segment from the one before.
pub open spec fn cross_in(s: SegmentV) -> Option<CrossV> {
    match s {
        SegmentV::Source { transition_in, .. } => transition_in,
        _ => None,
    }
}

/// The transition into a segment from black.
pub open spec fn cross_from_black(s: SegmentV) -> Option<CrossV> {
    match s {
        SegmentV::Source { entrance, .. } => entrance,
        _ => None,
    }
}

proof fn lemma_settled_at(p: ProjectV, list: Seq<SegmentV>, i: int)
    requires
        0 <= i < list.len(),
    ensures
        settled_at(p, list, i).len() == list.len(),
        forall|j: int|
            0 <= j < list.len() ==> {
                &&& (settled_at(p, list, i)[j] is Source) == (list[j] is Source)
                &&& (settled_at(p, list, i)[j] is Black) == (list[j] is Black)
                &&& j != i ==> cross_in(settled_at(p, list, i)[j]) == cross_in(list[j])
                &&& j != i ==> cross_from_black(settled_at(p, list, i)[j]) == cross_from_black(
                    list[j],
                )
            },
        cross_in(settled_at(p, list, i)[i]) is Some ==> i > 0 && list[i - 1] is Source,
        cross_in(list[i]) is Some ==> cross_in(settled_at(p, list, i)[i]) is Some
            || cross_from_black(settled_at(p, list, i)[i]) is Some,
{
    reveal(settled_at);
}

proof fn lemma_settled(p: ProjectV, list: Seq<SegmentV>, n: nat)
    requires
        n <= list.len(),
    ensures
        settled(p, list, n).len() == list.len(),
        forall|j: int|
            0 <= j < list.len() ==> {
                &&& ((#[trigger] settled(p, list, n)[j]) is Source) == (list[j] is Source)
                &&& (settled(p, list, n)[j] is Black) == (list[j] is Black)
                &&& j >= n ==> cross_in(settled(p, list, n)[j]) == cross_in(list[j])
                &&& j < n && cross_in(settled(p, list, n)[j]) is Some ==> j > 0
                    && list[j - 1] is Source
                &&& j < n && cross_in(list[j]) is Some ==> cross_in(settled(p, list, n)[j]) is Some
                    || cross_from_black(settled(p, list, n)[j]) is Some
            },
    decreases n,
{
    if n > 0 {
        lemma_settled(p, list, (n - 1) as nat);
        let before = settled(p, list, (n - 1) as nat);
        lemma_settled_at(p, before, n - 1);
        assert forall|j: int| 0 <= j < list.len() implies {
            &&& ((#[trigger] settled(p, list, n)[j]) is Source) == (list[j] is Source)
            &&& (settled(p, list, n)[j] is Black) == (list[j] is Black)
            &&& j >= n ==> cross_in(settled(p, list, n)[j]) == cross_in(list[j])
            &&& j < n && cross_in(settled(p, list, n)[j]) is Some ==> j > 0
                && list[j - 1] is Source
            &&& j < n && cross_in(list[j]) is Some ==> cross_in(settled(p, list, n)[j]) is Some
                || cross_from_black(settled(p, list, n)[j]) is Some
        } by {
            assert(before[j] is Source == list[j] is Source);
            if j == n - 1 && j > 0 {
                assert(before[j - 1] is Source == list[j - 1] is Source);
            }
        }
    }
}

proof fn lemma_without_tail(list: Seq<SegmentV>)
    ensures
        without_tail(list).len() > 0 ==> !(without_tail(list).last() is Black),
    decreases list.len(),
{
    if list.len() > 0 && list.last() is Black {
        lemma_without_tail(list.drop_last());
    }
}

proof fn lemma_fused_list(list: Seq<SegmentV>)
    ensures
        list.len() > 0 ==> fused_list(list).len() > 0,
        list.len() > 0 && !(list.last() is Black) ==> !(fused_list(list).last() is Black),
        forall|i: int|
            0 < i < fused_list(list).len() ==> !(fused_list(list)[i - 1] is Black && (
            #[trigger] fused_list(list)[i]) is Black),
    decreases list.len(),
{
    if list.len() > 0 {
        lemma_fused_list(list.drop_last());
        let r = fused_list(list.drop_last());
        let f = fused_list(list);
        assert forall|i: int| 0 < i < f.len() implies !(f[i - 1] is Black && (#[trigger] f[i]) is Black) by {
            if i < r.len() - 1 || (i < r.len() && f.len() > r.len()) {
                assert(f[i] == r[i] && f[i - 1] == r[i - 1]);
            } else if r.len() > 0 && f.len() == r.len() {
                assert(i == r.len() - 1);
                assert(f[i - 1] == r[i - 1]);
                assert((f[i] is Black) == (r[i] is Black));
            } else {
                assert(r.len() > 0);
                assert(f[i - 1] == r.last());
                assert(fused(r.last(), list.last()) is None);
            }
        }
    }
}

/// The picture of a sequence ends with content: there is a segment, and the
/// last one is not black. No two segments of black follow each other.
pub proof fn law_edl_ends_with_content(
    p: ProjectV,
    sequence_id: Id,
    registry: Seq<EffectDefV>,
    drawn: Seq<DrawnV>,
    labels: Labels,
)
    requires
        edl_spec(p, sequence_id, registry, drawn, labels) is Ok,
    ensures
        ({
            let list = edl_spec(p, sequence_id, registry, drawn, labels)->Ok_0.0;
            &&& list.len() > 0
            &&& !(list.last() is Black)
            &&& forall|i: int|
                0 < i < list.len() ==> !(list[i - 1] is Black && (#[trigger] list[i]) is Black)
        }),
{
    let s = p.sequences[seqs::pos(p.sequences, sequence_id) as int];
    let all = window_list(p, s, registry, drawn, borders(s.tracks), labels)->Ok_0.0;
    lemma_without_tail(all);
    lemma_fused_list(without_tail(all));
    let f = fused_list(without_tail(all));
    lemma_settled(p, f, f.len());
    let list = settled(p, f, f.len());
    assert(list[list.len() - 1] is Black == f[list.len() - 1] is Black);
    assert forall|i: int| 0 < i < list.len() implies !(list[i - 1] is Black && (#[trigger] list[i]) is Black) by {
        assert(list[i - 1] is Black == f[i - 1] is Black);
        assert(list[i] is Black == f[i] is Black);
        assert(!(f[i - 1] is Black && f[i] is Black));
    }
}

/// A transition is never a silent no-op: where the flat list had one, it runs
/// from the segment before, which then is a source, or from black.
pub proof fn law_transitions_run(p: ProjectV, list: Seq<SegmentV>)
    ensures
        settled(p, list, list.len()).len() == list.len(),
        forall|i: int|
            0 <= i < list.len() ==> {
                let s = #[trigger] settled(p, list, list.len())[i];
                &&& cross_in(list[i]) is Some ==> cross_in(s) is Some || cross_from_black(s) is Some
                &&& cross_in(s) is Some ==> i > 0 && settled(p, list, list.len())[i - 1] is Source
            },
{
    lemma_settled(p, list, list.len());
    assert forall|i: int| 0 <= i < list.len() implies {
        let s = #[trigger] settled(p, list, list.len())[i];
        &&& cross_in(list[i]) is Some ==> cross_in(s) is Some || cross_from_black(s) is Some
        &&& cross_in(s) is Some ==> i > 0 && settled(p, list, list.len())[i - 1] is Source
    } by {
        if i > 0 {
            assert((settled(p, list, list.len())[i - 1] is Source) == (list[i - 1] is Source));
        }
    }
}

} // verus!
