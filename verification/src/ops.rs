//! Operations on the timeline: split, delete, insert, move, trim, speed and
//! ranges.
//!
//! An operation plans a list of primitive actions by trying them on a copy of
//! the project; the store then performs the list as one transaction.

use vstd::prelude::*;

use crate::action;
use crate::action::{apply, sort_ranges, Action, ActionV};
use crate::error;
use crate::error::{invalid, not_found, ErrV, UeError, UeResult};
use crate::float::Real;
use crate::ident;
use crate::ident::{Id, IdPool};
use crate::laws;
use crate::model;
use crate::model::{AudioProps, AudioV, Clip, ClipPayload, ClipV, EffectInstance, EffectV, MediaKind, PayloadV, Project, ProjectV, Sequence, SequenceV, Track, TrackV, Transform2D};
use crate::seqs;
use crate::seqs::{holds_id, Duplicate};
use crate::strmap;
use crate::text;
use crate::text::{copy_text, int_to_text};
use crate::time;
use crate::time::{frame_duration_us, max2, min2, minus, plus, quantize_to_frame, TimeUs};

verus! {

/// A plan under way: the project as it would be, and the actions so far.
pub struct Planner {
    pub proj: Project,
    pub actions: Vec<Action>,
}

/// The contents of a `Planner`.
#[verifier::ext_equal]
pub struct PlanV {
    pub proj: ProjectV,
    pub actions: Seq<ActionV>,
}

impl View for Planner {
    type V = PlanV;

    open spec fn view(&self) -> PlanV {
        PlanV { proj: self.proj@, actions: seqs::views(self.actions@) }
    }
}

/// The plan with one more action.
#[verifier::opaque]
pub open spec fn planned(plan: PlanV, a: ActionV) -> Result<PlanV, ErrV> {
    match action::step(plan.proj, a) {
        Err(e) => Err(e),
        Ok(x) => Ok(PlanV { proj: x.0, actions: plan.actions.push(a) }),
    }
}

/// The plan with a list of actions, up to one that is refused.
pub open spec fn planned_all(plan: PlanV, list: Seq<ActionV>) -> Result<PlanV, ErrV>
    decreases list.len(),
{
    if list.len() == 0 {
        Ok(plan)
    } else {
        match planned(plan, list[0]) {
            Err(e) => Err(e),
            Ok(q) => planned_all(q, list.drop_first()),
        }
    }
}

/// The plan that starts from a project.
pub open spec fn start_plan(p: ProjectV) -> PlanV {
    PlanV { proj: p, actions: Seq::<ActionV>::empty() }
}

/// Whether the actions of a plan lead from a project to what the plan shows.
#[verifier::opaque]
pub open spec fn replays(p: ProjectV, plan: PlanV) -> bool {
    match laws::run(p, plan.actions) {
        Ok(x) => x.0 == plan.proj,
        Err(e) => false,
    }
}

/// A plan with one more action has that action at its end.
pub proof fn lemma_planned_actions(plan: PlanV, a: ActionV)
    requires
        planned(plan, a) is Ok,
    ensures
        planned(plan, a)->Ok_0.actions == plan.actions.push(a),
{
    reveal(planned);
}

proof fn lemma_replays_planned(p: ProjectV, plan: PlanV, a: ActionV)
    requires
        replays(p, plan),
        planned(plan, a) is Ok,
    ensures
        replays(p, planned(plan, a)->Ok_0),
{
    reveal(planned);
    reveal(replays);
    let next = plan.actions.push(a);
    assert(next.drop_last() =~= plan.actions);
    assert(next.last() == a);
}

impl Planner {
    /// A plan without actions.
    pub fn new(project: &Project) -> (r: Planner)
        ensures
            r@ == start_plan(project@),
            replays(project@, r@),
    {
        reveal(replays);
        let r: Planner = Planner { proj: project.duplicate(), actions: Vec::new() };
        assert(r@.actions =~= Seq::<ActionV>::empty());
        r
    }

    /// Tries an action on the copy and notes it. A refused action leaves the
    /// plan as it was.
    pub fn do_(&mut self, action: Action) -> (r: UeResult<()>)
        ensures
            match planned(old(self)@, action@) {
                Ok(q) => r is Ok && final(self)@ == q,
                Err(e) => r is Err && r->Err_0@ == e && final(self)@ == old(self)@,
            },
            r is Ok ==> forall|p: ProjectV| #[trigger]
                replays(p, old(self)@) ==> replays(p, final(self)@),
    {
        reveal(planned);
        let ghost before = self@;
        let ghost av = action@;
        match apply(&mut self.proj, action.duplicate()) {
            Ok(inverse) => {
                self.actions.push(action);
                proof {
                    assert(seqs::views(self.actions@) =~= before.actions.push(av));
                    assert forall|p: ProjectV| #[trigger] replays(p, before) implies replays(
                        p,
                        self@,
                    ) by {
                        lemma_replays_planned(p, before, av);
                    }
                }
                Ok(())
            },
            Err(e) => Err(e),
        }
    }

    /// Tries a list of actions; after one that is refused, the plan is of no
    /// use any more.
    pub fn do_all(&mut self, list: Vec<Action>) -> (r: UeResult<()>)
        ensures
            match planned_all(old(self)@, seqs::views(list@)) {
                Ok(q) => r is Ok && final(self)@ == q,
                Err(e) => r is Err && r->Err_0@ == e,
            },
            r is Ok ==> forall|p: ProjectV| #[trigger]
                replays(p, old(self)@) ==> replays(p, final(self)@),
    {
        let ghost all = seqs::views(list@);
        let ghost before = self@;
        let mut i: usize = 0;
        assert(all.skip(0) =~= all);
        while i < list.len()
            invariant
                i <= list.len(),
                all == seqs::views(list@),
                before == old(self)@,
                planned_all(before, all) == planned_all(self@, all.skip(i as int)),
                forall|p: ProjectV| #[trigger] replays(p, before) ==> replays(p, self@),
            decreases list.len() - i,
        {
            proof {
                assert(all.skip(i as int)[0] == list@[i as int]@);
                assert(all.skip(i as int).drop_first() =~= all.skip(i as int + 1));
            }
            let ghost mid = self@;
            match self.do_(list[i].duplicate()) {
                Ok(u) => {
                    assert forall|p: ProjectV| #[trigger] replays(p, before) implies replays(
                        p,
                        self@,
                    ) by {
                        assert(replays(p, mid));
                    }
                },
                Err(e) => {
                    return Err(e);
                },
            }
            i = i + 1;
        }
        assert(all.skip(i as int) =~= Seq::<ActionV>::empty());
        Ok(())
    }

    /// The actions of the plan.
    pub fn finish(self) -> (r: Vec<Action>)
        ensures
            seqs::views(r@) == self@.actions,
            forall|p: ProjectV| #[trigger]
                replays(p, self@) ==> laws::run(p, seqs::views(r@)) is Ok,
    {
        reveal(replays);
        self.actions
    }
}

/// The clips of a group, in their order on a track.
pub open spec fn group_on_track(clips: Seq<ClipV>, group: Id) -> Seq<Id>
    decreases clips.len(),
{
    if clips.len() == 0 {
        Seq::<Id>::empty()
    } else {
        let r = group_on_track(clips.drop_last(), group);
        if clips.last().group == Some(group) {
            r.push(clips.last().id)
        } else {
            r
        }
    }
}

/// The clips of a group on tracks.
pub open spec fn group_on_tracks(tracks: Seq<TrackV>, group: Id) -> Seq<Id>
    decreases tracks.len(),
{
    if tracks.len() == 0 {
        Seq::<Id>::empty()
    } else {
        group_on_tracks(tracks.drop_last(), group) + group_on_track(tracks.last().clips, group)
    }
}

/// The clips of a group in sequences.
pub open spec fn group_in(seqs: Seq<SequenceV>, group: Id) -> Seq<Id>
    decreases seqs.len(),
{
    if seqs.len() == 0 {
        Seq::<Id>::empty()
    } else {
        group_in(seqs.drop_last(), group) + group_on_tracks(seqs.last().tracks, group)
    }
}

/// The clips that are linked to a clip, with the clip itself.
pub open spec fn linked(p: ProjectV, clip_id: Id) -> Seq<Id> {
    match model::clip_place(p, clip_id) {
        None => seq![clip_id],
        Some(at) => match model::clip_at(p, at).group {
            None => seq![clip_id],
            Some(g) => if group_in(p.sequences, g).len() == 0 {
                seq![clip_id]
            } else {
                group_in(p.sequences, g)
            },
        },
    }
}

/// A list of one identifier.
pub fn one_id(id: Id) -> (r: Vec<Id>)
    ensures
        r@ == seq![id],
{
    let mut r: Vec<Id> = Vec::new();
    r.push(id);
    assert(r@ =~= seq![id]);
    r
}

/// The clips that are linked to a clip, with the clip itself.
pub fn linked_ids(project: &Project, clip_id: Id) -> (r: Vec<Id>)
    ensures
        r@ == linked(project@, clip_id),
{
    let group: Id = match project.clip(clip_id) {
        Some(c) => match c.group {
            Some(g) => g,
            None => {
                return one_id(clip_id);
            },
        },
        None => {
            return one_id(clip_id);
        },
    };
    let mut out: Vec<Id> = Vec::new();
    let ghost seqs = project@.sequences;
    let mut i: usize = 0;
    assert(seqs.take(0) =~= Seq::<SequenceV>::empty());
    while i < project.sequences.len()
        invariant
            i <= project.sequences.len(),
            seqs == project@.sequences,
            out@ == group_in(seqs.take(i as int), group),
        decreases project.sequences.len() - i,
    {
        let s: &Sequence = &project.sequences[i];
        let ghost base = out@;
        proof {
            let t = seqs.take(i as int + 1);
            assert(t.drop_last() =~= seqs.take(i as int));
            assert(t.last() == s@);
            assert(s@.tracks.take(0) =~= Seq::<TrackV>::empty());
            assert(base + Seq::<Id>::empty() =~= base);
        }
        let mut j: usize = 0;
        while j < s.tracks.len()
            invariant
                j <= s.tracks.len(),
                out@ == base + group_on_tracks(s@.tracks.take(j as int), group),
            decreases s.tracks.len() - j,
        {
            let tr: &Track = &s.tracks[j];
            let ghost mid = out@;
            proof {
                let t = s@.tracks.take(j as int + 1);
                assert(t.drop_last() =~= s@.tracks.take(j as int));
                assert(t.last() == tr@);
                assert(tr@.clips.take(0) =~= Seq::<ClipV>::empty());
                assert(mid + Seq::<Id>::empty() =~= mid);
            }
            let mut k: usize = 0;
            while k < tr.clips.len()
                invariant
                    k <= tr.clips.len(),
                    out@ == mid + group_on_track(tr@.clips.take(k as int), group),
                decreases tr.clips.len() - k,
            {
                proof {
                    let t = tr@.clips.take(k as int + 1);
                    assert(t.drop_last() =~= tr@.clips.take(k as int));
                    assert(t.last() == tr.clips@[k as int]@);
                }
                let same: bool = match tr.clips[k].group {
                    Some(g) => g == group,
                    None => false,
                };
                if same {
                    out.push(tr.clips[k].id);
                }
                assert(out@ =~= mid + group_on_track(tr@.clips.take(k as int + 1), group));
                k = k + 1;
            }
            proof {
                assert(tr@.clips.take(tr@.clips.len() as int) =~= tr@.clips);
                assert(out@ =~= base + group_on_tracks(s@.tracks.take(j as int + 1), group));
            }
            j = j + 1;
        }
        proof {
            assert(s@.tracks.take(s@.tracks.len() as int) =~= s@.tracks);
            assert(out@ =~= group_in(seqs.take(i as int + 1), group));
        }
        i = i + 1;
    }
    assert(seqs.take(seqs.len() as int) =~= seqs);
    if out.len() == 0 {
        return one_id(clip_id);
    }
    out
}

/// The error of a locked track, if it is locked.
pub open spec fn lock_error(t: TrackV) -> Option<ErrV> {
    if t.locked {
        Some(ErrV::Locked(t.name))
    } else {
        None
    }
}

fn ensure_unlocked(track: &Track) -> (r: UeResult<()>)
    ensures
        match lock_error(track@) {
            Some(e) => r is Err && r->Err_0@ == e,
            None => r is Ok,
        },
{
    if track.locked {
        return Err(UeError::Locked(track.name.clone()));
    }
    Ok(())
}

/// A real number of microseconds, scaled and rounded.
pub open spec fn scaled_time(t: TimeUs, speed: Real) -> TimeUs {
    Real::of(t as int).times(speed).to_nearest_int() as i64
}

/// A real number of microseconds, divided and rounded.
pub open spec fn divided_time(t: TimeUs, speed: Real) -> TimeUs {
    Real::of(t as int).over(speed).to_nearest_int() as i64
}

/// `t * speed`, rounded to the nearest microsecond.
pub fn scale_time(t: TimeUs, speed: Real) -> (r: TimeUs)
    ensures
        r == scaled_time(t, speed),
{
    Real::from_int(t).mul(speed).round_to_int()
}

/// `t / speed`, rounded to the nearest microsecond.
pub fn divide_time(t: TimeUs, speed: Real) -> (r: TimeUs)
    ensures
        r == divided_time(t, speed),
{
    Real::from_int(t).div(speed).round_to_int()
}

/// The place in the source where a clip is cut: no later than one microsecond
/// before its end.
pub open spec fn source_cut(src_in: TimeUs, src_out: TimeUs, offset: TimeUs, speed: Real) -> TimeUs {
    time::min_time(time::later(src_in, scaled_time(offset, speed)), time::sooner(src_out, 1))
}

/// The sound of the left half of a clip.
pub open spec fn left_audio(a: AudioV, offset: TimeUs) -> AudioV {
    AudioV {
        gain_db: a.gain_db.split_left(offset),
        pan: a.pan.split_left(offset),
        fade_in_us: time::min_time(a.fade_in_us, offset),
        fade_out_us: 0,
        ..a
    }
}

/// The sound of the right half of a clip.
pub open spec fn right_audio(a: AudioV, offset: TimeUs, total: TimeUs) -> AudioV {
    AudioV {
        gain_db: a.gain_db.split_right(offset),
        pan: a.pan.split_right(offset),
        fade_in_us: 0,
        fade_out_us: time::min_time(a.fade_out_us, time::sooner(total, offset)),
        ..a
    }
}

/// The left half of a clip that is cut at an offset from its start.
pub open spec fn left_half(c: ClipV, offset: TimeUs, id: Id) -> ClipV {
    ClipV {
        id,
        duration: offset,
        payload: match c.payload {
            PayloadV::Media { asset_id, src_in, src_out } => PayloadV::Media {
                asset_id,
                src_in,
                src_out: source_cut(src_in, src_out, offset, c.speed),
            },
            _ => c.payload,
        },
        transform: c.transform.split_left(offset),
        audio: left_audio(c.audio, offset),
        effects: c.effects.map_values(
            |e: EffectV| EffectV { params: strmap::left_params(e.params, offset), ..e },
        ),
        ..c
    }
}

/// The right half of a clip that is cut at an offset from its start. It does
/// not keep the transition at the start of the clip.
pub open spec fn right_half(c: ClipV, offset: TimeUs, id: Id) -> ClipV {
    ClipV {
        id,
        start: time::later(c.start, offset),
        duration: time::sooner(c.duration, offset),
        payload: match c.payload {
            PayloadV::Media { asset_id, src_in, src_out } => PayloadV::Media {
                asset_id,
                src_in: source_cut(src_in, src_out, offset, c.speed),
                src_out,
            },
            _ => c.payload,
        },
        transform: c.transform.split_right(offset),
        audio: right_audio(c.audio, offset, c.duration),
        effects: c.effects.map_values(
            |e: EffectV| EffectV { params: strmap::right_params(e.params, offset), ..e },
        ),
        transition_in: None,
        ..c
    }
}

fn split_transform(t: &Transform2D, offset: TimeUs) -> (r: (Transform2D, Transform2D))
    ensures
        r.0@ == t@.split_left(offset),
        r.1@ == t@.split_right(offset),
{
    let (px0, px1) = t.position.0.split(offset);
    let (py0, py1) = t.position.1.split(offset);
    let (sx0, sx1) = t.scale.0.split(offset);
    let (sy0, sy1) = t.scale.1.split(offset);
    let (r0, r1) = t.rotation.split(offset);
    let (ca0, ca1) = t.crop.0.split(offset);
    let (cb0, cb1) = t.crop.1.split(offset);
    let (cc0, cc1) = t.crop.2.split(offset);
    let (cd0, cd1) = t.crop.3.split(offset);
    let (o0, o1) = t.opacity.split(offset);
    (
        Transform2D {
            position: (px0, py0),
            scale: (sx0, sy0),
            rotation: r0,
            crop: (ca0, cb0, cc0, cd0),
            opacity: o0,
            flip_h: t.flip_h,
            flip_v: t.flip_v,
        },
        Transform2D {
            position: (px1, py1),
            scale: (sx1, sy1),
            rotation: r1,
            crop: (ca1, cb1, cc1, cd1),
            opacity: o1,
            flip_h: t.flip_h,
            flip_v: t.flip_v,
        },
    )
}

fn split_audio(a: &AudioProps, offset: TimeUs, total: TimeUs) -> (r: (AudioProps, AudioProps))
    ensures
        r.0@ == left_audio(a@, offset),
        r.1@ == right_audio(a@, offset, total),
{
    let (gl, gr) = a.gain_db.split(offset);
    let (pl, pr) = a.pan.split(offset);
    (
        AudioProps {
            gain_db: gl,
            pan: pl,
            fade_in_us: min2(a.fade_in_us, offset),
            fade_out_us: 0,
            muted: a.muted,
            denoise: a.denoise,
        },
        AudioProps {
            gain_db: gr,
            pan: pr,
            fade_in_us: 0,
            fade_out_us: min2(a.fade_out_us, minus(total, offset)),
            muted: a.muted,
            denoise: a.denoise,
        },
    )
}

fn split_effects(effects: &Vec<EffectInstance>, offset: TimeUs) -> (r: (
    Vec<EffectInstance>,
    Vec<EffectInstance>,
))
    ensures
        seqs::views(r.0@) == seqs::views(effects@).map_values(
            |e: EffectV| EffectV { params: strmap::left_params(e.params, offset), ..e },
        ),
        seqs::views(r.1@) == seqs::views(effects@).map_values(
            |e: EffectV| EffectV { params: strmap::right_params(e.params, offset), ..e },
        ),
{
    let mut a: Vec<EffectInstance> = Vec::new();
    let mut b: Vec<EffectInstance> = Vec::new();
    let mut i: usize = 0;
    while i < effects.len()
        invariant
            i <= effects.len(),
            a.len() == i,
            b.len() == i,
            forall|j: int|
                0 <= j < i ==> (#[trigger] a@[j])@ == (EffectV {
                    params: strmap::left_params(effects@[j]@.params, offset),
                    ..effects@[j]@
                }),
            forall|j: int|
                0 <= j < i ==> (#[trigger] b@[j])@ == (EffectV {
                    params: strmap::right_params(effects@[j]@.params, offset),
                    ..effects@[j]@
                }),
        decreases effects.len() - i,
    {
        let e: &EffectInstance = &effects[i];
        let (l, r) = e.params.split(offset);
        a.push(
            EffectInstance {
                effect_id: e.effect_id.clone(),
                enabled: e.enabled,
                params: l,
                color_params: e.color_params.duplicate(),
            },
        );
        b.push(
            EffectInstance {
                effect_id: e.effect_id.clone(),
                enabled: e.enabled,
                params: r,
                color_params: e.color_params.duplicate(),
            },
        );
        i = i + 1;
    }
    assert(seqs::views(a@) =~= seqs::views(effects@).map_values(
        |e: EffectV| EffectV { params: strmap::left_params(e.params, offset), ..e },
    ));
    assert(seqs::views(b@) =~= seqs::views(effects@).map_values(
        |e: EffectV| EffectV { params: strmap::right_params(e.params, offset), ..e },
    ));
    (a, b)
}

/// The two halves of a clip that is cut at an offset from its start.
pub fn split_clip_data(clip: &Clip, offset: TimeUs, left_id: Id, right_id: Id) -> (r: (Clip, Clip))
    ensures
        r.0@ == left_half(clip@, offset, left_id),
        r.1@ == right_half(clip@, offset, right_id),
{
    let mut left: Clip = clip.duplicate();
    let mut right: Clip = clip.duplicate();
    left.id = left_id;
    right.id = right_id;
    left.duration = offset;
    right.start = plus(clip.start, offset);
    right.duration = minus(clip.duration, offset);
    match &clip.payload {
        ClipPayload::Media { asset_id, src_in, src_out } => {
            let cut: TimeUs = min2(
                plus(*src_in, scale_time(offset, clip.speed)),
                minus(*src_out, 1),
            );
            left.payload = ClipPayload::Media {
                asset_id: *asset_id,
                src_in: *src_in,
                src_out: cut,
            };
            right.payload = ClipPayload::Media {
                asset_id: *asset_id,
                src_in: cut,
                src_out: *src_out,
            };
        },
        _ => {},
    }
    let (tl, tr) = split_transform(&clip.transform, offset);
    left.transform = tl;
    right.transform = tr;
    let (al, ar) = split_audio(&clip.audio, offset, clip.duration);
    left.audio = al;
    right.audio = ar;
    let (el, er) = split_effects(&clip.effects, offset);
    left.effects = el;
    right.effects = er;
    right.transition_in = None;
    (left, right)
}

/// What comes of a part of an operation: the plan, and how many identifiers
/// are used.
pub type Part = Result<(PlanV, nat), ErrV>;

/// Whether a call did what a part says, where the identifiers begin with those
/// that were drawn.
pub open spec fn goes(r: UeResult<()>, plan: PlanV, used: nat, s: Part) -> bool {
    match s {
        Ok(x) => r is Ok && plan == x.0 && used == x.1,
        Err(e) => r is Err && r->Err_0@ == e,
    }
}

/// The first clip of a track that a time falls into.
pub open spec fn crossing_in(clips: Seq<ClipV>, t: TimeUs) -> Option<ClipV>
    decreases clips.len(),
{
    if clips.len() == 0 {
        None
    } else if clips[0].start < t && t < clips[0].finish() {
        Some(clips[0])
    } else {
        crossing_in(clips.drop_first(), t)
    }
}

/// The clips of a track; none where the track is missing.
pub open spec fn clips_on(p: ProjectV, track_id: Id) -> Seq<ClipV> {
    match model::track_place(p, track_id) {
        Some(at) => model::track_at(p, at).clips,
        None => Seq::<ClipV>::empty(),
    }
}

/// The action that cuts a clip in two.
pub open spec fn cut_action(track_id: Id, c: ClipV, t: TimeUs, left: Id, right: Id) -> ActionV {
    ActionV::ReplaceClips {
        track_id,
        remove_ids: seq![c.id],
        insert: seq![
            left_half(c, time::sooner(t, c.start), left),
            right_half(c, time::sooner(t, c.start), right),
        ],
    }
}

/// The plan with every clip on the tracks cut that a time falls into.
pub open spec fn cut_tracks(
    plan: PlanV,
    track_ids: Seq<Id>,
    t: TimeUs,
    ids: Seq<Id>,
    used: nat,
) -> Part
    decreases track_ids.len(),
{
    if track_ids.len() == 0 {
        Ok((plan, used))
    } else {
        match crossing_in(clips_on(plan.proj, track_ids[0]), t) {
            None => cut_tracks(plan, track_ids.drop_first(), t, ids, used),
            Some(c) => match planned(
                plan,
                cut_action(track_ids[0], c, t, ids[used as int], ids[used as int + 1]),
            ) {
                Err(e) => Err(e),
                Ok(q) => cut_tracks(q, track_ids.drop_first(), t, ids, used + 2),
            },
        }
    }
}

fn find_crossing(clips: &Vec<Clip>, t: TimeUs) -> (r: Option<Clip>)
    ensures
        match r {
            Some(c) => crossing_in(seqs::views(clips@), t) == Some(c@),
            None => crossing_in(seqs::views(clips@), t) is None,
        },
{
    let mut i: usize = 0;
    let ghost all = seqs::views(clips@);
    assert(all.skip(0) =~= all);
    while i < clips.len()
        invariant
            i <= clips.len(),
            all == seqs::views(clips@),
            crossing_in(all, t) == crossing_in(all.skip(i as int), t),
        decreases clips.len() - i,
    {
        proof {
            assert(all.skip(i as int)[0] == clips@[i as int]@);
            assert(all.skip(i as int).drop_first() =~= all.skip(i as int + 1));
        }
        if clips[i].start < t && t < clips[i].end() {
            return Some(clips[i].duplicate());
        }
        i = i + 1;
    }
    None
}

fn cut_with(track_id: Id, c: &Clip, t: TimeUs, left: Id, right: Id) -> (a: Action)
    ensures
        a@ == cut_action(track_id, c@, t, left, right),
{
    let (l, r) = split_clip_data(c, minus(t, c.start), left, right);
    let ghost lv = l@;
    let ghost rv = r@;
    let mut insert: Vec<Clip> = Vec::new();
    insert.push(l);
    insert.push(r);
    assert(seqs::views(insert@) =~= seq![lv, rv]);
    Action::ReplaceClips { track_id, remove_ids: one_id(c.id), insert }
}

/// Cuts every clip on the tracks that a time falls into.
pub fn split_all_at(plan: &mut Planner, track_ids: &Vec<Id>, t: TimeUs, pool: &mut IdPool) -> (r:
    UeResult<()>)
    requires
        old(pool).wf(),
    ensures
        final(pool).wf(),
        ident::begins(final(pool).ids@, old(pool).ids@),
        forall|ids: Seq<Id>|
            #[trigger] ident::begins(ids, final(pool).ids@) ==> goes(
                r,
                final(plan)@,
                final(pool).used as nat,
                cut_tracks(old(plan)@, track_ids@, t, ids, old(pool).used as nat),
            ),
        r is Ok ==> forall|p: ProjectV| #[trigger]
            replays(p, old(plan)@) ==> replays(p, final(plan)@),
{
    let ghost start = plan@;
    let ghost u0 = pool.used as nat;
    let mut i: usize = 0;
    assert(track_ids@.skip(0) =~= track_ids@);
    while i < track_ids.len()
        invariant
            i <= track_ids.len(),
            pool.wf(),
            ident::begins(pool.ids@, old(pool).ids@),
            start == old(plan)@,
            u0 == old(pool).used as nat,
            forall|ids: Seq<Id>|
                #[trigger] ident::begins(ids, pool.ids@) ==> cut_tracks(start, track_ids@, t, ids, u0)
                    == cut_tracks(
                    plan@,
                    track_ids@.skip(i as int),
                    t,
                    ids,
                    pool.used as nat,
                ),
            forall|p: ProjectV| #[trigger] replays(p, start) ==> replays(p, plan@),
        decreases track_ids.len() - i,
    {
        let tid: Id = track_ids[i];
        proof {
            assert(track_ids@.skip(i as int)[0] == tid);
            assert(track_ids@.skip(i as int).drop_first() =~= track_ids@.skip(i as int + 1));
        }
        let victim: Option<Clip> = match plan.proj.track(tid) {
            Some(tr) => find_crossing(&tr.clips, t),
            None => None,
        };
        if let Some(c) = victim {
            let ghost mid = plan@;
            let ghost u = pool.used as nat;
            let ghost ids0 = pool.ids@;
            let left: Id = pool.take();
            let ghost ids1 = pool.ids@;
            let right: Id = pool.take();
            proof {
                assert forall|ids: Seq<Id>| #[trigger] ident::begins(ids, pool.ids@) implies ident::begins(
                    ids,
                    ids0,
                ) && ids[u as int] == left && ids[u as int + 1] == right by {
                    lemma_begins(ids, pool.ids@, ids1);
                    lemma_begins(ids, ids1, ids0);
                }
                lemma_begins(pool.ids@, ids1, ids0);
                lemma_begins(pool.ids@, ids0, old(pool).ids@);
            }
            match plan.do_(cut_with(tid, &c, t, left, right)) {
                Ok(x) => {
                    assert forall|p: ProjectV| #[trigger] replays(p, start) implies replays(
                        p,
                        plan@,
                    ) by {
                        assert(replays(p, mid));
                    }
                },
                Err(e) => {
                    return Err(e);
                },
            }
        }
        i = i + 1;
    }
    assert(track_ids@.skip(i as int) =~= Seq::<Id>::empty());
    Ok(())
}

/// What begins with a list begins with what the list begins with.
pub proof fn lemma_begins(a: Seq<Id>, b: Seq<Id>, c: Seq<Id>)
    requires
        ident::begins(a, b),
        ident::begins(b, c),
    ensures
        ident::begins(a, c),
{
    assert forall|i: int| 0 <= i < c.len() implies #[trigger] a[i] == c[i] by {
        assert(b[i] == c[i]);
        assert(a[i] == b[i]);
    }
}

// ---- splitting a clip ----

/// The state of a split: the plan, how many identifiers are used, and the
/// halves of the clip that was asked for.
pub type Split = Result<(PlanV, nat, Option<(Id, Id)>), ErrV>;

/// The action that cuts a linked clip; the right halves share a group.
pub open spec fn linked_cut(
    track_id: Id,
    c: ClipV,
    t: TimeUs,
    group: Option<Id>,
    left: Id,
    right: Id,
) -> ActionV {
    let r = right_half(c, time::sooner(t, c.start), right);
    ActionV::ReplaceClips {
        track_id,
        remove_ids: seq![c.id],
        insert: seq![
            left_half(c, time::sooner(t, c.start), left),
            match group {
                Some(g) => ClipV { group: Some(g), ..r },
                None => r,
            },
        ],
    }
}

/// The plan with one linked clip cut, if a time falls into it.
pub open spec fn cut_one(
    plan: PlanV,
    used: nat,
    primary: Option<(Id, Id)>,
    gid: Id,
    clip_id: Id,
    t: TimeUs,
    new_group: Option<Id>,
    ids: Seq<Id>,
) -> Split {
    match model::clip_place(plan.proj, gid) {
        None => Ok((plan, used, primary)),
        Some(at) => {
            let c = model::clip_at(plan.proj, at);
            if !(c.start < t && t < c.finish()) {
                Ok((plan, used, primary))
            } else {
                let left = ids[used as int];
                let right = ids[used as int + 1];
                let track_id = model::track_at(plan.proj, (at.0, at.1)).id;
                match planned(plan, linked_cut(track_id, c, t, new_group, left, right)) {
                    Err(e) => Err(e),
                    Ok(q) => Ok(
                        (
                            q,
                            used + 2,
                            if gid == clip_id {
                                Some((left, right))
                            } else {
                                primary
                            },
                        ),
                    ),
                }
            }
        },
    }
}

/// The plan with the linked clips cut that a time falls into.
pub open spec fn cut_linked(
    plan: PlanV,
    used: nat,
    primary: Option<(Id, Id)>,
    group: Seq<Id>,
    clip_id: Id,
    t: TimeUs,
    new_group: Option<Id>,
    ids: Seq<Id>,
) -> Split
    decreases group.len(),
{
    if group.len() == 0 {
        Ok((plan, used, primary))
    } else {
        match cut_one(plan, used, primary, group[0], clip_id, t, new_group, ids) {
            Err(e) => Err(e),
            Ok(x) => cut_linked(
                x.0,
                x.1,
                x.2,
                group.drop_first(),
                clip_id,
                t,
                new_group,
                ids,
            ),
        }
    }
}

/// Whether a call did what a split says.
pub open spec fn cuts(r: UeResult<Option<(Id, Id)>>, plan: PlanV, used: nat, s: Split) -> bool {
    match s {
        Ok(x) => r is Ok && plan == x.0 && used == x.1 && r->Ok_0 == x.2,
        Err(e) => r is Err && r->Err_0@ == e,
    }
}

/// The error for a cut outside of a clip.
pub open spec fn cut_outside(t: TimeUs, c: ClipV) -> ErrV {
    ErrV::Invalid(
        "the cut point "@ + text::int_text(t as int) + " is outside the clip ("@ + text::int_text(
            c.start as int,
        ) + ".."@ + text::int_text(c.finish() as int) + ")"@,
    )
}

/// The split of a clip at a time, with the identifiers that it takes: the plan
/// and the two halves.
pub open spec fn split_spec(p: ProjectV, clip_id: Id, t: TimeUs, ids: Seq<Id>) -> Result<
    (PlanV, Id, Id),
    ErrV,
> {
    match model::clip_place(p, clip_id) {
        None => Err(error::missing("clip "@, clip_id)),
        Some(at) => {
            let tr = model::track_at(p, (at.0, at.1));
            let c = model::clip_at(p, at);
            let q = time::quantized(t, p.sequences[at.0].fps);
            match lock_error(tr) {
                Some(e) => Err(e),
                None => if q <= c.start || q >= c.finish() {
                    Err(cut_outside(q, c))
                } else {
                    let group = linked(p, clip_id);
                    let many = group.len() > 1;
                    match cut_linked(
                        start_plan(p),
                        if many {
                            1
                        } else {
                            0
                        },
                        None,
                        group,
                        clip_id,
                        q,
                        if many {
                            Some(ids[0])
                        } else {
                            None
                        },
                        ids,
                    ) {
                        Err(e) => Err(e),
                        Ok(x) => match x.2 {
                            Some(h) => Ok((x.0, h.0, h.1)),
                            None => Err(ErrV::Invalid("nothing to split"@)),
                        },
                    }
                },
            }
        },
    }
}

fn linked_cut_with(
    track_id: Id,
    c: &Clip,
    t: TimeUs,
    group: Option<Id>,
    left: Id,
    right: Id,
) -> (a: Action)
    ensures
        a@ == linked_cut(track_id, c@, t, group, left, right),
{
    let (l, mut r) = split_clip_data(c, minus(t, c.start), left, right);
    if let Some(g) = group {
        r.group = Some(g);
    }
    let ghost lv = l@;
    let ghost rv = r@;
    let mut insert: Vec<Clip> = Vec::new();
    insert.push(l);
    insert.push(r);
    assert(seqs::views(insert@) =~= seq![lv, rv]);
    Action::ReplaceClips { track_id, remove_ids: one_id(c.id), insert }
}

fn cut_outside_error(t: TimeUs, c: &Clip) -> (e: UeError)
    ensures
        e@ == cut_outside(t, c@),
{
    let mut s: String = copy_text("the cut point ");
    let a: String = int_to_text(t);
    s.append(a.as_str());
    s.append(" is outside the clip (");
    let b: String = int_to_text(c.start);
    s.append(b.as_str());
    s.append("..");
    let d: String = int_to_text(c.end());
    s.append(d.as_str());
    s.append(")");
    UeError::Invalid(s)
}

/// Whether a split came out as its plan says.
pub open spec fn split_is(
    r: UeResult<(Vec<Action>, Id, Id)>,
    s: Result<(PlanV, Id, Id), ErrV>,
) -> bool {
    match s {
        Ok(x) => r is Ok && seqs::views(r->Ok_0.0@) == x.0.actions && r->Ok_0.1 == x.1 && r->Ok_0.2
            == x.2,
        Err(e) => r is Err && r->Err_0@ == e,
    }
}

/// Splits a clip at a timeline time, moved to the frame grid, with new
/// identifiers from a supply. Linked clips that the time falls into are split
/// too, and their right halves become a group. Gives the actions and the two
/// halves of the clip.
pub fn split_clip_with(project: &Project, clip_id: Id, t: TimeUs, pool: &mut IdPool) -> (r:
    UeResult<(Vec<Action>, Id, Id)>)
    requires
        old(pool).wf(),
        old(pool).used == 0,
    ensures
        final(pool).wf(),
        ident::begins(final(pool).ids@, old(pool).ids@),
        forall|ids: Seq<Id>|
            #[trigger] ident::begins(ids, final(pool).ids@) ==> split_is(
                r,
                split_spec(project@, clip_id, t, ids),
            ),
        r is Ok ==> laws::run(project@, seqs::views(r->Ok_0.0@)) is Ok,
{
    let (si, ti, ci) = match project.locate_clip(clip_id) {
        Some(at) => at,
        None => {
            return Err(not_found("clip ", clip_id));
        },
    };
    let seq: &Sequence = &project.sequences[si];
    assert(project@.sequences[si as int] == seq@);
    assert(model::track_at(project@, (si as int, ti as int)) == seq.tracks@[ti as int]@);
    assert(model::clip_at(project@, (si as int, ti as int, ci as int))
        == seq.tracks@[ti as int].clips@[ci as int]@);
    if let Err(e) = ensure_unlocked(&seq.tracks[ti]) {
        return Err(e);
    }
    let clip: &Clip = &seq.tracks[ti].clips[ci];
    let q: TimeUs = quantize_to_frame(t, seq.fps);
    if q <= clip.start || q >= clip.end() {
        return Err(cut_outside_error(q, clip));
    }
    let group: Vec<Id> = linked_ids(project, clip_id);
    let mut new_group: Option<Id> = None;
    let ghost ids0 = pool.ids@;
    if group.len() > 1 {
        let g: Id = pool.take();
        new_group = Some(g);
    }
    let ghost many = group@.len() > 1;
    let ghost u1: nat = pool.used as nat;
    let ghost ids1 = pool.ids@;
    proof {
        assert forall|ids: Seq<Id>| #[trigger] ident::begins(ids, ids1) && many implies new_group == Some(
            ids[0],
        ) by {}
    }
    let mut plan: Planner = Planner::new(project);
    let primary: Option<(Id, Id)> = match cut_group(&mut plan, &group, clip_id, q, new_group, pool) {
        Ok(x) => x,
        Err(e) => {
            proof {
                lemma_begins(pool.ids@, ids1, ids0);
                assert forall|ids: Seq<Id>| #[trigger] ident::begins(ids, pool.ids@) implies ident::begins(
                    ids,
                    ids1,
                ) by {
                    lemma_begins(ids, pool.ids@, ids1);
                }
            }
            return Err(e);
        },
    };
    proof {
        lemma_begins(pool.ids@, ids1, ids0);
        assert forall|ids: Seq<Id>| #[trigger] ident::begins(ids, pool.ids@) implies ident::begins(
            ids,
            ids1,
        ) by {
            lemma_begins(ids, pool.ids@, ids1);
        }
    }
    match primary {
        Some((l, r)) => Ok((plan.finish(), l, r)),
        None => Err(invalid("nothing to split")),
    }
}

/// Cuts one linked clip, if a time falls into it.
fn cut_one_clip(
    plan: &mut Planner,
    primary: Option<(Id, Id)>,
    gid: Id,
    clip_id: Id,
    t: TimeUs,
    new_group: Option<Id>,
    pool: &mut IdPool,
) -> (r: UeResult<Option<(Id, Id)>>)
    requires
        old(pool).wf(),
    ensures
        final(pool).wf(),
        ident::begins(final(pool).ids@, old(pool).ids@),
        forall|ids: Seq<Id>|
            #[trigger] ident::begins(ids, final(pool).ids@) ==> cuts(
                r,
                final(plan)@,
                final(pool).used as nat,
                cut_one(
                    old(plan)@,
                    old(pool).used as nat,
                    primary,
                    gid,
                    clip_id,
                    t,
                    new_group,
                    ids,
                ),
            ),
        r is Ok ==> forall|p: ProjectV| #[trigger]
            replays(p, old(plan)@) ==> replays(p, final(plan)@),
{
    let (gsi, gti, gci) = match plan.proj.locate_clip(gid) {
        Some(at) => at,
        None => {
            return Ok(primary);
        },
    };
    let gclip: Clip = plan.proj.sequences[gsi].tracks[gti].clips[gci].duplicate();
    let track_id: Id = plan.proj.sequences[gsi].tracks[gti].id;
    if !(gclip.start < t && t < gclip.end()) {
        return Ok(primary);
    }
    let ghost u = pool.used as nat;
    let left: Id = pool.take();
    let ghost ids1 = pool.ids@;
    let right: Id = pool.take();
    proof {
        assert forall|ids: Seq<Id>| #[trigger] ident::begins(ids, pool.ids@) implies ids[u as int] == left
            && ids[u as int + 1] == right by {
            lemma_begins(ids, pool.ids@, ids1);
        }
        lemma_begins(pool.ids@, ids1, old(pool).ids@);
    }
    match plan.do_(linked_cut_with(track_id, &gclip, t, new_group, left, right)) {
        Ok(x) => Ok(
            if gid == clip_id {
                Some((left, right))
            } else {
                primary
            },
        ),
        Err(e) => Err(e),
    }
}

/// Cuts the linked clips that a time falls into.
fn cut_group(
    plan: &mut Planner,
    group: &Vec<Id>,
    clip_id: Id,
    t: TimeUs,
    new_group: Option<Id>,
    pool: &mut IdPool,
) -> (r: UeResult<Option<(Id, Id)>>)
    requires
        old(pool).wf(),
    ensures
        final(pool).wf(),
        ident::begins(final(pool).ids@, old(pool).ids@),
        forall|ids: Seq<Id>|
            #[trigger] ident::begins(ids, final(pool).ids@) ==> cuts(
                r,
                final(plan)@,
                final(pool).used as nat,
                cut_linked(
                    old(plan)@,
                    old(pool).used as nat,
                    None,
                    group@,
                    clip_id,
                    t,
                    new_group,
                    ids,
                ),
            ),
        r is Ok ==> forall|p: ProjectV| #[trigger]
            replays(p, old(plan)@) ==> replays(p, final(plan)@),
{
    let ghost start = plan@;
    let ghost u0 = pool.used as nat;
    let mut primary: Option<(Id, Id)> = None;
    let mut i: usize = 0;
    assert(group@.skip(0) =~= group@);
    while i < group.len()
        invariant
            i <= group.len(),
            pool.wf(),
            ident::begins(pool.ids@, old(pool).ids@),
            start == old(plan)@,
            u0 == old(pool).used as nat,
            forall|p: ProjectV| #[trigger] replays(p, start) ==> replays(p, plan@),
            forall|ids: Seq<Id>|
                #[trigger] ident::begins(ids, pool.ids@) ==> cut_linked(
                    start,
                    u0,
                    None,
                    group@,
                    clip_id,
                    t,
                    new_group,
                    ids,
                ) == cut_linked(
                    plan@,
                    pool.used as nat,
                    primary,
                    group@.skip(i as int),
                    clip_id,
                    t,
                    new_group,
                    ids,
                ),
        decreases group.len() - i,
    {
        proof {
            assert(group@.skip(i as int)[0] == group@[i as int]);
            assert(group@.skip(i as int).drop_first() =~= group@.skip(i as int + 1));
        }
        let ghost mid = plan@;
        let ghost before = pool.ids@;
        let r: UeResult<Option<(Id, Id)>> = cut_one_clip(
            plan,
            primary,
            group[i],
            clip_id,
            t,
            new_group,
            pool,
        );
        proof {
            assert forall|ids: Seq<Id>| #[trigger] ident::begins(ids, pool.ids@) implies ident::begins(
                ids,
                before,
            ) by {
                lemma_begins(ids, pool.ids@, before);
            }
            lemma_begins(pool.ids@, before, old(pool).ids@);
        }
        match r {
            Ok(x) => {
                primary = x;
                assert forall|p: ProjectV| #[trigger] replays(p, start) implies replays(
                    p,
                    plan@,
                ) by {
                    assert(replays(p, mid));
                }
            },
            Err(e) => {
                return Err(e);
            },
        }
        i = i + 1;
    }
    assert(group@.skip(i as int) =~= Seq::<Id>::empty());
    Ok(primary)
}

/// Splits a clip at a timeline time, moved to the frame grid. Linked clips that
/// the time falls into are split too, and their right halves become a group.
/// Gives the actions and the two halves of the clip; the identifiers of the
/// halves are new.
pub fn split_clip(project: &Project, clip_id: Id, t: TimeUs) -> (r: UeResult<(Vec<Action>, Id, Id)>)
    ensures
        exists|ids: Seq<Id>| split_is(r, #[trigger] split_spec(project@, clip_id, t, ids)),
        r is Ok ==> laws::run(project@, seqs::views(r->Ok_0.0@)) is Ok,
{
    let mut pool: IdPool = IdPool::new();
    let r: UeResult<(Vec<Action>, Id, Id)> = split_clip_with(project, clip_id, t, &mut pool);
    assert(ident::begins(pool.ids@, pool.ids@));
    assert(split_is(r, split_spec(project@, clip_id, t, pool.ids@)));
    r
}

// ---- freeing a range of a track ----

/// The clips that share an instant with a range, but for one left out.
pub open spec fn victims_of(
    clips: Seq<ClipV>,
    from: TimeUs,
    to: TimeUs,
    exclude: Option<Id>,
) -> Seq<ClipV>
    decreases clips.len(),
{
    if clips.len() == 0 {
        clips
    } else {
        let r = victims_of(clips.drop_last(), from, to, exclude);
        let c = clips.last();
        if Some(c.id) != exclude && c.start < to && from < c.finish() {
            r.push(c)
        } else {
            r
        }
    }
}

/// Whether a clip reaches out of a range on both sides.
pub open spec fn wraps(c: ClipV, from: TimeUs, to: TimeUs) -> bool {
    c.start < from && c.finish() > to
}

/// A media payload that starts later in its source.
pub open spec fn advanced(payload: PayloadV, by: TimeUs) -> PayloadV {
    match payload {
        PayloadV::Media { asset_id, src_in, src_out } => PayloadV::Media {
            asset_id,
            src_in: time::later(src_in, by),
            src_out,
        },
        _ => payload,
    }
}

/// The action that takes a clip out of a range: it goes, is trimmed at one
/// side, or falls in two.
pub open spec fn carve_action(
    c: ClipV,
    track_id: Id,
    from: TimeUs,
    to: TimeUs,
    left: Id,
    right: Id,
) -> ActionV {
    let source = action::source_of(c.payload);
    if c.start >= from && c.finish() <= to {
        ActionV::RemoveClip { clip_id: c.id }
    } else if c.start >= from {
        let delta = time::sooner(to, c.start);
        ActionV::SetClipBounds {
            clip_id: c.id,
            start: to,
            duration: time::sooner(c.duration, delta),
            src_in: match source.0 {
                Some(v) => Some(time::later(v, scaled_time(delta, c.speed))),
                None => None,
            },
            src_out: source.1,
        }
    } else if c.finish() <= to {
        let kept = time::sooner(from, c.start);
        ActionV::SetClipBounds {
            clip_id: c.id,
            start: c.start,
            duration: kept,
            src_in: source.0,
            src_out: match source.0 {
                Some(v) => Some(time::later(v, scaled_time(kept, c.speed))),
                None => None,
            },
        }
    } else {
        let delta = time::sooner(to, from);
        let r = right_half(c, time::sooner(from, c.start), right);
        ActionV::ReplaceClips {
            track_id,
            remove_ids: seq![c.id],
            insert: seq![
                left_half(c, time::sooner(from, c.start), left),
                ClipV {
                    start: to,
                    duration: time::sooner(r.duration, delta),
                    payload: advanced(r.payload, scaled_time(delta, c.speed)),
                    ..r
                },
            ],
        }
    }
}

/// The actions that take clips out of a range, with how many identifiers are
/// used: two for each clip that falls in two.
pub open spec fn carve_list(
    victims: Seq<ClipV>,
    track_id: Id,
    from: TimeUs,
    to: TimeUs,
    ids: Seq<Id>,
    used: nat,
) -> (Seq<ActionV>, nat)
    decreases victims.len(),
{
    if victims.len() == 0 {
        (Seq::<ActionV>::empty(), used)
    } else {
        let x = carve_list(victims.drop_last(), track_id, from, to, ids, used);
        let c = victims.last();
        (
            x.0.push(carve_action(c, track_id, from, to, ids[x.1 as int], ids[x.1 as int + 1])),
            if wraps(c, from, to) {
                x.1 + 2
            } else {
                x.1
            },
        )
    }
}

/// The plan with a range of a track freed, but for one clip.
pub open spec fn carved(
    plan: PlanV,
    track_id: Id,
    from: TimeUs,
    to: TimeUs,
    exclude: Option<Id>,
    ids: Seq<Id>,
    used: nat,
) -> Part {
    match model::track_place(plan.proj, track_id) {
        None => Err(error::missing("track "@, track_id)),
        Some(at) => {
            let x = carve_list(
                victims_of(model::track_at(plan.proj, at).clips, from, to, exclude),
                track_id,
                from,
                to,
                ids,
                used,
            );
            match planned_all(plan, x.0) {
                Err(e) => Err(e),
                Ok(q) => Ok((q, x.1)),
            }
        },
    }
}

fn find_victims(clips: &Vec<Clip>, from: TimeUs, to: TimeUs, exclude: Option<Id>) -> (r: Vec<Clip>)
    ensures
        seqs::views(r@) == victims_of(seqs::views(clips@), from, to, exclude),
{
    let mut r: Vec<Clip> = Vec::new();
    let ghost all = seqs::views(clips@);
    let mut i: usize = 0;
    assert(seqs::views(r@) =~= all.take(0));
    while i < clips.len()
        invariant
            i <= clips.len(),
            all == seqs::views(clips@),
            seqs::views(r@) == victims_of(all.take(i as int), from, to, exclude),
        decreases clips.len() - i,
    {
        let c: &Clip = &clips[i];
        proof {
            let t = all.take(i as int + 1);
            assert(t.drop_last() =~= all.take(i as int));
            assert(t.last() == c@);
        }
        let skipped: bool = match exclude {
            Some(x) => x == c.id,
            None => false,
        };
        if !skipped && c.start < to && from < c.end() {
            let ghost before = r@;
            r.push(c.duplicate());
            assert(seqs::views(r@) =~= seqs::views(before).push(c@));
        }
        i = i + 1;
    }
    assert(all.take(i as int) =~= all);
    r
}

/// The source range of a media clip.
fn media_src(c: &Clip) -> (r: (Option<TimeUs>, Option<TimeUs>))
    ensures
        r == action::source_of(c@.payload),
{
    match &c.payload {
        ClipPayload::Media { src_in, src_out, .. } => (Some(*src_in), Some(*src_out)),
        _ => (None, None),
    }
}

fn carve_with(c: &Clip, track_id: Id, from: TimeUs, to: TimeUs, left: Id, right: Id) -> (a: Action)
    ensures
        a@ == carve_action(c@, track_id, from, to, left, right),
{
    let (si, so) = media_src(c);
    if c.start >= from && c.end() <= to {
        Action::RemoveClip { clip_id: c.id }
    } else if c.start >= from {
        let delta: TimeUs = minus(to, c.start);
        Action::SetClipBounds {
            clip_id: c.id,
            start: to,
            duration: minus(c.duration, delta),
            src_in: match si {
                Some(v) => Some(plus(v, scale_time(delta, c.speed))),
                None => None,
            },
            src_out: so,
        }
    } else if c.end() <= to {
        let kept: TimeUs = minus(from, c.start);
        Action::SetClipBounds {
            clip_id: c.id,
            start: c.start,
            duration: kept,
            src_in: si,
            src_out: match si {
                Some(v) => Some(plus(v, scale_time(kept, c.speed))),
                None => None,
            },
        }
    } else {
        carve_middle(c, track_id, from, to, left, right)
    }
}

/// The action that takes the middle out of a clip.
fn carve_middle(c: &Clip, track_id: Id, from: TimeUs, to: TimeUs, left: Id, right: Id) -> (a:
    Action)
    requires
        wraps(c@, from, to),
    ensures
        a@ == carve_action(c@, track_id, from, to, left, right),
{
    let delta: TimeUs = minus(to, from);
    let (l, mut r) = split_clip_data(c, minus(from, c.start), left, right);
    let ghost half = r@;
    r.start = to;
    r.duration = minus(r.duration, delta);
    if let ClipPayload::Media { src_in, .. } = &mut r.payload {
        *src_in = plus(*src_in, scale_time(delta, c.speed));
    }
    let ghost lv = l@;
    let ghost rv = r@;
    proof {
        assert(rv == (ClipV {
            start: to,
            duration: time::sooner(half.duration, delta),
            payload: advanced(half.payload, scaled_time(delta, c.speed)),
            ..half
        }));
    }
    let mut insert: Vec<Clip> = Vec::new();
    insert.push(l);
    insert.push(r);
    assert(seqs::views(insert@) =~= seq![lv, rv]);
    Action::ReplaceClips { track_id, remove_ids: one_id(c.id), insert }
}

/// The actions that take clips out of a range.
fn carve_actions(
    victims: &Vec<Clip>,
    track_id: Id,
    from: TimeUs,
    to: TimeUs,
    pool: &mut IdPool,
) -> (r: Vec<Action>)
    requires
        old(pool).wf(),
    ensures
        final(pool).wf(),
        ident::begins(final(pool).ids@, old(pool).ids@),
        forall|ids: Seq<Id>|
            #[trigger] ident::begins(ids, final(pool).ids@) ==> carve_list(
                seqs::views(victims@),
                track_id,
                from,
                to,
                ids,
                old(pool).used as nat,
            ) == (seqs::views(r@), final(pool).used as nat),
{
    let mut r: Vec<Action> = Vec::new();
    let ghost all = seqs::views(victims@);
    let ghost u0 = pool.used as nat;
    let mut i: usize = 0;
    assert(seqs::views(r@) =~= Seq::<ActionV>::empty());
    assert(all.take(0) =~= Seq::<ClipV>::empty());
    while i < victims.len()
        invariant
            i <= victims.len(),
            all == seqs::views(victims@),
            u0 == old(pool).used as nat,
            pool.wf(),
            ident::begins(pool.ids@, old(pool).ids@),
            forall|ids: Seq<Id>|
                #[trigger] ident::begins(ids, pool.ids@) ==> carve_list(
                    all.take(i as int),
                    track_id,
                    from,
                    to,
                    ids,
                    u0,
                ) == (seqs::views(r@), pool.used as nat),
        decreases victims.len() - i,
    {
        let c: &Clip = &victims[i];
        proof {
            let t = all.take(i as int + 1);
            assert(t.drop_last() =~= all.take(i as int));
            assert(t.last() == c@);
        }
        let ghost before = r@;
        let ghost ids0 = pool.ids@;
        let ghost u = pool.used as nat;
        if c.start < from && c.end() > to {
            let left: Id = pool.take();
            let ghost ids1 = pool.ids@;
            let right: Id = pool.take();
            proof {
                assert forall|ids: Seq<Id>| #[trigger] ident::begins(ids, pool.ids@) implies ident::begins(
                    ids,
                    ids0,
                ) && ids[u as int] == left && ids[u as int + 1] == right by {
                    lemma_begins(ids, pool.ids@, ids1);
                    lemma_begins(ids, ids1, ids0);
                }
                lemma_begins(pool.ids@, ids1, ids0);
                lemma_begins(pool.ids@, ids0, old(pool).ids@);
            }
            let a: Action = carve_with(c, track_id, from, to, left, right);
            let ghost av = a@;
            r.push(a);
            assert(seqs::views(r@) =~= seqs::views(before).push(av));
        } else {
            let a: Action = carve_with(c, track_id, from, to, c.id, c.id);
            let ghost av = a@;
            r.push(a);
            proof {
                assert(seqs::views(r@) =~= seqs::views(before).push(av));
                assert forall|x: Id, y: Id| #[trigger]
                    carve_action(c@, track_id, from, to, x, y) == av by {}
            }
        }
        i = i + 1;
    }
    assert(all.take(i as int) =~= all);
    r
}

/// Frees a range of a track, but for one clip: what lies in it goes, is
/// trimmed or falls in two.
pub fn carve_range(
    plan: &mut Planner,
    track_id: Id,
    from: TimeUs,
    to: TimeUs,
    exclude: Option<Id>,
    pool: &mut IdPool,
) -> (r: UeResult<()>)
    requires
        old(pool).wf(),
    ensures
        final(pool).wf(),
        ident::begins(final(pool).ids@, old(pool).ids@),
        forall|ids: Seq<Id>|
            #[trigger] ident::begins(ids, final(pool).ids@) ==> goes(
                r,
                final(plan)@,
                final(pool).used as nat,
                carved(old(plan)@, track_id, from, to, exclude, ids, old(pool).used as nat),
            ),
        r is Ok ==> forall|p: ProjectV| #[trigger]
            replays(p, old(plan)@) ==> replays(p, final(plan)@),
{
    let victims: Vec<Clip> = match plan.proj.track(track_id) {
        Some(t) => find_victims(&t.clips, from, to, exclude),
        None => {
            return Err(not_found("track ", track_id));
        },
    };
    let list: Vec<Action> = carve_actions(&victims, track_id, from, to, pool);
    plan.do_all(list)
}

// ---- inserting ----

/// What an insertion does with clips that are in the way.
#[derive(Clone, Copy, PartialEq, Eq, Structural, Debug)]
pub enum InsertMode {
    /// It fails.
    Strict,
    /// It trims or deletes what lies underneath.
    Overwrite,
}

/// Whether a list of actions is that of a plan.
pub open spec fn plans(r: UeResult<Vec<Action>>, s: Result<PlanV, ErrV>) -> bool {
    match s {
        Ok(x) => r is Ok && seqs::views(r->Ok_0@) == x.actions,
        Err(e) => r is Err && r->Err_0@ == e,
    }
}

/// The plan of an insertion, with the identifiers that it takes.
pub open spec fn insert_spec(
    p: ProjectV,
    track_id: Id,
    clip: ClipV,
    mode: InsertMode,
    ids: Seq<Id>,
) -> Result<PlanV, ErrV> {
    match model::track_place(p, track_id) {
        None => Err(error::missing("track "@, track_id)),
        Some(at) => match lock_error(model::track_at(p, at)) {
            Some(e) => Err(e),
            None => {
                let freed = if mode == InsertMode::Overwrite {
                    carved(start_plan(p), track_id, clip.start, clip.finish(), None, ids, 0)
                } else {
                    Ok((start_plan(p), 0nat))
                };
                match freed {
                    Err(e) => Err(e),
                    Ok(x) => planned(x.0, ActionV::InsertClip { track_id, clip }),
                }
            },
        },
    }
}

/// Plans the insertion of a clip on a track, with new identifiers from a
/// supply. In the overwriting mode what lies underneath is trimmed.
pub fn insert_clip_with(
    project: &Project,
    track_id: Id,
    clip: Clip,
    mode: InsertMode,
    pool: &mut IdPool,
) -> (r: UeResult<Vec<Action>>)
    requires
        old(pool).wf(),
        old(pool).used == 0,
    ensures
        final(pool).wf(),
        ident::begins(final(pool).ids@, old(pool).ids@),
        forall|ids: Seq<Id>|
            #[trigger] ident::begins(ids, final(pool).ids@) ==> plans(
                r,
                insert_spec(project@, track_id, clip@, mode, ids),
            ),
        r is Ok ==> laws::run(project@, seqs::views(r->Ok_0@)) is Ok,
{
    match project.track(track_id) {
        None => {
            return Err(not_found("track ", track_id));
        },
        Some(t) => {
            if let Err(e) = ensure_unlocked(t) {
                return Err(e);
            }
        },
    }
    let mut plan: Planner = Planner::new(project);
    if mode == InsertMode::Overwrite {
        if let Err(e) = carve_range(&mut plan, track_id, clip.start, clip.end(), None, pool) {
            return Err(e);
        }
    }
    if let Err(e) = plan.do_(Action::InsertClip { track_id, clip }) {
        return Err(e);
    }
    Ok(plan.finish())
}

/// Plans the insertion of a clip on a track. In the overwriting mode what lies
/// underneath is trimmed.
pub fn insert_clip(project: &Project, track_id: Id, clip: Clip, mode: InsertMode) -> (r: UeResult<
    Vec<Action>,
>)
    ensures
        exists|ids: Seq<Id>|
            plans(r, #[trigger] insert_spec(project@, track_id, clip@, mode, ids)),
        r is Ok ==> laws::run(project@, seqs::views(r->Ok_0@)) is Ok,
{
    let mut pool: IdPool = IdPool::new();
    let ghost cv = clip@;
    let r: UeResult<Vec<Action>> = insert_clip_with(project, track_id, clip, mode, &mut pool);
    assert(ident::begins(pool.ids@, pool.ids@));
    assert(plans(r, insert_spec(project@, track_id, cv, mode, pool.ids@)));
    r
}

// ---- moving ----

/// The plan with one clip moved, its way freed where things are overwritten.
pub open spec fn moved_one(
    plan: PlanV,
    clip_id: Id,
    to_track: Id,
    to_start: TimeUs,
    duration: TimeUs,
    mode: InsertMode,
    ids: Seq<Id>,
    used: nat,
) -> Part {
    let freed = if mode == InsertMode::Overwrite {
        carved(plan, to_track, to_start, time::later(to_start, duration), Some(clip_id), ids, used)
    } else {
        Ok((plan, used))
    };
    match freed {
        Err(e) => Err(e),
        Ok(x) => match planned(x.0, ActionV::MoveClipToTrack { clip_id, to_track, to_start }) {
            Err(e) => Err(e),
            Ok(q) => Ok((q, x.1)),
        },
    }
}

/// The plan with the linked clips shifted on their own tracks.
pub open spec fn moved_linked(
    plan: PlanV,
    group: Seq<Id>,
    clip_id: Id,
    delta: TimeUs,
    mode: InsertMode,
    ids: Seq<Id>,
    used: nat,
) -> Part
    decreases group.len(),
{
    if group.len() == 0 {
        Ok((plan, used))
    } else {
        let rest = group.drop_first();
        let gid = group[0];
        match model::clip_place(plan.proj, gid) {
            None => moved_linked(plan, rest, clip_id, delta, mode, ids, used),
            Some(at) => if gid == clip_id {
                moved_linked(plan, rest, clip_id, delta, mode, ids, used)
            } else {
                let c = model::clip_at(plan.proj, at);
                match moved_one(
                    plan,
                    gid,
                    model::track_at(plan.proj, (at.0, at.1)).id,
                    time::max_time(time::later(c.start, delta), 0),
                    c.duration,
                    mode,
                    ids,
                    used,
                ) {
                    Err(e) => Err(e),
                    Ok(x) => moved_linked(x.0, rest, clip_id, delta, mode, ids, x.1),
                }
            },
        }
    }
}

/// The plan of a move, with the identifiers that it takes.
pub open spec fn move_spec(
    p: ProjectV,
    clip_id: Id,
    to_track: Id,
    to_start: TimeUs,
    mode: InsertMode,
    ids: Seq<Id>,
) -> Result<PlanV, ErrV> {
    match model::clip_place(p, clip_id) {
        None => Err(error::missing("clip "@, clip_id)),
        Some(at) => match lock_error(model::track_at(p, (at.0, at.1))) {
            Some(e) => Err(e),
            None => match model::track_place(p, to_track) {
                None => Err(error::missing("track "@, to_track)),
                Some(to) => match lock_error(model::track_at(p, to)) {
                    Some(e) => Err(e),
                    None => {
                        let c = model::clip_at(p, at);
                        let dest = time::quantized(time::max_time(to_start, 0), p.sequences[at.0].fps);
                        let delta = time::sooner(dest, c.start);
                        match moved_one(
                            start_plan(p),
                            clip_id,
                            to_track,
                            dest,
                            c.duration,
                            mode,
                            ids,
                            0,
                        ) {
                            Err(e) => Err(e),
                            Ok(x) => if delta == 0 {
                                Ok(x.0)
                            } else {
                                match moved_linked(
                                    x.0,
                                    linked(p, clip_id),
                                    clip_id,
                                    delta,
                                    mode,
                                    ids,
                                    x.1,
                                ) {
                                    Err(e) => Err(e),
                                    Ok(y) => Ok(y.0),
                                }
                            },
                        }
                    },
                },
            },
        },
    }
}

fn move_one(
    plan: &mut Planner,
    clip_id: Id,
    to_track: Id,
    to_start: TimeUs,
    duration: TimeUs,
    mode: InsertMode,
    pool: &mut IdPool,
) -> (r: UeResult<()>)
    requires
        old(pool).wf(),
    ensures
        final(pool).wf(),
        ident::begins(final(pool).ids@, old(pool).ids@),
        forall|ids: Seq<Id>|
            #[trigger] ident::begins(ids, final(pool).ids@) ==> goes(
                r,
                final(plan)@,
                final(pool).used as nat,
                moved_one(
                    old(plan)@,
                    clip_id,
                    to_track,
                    to_start,
                    duration,
                    mode,
                    ids,
                    old(pool).used as nat,
                ),
            ),
        r is Ok ==> forall|p: ProjectV| #[trigger]
            replays(p, old(plan)@) ==> replays(p, final(plan)@),
{
    let ghost start = plan@;
    if mode == InsertMode::Overwrite {
        if let Err(e) = carve_range(
            plan,
            to_track,
            to_start,
            plus(to_start, duration),
            Some(clip_id),
            pool,
        ) {
            return Err(e);
        }
    }
    let ghost mid = plan@;
    let r: UeResult<()> = plan.do_(Action::MoveClipToTrack { clip_id, to_track, to_start });
    proof {
        if r is Ok {
            assert forall|p: ProjectV| #[trigger] replays(p, start) implies replays(p, plan@) by {
                assert(replays(p, mid));
            }
        }
    }
    r
}

fn move_linked(
    plan: &mut Planner,
    group: &Vec<Id>,
    clip_id: Id,
    delta: TimeUs,
    mode: InsertMode,
    pool: &mut IdPool,
) -> (r: UeResult<()>)
    requires
        old(pool).wf(),
    ensures
        final(pool).wf(),
        ident::begins(final(pool).ids@, old(pool).ids@),
        forall|ids: Seq<Id>|
            #[trigger] ident::begins(ids, final(pool).ids@) ==> goes(
                r,
                final(plan)@,
                final(pool).used as nat,
                moved_linked(
                    old(plan)@,
                    group@,
                    clip_id,
                    delta,
                    mode,
                    ids,
                    old(pool).used as nat,
                ),
            ),
        r is Ok ==> forall|p: ProjectV| #[trigger]
            replays(p, old(plan)@) ==> replays(p, final(plan)@),
{
    let ghost start = plan@;
    let ghost u0 = pool.used as nat;
    let mut i: usize = 0;
    assert(group@.skip(0) =~= group@);
    while i < group.len()
        invariant
            i <= group.len(),
            pool.wf(),
            ident::begins(pool.ids@, old(pool).ids@),
            start == old(plan)@,
            u0 == old(pool).used as nat,
            forall|p: ProjectV| #[trigger] replays(p, start) ==> replays(p, plan@),
            forall|ids: Seq<Id>|
                #[trigger] ident::begins(ids, pool.ids@) ==> moved_linked(
                    start,
                    group@,
                    clip_id,
                    delta,
                    mode,
                    ids,
                    u0,
                ) == moved_linked(
                    plan@,
                    group@.skip(i as int),
                    clip_id,
                    delta,
                    mode,
                    ids,
                    pool.used as nat,
                ),
        decreases group.len() - i,
    {
        let gid: Id = group[i];
        proof {
            assert(group@.skip(i as int)[0] == gid);
            assert(group@.skip(i as int).drop_first() =~= group@.skip(i as int + 1));
        }
        if gid != clip_id {
            if let Some((si, ti, ci)) = plan.proj.locate_clip(gid) {
                let track_id: Id = plan.proj.sequences[si].tracks[ti].id;
                let to_start: TimeUs = max2(
                    plus(plan.proj.sequences[si].tracks[ti].clips[ci].start, delta),
                    0,
                );
                let duration: TimeUs = plan.proj.sequences[si].tracks[ti].clips[ci].duration;
                let ghost mid = plan@;
                let ghost before = pool.ids@;
                let r: UeResult<()> = move_one(
                    plan,
                    gid,
                    track_id,
                    to_start,
                    duration,
                    mode,
                    pool,
                );
                proof {
                    assert forall|ids: Seq<Id>| #[trigger] ident::begins(ids, pool.ids@) implies ident::begins(
                        ids,
                        before,
                    ) by {
                        lemma_begins(ids, pool.ids@, before);
                    }
                    lemma_begins(pool.ids@, before, old(pool).ids@);
                }
                match r {
                    Ok(x) => {
                        assert forall|p: ProjectV| #[trigger] replays(p, start) implies replays(
                            p,
                            plan@,
                        ) by {
                            assert(replays(p, mid));
                        }
                    },
                    Err(e) => {
                        return Err(e);
                    },
                }
            }
        }
        i = i + 1;
    }
    assert(group@.skip(i as int) =~= Seq::<Id>::empty());
    Ok(())
}

/// Plans the move of a clip, to another track or in time, with new identifiers
/// from a supply. Linked clips shift by as much on their own tracks.
pub fn move_clip_with(
    project: &Project,
    clip_id: Id,
    to_track: Id,
    to_start: TimeUs,
    mode: InsertMode,
    pool: &mut IdPool,
) -> (r: UeResult<Vec<Action>>)
    requires
        old(pool).wf(),
        old(pool).used == 0,
    ensures
        final(pool).wf(),
        ident::begins(final(pool).ids@, old(pool).ids@),
        forall|ids: Seq<Id>|
            #[trigger] ident::begins(ids, final(pool).ids@) ==> plans(
                r,
                move_spec(project@, clip_id, to_track, to_start, mode, ids),
            ),
        r is Ok ==> laws::run(project@, seqs::views(r->Ok_0@)) is Ok,
{
    let (si, ti, ci) = match project.locate_clip(clip_id) {
        Some(at) => at,
        None => {
            return Err(not_found("clip ", clip_id));
        },
    };
    let seq: &Sequence = &project.sequences[si];
    assert(project@.sequences[si as int] == seq@);
    assert(model::track_at(project@, (si as int, ti as int)) == seq.tracks@[ti as int]@);
    assert(model::clip_at(project@, (si as int, ti as int, ci as int))
        == seq.tracks@[ti as int].clips@[ci as int]@);
    if let Err(e) = ensure_unlocked(&seq.tracks[ti]) {
        return Err(e);
    }
    match project.track(to_track) {
        None => {
            return Err(not_found("track ", to_track));
        },
        Some(t) => {
            if let Err(e) = ensure_unlocked(t) {
                return Err(e);
            }
        },
    }
    let dest: TimeUs = quantize_to_frame(max2(to_start, 0), seq.fps);
    let old_start: TimeUs = seq.tracks[ti].clips[ci].start;
    let duration: TimeUs = seq.tracks[ti].clips[ci].duration;
    let delta: TimeUs = minus(dest, old_start);
    let mut plan: Planner = Planner::new(project);
    if let Err(e) = move_one(&mut plan, clip_id, to_track, dest, duration, mode, pool) {
        return Err(e);
    }
    if delta != 0 {
        let group: Vec<Id> = linked_ids(project, clip_id);
        let ghost before = pool.ids@;
        let r: UeResult<()> = move_linked(&mut plan, &group, clip_id, delta, mode, pool);
        proof {
            assert forall|ids: Seq<Id>| #[trigger] ident::begins(ids, pool.ids@) implies ident::begins(
                ids,
                before,
            ) by {
                lemma_begins(ids, pool.ids@, before);
            }
            lemma_begins(pool.ids@, before, old(pool).ids@);
        }
        if let Err(e) = r {
            return Err(e);
        }
    }
    Ok(plan.finish())
}

/// Plans the move of a clip, to another track or in time. Linked clips shift by
/// as much on their own tracks.
pub fn move_clip(
    project: &Project,
    clip_id: Id,
    to_track: Id,
    to_start: TimeUs,
    mode: InsertMode,
) -> (r: UeResult<Vec<Action>>)
    ensures
        exists|ids: Seq<Id>|
            plans(r, #[trigger] move_spec(project@, clip_id, to_track, to_start, mode, ids)),
        r is Ok ==> laws::run(project@, seqs::views(r->Ok_0@)) is Ok,
{
    let mut pool: IdPool = IdPool::new();
    let r: UeResult<Vec<Action>> = move_clip_with(
        project,
        clip_id,
        to_track,
        to_start,
        mode,
        &mut pool,
    );
    assert(ident::begins(pool.ids@, pool.ids@));
    assert(plans(r, move_spec(project@, clip_id, to_track, to_start, mode, pool.ids@)));
    r
}

// ---- trimming ----

/// How long the material of a clip is. None is for what has no end: stills
/// hold for any length, and what is not media has no material.
pub open spec fn material_length(p: ProjectV, c: ClipV) -> Option<TimeUs> {
    match c.payload {
        PayloadV::Media { asset_id, src_in, src_out } => match model::asset_of(p, asset_id) {
            Some(a) => if a.kind == MediaKind::Image {
                None
            } else {
                Some(a.probe.duration_us)
            },
            None => None,
        },
        _ => None,
    }
}

fn asset_duration(project: &Project, clip: &Clip) -> (r: Option<TimeUs>)
    ensures
        r == material_length(project@, clip@),
{
    match &clip.payload {
        ClipPayload::Media { asset_id, .. } => match project.asset(*asset_id) {
            Some(a) => if a.kind == MediaKind::Image {
                None
            } else {
                Some(a.probe.duration_us)
            },
            None => None,
        },
        _ => None,
    }
}

/// A time moved into a range.
pub open spec fn clamped(t: TimeUs, lo: TimeUs, hi: TimeUs) -> TimeUs {
    if t < lo {
        lo
    } else if t > hi {
        hi
    } else {
        t
    }
}

/// Moves a time into a range.
pub fn clamp_time(t: TimeUs, lo: TimeUs, hi: TimeUs) -> (r: TimeUs)
    ensures
        r == clamped(t, lo, hi),
{
    if t < lo {
        lo
    } else if t > hi {
        hi
    } else {
        t
    }
}

/// A quarter of the way to the first time: where nothing bounds an edge.
pub const FAR_LEFT: i64 = -2305843009213693952;

/// A quarter of the way to the last time: where nothing bounds an edge.
pub const FAR_RIGHT: i64 = 2305843009213693951;

/// The earliest and the latest place of an edge that is trimmed: a frame must
/// be left, and the material bounds how far the clip can grow.
pub open spec fn trim_limits(p: ProjectV, c: ClipV, left: bool, frame: TimeUs) -> (TimeUs, TimeUs) {
    let source = action::source_of(c.payload);
    if left {
        (
            time::max_time(
                match source.0 {
                    Some(v) => time::sooner(c.start, divided_time(v, c.speed)),
                    None => FAR_LEFT,
                },
                0,
            ),
            time::sooner(c.finish(), frame),
        )
    } else {
        (
            time::later(c.start, frame),
            match source.0 {
                Some(v) => match material_length(p, c) {
                    Some(d) => time::later(c.start, divided_time(time::sooner(d, v), c.speed)),
                    None => FAR_RIGHT,
                },
                None => FAR_RIGHT,
            },
        )
    }
}

/// A time that is no later than the end of the material, where that is known.
pub open spec fn before_end(t: TimeUs, length: Option<TimeUs>) -> TimeUs {
    match length {
        Some(d) => time::min_time(t, d),
        None => t,
    }
}

/// The action that moves an edge of a clip. The source does not reach out of
/// the material, whose length is given.
pub open spec fn trim_action(c: ClipV, left: bool, edge: TimeUs, length: Option<TimeUs>) -> ActionV {
    let source = action::source_of(c.payload);
    if left {
        let delta = time::sooner(edge, c.start);
        ActionV::SetClipBounds {
            clip_id: c.id,
            start: edge,
            duration: time::sooner(c.duration, delta),
            src_in: match source.0 {
                Some(v) => Some(time::max_time(time::later(v, scaled_time(delta, c.speed)), 0)),
                None => None,
            },
            src_out: source.1,
        }
    } else {
        let duration = time::sooner(edge, c.start);
        ActionV::SetClipBounds {
            clip_id: c.id,
            start: c.start,
            duration,
            src_in: source.0,
            src_out: match source.0 {
                Some(v) => Some(
                    before_end(time::later(v, scaled_time(duration, c.speed)), length),
                ),
                None => None,
            },
        }
    }
}

/// The plan of a trim.
pub open spec fn trim_spec(p: ProjectV, clip_id: Id, left: bool, new_edge: TimeUs) -> Result<
    PlanV,
    ErrV,
> {
    match model::clip_place(p, clip_id) {
        None => Err(error::missing("clip "@, clip_id)),
        Some(at) => match lock_error(model::track_at(p, (at.0, at.1))) {
            Some(e) => Err(e),
            None => {
                let c = model::clip_at(p, at);
                let fps = p.sequences[at.0].fps;
                let limits = trim_limits(p, c, left, time::frame_length(fps));
                if limits.0 > limits.1 {
                    Err(ErrV::Invalid("the clip has no room to be trimmed"@))
                } else {
                    planned(
                        start_plan(p),
                        trim_action(
                            c,
                            left,
                            clamped(time::quantized(new_edge, fps), limits.0, limits.1),
                            material_length(p, c),
                        ),
                    )
                }
            },
        },
    }
}

fn trim_bounds(project: &Project, c: &Clip, left: bool, frame: TimeUs) -> (r: (TimeUs, TimeUs))
    ensures
        r == trim_limits(project@, c@, left, frame),
{
    let (si, so) = media_src(c);
    if left {
        let lo: TimeUs = match si {
            Some(v) => minus(c.start, divide_time(v, c.speed)),
            None => FAR_LEFT,
        };
        (max2(lo, 0), minus(c.end(), frame))
    } else {
        let hi: TimeUs = match si {
            Some(v) => match asset_duration(project, c) {
                Some(d) => plus(c.start, divide_time(minus(d, v), c.speed)),
                None => FAR_RIGHT,
            },
            None => FAR_RIGHT,
        };
        (plus(c.start, frame), hi)
    }
}

fn trim_with(c: &Clip, left: bool, edge: TimeUs, length: Option<TimeUs>) -> (a: Action)
    ensures
        a@ == trim_action(c@, left, edge, length),
{
    let (si, so) = media_src(c);
    if left {
        let delta: TimeUs = minus(edge, c.start);
        Action::SetClipBounds {
            clip_id: c.id,
            start: edge,
            duration: minus(c.duration, delta),
            src_in: match si {
                Some(v) => Some(max2(plus(v, scale_time(delta, c.speed)), 0)),
                None => None,
            },
            src_out: so,
        }
    } else {
        let duration: TimeUs = minus(edge, c.start);
        Action::SetClipBounds {
            clip_id: c.id,
            start: c.start,
            duration,
            src_in: si,
            src_out: match si {
                Some(v) => {
                    let out: TimeUs = plus(v, scale_time(duration, c.speed));
                    Some(
                        match length {
                            Some(d) => min2(out, d),
                            None => out,
                        },
                    )
                },
                None => None,
            },
        }
    }
}

/// Plans the trim of one edge of a clip to a timeline time, moved to the frame
/// grid. The edge stops where the material runs out, and a frame is left of
/// the clip.
pub fn trim_clip(project: &Project, clip_id: Id, left: bool, new_edge: TimeUs) -> (r: UeResult<
    Vec<Action>,
>)
    ensures
        plans(r, trim_spec(project@, clip_id, left, new_edge)),
        r is Ok ==> laws::run(project@, seqs::views(r->Ok_0@)) is Ok,
{
    let (si, ti, ci) = match project.locate_clip(clip_id) {
        Some(at) => at,
        None => {
            return Err(not_found("clip ", clip_id));
        },
    };
    let seq: &Sequence = &project.sequences[si];
    assert(project@.sequences[si as int] == seq@);
    assert(model::track_at(project@, (si as int, ti as int)) == seq.tracks@[ti as int]@);
    assert(model::clip_at(project@, (si as int, ti as int, ci as int))
        == seq.tracks@[ti as int].clips@[ci as int]@);
    if let Err(e) = ensure_unlocked(&seq.tracks[ti]) {
        return Err(e);
    }
    let clip: &Clip = &seq.tracks[ti].clips[ci];
    let (lo, hi) = trim_bounds(project, clip, left, frame_duration_us(seq.fps));
    if lo > hi {
        return Err(invalid("the clip has no room to be trimmed"));
    }
    let edge: TimeUs = clamp_time(quantize_to_frame(new_edge, seq.fps), lo, hi);
    let mut plan: Planner = Planner::new(project);
    if let Err(e) = plan.do_(trim_with(clip, left, edge, asset_duration(project, clip))) {
        return Err(e);
    }
    Ok(plan.finish())
}

// ---- speed ----

/// The bit pattern of 0.05: the slowest speed.
pub const SLOWEST_BITS: u64 = 0x3FA9_9999_9999_999A;

/// The start of the first clip after a time.
pub open spec fn next_start(clips: Seq<ClipV>, after: TimeUs) -> Option<TimeUs>
    decreases clips.len(),
{
    if clips.len() == 0 {
        None
    } else {
        let r = next_start(clips.drop_last(), after);
        let s = clips.last().start;
        if s > after {
            match r {
                Some(m) => Some(time::min_time(m, s)),
                None => Some(s),
            }
        } else {
            r
        }
    }
}

fn find_next_start(clips: &Vec<Clip>, after: TimeUs) -> (r: Option<TimeUs>)
    ensures
        r == next_start(seqs::views(clips@), after),
{
    let mut r: Option<TimeUs> = None;
    let ghost all = seqs::views(clips@);
    let mut i: usize = 0;
    while i < clips.len()
        invariant
            i <= clips.len(),
            all == seqs::views(clips@),
            r == next_start(all.take(i as int), after),
        decreases clips.len() - i,
    {
        proof {
            let t = all.take(i as int + 1);
            assert(t.drop_last() =~= all.take(i as int));
            assert(t.last() == clips@[i as int]@);
        }
        let s: TimeUs = clips[i].start;
        if s > after {
            r = match r {
                Some(m) => Some(min2(m, s)),
                None => Some(s),
            };
        }
        i = i + 1;
    }
    assert(all.take(i as int) =~= all);
    r
}

/// The duration that a length of material takes at a speed: whole frames, and
/// at least one.
pub open spec fn stretched(length: TimeUs, speed: Real, fps: (u32, u32)) -> TimeUs {
    time::max_time(time::quantized(divided_time(length, speed), fps), time::frame_length(fps))
}

/// The duration of a clip at a speed: where it would run into the next clip it
/// ends there.
pub open spec fn fitted(duration: TimeUs, start: TimeUs, next: Option<TimeUs>, fps: (u32, u32)) -> TimeUs {
    match next {
        Some(n) => if duration > time::sooner(n, start) {
            time::max_time(time::quantized(time::sooner(n, start), fps), time::frame_length(fps))
        } else {
            duration
        },
        None => duration,
    }
}

/// The plan of a change of speed.
pub open spec fn speed_spec(p: ProjectV, clip_id: Id, speed: Real) -> Result<PlanV, ErrV> {
    if !((Real { bits: SLOWEST_BITS }).at_most(speed) && speed.at_most(Real::of(20))) {
        Err(ErrV::Invalid("speed out of range (0.05–20)"@))
    } else {
        match model::clip_place(p, clip_id) {
            None => Err(error::missing("clip "@, clip_id)),
            Some(at) => {
                let t = model::track_at(p, (at.0, at.1));
                let c = model::clip_at(p, at);
                let fps = p.sequences[at.0].fps;
                match lock_error(t) {
                    Some(e) => Err(e),
                    None => match c.payload {
                        PayloadV::Media { asset_id, src_in, src_out } => planned(
                            start_plan(p),
                            ActionV::SetClipSpeed {
                                clip_id,
                                speed,
                                duration: fitted(
                                    stretched(time::sooner(src_out, src_in), speed, fps),
                                    c.start,
                                    next_start(t.clips, c.start),
                                    fps,
                                ),
                            },
                        ),
                        _ => Err(ErrV::Invalid("only media clips have speed"@)),
                    },
                }
            },
        }
    }
}

/// The duration that a length of material takes at a speed.
pub fn stretch(length: TimeUs, speed: Real, fps: (u32, u32)) -> (d: TimeUs)
    ensures
        d == stretched(length, speed, fps),
{
    max2(quantize_to_frame(divide_time(length, speed), fps), frame_duration_us(fps))
}

/// Plans another speed for a media clip: the same material in a duration of
/// whole frames. A slower clip ends where the next one starts.
pub fn set_clip_speed(project: &Project, clip_id: Id, speed: Real) -> (r: UeResult<Vec<Action>>)
    ensures
        plans(r, speed_spec(project@, clip_id, speed)),
        r is Ok ==> laws::run(project@, seqs::views(r->Ok_0@)) is Ok,
{
    let slowest: Real = Real { bits: SLOWEST_BITS };
    if !(slowest.le(speed) && speed.le(Real::from_int(20))) {
        return Err(invalid("speed out of range (0.05–20)"));
    }
    let (si, ti, ci) = match project.locate_clip(clip_id) {
        Some(at) => at,
        None => {
            return Err(not_found("clip ", clip_id));
        },
    };
    let seq: &Sequence = &project.sequences[si];
    assert(project@.sequences[si as int] == seq@);
    assert(model::track_at(project@, (si as int, ti as int)) == seq.tracks@[ti as int]@);
    assert(model::clip_at(project@, (si as int, ti as int, ci as int))
        == seq.tracks@[ti as int].clips@[ci as int]@);
    if let Err(e) = ensure_unlocked(&seq.tracks[ti]) {
        return Err(e);
    }
    let clip: &Clip = &seq.tracks[ti].clips[ci];
    let length: TimeUs = match &clip.payload {
        ClipPayload::Media { src_in, src_out, .. } => minus(*src_out, *src_in),
        _ => {
            return Err(invalid("only media clips have speed"));
        },
    };
    let mut duration: TimeUs = stretch(length, speed, seq.fps);
    if let Some(n) = find_next_start(&seq.tracks[ti].clips, clip.start) {
        let gap: TimeUs = minus(n, clip.start);
        if duration > gap {
            duration = max2(quantize_to_frame(gap, seq.fps), frame_duration_us(seq.fps));
        }
    }
    let mut plan: Planner = Planner::new(project);
    if let Err(e) = plan.do_(Action::SetClipSpeed { clip_id, speed, duration }) {
        return Err(e);
    }
    Ok(plan.finish())
}

// ---- deleting ----

/// A list of identifiers with those of another that are new to it.
pub open spec fn with_new(list: Seq<Id>, more: Seq<Id>) -> Seq<Id>
    decreases more.len(),
{
    if more.len() == 0 {
        list
    } else {
        let r = with_new(list, more.drop_last());
        if r.contains(more.last()) {
            r
        } else {
            r.push(more.last())
        }
    }
}

/// Clips with all that are linked to the first `n` of them.
pub open spec fn with_linked(p: ProjectV, ids: Seq<Id>, n: nat) -> Seq<Id>
    decreases n,
{
    if n == 0 {
        ids
    } else {
        with_new(with_linked(p, ids, (n - 1) as nat), linked(p, ids[n - 1]))
    }
}

/// The tracks of clips, or why one of them cannot be deleted.
pub open spec fn tracks_of(p: ProjectV, ids: Seq<Id>) -> Result<Seq<Id>, ErrV>
    decreases ids.len(),
{
    if ids.len() == 0 {
        Ok(Seq::<Id>::empty())
    } else {
        match tracks_of(p, ids.drop_last()) {
            Err(e) => Err(e),
            Ok(r) => match model::clip_place(p, ids.last()) {
                None => Err(error::missing("clip "@, ids.last())),
                Some(at) => match lock_error(model::track_at(p, (at.0, at.1))) {
                    Some(e) => Err(e),
                    None => Ok(r.push(model::track_at(p, (at.0, at.1)).id)),
                },
            },
        }
    }
}

/// The first identifier of a list that is not smaller, or the count.
pub open spec fn id_place(list: Seq<Id>, id: Id) -> nat
    decreases list.len(),
{
    if list.len() == 0 || list[0].value >= id.value {
        0
    } else {
        1 + id_place(list.drop_first(), id)
    }
}

/// Identifiers in increasing order, each once.
pub open spec fn ordered_ids(ids: Seq<Id>) -> Seq<Id>
    decreases ids.len(),
{
    if ids.len() == 0 {
        ids
    } else {
        let r = ordered_ids(ids.drop_last());
        let i = id_place(r, ids.last()) as int;
        if i < r.len() && r[i] == ids.last() {
            r
        } else {
            r.insert(i, ids.last())
        }
    }
}

/// The clips on one track.
pub open spec fn ids_on(ids: Seq<Id>, tracks: Seq<Id>, track_id: Id) -> Seq<Id>
    decreases ids.len(),
{
    if ids.len() == 0 || tracks.len() == 0 {
        Seq::<Id>::empty()
    } else {
        let r = ids_on(ids.drop_last(), tracks.drop_last(), track_id);
        if tracks.last() == track_id {
            r.push(ids.last())
        } else {
            r
        }
    }
}

/// The time that a clip of a list takes up; nothing where it is missing.
pub open spec fn range_of(clips: Seq<ClipV>, id: Id) -> (TimeUs, TimeUs) {
    if seqs::holds(clips, id) {
        let c = clips[seqs::pos(clips, id) as int];
        (c.start, c.finish())
    } else {
        (0, 0)
    }
}

/// The sum of the ranges that end by a time.
pub open spec fn gone_before(ranges: Seq<(TimeUs, TimeUs)>, t: TimeUs) -> TimeUs
    decreases ranges.len(),
{
    if ranges.len() == 0 {
        0
    } else {
        let r = gone_before(ranges.drop_last(), t);
        let x = ranges.last();
        if x.1 <= t {
            time::later(r, time::sooner(x.1, x.0))
        } else {
            r
        }
    }
}

/// The actions that close the gaps that ranges leave: each clip moves left by
/// what went before it.
pub open spec fn close_gaps(clips: Seq<ClipV>, ranges: Seq<(TimeUs, TimeUs)>) -> Seq<ActionV>
    decreases clips.len(),
{
    if clips.len() == 0 {
        Seq::<ActionV>::empty()
    } else {
        let r = close_gaps(clips.drop_last(), ranges);
        let c = clips.last();
        let shift = gone_before(ranges, c.start);
        if shift > 0 {
            r.push(shift_action(c, time::sooner(c.start, shift)))
        } else {
            r
        }
    }
}

/// The action that gives a clip another start.
pub open spec fn shift_action(c: ClipV, start: TimeUs) -> ActionV {
    ActionV::SetClipBounds {
        clip_id: c.id,
        start,
        duration: c.duration,
        src_in: None,
        src_out: None,
    }
}

/// The plan with the clips of one track deleted and, with ripple, the gaps
/// closed.
#[verifier::opaque]
pub open spec fn delete_on(
    plan: PlanV,
    p: ProjectV,
    track_id: Id,
    ids: Seq<Id>,
    ripple: bool,
) -> Result<PlanV, ErrV> {
    let removed = action::sorted_ranges(ids.map_values(|id: Id| range_of(clips_on(p, track_id), id)));
    match planned_all(plan, ids.map_values(|id: Id| ActionV::RemoveClip { clip_id: id })) {
        Err(e) => Err(e),
        Ok(q) => if ripple {
            planned_all(q, close_gaps(clips_on(q.proj, track_id), removed))
        } else {
            Ok(q)
        },
    }
}

/// The plan with clips deleted on one track after the other.
pub open spec fn delete_tracks(
    plan: PlanV,
    p: ProjectV,
    order: Seq<Id>,
    ids: Seq<Id>,
    tracks: Seq<Id>,
    ripple: bool,
) -> Result<PlanV, ErrV>
    decreases order.len(),
{
    if order.len() == 0 {
        Ok(plan)
    } else {
        match delete_on(plan, p, order[0], ids_on(ids, tracks, order[0]), ripple) {
            Err(e) => Err(e),
            Ok(q) => delete_tracks(q, p, order.drop_first(), ids, tracks, ripple),
        }
    }
}

/// The plan of a deletion.
pub open spec fn delete_spec(p: ProjectV, ids: Seq<Id>, ripple: bool) -> Result<PlanV, ErrV> {
    let all = with_linked(p, ids, ids.len());
    match tracks_of(p, all) {
        Err(e) => Err(e),
        Ok(tracks) => delete_tracks(start_plan(p), p, ordered_ids(tracks), all, tracks, ripple),
    }
}

fn add_new(list: &mut Vec<Id>, more: &Vec<Id>)
    ensures
        final(list)@ == with_new(old(list)@, more@),
{
    let mut i: usize = 0;
    assert(more@.take(0) =~= Seq::<Id>::empty());
    while i < more.len()
        invariant
            i <= more.len(),
            list@ == with_new(old(list)@, more@.take(i as int)),
        decreases more.len() - i,
    {
        proof {
            let t = more@.take(i as int + 1);
            assert(t.drop_last() =~= more@.take(i as int));
            assert(t.last() == more@[i as int]);
        }
        if !holds_id(list, more[i]) {
            list.push(more[i]);
        }
        i = i + 1;
    }
    assert(more@.take(i as int) =~= more@);
}

fn find_tracks(project: &Project, ids: &Vec<Id>) -> (r: UeResult<Vec<Id>>)
    ensures
        match tracks_of(project@, ids@) {
            Ok(x) => r is Ok && r->Ok_0@ == x,
            Err(e) => r is Err && r->Err_0@ == e,
        },
{
    let mut out: Vec<Id> = Vec::new();
    let mut i: usize = 0;
    assert(ids@.take(0) =~= Seq::<Id>::empty());
    while i < ids.len()
        invariant
            i <= ids.len(),
            tracks_of(project@, ids@.take(i as int)) == Ok::<Seq<Id>, ErrV>(out@),
        decreases ids.len() - i,
    {
        proof {
            let t = ids@.take(i as int + 1);
            assert(t.drop_last() =~= ids@.take(i as int));
            assert(t.last() == ids@[i as int]);
        }
        match project.locate_clip(ids[i]) {
            None => {
                proof {
                    lemma_tracks_of_stops(project@, ids@, i as int + 1);
                }
                return Err(not_found("clip ", ids[i]));
            },
            Some((si, ti, ci)) => {
                let t: &Track = &project.sequences[si].tracks[ti];
                assert(model::track_at(project@, (si as int, ti as int)) == t@);
                if let Err(e) = ensure_unlocked(t) {
                    proof {
                        lemma_tracks_of_stops(project@, ids@, i as int + 1);
                    }
                    return Err(e);
                }
                out.push(t.id);
            },
        }
        i = i + 1;
    }
    assert(ids@.take(i as int) =~= ids@);
    Ok(out)
}

proof fn lemma_tracks_of_stops(p: ProjectV, ids: Seq<Id>, n: int)
    requires
        0 <= n <= ids.len(),
        tracks_of(p, ids.take(n)) is Err,
    ensures
        tracks_of(p, ids) == tracks_of(p, ids.take(n)),
    decreases ids.len(),
{
    if n == ids.len() {
        assert(ids.take(n) =~= ids);
    } else {
        assert(ids.drop_last().take(n) =~= ids.take(n));
        lemma_tracks_of_stops(p, ids.drop_last(), n);
    }
}

proof fn lemma_id_place(s: Seq<Id>, id: Id, i: nat)
    requires
        i <= s.len(),
        forall|j: int| 0 <= j < i ==> (#[trigger] s[j]).value < id.value,
        i < s.len() ==> s[i as int].value >= id.value,
    ensures
        id_place(s, id) == i,
    decreases s.len(),
{
    if i > 0 {
        let r = s.drop_first();
        assert(s[0].value < id.value);
        assert forall|j: int| 0 <= j < i - 1 implies (#[trigger] r[j]).value < id.value by {
            assert(r[j] == s[j + 1]);
        }
        lemma_id_place(r, id, (i - 1) as nat);
    }
}

fn order_ids(ids: &Vec<Id>) -> (r: Vec<Id>)
    ensures
        r@ == ordered_ids(ids@),
{
    let mut r: Vec<Id> = Vec::new();
    let mut i: usize = 0;
    assert(ids@.take(0) =~= Seq::<Id>::empty());
    while i < ids.len()
        invariant
            i <= ids.len(),
            r@ == ordered_ids(ids@.take(i as int)),
        decreases ids.len() - i,
    {
        let id: Id = ids[i];
        proof {
            let t = ids@.take(i as int + 1);
            assert(t.drop_last() =~= ids@.take(i as int));
            assert(t.last() == id);
        }
        let mut k: usize = 0;
        while k < r.len() && r[k].value < id.value
            invariant
                k <= r.len(),
                forall|j: int| 0 <= j < k ==> (#[trigger] r@[j]).value < id.value,
            decreases r.len() - k,
        {
            k = k + 1;
        }
        proof {
            lemma_id_place(r@, id, k as nat);
        }
        if !(k < r.len() && r[k] == id) {
            r.insert(k, id);
        }
        i = i + 1;
    }
    assert(ids@.take(i as int) =~= ids@);
    r
}

fn select_ids(ids: &Vec<Id>, tracks: &Vec<Id>, track_id: Id) -> (r: Vec<Id>)
    requires
        ids.len() == tracks.len(),
    ensures
        r@ == ids_on(ids@, tracks@, track_id),
{
    let mut r: Vec<Id> = Vec::new();
    let mut i: usize = 0;
    assert(ids@.take(0) =~= Seq::<Id>::empty());
    while i < ids.len()
        invariant
            i <= ids.len(),
            ids.len() == tracks.len(),
            r@ == ids_on(ids@.take(i as int), tracks@.take(i as int), track_id),
        decreases ids.len() - i,
    {
        proof {
            assert(ids@.take(i as int + 1).drop_last() =~= ids@.take(i as int));
            assert(tracks@.take(i as int + 1).drop_last() =~= tracks@.take(i as int));
        }
        if tracks[i] == track_id {
            r.push(ids[i]);
        }
        i = i + 1;
    }
    assert(ids@.take(i as int) =~= ids@);
    assert(tracks@.take(i as int) =~= tracks@);
    r
}

fn sum_before(ranges: &Vec<(TimeUs, TimeUs)>, t: TimeUs) -> (r: TimeUs)
    ensures
        r == gone_before(ranges@, t),
{
    let mut r: TimeUs = 0;
    let mut i: usize = 0;
    while i < ranges.len()
        invariant
            i <= ranges.len(),
            r == gone_before(ranges@.take(i as int), t),
        decreases ranges.len() - i,
    {
        proof {
            assert(ranges@.take(i as int + 1).drop_last() =~= ranges@.take(i as int));
        }
        if ranges[i].1 <= t {
            r = plus(r, minus(ranges[i].1, ranges[i].0));
        }
        i = i + 1;
    }
    assert(ranges@.take(i as int) =~= ranges@);
    r
}

/// Makes the action that gives a clip another start.
pub fn shift_with(c: &Clip, start: TimeUs) -> (a: Action)
    ensures
        a@ == shift_action(c@, start),
{
    Action::SetClipBounds {
        clip_id: c.id,
        start,
        duration: c.duration,
        src_in: None,
        src_out: None,
    }
}

fn gap_actions(clips: &Vec<Clip>, ranges: &Vec<(TimeUs, TimeUs)>) -> (r: Vec<Action>)
    ensures
        seqs::views(r@) == close_gaps(seqs::views(clips@), ranges@),
{
    let mut r: Vec<Action> = Vec::new();
    let ghost all = seqs::views(clips@);
    let mut i: usize = 0;
    assert(seqs::views(r@) =~= Seq::<ActionV>::empty());
    assert(all.take(0) =~= Seq::<ClipV>::empty());
    while i < clips.len()
        invariant
            i <= clips.len(),
            all == seqs::views(clips@),
            seqs::views(r@) == close_gaps(all.take(i as int), ranges@),
        decreases clips.len() - i,
    {
        let c: &Clip = &clips[i];
        proof {
            let t = all.take(i as int + 1);
            assert(t.drop_last() =~= all.take(i as int));
            assert(t.last() == c@);
        }
        let shift: TimeUs = sum_before(ranges, c.start);
        if shift > 0 {
            let ghost before = r@;
            let a: Action = shift_with(c, minus(c.start, shift));
            let ghost av = a@;
            r.push(a);
            assert(seqs::views(r@) =~= seqs::views(before).push(av));
        }
        i = i + 1;
    }
    assert(all.take(i as int) =~= all);
    r
}

/// The actions that close gaps on a track of a project.
pub fn gaps_on(project: &Project, track_id: Id, ranges: &Vec<(TimeUs, TimeUs)>) -> (r: Vec<Action>)
    ensures
        seqs::views(r@) == close_gaps(clips_on(project@, track_id), ranges@),
{
    match project.track(track_id) {
        Some(t) => gap_actions(&t.clips, ranges),
        None => {
            let r: Vec<Action> = Vec::new();
            assert(seqs::views(r@) =~= Seq::<ActionV>::empty());
            r
        },
    }
}

fn removal_ranges(project: &Project, track_id: Id, ids: &Vec<Id>) -> (r: Vec<(TimeUs, TimeUs)>)
    ensures
        r@ == ids@.map_values(|id: Id| range_of(clips_on(project@, track_id), id)),
{
    let mut r: Vec<(TimeUs, TimeUs)> = Vec::new();
    let ghost all = ids@.map_values(|id: Id| range_of(clips_on(project@, track_id), id));
    let mut i: usize = 0;
    assert(r@ =~= all.take(0));
    while i < ids.len()
        invariant
            i <= ids.len(),
            all == ids@.map_values(|id: Id| range_of(clips_on(project@, track_id), id)),
            r@ == all.take(i as int),
        decreases ids.len() - i,
    {
        let x: (TimeUs, TimeUs) = match project.track(track_id) {
            Some(t) => match t.clip_index(ids[i]) {
                Some(k) => (t.clips[k].start, t.clips[k].end()),
                None => (0, 0),
            },
            None => (0, 0),
        };
        proof {
            assert(x == range_of(clips_on(project@, track_id), ids@[i as int]));
        }
        r.push(x);
        assert(r@ =~= all.take(i as int + 1));
        i = i + 1;
    }
    assert(all.take(i as int) =~= all);
    r
}

/// Makes the actions that remove clips.
pub fn removals(ids: &Vec<Id>) -> (r: Vec<Action>)
    ensures
        seqs::views(r@) == ids@.map_values(|id: Id| ActionV::RemoveClip { clip_id: id }),
{
    let mut r: Vec<Action> = Vec::new();
    let mut i: usize = 0;
    while i < ids.len()
        invariant
            i <= ids.len(),
            r.len() == i,
            forall|j: int|
                0 <= j < i ==> (#[trigger] r@[j])@ == (ActionV::RemoveClip { clip_id: ids@[j] }),
        decreases ids.len() - i,
    {
        r.push(Action::RemoveClip { clip_id: ids[i] });
        i = i + 1;
    }
    assert(seqs::views(r@) =~= ids@.map_values(|id: Id| ActionV::RemoveClip { clip_id: id }));
    r
}

/// Deletes clips of one track.
fn delete_on_track(
    plan: &mut Planner,
    project: &Project,
    track_id: Id,
    ids: &Vec<Id>,
    ripple: bool,
) -> (r: UeResult<()>)
    ensures
        match delete_on(old(plan)@, project@, track_id, ids@, ripple) {
            Ok(q) => r is Ok && final(plan)@ == q,
            Err(e) => r is Err && r->Err_0@ == e,
        },
        r is Ok ==> forall|p: ProjectV| #[trigger]
            replays(p, old(plan)@) ==> replays(p, final(plan)@),
{
    reveal(delete_on);
    let ghost start = plan@;
    let ranges: Vec<(TimeUs, TimeUs)> = removal_ranges(project, track_id, ids);
    let removed: Vec<(TimeUs, TimeUs)> = sort_ranges(&ranges);
    if let Err(e) = plan.do_all(removals(ids)) {
        return Err(e);
    }
    if ripple {
        let ghost mid = plan@;
        let list: Vec<Action> = gaps_on(&plan.proj, track_id, &removed);
        if let Err(e) = plan.do_all(list) {
            return Err(e);
        }
        assert forall|p: ProjectV| #[trigger] replays(p, start) implies replays(p, plan@) by {
            assert(replays(p, mid));
        }
    }
    Ok(())
}

/// Plans the deletion of clips with all that are linked to them. With ripple
/// each track closes its gaps.
pub fn delete_clips(project: &Project, ids: &Vec<Id>, ripple: bool) -> (r: UeResult<Vec<Action>>)
    ensures
        plans(r, delete_spec(project@, ids@, ripple)),
        r is Ok ==> laws::run(project@, seqs::views(r->Ok_0@)) is Ok,
{
    let mut all: Vec<Id> = ids.clone();
    assert(all@ =~= ids@);
    let mut i: usize = 0;
    while i < ids.len()
        invariant
            i <= ids.len(),
            all@ == with_linked(project@, ids@, i as nat),
        decreases ids.len() - i,
    {
        let more: Vec<Id> = linked_ids(project, ids[i]);
        add_new(&mut all, &more);
        i = i + 1;
    }
    let tracks: Vec<Id> = match find_tracks(project, &all) {
        Ok(t) => t,
        Err(e) => {
            return Err(e);
        },
    };
    proof {
        lemma_tracks_of_len(project@, all@);
    }
    let order: Vec<Id> = order_ids(&tracks);
    let mut plan: Planner = Planner::new(project);
    let ghost start = plan@;
    let mut k: usize = 0;
    assert(order@.skip(0) =~= order@);
    while k < order.len()
        invariant
            k <= order.len(),
            all.len() == tracks.len(),
            all@ == with_linked(project@, ids@, ids@.len()),
            tracks_of(project@, all@) == Ok::<Seq<Id>, ErrV>(tracks@),
            order@ == ordered_ids(tracks@),
            start == start_plan(project@),
            replays(project@, plan@),
            delete_tracks(start, project@, order@, all@, tracks@, ripple) == delete_tracks(
                plan@,
                project@,
                order@.skip(k as int),
                all@,
                tracks@,
                ripple,
            ),
        decreases order.len() - k,
    {
        let track_id: Id = order[k];
        proof {
            assert(order@.skip(k as int)[0] == track_id);
            assert(order@.skip(k as int).drop_first() =~= order@.skip(k as int + 1));
        }
        let own: Vec<Id> = select_ids(&all, &tracks, track_id);
        if let Err(e) = delete_on_track(&mut plan, project, track_id, &own, ripple) {
            return Err(e);
        }
        k = k + 1;
    }
    assert(order@.skip(k as int) =~= Seq::<Id>::empty());
    Ok(plan.finish())
}

proof fn lemma_tracks_of_len(p: ProjectV, ids: Seq<Id>)
    ensures
        tracks_of(p, ids) is Ok ==> tracks_of(p, ids)->Ok_0.len() == ids.len(),
    decreases ids.len(),
{
    if ids.len() > 0 {
        lemma_tracks_of_len(p, ids.drop_last());
    }
}

} // verus!
