//! What clips play: at each time of the timeline a clip shows the place in its
//! source that is as far behind its start there, times its speed. Editing moves
//! the edges of clips, and leaves what is played in between.

use vstd::arithmetic::mul::*;
use vstd::arithmetic::power2::*;
use vstd::prelude::*;

use crate::action::ActionV;
use crate::edl;
use crate::edl::SegmentV;
use crate::exact;
use crate::exact::{apart, fine, one, within};
use crate::float::Real;
use crate::frames;
use crate::ident::Id;
use crate::model;
use crate::model::{ClipV, MediaKind, PayloadV, ProjectV, TrackV};
use crate::ops;
use crate::preview;
use crate::preview::{SceneV, ShotV, ViewerV};
use crate::time;
use crate::time::TimeUs;

verus! {

/// The place in the source that a media clip shows at a time of the timeline, in
/// units of `2^-1074` microseconds: as far behind its first place as the time is
/// behind its start, times the speed.
pub open spec fn played(c: ClipV, t: int) -> int {
    c.payload->Media_src_in * one() + (t - c.start) * fine(c.speed)
}

/// Whether times of a clip and of its source add up without reaching the ends of
/// what a time can be.
pub open spec fn roomy(c: ClipV) -> bool {
    &&& c.payload is Media
    &&& -0x2000_0000_0000_0000 <= c.payload->Media_src_in <= 0x2000_0000_0000_0000
    &&& -0x2000_0000_0000_0000 <= c.payload->Media_src_out <= 0x2000_0000_0000_0000
    &&& -0x2000_0000_0000_0000 <= c.start <= 0x2000_0000_0000_0000
    &&& 0 <= c.duration <= 0x2000_0000_0000_0000
}

/// A part of a clip that starts later, with the material that it starts with
/// moved on as the timeline did, plays what the clip plays.
proof fn lemma_moved_on(c: ClipV, part: ClipV, delta: TimeUs, t: int)
    requires
        c.payload is Media,
        part.payload is Media,
        part.speed == c.speed,
        part.start == c.start + delta,
        within(delta as int, c.speed),
        part.payload->Media_src_in == c.payload->Media_src_in + ops::scaled_time(delta, c.speed),
    ensures
        apart(played(part, t), played(c, t)) <= one(),
{
    exact::law_scaled_time(delta, c.speed);
    let s = fine(c.speed) as int;
    let o = one() as int;
    let a = c.payload->Media_src_in as int;
    let b = part.payload->Media_src_in as int;
    let r = ops::scaled_time(delta, c.speed) as int;
    assert(b * o == a * o + r * o) by (nonlinear_arith)
        requires
            b == a + r,
    ;
    assert((t - c.start) * s == (t - part.start) * s + delta * s) by (nonlinear_arith)
        requires
            part.start == c.start + delta,
    ;
}

/// A split changes nothing that is played. The halves tile the time and the
/// source of the clip; the left one plays exactly what the clip plays, and so
/// does the right one, to within the microsecond to which the cut in the source
/// is rounded: the cut is as far behind the first place as the offset, times the
/// speed. Where the source does not last until there, the right half has its
/// last microsecond.
pub proof fn law_split_plays_on(c: ClipV, offset: TimeUs, left: Id, right: Id, t: int)
    requires
        roomy(c),
        0 < offset < c.duration,
        within(offset as int, c.speed),
    ensures
        ({
            let l = ops::left_half(c, offset, left);
            let r = ops::right_half(c, offset, right);
            let cut = r.payload->Media_src_in;
            let place = c.payload->Media_src_in * one() + offset * fine(c.speed);
            &&& l.id == left && r.id == right
            &&& l.start == c.start && l.duration == offset
            &&& r.start == c.start + offset && r.duration == c.duration - offset
            &&& l.speed == c.speed && r.speed == c.speed
            &&& l.payload is Media && r.payload is Media
            &&& l.payload->Media_asset_id == c.payload->Media_asset_id
            &&& r.payload->Media_asset_id == c.payload->Media_asset_id
            &&& l.payload->Media_src_in == c.payload->Media_src_in
            &&& l.payload->Media_src_out == cut
            &&& r.payload->Media_src_out == c.payload->Media_src_out
            &&& cut < c.payload->Media_src_out
            &&& played(l, t) == played(c, t)
            &&& apart(cut * one(), place) <= one() && apart(played(r, t), played(c, t)) <= one()
                || cut == c.payload->Media_src_out - 1 && place > (cut - 1) * one()
        }),
{
    exact::law_scaled_time(offset, c.speed);
    lemma2_to64();
    lemma2_to64_rest();
    let r = ops::right_half(c, offset, right);
    let k = ops::scaled_time(offset, c.speed) as int;
    let a = c.payload->Media_src_in as int;
    let cut = r.payload->Media_src_in as int;
    let o = one() as int;
    lemma_pow2_pos(1074);
    if a + k < c.payload->Media_src_out {
        assert(cut == a + k);
        lemma_moved_on(c, r, offset, t);
        assert(cut * o == a * o + k * o) by (nonlinear_arith)
            requires
                cut == a + k,
        ;
    } else {
        assert(cut == c.payload->Media_src_out - 1);
        assert((cut - 1) * o < a * o + k * o - o) by (nonlinear_arith)
            requires
                cut < a + k,
                o > 0,
        ;
    }
}

/// A clip with other bounds.
pub open spec fn rebounded(c: ClipV, start: TimeUs, duration: TimeUs, src_in: TimeUs, src_out: TimeUs) -> ClipV {
    ClipV {
        start,
        duration,
        payload: match c.payload {
            PayloadV::Media { asset_id, .. } => PayloadV::Media { asset_id, src_in, src_out },
            _ => c.payload,
        },
        ..c
    }
}

/// A trim of the left edge moves nothing that is played: the end of the clip and
/// the end of its source stay, and at each time the clip shows what it showed
/// before, to within a microsecond, unless that is before the source begins.
pub proof fn law_left_trim_plays_on(c: ClipV, edge: TimeUs, length: Option<TimeUs>, t: int)
    requires
        roomy(c),
        -0x2000_0000_0000_0000 <= edge <= 0x2000_0000_0000_0000,
        within(if edge < c.start { c.start - edge } else { edge - c.start }, c.speed),
    ensures
        match ops::trim_action(c, true, edge, length) {
            ActionV::SetClipBounds { clip_id, start, duration, src_in: Some(a), src_out: Some(b) } => {
                let after = rebounded(c, start, duration, a, b);
                &&& clip_id == c.id
                &&& start == edge
                &&& start + duration == c.start + c.duration
                &&& b == c.payload->Media_src_out
                &&& a >= 0
                &&& apart(played(after, t), played(c, t)) <= one() || a == 0 && played(c, edge as int)
                    < one()
            },
            _ => false,
        },
{
    let s = fine(c.speed) as int;
    let o = one() as int;
    let v = c.payload->Media_src_in as int;
    lemma2_to64();
    lemma2_to64_rest();
    lemma_pow2_pos(1074);
    let d = edge - c.start;
    if d >= 0 {
        exact::law_scaled_time(d as i64, c.speed);
    } else {
        exact::law_scaled_time((-d) as i64, c.speed);
        exact::lemma_scaled_back((-d) as i64, c.speed);
        assert(-((-d) as i64) == d);
        assert((-d) * s == -(d * s)) by (nonlinear_arith);
        let z = ops::scaled_time((-d) as i64, c.speed) as int;
        assert((-z) * o == -(z * o)) by (nonlinear_arith);
    }
    let k = ops::scaled_time(d as i64, c.speed) as int;
    assert(apart(k * o, d * s) <= o);
    assert((v + k) * o == v * o + k * o) by (nonlinear_arith);
    assert((t - c.start) * s == (t - edge) * s + d * s) by (nonlinear_arith)
        requires
            d == edge - c.start,
    ;
    if v + k < 0 {
        assert((v + k) * o <= -o) by (nonlinear_arith)
            requires
                v + k <= -1,
                o > 0,
        ;
    }
}

/// A trim of the right edge moves nothing that is played: the start of the clip
/// and of its source stay, and the source ends where the new end of the clip is
/// played, to within a microsecond, or where the material ends.
pub proof fn law_right_trim_plays_on(c: ClipV, edge: TimeUs, length: Option<TimeUs>, t: int)
    requires
        roomy(c),
        c.start <= edge <= 0x2000_0000_0000_0000,
        within(edge - c.start, c.speed),
    ensures
        match ops::trim_action(c, false, edge, length) {
            ActionV::SetClipBounds { clip_id, start, duration, src_in: Some(a), src_out: Some(b) } => {
                let after = rebounded(c, start, duration, a, b);
                &&& clip_id == c.id
                &&& start == c.start
                &&& start + duration == edge
                &&& played(after, t) == played(c, t)
                &&& apart(b * one(), played(c, edge as int)) <= one() || length == Some(b) && b * one()
                    < played(c, edge as int) + one()
                &&& length is Some ==> b <= length->Some_0
            },
            _ => false,
        },
{
    let d = (edge - c.start) as i64;
    exact::law_scaled_time(d, c.speed);
    lemma2_to64();
    lemma2_to64_rest();
    lemma_pow2_pos(1074);
    let o = one() as int;
    let v = c.payload->Media_src_in as int;
    let k = ops::scaled_time(d, c.speed) as int;
    assert((v + k) * o == v * o + k * o) by (nonlinear_arith);
    if let Some(m) = length {
        if m < v + k {
            assert(m * o < (v + k) * o) by (nonlinear_arith)
                requires
                    m < v + k,
                    o > 0,
            ;
        }
    }
}

/// What is written over a clip leaves the rest of it as it was: a piece in front
/// ends where the range starts, a piece behind starts where the range ends, and
/// each plays at every time what the clip plays there, to within two
/// microseconds of its source, as long as the source lasts.
pub proof fn law_carving_plays_on(
    c: ClipV,
    track_id: Id,
    from: TimeUs,
    to: TimeUs,
    left: Id,
    right: Id,
    t: int,
)
    requires
        roomy(c),
        from < to,
        c.start < to,
        from < c.start + c.duration,
        -0x2000_0000_0000_0000 <= from,
        to <= 0x2000_0000_0000_0000,
        within(c.duration as int, c.speed),
        played(c, c.start + c.duration) < (c.payload->Media_src_out - 1) * one(),
    ensures
        ({
            let end = c.start + c.duration;
            match ops::carve_action(c, track_id, from, to, left, right) {
                ActionV::RemoveClip { clip_id } => clip_id == c.id && from <= c.start && end <= to,
                ActionV::SetClipBounds {
                    clip_id,
                    start,
                    duration,
                    src_in: Some(a),
                    src_out: Some(b),
                } => {
                    let after = rebounded(c, start, duration, a, b);
                    &&& clip_id == c.id
                    &&& apart(played(after, t), played(c, t)) <= one()
                    &&& if from <= c.start {
                        start == to && start + duration == end && b == c.payload->Media_src_out
                    } else {
                        &&& start == c.start && start + duration == from && end <= to
                        &&& apart(b * one(), played(c, from as int)) <= one()
                    }
                },
                ActionV::ReplaceClips { track_id: on, remove_ids, insert } => {
                    &&& on == track_id && remove_ids == seq![c.id] && insert.len() == 2
                    &&& insert[0].start == c.start && insert[0].start + insert[0].duration == from
                    &&& insert[1].start == to && insert[1].start + insert[1].duration == end
                    &&& insert[0].payload is Media && insert[1].payload is Media
                    &&& played(insert[0], t) == played(c, t)
                    &&& apart(insert[0].payload->Media_src_out * one(), played(c, from as int))
                        <= one()
                    &&& apart(played(insert[1], t), played(c, t)) <= 2 * one()
                    &&& insert[1].payload->Media_src_out == c.payload->Media_src_out
                },
                _ => false,
            }
        }),
{
    let s = fine(c.speed) as int;
    let o = one() as int;
    let v = c.payload->Media_src_in as int;
    let end = c.start + c.duration;
    lemma2_to64();
    lemma2_to64_rest();
    lemma_pow2_pos(1074);
    assert(c.finish() == end);
    if c.start >= from && end <= to {
    } else if c.start >= from {
        let d = (to - c.start) as i64;
        lemma_shorter(d as int, c.duration as int, c.speed);
        exact::law_scaled_time(d, c.speed);
        lemma_moved_on(
            c,
            rebounded(
                c,
                to,
                (c.duration - d) as i64,
                (v + ops::scaled_time(d, c.speed)) as i64,
                c.payload->Media_src_out,
            ),
            d,
            t,
        );
    } else {
        let d = (from - c.start) as i64;
        lemma_shorter(d as int, c.duration as int, c.speed);
        exact::law_scaled_time(d, c.speed);
        let k = ops::scaled_time(d, c.speed) as int;
        assert((v + k) * o == v * o + k * o) by (nonlinear_arith);
        if end > to {
            law_split_plays_on(c, d, left, right, t);
            let r = ops::right_half(c, d, right);
            let e = (to - from) as i64;
            lemma_shorter(e as int, c.duration as int, c.speed);
            exact::law_scaled_time(e, c.speed);
            let z = ops::scaled_time(e, c.speed) as int;
            assert(d * s <= c.duration * s) by (nonlinear_arith)
                requires
                    d <= c.duration,
                    s >= 0,
            ;
            let cut = r.payload->Media_src_in as int;
            if cut == c.payload->Media_src_out - 1 {
                assert(c.payload->Media_src_out - 1 == cut);
                assert((cut - 1) * o == cut * o - o) by (nonlinear_arith);
                assert(v * o + d * s < cut * o);
                assert(apart(cut * o, v * o + d * s) <= o);
                assert((t - c.start) * s == (t - r.start) * s + d * s) by (nonlinear_arith)
                    requires
                        r.start == c.start + d,
                ;
            }
            let w = ClipV {
                start: to,
                duration: time::sooner(r.duration, e),
                payload: ops::advanced(r.payload, ops::scaled_time(e, c.speed)),
                ..r
            };
            lemma_moved_on(r, w, e, t);
            assert(-o <= played(r, t) - played(c, t) <= o);
        }
    }
}

/// What is within the times that are held exactly for a time is so for a shorter
/// one.
proof fn lemma_shorter(a: int, b: int, speed: Real)
    requires
        0 <= a <= b,
        within(b, speed),
    ensures
        within(a, speed),
{
    assert(a * fine(speed) <= b * fine(speed)) by (nonlinear_arith)
        requires
            a <= b,
    ;
}

// ---- the edit list ----

/// A segment of the edit list takes from the source what the clip plays in its
/// window: it begins with what is played at the start of the window and ends
/// with what is played at the end of it, to within a microsecond, or where the
/// source of the clip ends.
pub proof fn law_segment_plays_the_window(
    c: ClipV,
    a: TimeUs,
    b: TimeUs,
    vf: Option<Seq<char>>,
)
    requires
        roomy(c),
        c.start <= a <= b <= c.start + c.duration,
        within(c.duration as int, c.speed),
    ensures
        match edl::source_segment(
            c,
            c.payload->Media_asset_id,
            c.payload->Media_src_in,
            c.payload->Media_src_out,
            a,
            b,
            vf,
        ) {
            SegmentV::Source { asset_id, src_in, src_out, speed, .. } => {
                &&& asset_id == c.payload->Media_asset_id
                &&& speed == c.speed
                &&& apart(src_in * one(), played(c, a as int)) <= one()
                &&& src_out <= c.payload->Media_src_out
                &&& apart(src_out * one(), played(c, b as int)) <= one() || src_out
                    == c.payload->Media_src_out && src_out * one() < played(c, b as int) + one()
            },
            _ => false,
        },
{
    let x = (a - c.start) as i64;
    let y = (b - c.start) as i64;
    lemma_shorter(x as int, c.duration as int, c.speed);
    lemma_shorter(y as int, c.duration as int, c.speed);
    exact::law_scaled_time(x, c.speed);
    exact::law_scaled_time(y, c.speed);
    lemma2_to64();
    lemma2_to64_rest();
    lemma_pow2_pos(1074);
    let o = one() as int;
    let v = c.payload->Media_src_in as int;
    let k = ops::scaled_time(x, c.speed) as int;
    let z = ops::scaled_time(y, c.speed) as int;
    assert((v + k) * o == v * o + k * o) by (nonlinear_arith);
    assert((v + z) * o == v * o + z * o) by (nonlinear_arith);
    let e = c.payload->Media_src_out as int;
    if e < v + z {
        assert(e * o < (v + z) * o) by (nonlinear_arith)
            requires
                e < v + z,
                o > 0,
        ;
    }
}

// ---- frames ----

/// What a time of the timeline shows of a clip that is there: the clip that is
/// found covers the time, and where none is found no clip does.
pub proof fn law_covering(clips: Seq<ClipV>, t: TimeUs)
    ensures
        match edl::covering(clips, t) {
            Some(c) => clips.contains(c) && c.start <= t < c.finish(),
            None => forall|i: int|
                0 <= i < clips.len() ==> !((#[trigger] clips[i]).start <= t < clips[i].finish()),
        },
    decreases clips.len(),
{
    if clips.len() > 0 {
        let rest = clips.drop_first();
        law_covering(rest, t);
        if clips[0].start <= t < clips[0].finish() {
            assert(clips.contains(clips[0]));
        } else {
            match edl::covering(rest, t) {
                Some(c) => {
                    let i = rest.index_of(c);
                    assert(clips[i + 1] == c);
                },
                None => {
                    assert forall|i: int| 0 <= i < clips.len() implies !((
                    #[trigger] clips[i]).start <= t < clips[i].finish()) by {
                        if i > 0 {
                            assert(rest[i - 1] == clips[i]);
                        }
                    }
                },
            }
        }
    }
}

/// A frame of the preview shows what the clip plays at its time, and the export
/// the same: in a segment of the edit list the frame is as far behind the first
/// place of the segment as its time is behind the start of the segment, times the
/// speed, to within the microsecond to which each of the two is rounded.
pub proof fn law_preview_shows_the_export(
    x: SceneV,
    v: ViewerV,
    track: TrackV,
    c: ClipV,
    base: bool,
    a: TimeUs,
    b: TimeUs,
    vf: Option<Seq<char>>,
)
    requires
        roomy(c),
        model::asset_of(v.project, c.payload->Media_asset_id) is Some,
        model::asset_of(v.project, c.payload->Media_asset_id)->Some_0.kind != MediaKind::Image,
        c.start <= a <= v.t < b <= c.start + c.duration,
        within(c.duration as int, c.speed),
    ensures
        match preview::clip_step(x, v, track, c, base) {
            Ok(y) => {
                &&& y.layers.len() == x.layers.len() + 1
                &&& y.layers.drop_last() == x.layers
                &&& match y.layers.last().shot {
                    ShotV::Media { path, src_time } => {
                        &&& apart(src_time * one(), played(c, v.t as int)) <= one()
                        &&& match edl::source_segment(
                            c,
                            c.payload->Media_asset_id,
                            c.payload->Media_src_in,
                            c.payload->Media_src_out,
                            a,
                            b,
                            vf,
                        ) {
                            SegmentV::Source { src_in, speed, .. } => apart(
                                src_time * one(),
                                src_in * one() + (v.t - a) * fine(speed),
                            ) <= 2 * one(),
                            _ => false,
                        }
                    },
                    _ => false,
                }
            },
            Err(e) => false,
        },
{
    reveal(preview::clip_step);
    let rel = (v.t - c.start) as i64;
    lemma_shorter(rel as int, c.duration as int, c.speed);
    exact::law_scaled_time(rel, c.speed);
    law_segment_plays_the_window(c, a, b, vf);
    lemma2_to64();
    lemma2_to64_rest();
    let o = one() as int;
    let s = fine(c.speed) as int;
    let u = c.payload->Media_src_in as int;
    let k = ops::scaled_time(rel, c.speed) as int;
    assert((u + k) * o == u * o + k * o) by (nonlinear_arith);
    assert((v.t - c.start) * s == (v.t - a) * s + (a - c.start) * s) by (nonlinear_arith);
    if let Ok(y) = preview::clip_step(x, v, track, c, base) {
        assert(y.layers.drop_last() =~= x.layers);
    }
}

/// Both sides of a transition show in a frame what their clips play at its time,
/// the one that is over on from its end and the one to come on to its start, as
/// long as that is not before the source begins.
pub proof fn law_sides_play_on(x: SceneV, v: ViewerV, c: ClipV)
    requires
        roomy(c),
        model::asset_of(v.project, c.payload->Media_asset_id) is Some,
        -0x2000_0000_0000_0000 <= v.t <= 0x2000_0000_0000_0000,
        within(if v.t < c.start { c.start - v.t } else { v.t - c.start }, c.speed),
    ensures
        match preview::side_step(x, v, c) {
            Ok(y) => {
                &&& y.layers.len() == x.layers.len() + 1
                &&& match y.layers.last().shot {
                    ShotV::Media { path, src_time } => {
                        &&& src_time >= 0
                        &&& apart(src_time * one(), played(c, v.t as int)) <= one() || src_time == 0
                            && played(c, v.t as int) < one()
                    },
                    _ => false,
                }
            },
            Err(e) => false,
        },
{
    reveal(preview::side_step);
    law_left_trim_plays_on(c, v.t, None, v.t as int);
    let o = one() as int;
    let after_in = match ops::trim_action(c, true, v.t, None) {
        ActionV::SetClipBounds { src_in: Some(a), .. } => a as int,
        _ => 0,
    };
    assert((v.t - v.t) * fine(c.speed) == 0) by (nonlinear_arith);
}

/// A frame that is decoded for itself shows what its clip plays at its time.
pub proof fn law_frame_shows_the_clip(p: ProjectV, c: ClipV, t: TimeUs, present: Seq<Seq<char>>)
    requires
        roomy(c),
        model::asset_of(p, c.payload->Media_asset_id) is Some,
        model::asset_of(p, c.payload->Media_asset_id)->Some_0.kind != MediaKind::Image,
        c.start <= t <= c.start + c.duration,
        within(c.duration as int, c.speed),
    ensures
        match frames::resolved(p, c, t, present) {
            Some(r) => {
                &&& r.clip_rel_us == t - c.start
                &&& apart(r.src_t_us * one(), played(c, t as int)) <= one()
            },
            None => false,
        },
{
    let rel = (t - c.start) as i64;
    lemma_shorter(rel as int, c.duration as int, c.speed);
    exact::law_scaled_time(rel, c.speed);
    lemma2_to64();
    lemma2_to64_rest();
    let o = one() as int;
    let u = c.payload->Media_src_in as int;
    let k = ops::scaled_time(rel, c.speed) as int;
    assert((u + k) * o == u * o + k * o) by (nonlinear_arith);
}

} // verus!
