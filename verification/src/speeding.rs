//! How long material lasts at a speed, and where it goes when a clip or a range is
//! sped up.

use vstd::arithmetic::power2::*;
use vstd::prelude::*;

use crate::action::ActionV;
use crate::exact;
use crate::exact::{above_zero, apart, fine, one};
use crate::float::Real;
use crate::ident::Id;
use crate::model;
use crate::model::{ClipV, ProjectV};
use crate::ops;
use crate::ranges;
use crate::time;
use crate::time::TimeUs;

verus! {

/// Whether material can be played at a speed in less than `2^53` microseconds.
pub open spec fn playable(length: int, speed: Real) -> bool {
    &&& 0 <= length < pow2(53)
    &&& above_zero(speed)
    &&& length * one() < pow2(53) * fine(speed)
}

/// Whether a duration at a speed plays material of a length, to within so many
/// microseconds of the timeline.
pub open spec fn plays_in(duration: int, length: int, speed: Real, slack: int) -> bool {
    apart(duration * fine(speed), length * one()) <= slack * fine(speed)
}

/// A time of the timeline and its nearest frame are less than a frame and a
/// microsecond apart.
proof fn lemma_near_frame(t: TimeUs, fps: (u32, u32))
    requires
        fps.0 > 0,
        fps.1 > 0,
        0 <= t <= pow2(53) + 1,
    ensures
        time::frame_length(fps) >= 0,
        time::quantized(t, fps) >= 0,
        2 * apart(time::quantized(t, fps) as int, t as int) <= time::frame_length(fps) + 1,
{
    let d: int = fps.1 * time::US_PER_SEC;
    let r: int = fps.0 as int;
    let n = time::nearest_frame(t as int, fps);
    let q = time::frame_start(n, fps);
    lemma2_to64();
    lemma2_to64_rest();
    let x: int = t as int;
    assert(n == time::nearest_ratio(x * r, d));
    assert(-d <= 2 * (x * r - n * d) <= d && n >= 0) by (nonlinear_arith)
        requires
            n == (2 * (x * r) + d) / (2 * d),
            d > 0,
            r > 0,
            x >= 0,
    ;
    assert(q == time::nearest_ratio(n * d, r));
    assert(-r <= 2 * (q * r - n * d) <= r && q >= 0) by (nonlinear_arith)
        requires
            q == (2 * (n * d) + r) / (2 * r),
            r > 0,
            d > 0,
            n >= 0,
    ;
    assert(q <= x + d) by (nonlinear_arith)
        requires
            2 * (q * r - n * d) <= r,
            -d <= 2 * (x * r - n * d),
            r >= 1,
            d >= 1,
    ;
    time::law_grid_is_nearest(t, fps);
    time::law_frame_length(fps);
    let g: int = time::frame_length(fps) as int;
    assert(1 * d == d);
    let v: int = q - x;
    assert(2 * (v * r) <= d + r && -(d + r) <= 2 * (v * r));
    assert(-(g + 1) <= 2 * v <= g + 1) by (nonlinear_arith)
        requires
            -r <= 2 * (g * r - d),
            2 * (v * r) <= d + r,
            -(d + r) <= 2 * (v * r),
            r > 0,
    ;
}

/// A duration that is near to what material takes at a speed plays it, to within
/// the distance and a microsecond.
proof fn lemma_near_duration(duration: int, t: int, length: int, speed: Real, slack: int)
    requires
        playable(length, speed),
        apart(t * fine(speed), length * one()) <= fine(speed),
        apart(duration, t) <= slack,
    ensures
        plays_in(duration, length, speed, slack + 1),
{
    let s = fine(speed) as int;
    exact::lemma_fine_positive(speed);
    let v = duration - t;
    assert(duration * s == t * s + v * s && -(slack * s) <= v * s <= slack * s && (slack + 1) * s
        == slack * s + s) by (nonlinear_arith)
        requires
            v == duration - t,
            -slack <= v <= slack,
            s > 0,
    ;
}

/// Material lasts as long at a speed as its length divided by the speed, brought
/// to the nearest frame, and at least a frame: the duration times the speed is the
/// length of the material, to within a frame and two microseconds.
pub proof fn law_stretched(length: TimeUs, speed: Real, fps: (u32, u32))
    requires
        fps.0 > 0,
        fps.1 > 0,
        playable(length as int, speed),
    ensures
        ops::stretched(length, speed, fps) >= time::frame_length(fps) >= 0,
        plays_in(
            ops::stretched(length, speed, fps) as int,
            length as int,
            speed,
            time::frame_length(fps) + 2,
        ),
{
    let t = ops::divided_time(length, speed);
    exact::law_divided_time(length, speed);
    lemma_near_frame(t, fps);
    lemma_near_duration(
        ops::stretched(length, speed, fps) as int,
        t as int,
        length as int,
        speed,
        time::frame_length(fps) + 1,
    );
}

proof fn lemma_next_start(clips: Seq<ClipV>, after: TimeUs)
    ensures
        match ops::next_start(clips, after) {
            Some(n) => n > after && forall|i: int|
                0 <= i < clips.len() && (#[trigger] clips[i]).start > after ==> n <= clips[i].start,
            None => forall|i: int| 0 <= i < clips.len() ==> (#[trigger] clips[i]).start <= after,
        },
    decreases clips.len(),
{
    if clips.len() > 0 {
        lemma_next_start(clips.drop_last(), after);
        assert forall|i: int| 0 <= i < clips.len() - 1 implies clips[i] == #[trigger] clips.drop_last()[i] by {}
        assert forall|i: int| 0 <= i < clips.len() implies i == clips.len() - 1 || #[trigger] clips[i]
            == clips.drop_last()[i] by {}
    }
}

/// Another speed keeps the material: the clip gets the speed that is asked for,
/// and a duration that plays the material which it has, to within a frame and two
/// microseconds. It is shorter only where a clip that starts behind it would be
/// run into.
pub proof fn law_speed_keeps_the_material(p: ProjectV, clip_id: Id, speed: Real)
    ensures
        match ops::speed_spec(p, clip_id, speed) {
            Ok(plan) => {
                &&& model::clip_place(p, clip_id) is Some
                &&& plan.actions.len() == 1
                &&& {
                    let at = model::clip_place(p, clip_id)->Some_0;
                    let c = model::clip_at(p, at);
                    let clips = model::track_at(p, (at.0, at.1)).clips;
                    let fps = p.sequences[at.0].fps;
                    let length = c.payload->Media_src_out - c.payload->Media_src_in;
                    &&& c.payload is Media
                    &&& plan.actions[0] is SetClipSpeed
                    &&& plan.actions[0]->SetClipSpeed_clip_id == clip_id
                    &&& plan.actions[0]->SetClipSpeed_speed == speed
                    &&& fps.0 > 0 && fps.1 > 0 && playable(length, speed) ==> {
                        let d = plan.actions[0]->SetClipSpeed_duration;
                        ||| plays_in(d as int, length, speed, time::frame_length(fps) + 2)
                        ||| exists|i: int|
                            0 <= i < clips.len() && c.start < (#[trigger] clips[i]).start && (
                            clips[i].start - c.start) * fine(speed) < length * one() + (
                            time::frame_length(fps) + 2) * fine(speed)
                    }
                }
            },
            Err(e) => true,
        },
{
    reveal(ops::planned);
    if let Ok(plan) = ops::speed_spec(p, clip_id, speed) {
        let at = model::clip_place(p, clip_id)->Some_0;
        let c = model::clip_at(p, at);
        let clips = model::track_at(p, (at.0, at.1)).clips;
        let fps = p.sequences[at.0].fps;
        let length = c.payload->Media_src_out - c.payload->Media_src_in;
        if fps.0 > 0 && fps.1 > 0 && playable(length, speed) {
            lemma2_to64_rest();
            let whole = ops::stretched(length as TimeUs, speed, fps);
            assert(time::sooner(c.payload->Media_src_out, c.payload->Media_src_in) == length);
            law_stretched(length as TimeUs, speed, fps);
            let d = plan.actions[0]->SetClipSpeed_duration;
            if d != whole {
                lemma_next_start(clips, c.start);
                let n = ops::next_start(clips, c.start)->Some_0;
                lemma_next_is_there(clips, c.start);
                let i = choose|i: int| 0 <= i < clips.len() && (#[trigger] clips[i]).start == n;
                exact::lemma_fine_positive(speed);
                assert((n - c.start) * fine(speed) < whole * fine(speed)) by (nonlinear_arith)
                    requires
                        n - c.start < whole,
                        fine(speed) > 0,
                ;
                assert(c.start < clips[i].start);
            }
        }
    }
}

/// What speeding up asks of a clip: the speed that it has times the factor, in a
/// duration that plays its material, to within a frame and two microseconds. Its
/// start moves to the nearest frame at which the factor brings it, counted from
/// the start of the range.
pub open spec fn sped_up(
    c: ClipV,
    from: TimeUs,
    factor: Real,
    fps: (u32, u32),
    set: ActionV,
    put: ActionV,
) -> bool {
    let length = c.payload->Media_src_out - c.payload->Media_src_in;
    let speed = c.speed.times(factor);
    let slack = time::frame_length(fps) + 2;
    &&& set is SetClipSpeed && set->SetClipSpeed_clip_id == c.id
    &&& set->SetClipSpeed_speed == speed
    &&& put is SetClipBounds && put->SetClipBounds_clip_id == c.id
    &&& put->SetClipBounds_duration == set->SetClipSpeed_duration
    &&& put->SetClipBounds_src_in is None && put->SetClipBounds_src_out is None
    &&& playable(length, speed) ==> plays_in(
        set->SetClipSpeed_duration as int,
        length,
        speed,
        slack,
    )
    &&& playable(c.start - from, factor) && 0 <= from < pow2(61) ==> plays_in(
        put->SetClipBounds_start - from,
        c.start - from,
        factor,
        slack,
    )
}

/// The actions that speed up clips are two for each media clip, in their order:
/// what follows is what the factor makes of the clip.
pub proof fn law_speeding_up(clips: Seq<ClipV>, from: TimeUs, factor: Real, fps: (u32, u32))
    requires
        fps.0 > 0,
        fps.1 > 0,
    ensures
        ({
            let media = clips.filter(|c: ClipV| c.payload is Media);
            let list = ranges::speed_list(clips, from, factor, fps);
            &&& list.len() == 2 * media.len()
            &&& forall|i: int|
                0 <= i < media.len() ==> sped_up(
                    #[trigger] media[i],
                    from,
                    factor,
                    fps,
                    list[2 * i],
                    list[2 * i + 1],
                )
        }),
    decreases clips.len(),
{
    reveal(Seq::filter);
    if clips.len() > 0 {
        let f = |c: ClipV| c.payload is Media;
        let before = clips.drop_last();
        law_speeding_up(before, from, factor, fps);
        let c = clips.last();
        let list = ranges::speed_list(clips, from, factor, fps);
        let old_list = ranges::speed_list(before, from, factor, fps);
        let media = clips.filter(f);
        let old_media = before.filter(f);
        if c.payload is Media {
            let n = old_media.len() as int;
            assert(media == old_media.push(c));
            lemma_sped_up(c, from, factor, fps);
            assert(list.len() == 2 * media.len());
            assert forall|i: int| 0 <= i < media.len() implies sped_up(
                #[trigger] media[i],
                from,
                factor,
                fps,
                list[2 * i],
                list[2 * i + 1],
            ) by {
                if i < n {
                    assert(media[i] == old_media[i]);
                    assert(list[2 * i] == old_list[2 * i]);
                    assert(list[2 * i + 1] == old_list[2 * i + 1]);
                }
            }
        } else {
            assert(media == old_media);
            assert(list == old_list);
        }
    }
}

proof fn lemma_sped_up(c: ClipV, from: TimeUs, factor: Real, fps: (u32, u32))
    requires
        fps.0 > 0,
        fps.1 > 0,
        c.payload is Media,
    ensures
        ({
            let list = ranges::speed_list(seq![c], from, factor, fps);
            list.len() == 2 && sped_up(c, from, factor, fps, list[0], list[1])
        }),
{
    let list = ranges::speed_list(seq![c], from, factor, fps);
    assert(seq![c].drop_last() =~= Seq::<ClipV>::empty());
    assert(seq![c].last() == c);
    assert(ranges::speed_list(seq![c].drop_last(), from, factor, fps) =~= Seq::<ActionV>::empty());
    assert(list.len() == 2);
    lemma2_to64();
    lemma2_to64_rest();
    let length = c.payload->Media_src_out - c.payload->Media_src_in;
    let speed = c.speed.times(factor);
    if playable(length, speed) {
        law_stretched(length as TimeUs, speed, fps);
    }
    let gone = c.start - from;
    if playable(gone, factor) && 0 <= from < pow2(61) {
        let t = ops::divided_time(gone as TimeUs, factor);
        exact::law_divided_time(gone as TimeUs, factor);
        lemma_near_frame(t, fps);
        let q = time::quantized(t, fps);
        lemma_near_duration(q as int, t as int, gone, factor, time::frame_length(fps) + 1);
        lemma_frame_bound(fps);
    }
}

proof fn lemma_frame_bound(fps: (u32, u32))
    requires
        fps.0 > 0,
        fps.1 > 0,
    ensures
        time::frame_length(fps) < pow2(60),
{
    lemma2_to64();
    lemma2_to64_rest();
    time::law_frame_length(fps);
    let g: int = time::frame_length(fps) as int;
    let r: int = fps.0 as int;
    let d: int = fps.1 * time::US_PER_SEC;
    assert(1 * d == d);
    assert(g <= d + 1) by (nonlinear_arith)
        requires
            2 * (g * r - d) <= r,
            r >= 1,
            d >= 0,
            g >= 0,
    ;
}

proof fn lemma_next_is_there(clips: Seq<ClipV>, after: TimeUs)
    requires
        ops::next_start(clips, after) is Some,
    ensures
        exists|i: int|
            0 <= i < clips.len() && (#[trigger] clips[i]).start == ops::next_start(
                clips,
                after,
            )->Some_0,
    decreases clips.len(),
{
    if clips.len() > 0 {
        if ops::next_start(clips.drop_last(), after) is Some {
            lemma_next_is_there(clips.drop_last(), after);
            let i = choose|i: int|
                0 <= i < clips.len() - 1 && (#[trigger] clips.drop_last()[i]).start
                    == ops::next_start(clips.drop_last(), after)->Some_0;
            assert(clips[i] == clips.drop_last()[i]);
        }
        assert(clips[clips.len() - 1] == clips.last());
    }
}

/// A range gets shorter by as much as the factor takes from it: what is left of
/// it is its length divided by the factor, at the nearest frame. Nothing is saved
/// where that is no shorter.
pub proof fn law_saved(from: TimeUs, to: TimeUs, factor: Real, fps: (u32, u32))
    requires
        fps.0 > 0,
        fps.1 > 0,
        playable(to - from, factor),
    ensures
        0 <= ranges::saved(from, to, factor, fps) <= to - from,
        ranges::saved(from, to, factor, fps) > 0 ==> plays_in(
            to - from - ranges::saved(from, to, factor, fps),
            to - from,
            factor,
            time::frame_length(fps) + 2,
        ),
        ranges::saved(from, to, factor, fps) == 0 ==> (to - from) * fine(factor) <= (to - from)
            * one() + (time::frame_length(fps) + 2) * fine(factor),
{
    lemma2_to64();
    lemma2_to64_rest();
    let gone = to - from;
    let t = ops::divided_time(gone as TimeUs, factor);
    exact::law_divided_time(gone as TimeUs, factor);
    lemma_near_frame(t, fps);
    let q = time::quantized(t, fps);
    lemma_near_duration(q as int, t as int, gone, factor, time::frame_length(fps) + 1);
    if ranges::saved(from, to, factor, fps) == 0 {
        assert(gone * fine(factor) <= q * fine(factor)) by (nonlinear_arith)
            requires
                gone <= q,
        ;
    }
}

} // verus!
