//! Transitions between segments: the material that they take from both sides, and
//! when they run.

use vstd::arithmetic::power2::*;
use vstd::prelude::*;

use crate::edl;
use crate::edl::SegmentV;
use crate::exact;
use crate::exact::{above_zero, apart, fine, one};
use crate::float::Real;
use crate::graph;
use crate::graph::GraphV;
use crate::model::ProjectV;
use crate::ops;
use crate::render;
use crate::speeding::playable;
use crate::text;
use crate::time;
use crate::time::TimeUs;
use crate::transitions;

verus! {

/// Whether a time at a speed fits into material of a length, to within half a
/// microsecond of the timeline.
pub open spec fn fits_into(t: int, length: int, speed: Real) -> bool {
    2 * (t * fine(speed)) <= 2 * (length * one()) + fine(speed)
}

/// Whether material of a length is used up by a time at a speed: two microseconds
/// more would not fit into it.
pub open spec fn uses_up(t: int, length: int, speed: Real) -> bool {
    2 * (length * one()) < 2 * (t * fine(speed)) + 3 * fine(speed)
}

/// How long material lasts at a speed in whole microseconds.
pub proof fn law_whole_over(length: TimeUs, speed: Real)
    requires
        playable(length as int, speed),
    ensures
        0 <= edl::whole_over(length, speed) <= pow2(53) + 1,
        fits_into(edl::whole_over(length, speed) as int, length as int, speed),
        uses_up(edl::whole_over(length, speed) as int, length as int, speed),
{
    let y = Real::of(length as int).over(speed);
    exact::lemma_quotient_near(length as int, speed, 53);
    exact::lemma_fine_positive(speed);
    lemma_pow2_pos(1074);
    lemma2_to64();
    lemma2_to64_rest();
    let t: int = length as int;
    let o = one() as int;
    let s = fine(speed) as int;
    assert(fine(y) <= pow2(54) * one()) by (nonlinear_arith)
        requires
            2 * (fine(y) * s) <= 2 * (t * o * o) + s * o,
            t * o < pow2(53) * s,
            pow2(54) == 2 * pow2(53),
            pow2(53) >= 1,
            o == one(),
            o > 0,
            s > 0,
    ;
    exact::lemma_to_whole(y);
    let w = y.to_whole_int();
    let f = fine(y) as int;
    assert(2 * (w * s) <= 2 * (t * o) + s) by (nonlinear_arith)
        requires
            w * o <= f,
            2 * (f * s) <= 2 * (t * o * o) + s * o,
            o > 0,
            s > 0,
    ;
    assert(2 * (t * o) < 2 * (w * s) + 3 * s) by (nonlinear_arith)
        requires
            f < (w + 1) * o,
            2 * (t * o * o) - s * o <= 2 * (f * s),
            o > 0,
            s > 0,
    ;
    assert(w <= pow2(53) + 1) by (nonlinear_arith)
        requires
            2 * (w * s) <= 2 * (t * o) + s,
            t * o < pow2(53) * s,
            s > 0,
    ;
}

/// What is left of an asset behind a place.
pub open spec fn left_over(p: ProjectV, s: SegmentV) -> int {
    let d = edl::asset_length(p, s->Source_asset_id) - s->Source_src_out;
    if d < 0 {
        0
    } else {
        d
    }
}

/// Whether a time is half of the transition between two segments: half of what is
/// asked for, or as much as both sides have material for. The side that ends takes
/// it from behind its end, the side that begins from before its beginning.
pub open spec fn is_half(p: ProjectV, x: SegmentV, y: SegmentV, h: int) -> bool {
    let asked = edl::cross_in(y)->Some_0.0;
    &&& 0 <= 2 * h <= asked
    &&& fits_into(h, left_over(p, x), x->Source_speed)
    &&& fits_into(h, y->Source_src_in as int, y->Source_speed)
    &&& {
        ||| asked <= 2 * h + 1
        ||| uses_up(h, left_over(p, x), x->Source_speed)
        ||| uses_up(h, y->Source_src_in as int, y->Source_speed)
    }
}

/// Whether two segments can have a transition between them that is reckoned with:
/// times below `2^52` microseconds, and speeds up to a thousand.
pub open spec fn crossable(p: ProjectV, x: SegmentV, y: SegmentV) -> bool {
    &&& x is Source && y is Source && edl::cross_in(y) is Some
    &&& 0 <= edl::cross_in(y)->Some_0.0 < pow2(52)
    &&& 0 <= edl::asset_length(p, x->Source_asset_id) < pow2(52)
    &&& 0 <= x->Source_src_out < pow2(52)
    &&& 0 <= y->Source_src_in < pow2(52)
    &&& above_zero(x->Source_speed) && fine(x->Source_speed) <= 1000 * one()
    &&& above_zero(y->Source_speed) && fine(y->Source_speed) <= 1000 * one()
    &&& playable(left_over(p, x), x->Source_speed)
    &&& playable(y->Source_src_in as int, y->Source_speed)
}

proof fn lemma_fits_less(t: int, u: int, length: int, speed: Real)
    requires
        t <= u,
        fits_into(u, length, speed),
    ensures
        fits_into(t, length, speed),
{
    assert(t * fine(speed) <= u * fine(speed)) by (nonlinear_arith)
        requires
            t <= u,
    ;
}

proof fn lemma_scaled(h: TimeUs, length: int, speed: Real)
    requires
        0 <= h < pow2(53),
        0 <= length < pow2(52),
        above_zero(speed),
        fine(speed) <= 1000 * one(),
        fits_into(h as int, length, speed),
    ensures
        0 <= ops::scaled_time(h, speed) <= pow2(53) + 1,
        apart(ops::scaled_time(h, speed) * one(), h * fine(speed)) <= one(),
{
    lemma2_to64();
    lemma2_to64_rest();
    lemma_pow2_pos(1074);
    assert(h * fine(speed) < pow2(53) * one()) by (nonlinear_arith)
        requires
            2 * (h * fine(speed)) <= 2 * (length * one()) + fine(speed),
            fine(speed) <= 1000 * one(),
            length + 1000 < pow2(53),
            one() > 0,
    ;
    exact::law_scaled_time(h, speed);
}

/// A transition between two sources takes its material from both sides: half of
/// it lies behind the end of the one and half before the beginning of the other,
/// each as much of the source as its speed makes of that time, to within a
/// microsecond. It is as long as asked for, or as the material allows. Where that
/// is too short, it comes from black instead. Nothing else changes.
pub proof fn law_handles(p: ProjectV, list: Seq<SegmentV>, i: int)
    requires
        0 < i < list.len(),
        crossable(p, list[i - 1], list[i]),
    ensures
        ({
            let x = list[i - 1];
            let y = list[i];
            let r = edl::settled_at(p, list, i);
            let a = r[i - 1];
            let b = r[i];
            &&& r.len() == list.len()
            &&& forall|k: int| 0 <= k < list.len() && k != i - 1 && k != i ==> r[k] == #[trigger] list[k]
            &&& exists|h: int|
                {
                    &&& #[trigger] is_half(p, x, y, h)
                    &&& if 2 * h < edl::MIN_TRANSITION {
                        &&& a == x
                        &&& b == (SegmentV::Source {
                            asset_id: y->Source_asset_id,
                            src_in: y->Source_src_in,
                            src_out: y->Source_src_out,
                            speed: y->Source_speed,
                            vf: y->Source_vf,
                            transition_in: None,
                            entrance: edl::cross_in(y),
                            exit: y->Source_exit,
                        })
                    } else {
                        let more = a->Source_src_out - x->Source_src_out;
                        let less = y->Source_src_in - b->Source_src_in;
                        &&& apart(more * one(), h * fine(x->Source_speed)) <= one()
                        &&& apart(less * one(), h * fine(y->Source_speed)) <= one()
                        &&& a == (SegmentV::Source {
                            asset_id: x->Source_asset_id,
                            src_in: x->Source_src_in,
                            src_out: a->Source_src_out,
                            speed: x->Source_speed,
                            vf: x->Source_vf,
                            transition_in: x->Source_transition_in,
                            entrance: x->Source_entrance,
                            exit: x->Source_exit,
                        })
                        &&& b == (SegmentV::Source {
                            asset_id: y->Source_asset_id,
                            src_in: b->Source_src_in,
                            src_out: y->Source_src_out,
                            speed: y->Source_speed,
                            vf: y->Source_vf,
                            transition_in: Some(((2 * h) as TimeUs, edl::cross_in(y)->Some_0.1)),
                            entrance: y->Source_entrance,
                            exit: y->Source_exit,
                        })
                    }
                }
        }),
{
    reveal(edl::settled_at);
    lemma2_to64();
    lemma2_to64_rest();
    let x = list[i - 1];
    let y = list[i];
    let rest = left_over(p, x) as TimeUs;
    let t = edl::cross_in(y)->Some_0;
    law_whole_over(rest, x->Source_speed);
    law_whole_over(y->Source_src_in, y->Source_speed);
    let u = edl::whole_over(rest, x->Source_speed);
    let v = edl::whole_over(y->Source_src_in, y->Source_speed);
    let h = edl::half_for(p, x, y);
    assert(time::max_time(
        time::sooner(edl::asset_length(p, x->Source_asset_id), x->Source_src_out),
        0,
    ) == rest);
    assert(h == time::min_time(time::min_time(edl::halved(t.0), u), v));
    lemma_fits_less(h as int, u as int, rest as int, x->Source_speed);
    lemma_fits_less(h as int, v as int, y->Source_src_in as int, y->Source_speed);
    assert(is_half(p, x, y, h as int));
    assert(edl::doubled(h) == 2 * h);
    lemma_scaled(h, rest as int, x->Source_speed);
    lemma_scaled(h, y->Source_src_in as int, y->Source_speed);
}

// ---- when transitions run ----

/// Whether a time is small enough to reckon with.
pub open spec fn moderate(t: TimeUs) -> bool {
    -0x1000_0000_0000_0000 <= t <= 0x1000_0000_0000_0000
}

/// Whether a time is what comes of a transition in a segment: as long as asked
/// for, but no longer than the segment, and never shorter than a glimpse.
pub open spec fn run_of(d: TimeUs, asked: TimeUs, length: TimeUs) -> bool {
    ||| d == edl::MIN_TRANSITION && (asked <= d || length <= d)
    ||| d > edl::MIN_TRANSITION && d == asked && asked <= length
    ||| d > edl::MIN_TRANSITION && d == length && length <= asked
}

/// A segment with a transition is joined by a cross-fade that ends when what comes
/// before it ends; one without follows it.
pub proof fn law_joins_run(g: GraphV, s: SegmentV, k: nat, so_far: TimeUs)
    requires
        moderate(so_far),
        moderate(s.overlap()),
    ensures
        ({
            let r = graph::join_stage(g, s, k, so_far);
            let n = text::digits(k);
            let name = graph::segment_name(s, k);
            &&& r.current == "m"@ + n
            &&& r.inputs == g.inputs
            &&& r.fc.len() == g.fc.len() + 1 && r.fc.drop_last() == g.fc
            &&& match edl::cross_in(s) {
                Some(t) => exists|offset: TimeUs|
                    {
                        &&& offset + t.0 == so_far
                        &&& r.fc.last() == "["@ + g.current + "]settb=AVTB[xa"@ + n + "];["@ + name
                            + "]settb=AVTB[xb"@ + n + "];[xa"@ + n + "][xb"@ + n
                            + "]xfade=transition="@ + transitions::kind_of(
                            transitions::kinds(),
                            t.1,
                        ) + ":duration="@ + render::secs_text(t.0) + ":offset="@
                            + #[trigger] render::secs_text(offset) + "[m"@ + n + "]"@
                    },
                None => r.fc.last() == "["@ + g.current + "]["@ + name + "]concat=n=2:v=1:a=0[m"@
                    + n + "]"@,
            }
        }),
{
    reveal(graph::join_stage);
    let r = graph::join_stage(g, s, k, so_far);
    assert(r.fc.drop_last() =~= g.fc);
    if let Some(t) = edl::cross_in(s) {
        let offset = (so_far - t.0) as TimeUs;
        assert(time::sooner(so_far, t.0) == offset);
        assert(render::secs_text(offset) == render::secs_text(time::sooner(so_far, t.0)));
    }
}

/// The lengths of the first segments, less what they overlap.
pub open spec fn laid_out(list: Seq<SegmentV>, n: nat) -> int
    decreases n,
{
    if n == 0 {
        0
    } else {
        laid_out(list, (n - 1) as nat) + list[n - 1].length() - (if n == 1 {
            0
        } else {
            list[n - 1].overlap() as int
        })
    }
}

/// Joined segments reach as far as their lengths do, less what they overlap.
pub proof fn law_joined_length(list: Seq<SegmentV>, n: nat)
    requires
        1 <= n <= list.len(),
        forall|i: int|
            0 <= i < list.len() ==> moderate((#[trigger] list[i]).length()) && moderate(
                list[i].overlap(),
            ),
        forall|m: nat|
            m <= n ==> -0x2000_0000_0000_0000 <= #[trigger] laid_out(list, m)
                <= 0x2000_0000_0000_0000,
    ensures
        graph::reached_by(list, n) == laid_out(list, n),
    decreases n,
{
    let s = list[n - 1];
    assert(moderate(s.length()) && moderate(s.overlap()));
    assert(-0x2000_0000_0000_0000 <= laid_out(list, n) <= 0x2000_0000_0000_0000);
    if n == 1 {
        assert(laid_out(list, 0) == 0);
    } else {
        law_joined_length(list, (n - 1) as nat);
        assert(-0x2000_0000_0000_0000 <= laid_out(list, (n - 1) as nat) <= 0x2000_0000_0000_0000);
    }
}

/// A segment that enters from black does so at once, and one that leaves to black
/// ends with that: the cross-fade is over when the segment is.
pub proof fn law_fades_run(g: GraphV, f: graph::FrameV, s: SegmentV, k: nat)
    requires
        moderate(s.length()),
        s.length() >= edl::MIN_TRANSITION,
    ensures
        ({
            let r = graph::entrance_stage(g, f, s, k);
            let n = text::digits(k);
            match edl::cross_from_black(s) {
                Some(t) => exists|d: TimeUs|
                    {
                        &&& run_of(d, t.0, s.length())
                        &&& r == g.with(
                            "color=black:size="@ + text::digits(f.w as nat) + "x"@ + text::digits(
                                f.h as nat,
                            ) + ":rate="@ + f.fps + ":duration="@ + render::secs_text(s.length())
                                + ",format=yuv420p,settb=AVTB[en"@ + n + "b];[v"@ + n
                                + "]settb=AVTB[en"@ + n + "s];[en"@ + n + "b][en"@ + n
                                + "s]xfade=transition="@ + transitions::kind_of(
                                transitions::kinds(),
                                t.1,
                            ) + ":duration="@ + #[trigger] render::secs_text(d)
                                + ":offset=0,format=yuv420p[v"@ + n + "f]"@,
                        )
                    },
                None => r == g,
            }
        }),
        ({
            let r = graph::exit_stage(g, f, s, k);
            let n = text::digits(k);
            match graph::cross_to_black(s) {
                Some(t) => exists|d: TimeUs, offset: TimeUs|
                    {
                        &&& run_of(d, t.0, s.length())
                        &&& offset + d == s.length()
                        &&& r == g.with(
                            "color=black:size="@ + text::digits(f.w as nat) + "x"@ + text::digits(
                                f.h as nat,
                            ) + ":rate="@ + f.fps + ":duration="@ + #[trigger] render::secs_text(d)
                                + ",format=yuv420p,settb=AVTB[ex"@ + n + "b];["@
                                + graph::entered_name(s, k) + "]settb=AVTB[ex"@ + n + "s];[ex"@ + n
                                + "s][ex"@ + n + "b]xfade=transition="@ + transitions::kind_of(
                                transitions::kinds(),
                                t.1,
                            ) + ":duration="@ + render::secs_text(d) + ":offset="@
                                + #[trigger] render::secs_text(offset) + ",format=yuv420p[v"@ + n
                                + "g]"@,
                        )
                    },
                None => r == g,
            }
        }),
{
    reveal(graph::entrance_stage);
    reveal(graph::exit_stage);
    if let Some(t) = edl::cross_from_black(s) {
        let d = graph::held_cross(t.0, s.length());
        assert(run_of(d, t.0, s.length()));
        assert(render::secs_text(d) == render::secs_text(d));
    }
    if let Some(t) = graph::cross_to_black(s) {
        let d = graph::held_cross(t.0, s.length());
        assert(run_of(d, t.0, s.length()));
        let offset = (s.length() - d) as TimeUs;
        assert(time::sooner(s.length(), d) == offset);
        assert(render::secs_text(d) == render::secs_text(d));
        assert(render::secs_text(offset) == render::secs_text(time::sooner(s.length(), d)));
    }
}

/// A layer is laid over the picture from its start on for as long as it lasts: its
/// material is moved to its start, and it shows from there until its end.
pub proof fn law_layer_is_placed(
    g: GraphV,
    p: ProjectV,
    base: Seq<char>,
    f: graph::FrameV,
    l: graph::LayerV,
    k: nat,
)
    requires
        moderate(l.start),
        moderate(l.length),
    ensures
        ({
            let r = graph::layer_stage(g, p, base, f, l, k);
            let n = text::digits(k);
            &&& r.current == "lc"@ + n
            &&& r.fc.len() >= 2
            &&& exists|tail: Seq<char>|
                r.fc[r.fc.len() - 2] == #[trigger] ("["@ + tail) + "]setpts=PTS+"@
                    + render::secs_text(l.start) + "/TB,"@ + graph::leading(l.vf) + "scale='min("@
                    + text::digits(f.w as nat) + ",iw)':'min("@ + text::digits(f.h as nat)
                    + ",ih)':force_original_aspect_ratio=decrease,format=rgba,copy[ly"@ + n + "]"@
            &&& exists|to: TimeUs|
                {
                    &&& to == l.start + l.length
                    &&& r.fc.last() == "["@ + g.current + "][ly"@ + n
                        + "]overlay=x=(W-w)/2:y=(H-h)/2:eof_action=pass:enable='between(t,"@
                        + render::secs_text(l.start) + ","@ + #[trigger] render::secs_text(to)
                        + ")'[lc"@ + n + "]"@
                }
        }),
{
    reveal(graph::layer_stage);
    let n = text::digits(k);
    let moves = l.entrance is Some || l.exit is Some;
    let tail = if moves {
        "ly"@ + n + "q"@
    } else {
        "ly"@ + n + "p"@
    };
    let to = (l.start + l.length) as TimeUs;
    assert(time::later(l.start, l.length) == to);
    assert("["@ + tail == "["@ + tail);
    assert(render::secs_text(to) == render::secs_text(time::later(l.start, l.length)));
}

} // verus!
