//! Curves over time: which piece of an expression holds when, and what the halves
//! of a curve are.

use vstd::prelude::*;

use crate::crossing::moderate;
use crate::decimal;
use crate::float::Real;
use crate::ident::Id;
use crate::keyframe;
use crate::keyframe::{Interp, Keyframe, ParamV};
use crate::model::{ClipV, TransformV};
use crate::ops;
use crate::render;
use crate::sound;
use crate::text;
use crate::time;
use crate::time::TimeUs;

verus! {

// ---- expressions ----

/// A choice between two expressions: the first before a time, the second from it
/// on.
pub open spec fn choice(tvar: Seq<char>, at: TimeUs, a: Seq<char>, b: Seq<char>) -> Seq<char> {
    "if(lt("@ + tvar + ","@ + render::secs_text(at) + "),"@ + a + ","@ + b + ")"@
}

/// Whether an expression comes to a piece at a time, after so many choices.
pub open spec fn comes_to(s: Seq<char>, tvar: Seq<char>, t: TimeUs, piece: Seq<char>, n: nat) -> bool
    decreases n,
{
    if n == 0 {
        s == piece
    } else {
        exists|at: TimeUs, a: Seq<char>, b: Seq<char>|
            s == #[trigger] choice(tvar, at, a, b) && comes_to(
                if t < at {
                    a
                } else {
                    b
                },
                tvar,
                t,
                piece,
                (n - 1) as nat,
            )
    }
}

/// The number of the key that is the last at or before a time; none before the
/// first.
pub open spec fn key_before(keys: Seq<Keyframe>, t: TimeUs, i: int) -> bool {
    &&& -1 <= i < keys.len()
    &&& forall|j: int| 0 <= j < keys.len() ==> ((#[trigger] keys[j]).t <= t <==> j <= i)
}

/// The piece of a gain between two keys: held, or from the one level to the other
/// in decibels as the time goes from the one key to the other.
pub open spec fn gain_piece(a: Keyframe, b: Keyframe, offset: Real) -> Seq<char> {
    if a.interp == Interp::Hold {
        "pow(10,"@ + decimal::fixed_text(a.value.plus(offset), 4) + "/20)"@
    } else {
        "pow(10,("@ + decimal::fixed_text(a.value.plus(offset), 4) + "+("@ + decimal::fixed_text(
            b.value.minus(a.value),
            4,
        ) + ")*(t-"@ + render::secs_text(a.t) + ")/("@ + render::secs_text((b.t - a.t) as TimeUs)
            + "))/20)"@
    }
}

/// The piece of a parameter between two keys: held, or from the one value to the
/// other as the time goes from the one key to the other.
pub open spec fn value_piece(a: Keyframe, b: Keyframe, tvar: Seq<char>) -> Seq<char> {
    if a.interp == Interp::Hold {
        render::float_text(a.value)
    } else {
        "("@ + render::float_text(a.value) + "+("@ + render::float_text(b.value.minus(a.value))
            + ")*("@ + tvar + "-"@ + render::secs_text(a.t) + ")/("@ + render::secs_text(
            (b.t - a.t) as TimeUs,
        ) + "))"@
    }
}

/// The piece of a gain that holds behind a key: before the first key the first
/// level, and behind the last the last.
pub open spec fn gain_at(keys: Seq<Keyframe>, k: int, offset: Real) -> Seq<char> {
    if k == -1 {
        "pow(10,"@ + decimal::fixed_text(keys[0].value.plus(offset), 4) + "/20)"@
    } else if k == keys.len() - 1 {
        "pow(10,"@ + decimal::fixed_text(keys.last().value.plus(offset), 4) + "/20)"@
    } else {
        gain_piece(keys[k], keys[k + 1], offset)
    }
}

/// The piece of a parameter that holds behind a key: before the first key the first
/// value, and behind the last the last.
pub open spec fn value_at(keys: Seq<Keyframe>, k: int, tvar: Seq<char>) -> Seq<char> {
    if k == -1 {
        render::float_text(keys[0].value)
    } else if k == keys.len() - 1 {
        render::float_text(keys.last().value)
    } else {
        value_piece(keys[k], keys[k + 1], tvar)
    }
}

/// Whether the times of keys are small enough to reckon with.
pub open spec fn moderate_keys(keys: Seq<Keyframe>) -> bool {
    forall|j: int| 0 <= j < keys.len() ==> moderate((#[trigger] keys[j]).t)
}

proof fn lemma_gain_words(s: Seq<char>)
    ensures
        "if(lt(t,"@ + s == "if(lt("@ + "t"@ + ","@ + s,
{
    reveal_strlit("if(lt(t,");
    reveal_strlit("if(lt(");
    reveal_strlit("t");
    reveal_strlit(",");
    assert("if(lt(t,"@ =~= "if(lt("@ + "t"@ + ","@);
}

proof fn lemma_gain_from(keys: Seq<Keyframe>, i: int, offset: Real, t: TimeUs, k: int) -> (n: nat)
    requires
        keyframe::increasing(keys),
        moderate_keys(keys),
        key_before(keys, t, k),
        0 <= i <= k,
    ensures
        comes_to(
            sound::gain_from(keys, i, offset),
            "t"@,
            t,
            if k == keys.len() - 1 {
                "pow(10,"@ + decimal::fixed_text(keys.last().value.plus(offset), 4) + "/20)"@
            } else {
                gain_piece(keys[k], keys[k + 1], offset)
            },
            n,
        ),
    decreases keys.len() - i,
{
    if i + 1 >= keys.len() {
        0
    } else {
        let at = keys[i + 1].t;
        let a = sound::gain_segment(keys[i], keys[i + 1], offset);
        let b = sound::gain_from(keys, i + 1, offset);
        lemma_gain_words(render::secs_text(at));
        assert(sound::gain_from(keys, i, offset) == choice("t"@, at, a, b));
        if k == i {
            assert(keys[i].t < keys[i + 1].t);
            assert(moderate(keys[i].t) && moderate(keys[i + 1].t));
            assert(a == gain_piece(keys[i], keys[i + 1], offset));
            assert(comes_to(a, "t"@, t, a, 0));
            assert(t < at);
            1
        } else {
            let m = lemma_gain_from(keys, i + 1, offset, t, k);
            assert(!(t < at));
            m + 1
        }
    }
}

/// The gain of a curve holds the first level until the first key and the last from
/// the last key on, and between two keys goes from the level of the one to that of
/// the other.
pub proof fn law_gain_follows_the_curve(keys: Seq<Keyframe>, offset: Real, t: TimeUs, k: int)
    requires
        keys.len() > 0,
        keyframe::increasing(keys),
        moderate_keys(keys),
        key_before(keys, t, k),
    ensures
        exists|n: nat|
            #[trigger] comes_to(
                sound::gain_expr(keys, offset),
                "t"@,
                t,
                gain_at(keys, k, offset),
                n,
            ),
{
    let at = keys[0].t;
    let a = sound::gain_factor(keys[0].value, offset);
    let b = sound::gain_from(keys, 0, offset);
    let s = sound::gain_expr(keys, offset);
    lemma_gain_words(render::secs_text(at));
    assert(s == choice("t"@, at, a, b));
    if k == -1 {
        assert(t < at);
        assert(a == gain_at(keys, k, offset));
        assert(comes_to(a, "t"@, t, a, 0));
        assert(comes_to(s, "t"@, t, a, 1));
    } else {
        let m = lemma_gain_from(keys, 0, offset, t, k);
        assert(!(t < at));
        let piece = gain_at(keys, k, offset);
        assert(comes_to(b, "t"@, t, piece, m));
        assert(comes_to(s, "t"@, t, piece, m + 1));
    }
}

proof fn lemma_expr_from(keys: Seq<Keyframe>, i: int, tvar: Seq<char>, t: TimeUs, k: int) -> (n: nat)
    requires
        keyframe::increasing(keys),
        moderate_keys(keys),
        key_before(keys, t, k),
        0 <= i <= k,
    ensures
        comes_to(
            render::expr_from(keys, i, tvar),
            tvar,
            t,
            if k == keys.len() - 1 {
                render::float_text(keys.last().value)
            } else {
                value_piece(keys[k], keys[k + 1], tvar)
            },
            n,
        ),
    decreases keys.len() - i,
{
    if i + 1 >= keys.len() {
        0
    } else {
        let at = keys[i + 1].t;
        let a = render::segment_expr(keys[i], keys[i + 1], tvar);
        let b = render::expr_from(keys, i + 1, tvar);
        assert(render::expr_from(keys, i, tvar) == choice(tvar, at, a, b));
        if k == i {
            assert(keys[i].t < keys[i + 1].t);
            assert(moderate(keys[i].t) && moderate(keys[i + 1].t));
            assert(a == value_piece(keys[i], keys[i + 1], tvar));
            assert(comes_to(a, tvar, t, a, 0));
            assert(t < at);
            1
        } else {
            let m = lemma_expr_from(keys, i + 1, tvar, t, k);
            assert(!(t < at));
            m + 1
        }
    }
}

/// The expression of a parameter holds the first value until the first key and the
/// last from the last key on, and between two keys goes from the value of the one
/// to that of the other. A constant is itself at all times.
pub proof fn law_expression_follows_the_curve(p: ParamV, tvar: Seq<char>, t: TimeUs, k: int)
    requires
        p matches ParamV::Curve(keys) ==> keys.len() > 0 && keyframe::increasing(keys)
            && moderate_keys(keys) && key_before(keys, t, k),
    ensures
        match p {
            ParamV::Const(v) => render::expr_text(p, tvar) == render::float_text(v),
            ParamV::Curve(keys) => exists|n: nat|
                #[trigger] comes_to(
                    render::expr_text(p, tvar),
                    tvar,
                    t,
                    value_at(keys, k, tvar),
                    n,
                ),
        },
{
    if let ParamV::Curve(keys) = p {
        let at = keys[0].t;
        let a = render::float_text(keys[0].value);
        let b = render::expr_from(keys, 0, tvar);
        let s = render::expr_text(p, tvar);
        assert(s == choice(tvar, at, a, b));
        if k == -1 {
            assert(t < at);
            assert(a == value_at(keys, k, tvar));
            assert(comes_to(a, tvar, t, a, 0));
            assert(comes_to(s, tvar, t, a, 1));
        } else {
            let m = lemma_expr_from(keys, 0, tvar, t, k);
            assert(!(t < at));
            let piece = value_at(keys, k, tvar);
            assert(comes_to(b, tvar, t, piece, m));
            assert(comes_to(s, tvar, t, piece, m + 1));
        }
    }
}

// ---- halves ----

/// The value of a curve: before the first key its value, from the last key on that
/// of the last, and between two keys what lies between them.
proof fn lemma_curve_at(keys: Seq<Keyframe>, t: TimeUs, k: int)
    requires
        keys.len() > 0,
        key_before(keys, t, k),
    ensures
        keyframe::first_after(keys, t) == k + 1,
        keyframe::curve_at(keys, t) == if k == -1 {
            keys[0].value
        } else if k == keys.len() - 1 {
            keys[k].value
        } else {
            keyframe::between(keys[k], keys[k + 1], t)
        },
{
    keyframe::lemma_first_after_is(keys, t);
    let j = keyframe::first_after(keys, t) as int;
    if j > k + 1 {
        assert(keys[k + 1].t <= t);
    } else if j < k + 1 {
        assert(keys[j].t > t);
    }
}

proof fn lemma_key_before(keys: Seq<Keyframe>, t: TimeUs) -> (i: int)
    requires
        keyframe::increasing(keys),
    ensures
        key_before(keys, t, i),
{
    keyframe::lemma_first_after_is(keys, t);
    let i = keyframe::first_after(keys, t) - 1;
    assert forall|j: int| 0 <= j < keys.len() implies ((#[trigger] keys[j]).t <= t <==> j <= i) by {
        if j > i + 1 {
            assert(keys[i + 1].t < keys[j].t);
        }
    }
    i
}

/// The left half of a curve that is cut goes as the curve does before the last key
/// that it keeps.
pub proof fn law_left_half_follows_the_curve(keys: Seq<Keyframe>, offset: TimeUs, t: TimeUs, k: int)
    requires
        keyframe::increasing(keys),
        0 <= k < keys.len(),
        t < keys[k].t < offset,
    ensures
        keyframe::curve_at(keyframe::left_keys(keys, offset), t) == keyframe::curve_at(keys, t),
{
    keyframe::lemma_first_from_is(keys, offset);
    let l = keyframe::left_keys(keys, offset);
    let f = keyframe::first_from(keys, offset) as int;
    let i = lemma_key_before(keys, t);
    assert(k < f) by {
        if k >= f {
            assert(keys[f].t >= offset);
            if f < k {
                assert(keys[f].t < keys[k].t);
            }
        }
    }
    assert(i < k) by {
        if i >= k {
            assert(keys[k].t <= t);
        }
    }
    assert(l.len() == f + 1);
    assert forall|j: int| 0 <= j < l.len() implies ((#[trigger] l[j]).t <= t <==> j <= i) by {
        if j < f {
            assert(l[j] == keys[j]);
            assert(keys[j].t <= t <==> j <= i);
        } else {
            assert(l[j].t == offset);
        }
    }
    assert(key_before(l, t, i));
    lemma_curve_at(keys, t, i);
    lemma_curve_at(l, t, i);
    assert(l[0] == keys[0]);
    if i >= 0 {
        assert(l[i] == keys[i]);
        assert(l[i + 1] == keys[i + 1]);
    }
}

/// The right half of a curve that is cut goes as the curve does from the first key
/// that it keeps on; it counts its time from the cut.
pub proof fn law_right_half_follows_the_curve(keys: Seq<Keyframe>, offset: TimeUs, t: TimeUs, k: int)
    requires
        keyframe::increasing(keys),
        moderate_keys(keys),
        0 <= offset,
        moderate(offset),
        moderate(t),
        0 <= k < keys.len(),
        offset < keys[k].t <= t + offset,
    ensures
        keyframe::curve_at(keyframe::right_keys(keys, offset), t) == keyframe::curve_at(
            keys,
            (t + offset) as TimeUs,
        ),
{
    keyframe::lemma_first_after_is(keys, offset);
    let r = keyframe::right_keys(keys, offset);
    let a = keyframe::first_after(keys, offset) as int;
    let u = (t + offset) as TimeUs;
    let i = lemma_key_before(keys, u);
    assert(a <= k) by {
        if k < a {
            assert(keys[k].t <= offset);
        }
    }
    assert(k <= i) by {
        assert(keys[k].t <= u);
    }
    assert(r.len() == 1 + keys.len() - a);
    assert(r[0].t == 0);
    assert forall|j: int| 1 <= j < r.len() implies #[trigger] r[j] == keyframe::shifted_key(
        keys[a + j - 1],
        offset,
    ) by {}
    let m = i - a + 1;
    assert forall|j: int| 0 <= j < r.len() implies ((#[trigger] r[j]).t <= t <==> j <= m) by {
        if j > 0 {
            let x = keys[a + j - 1];
            assert(moderate(x.t));
            assert(r[j] == keyframe::shifted_key(x, offset));
            assert(r[j].t == x.t - offset);
            assert(x.t <= u <==> a + j - 1 <= i);
        }
    }
    assert(key_before(r, t, m));
    lemma_curve_at(keys, u, i);
    lemma_curve_at(r, t, m);
    assert(r[m] == keyframe::shifted_key(keys[i], offset));
    if i + 1 < keys.len() {
        assert(r[m + 1] == keyframe::shifted_key(keys[i + 1], offset));
        assert(moderate(keys[i].t) && moderate(keys[i + 1].t));
        lemma_between_shifts(keys[i], keys[i + 1], offset, t);
    }
}

proof fn lemma_between_shifts(a: Keyframe, b: Keyframe, offset: TimeUs, t: TimeUs)
    requires
        moderate(a.t),
        moderate(b.t),
        moderate(offset),
        moderate(t),
    ensures
        keyframe::between(
            keyframe::shifted_key(a, offset),
            keyframe::shifted_key(b, offset),
            t,
        ) == keyframe::between(a, b, (t + offset) as TimeUs),
{
    let x = keyframe::shifted_key(a, offset);
    let y = keyframe::shifted_key(b, offset);
    let u = (t + offset) as TimeUs;
    assert(x.t == a.t - offset && y.t == b.t - offset);
    assert(time::sooner(t, x.t) == time::sooner(u, a.t));
    assert(time::sooner(y.t, x.t) == time::sooner(b.t, a.t));
}

/// A cut makes no fade of its own: the left half fades in as its clip does, and the
/// right half fades out as it does, each for no longer than it lasts; at the cut
/// neither fades. What is muted or denoised stays so.
pub proof fn law_halves_fade(c: ClipV, offset: TimeUs, left: Id, right: Id)
    requires
        0 < offset < c.duration,
    ensures
        ({
            let a = ops::left_half(c, offset, left).audio;
            let b = ops::right_half(c, offset, right).audio;
            &&& a.fade_in_us == if c.audio.fade_in_us < offset {
                c.audio.fade_in_us
            } else {
                offset
            }
            &&& a.fade_out_us == 0
            &&& b.fade_in_us == 0
            &&& b.fade_out_us == if c.audio.fade_out_us < c.duration - offset {
                c.audio.fade_out_us as int
            } else {
                c.duration - offset
            }
            &&& a.muted == c.audio.muted && b.muted == c.audio.muted
            &&& a.denoise == c.audio.denoise && b.denoise == c.audio.denoise
            &&& a.gain_db == c.audio.gain_db.split_left(offset)
            &&& b.gain_db == c.audio.gain_db.split_right(offset)
            &&& a.pan == c.audio.pan.split_left(offset)
            &&& b.pan == c.audio.pan.split_right(offset)
        }),
{
}

// ---- transforms ----

/// What a transform does to a picture, as filters. What is cropped on a side is
/// taken from that side: the width is what the left and the right leave, from where
/// the left ends on, and the height likewise. Each side is scaled by its own factor.
/// A turn is in degrees. A place is counted from the centre of the canvas.
pub proof fn law_transform_shapes(parts: Seq<Seq<char>>, t: TransformV, tvar: Seq<char>, transparent: bool)
    ensures
        ({
            let l = render::crop_of(t.crop.0);
            let top = render::crop_of(t.crop.1);
            let r = render::crop_of(t.crop.2);
            let b = render::crop_of(t.crop.3);
            let one = Real::of(1);
            render::crop_stage(parts, t) == if render::tiny().less(l.plus(top).plus(r).plus(b)) {
                parts.push(
                    "crop=w=trunc(iw*"@ + render::float_text(one.minus(l).minus(r))
                        + "/2)*2:h=trunc(ih*"@ + render::float_text(one.minus(top).minus(b))
                        + "/2)*2:x=iw*"@ + render::float_text(l) + ":y=ih*"@ + render::float_text(
                        top,
                    ),
                )
            } else {
                parts
            }
        }),
        !render::moves(t.scale.0) && !render::moves(t.scale.1) && render::scaled(t)
            ==> render::scale_stage(parts, t, tvar) == parts.push(
            "scale=trunc(iw*"@ + render::float_text(render::scale_of(t.scale.0))
                + "/2)*2:trunc(ih*"@ + render::float_text(render::scale_of(t.scale.1)) + "/2)*2"@,
        ),
        render::moves(t.scale.0) || render::moves(t.scale.1) ==> render::scale_stage(parts, t, tvar)
            == parts.push(
            "scale=w='trunc(iw*clip("@ + render::expr_text(t.scale.0, tvar)
                + ",0.01,10)/2)*2':h='trunc(ih*clip("@ + render::expr_text(t.scale.1, tvar)
                + ",0.01,10)/2)*2':eval=frame"@,
        ),
        render::moves(t.rotation) ==> render::turn_stage(parts, t, transparent, tvar).last()
            == "rotate=a='("@ + render::expr_text(t.rotation, tvar)
            + ")*PI/180':ow=hypot(iw\\,ih):oh=ow:c="@ + render::backdrop(transparent),
        render::flip_stage(parts, t) == parts + (if t.flip_h {
            seq!["hflip"@]
        } else {
            Seq::<Seq<char>>::empty()
        }) + (if t.flip_v {
            seq!["vflip"@]
        } else {
            Seq::<Seq<char>>::empty()
        }),
        !render::moves(t.opacity) && render::faded(t) ==> render::fade_stage(parts, t, tvar)
            == parts.push(
            "format=rgba,colorchannelmixer=aa="@ + decimal::fixed_text(
                t.opacity.at(0).within(Real::of(0), Real::of(1)),
                4,
            ),
        ),
        !render::moves(t.position.0) && !render::moves(t.position.1) ==> {
            &&& render::place_expr("W"@, "w"@, t, t.position.0, tvar) == "("@ + "W"@ + "-"@ + "w"@
                + ")/2+"@ + text::int_text(t.position.0.at(0).to_nearest_int())
            &&& render::place_expr("H"@, "h"@, t, t.position.1, tvar) == "("@ + "H"@ + "-"@ + "h"@
                + ")/2+"@ + text::int_text(t.position.1.at(0).to_nearest_int())
        },
{
    assert(parts + Seq::<Seq<char>>::empty() =~= parts);
    assert(render::flip_stage(parts, t) =~= parts + (if t.flip_h {
        seq!["hflip"@]
    } else {
        Seq::<Seq<char>>::empty()
    }) + (if t.flip_v {
        seq!["vflip"@]
    } else {
        Seq::<Seq<char>>::empty()
    }));
}

} // verus!
