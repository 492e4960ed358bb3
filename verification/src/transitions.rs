//! Transitions between clips.

use vstd::prelude::*;

use crate::model;
use crate::text::{copy_text, same_text};

verus! {

/// A kind of transition: its identifier, the one that ffmpeg has for it, and
/// its name for people.
pub type Kind = (Seq<char>, Seq<char>, Seq<char>);

/// The kinds of transitions.
pub open spec fn kinds() -> Seq<Kind> {
    seq![
        ("core.crossfade"@, "fade"@, "Cross fade"@),
        ("core.wipeleft"@, "wipeleft"@, "Wipe ←"@),
        ("core.wiperight"@, "wiperight"@, "Wipe →"@),
        ("core.slideleft"@, "slideleft"@, "Slide ←"@),
        ("core.slideright"@, "slideright"@, "Slide →"@),
        ("core.slideup"@, "slideup"@, "Slide ↑"@),
        ("core.circleopen"@, "circleopen"@, "Circle open"@),
        ("core.circleclose"@, "circleclose"@, "Circle close"@),
        ("core.dissolve"@, "dissolve"@, "Dissolve"@),
        ("core.pixelize"@, "pixelize"@, "Pixelize"@),
        ("core.radial"@, "radial"@, "Radial"@),
    ]
}

/// What ffmpeg calls a transition; one that is not known is a fade.
pub open spec fn kind_of(list: Seq<Kind>, effect_id: Seq<char>) -> Seq<char>
    decreases list.len(),
{
    if list.len() == 0 {
        "fade"@
    } else if list[0].0 == effect_id {
        list[0].1
    } else {
        kind_of(list.drop_first(), effect_id)
    }
}

/// Lists the kinds of transitions.
pub fn transition_kinds() -> (v: Vec<(&'static str, &'static str, &'static str)>)
    ensures
        v@.map_values(|x: (&'static str, &'static str, &'static str)| (x.0@, x.1@, x.2@)) == kinds(),
{
    let v: Vec<(&'static str, &'static str, &'static str)> = vec![
        ("core.crossfade", "fade", "Cross fade"),
        ("core.wipeleft", "wipeleft", "Wipe ←"),
        ("core.wiperight", "wiperight", "Wipe →"),
        ("core.slideleft", "slideleft", "Slide ←"),
        ("core.slideright", "slideright", "Slide →"),
        ("core.slideup", "slideup", "Slide ↑"),
        ("core.circleopen", "circleopen", "Circle open"),
        ("core.circleclose", "circleclose", "Circle close"),
        ("core.dissolve", "dissolve", "Dissolve"),
        ("core.pixelize", "pixelize", "Pixelize"),
        ("core.radial", "radial", "Radial"),
    ];
    assert(v@.map_values(|x: (&'static str, &'static str, &'static str)| (x.0@, x.1@, x.2@))
        =~= kinds());
    v
}

/// Finds what ffmpeg calls a transition; one that is not known is a fade.
pub fn xfade_kind(effect_id: &str) -> (s: &'static str)
    ensures
        s@ == kind_of(kinds(), effect_id@),
{
    let v: Vec<(&'static str, &'static str, &'static str)> = transition_kinds();
    let ghost all = kinds();
    let mut i: usize = 0;
    assert(all.skip(0) =~= all);
    assert(v.len() == all.len());
    while i < v.len()
        invariant
            i <= v.len(),
            v.len() == all.len(),
            all == kinds(),
            v@.map_values(|x: (&'static str, &'static str, &'static str)| (x.0@, x.1@, x.2@)) == all,
            kind_of(all, effect_id@) == kind_of(all.skip(i as int), effect_id@),
        decreases v.len() - i,
    {
        assert(all[i as int] == (v@[i as int].0@, v@[i as int].1@, v@[i as int].2@));
        assert(all.skip(i as int)[0] == all[i as int]);
        assert(all.skip(i as int).drop_first() =~= all.skip(i as int + 1));
        if same_text(v[i].0, effect_id) {
            return v[i].1;
        }
        i = i + 1;
    }
    "fade"
}

/// The mask of a circle transition: how far it is open, and whether the picture
/// is inside of it.
pub open spec fn mask_of(kind: Seq<char>, progress: Seq<char>, leaving: bool) -> Option<Seq<char>> {
    let on = "("@ + progress + ")"@;
    let back = "(1-("@ + progress + "))"@;
    if kind == "circleopen"@ {
        Some(circle_text(true, if leaving { back } else { on }))
    } else if kind == "circleclose"@ {
        Some(circle_text(false, if leaving { on } else { back }))
    } else {
        None
    }
}

/// A circle as a mask of the opacity.
pub open spec fn circle_text(inside: bool, radius: Seq<char>) -> Seq<char> {
    let m = if inside {
        "clip(("@ + radius + "*hypot(W/2,H/2)-hypot(X-W/2,Y-H/2))/(0.02*hypot(W/2,H/2)),0,1)"@
    } else {
        "clip((hypot(X-W/2,Y-H/2)-"@ + radius + "*hypot(W/2,H/2))/(0.02*hypot(W/2,H/2)),0,1)"@
    };
    "format=rgba,geq=r='r(X,Y)':g='g(X,Y)':b='b(X,Y)':a='alpha(X,Y)*"@ + m + "'"@
}

fn circle(inside: bool, radius: &str) -> (r: String)
    ensures
        r@ == circle_text(inside, radius@),
{
    let m: String = if inside {
        let mut a: String = copy_text("clip((");
        a.append(radius);
        a.append("*hypot(W/2,H/2)-hypot(X-W/2,Y-H/2))/(0.02*hypot(W/2,H/2)),0,1)");
        a
    } else {
        let mut b: String = copy_text("clip((hypot(X-W/2,Y-H/2)-");
        b.append(radius);
        b.append("*hypot(W/2,H/2))/(0.02*hypot(W/2,H/2)),0,1)");
        b
    };
    let mut r: String = copy_text("format=rgba,geq=r='r(X,Y)':g='g(X,Y)':b='b(X,Y)':a='alpha(X,Y)*");
    r.append(m.as_str());
    r.append("'");
    r
}

/// Writes the mask of a circle transition, sharp and from the middle of the
/// frame; `None` for any other kind.
pub fn circle_mask(kind: &str, p_expr: &str, leaving: bool) -> (r: Option<String>)
    ensures
        model::opt_text(r) == mask_of(kind@, p_expr@, leaving),
{
    let mut on: String = copy_text("(");
    on.append(p_expr);
    on.append(")");
    let mut back: String = copy_text("(1-(");
    back.append(p_expr);
    back.append("))");
    if same_text(kind, "circleopen") {
        let radius: String = if leaving {
            back
        } else {
            on
        };
        Some(circle(true, radius.as_str()))
    } else if same_text(kind, "circleclose") {
        let radius: String = if leaving {
            on
        } else {
            back
        };
        Some(circle(false, radius.as_str()))
    } else {
        None
    }
}

} // verus!
