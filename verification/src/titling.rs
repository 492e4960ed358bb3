//! When texts show: a title as long as its clip, a caption as long as it is said,
//! a word of karaoke bright from when it is said on. A preview shows at each time
//! what an export shows then.

use vstd::prelude::*;

use crate::captions;
use crate::captions::PhraseV;
use crate::crossing::moderate;
use crate::float::Real;
use crate::ident::Id;
use crate::model::{ClipV, ProjectV, SequenceV, TextStyle, WordV};
use crate::overlays;
use crate::overlays::{DrawV, SingV, Spot, Sung};
use crate::render;
use crate::text;
use crate::time::TimeUs;

verus! {

/// The later of two times.
pub open spec fn later_of(a: int, b: int) -> int {
    if a < b {
        b
    } else {
        a
    }
}

/// The earlier of two times.
pub open spec fn earlier_of(a: int, b: int) -> int {
    if a < b {
        a
    } else {
        b
    }
}

/// A text with a time span says when it shows, in seconds; one without always
/// shows.
pub proof fn law_enabled(
    font: Seq<char>,
    content: Seq<char>,
    size: nat,
    color: Seq<char>,
    x: Seq<char>,
    y: TimeUs,
    scale: Real,
    from: TimeUs,
    to: TimeUs,
)
    ensures
        captions::draw_text(font, content, size, color, x, y, scale, Some((from, to)))
            == captions::draw_text(font, content, size, color, x, y, scale, None) + (
        ":enable='between(t,"@ + render::secs_text(from) + ","@ + render::secs_text(to) + ")'"@),
{
    reveal(captions::draw_text);
    let bare = "drawtext="@ + font + ":text='"@ + captions::escaped(content) + "':fontsize="@
        + text::digits(size) + ":fontcolor="@ + color + ":borderw="@ + text::digits(
        captions::border(scale),
    ) + ":bordercolor=black@0.6:x="@ + x + ":y=(h-text_h)/2+"@ + text::int_text(y as int);
    reveal_strlit("");
    assert(bare + captions::enable_text(None) =~= bare);
}

/// A drawing of an export, of all of it.
pub open spec fn of_export(d: DrawV) -> DrawV {
    DrawV { at: None, windows: Seq::<(TimeUs, TimeUs)>::empty(), ..d }
}

/// A drawing of a preview at a time.
pub open spec fn of_preview(d: DrawV, t: TimeUs) -> DrawV {
    DrawV { at: Some(t), ..d }
}

/// A text that shows from one time to another is drawn for that span in an export,
/// and in a preview exactly at the times in it. Where parts of the timeline are
/// exported, it is drawn if it shows in one of them.
pub proof fn law_span_shows(
    d: DrawV,
    content: Seq<char>,
    style: TextStyle,
    size: Real,
    from: TimeUs,
    to: TimeUs,
    t: TimeUs,
)
    ensures
        overlays::span_overlay(of_export(d), content, style, size, from, to) == captions::draw_lines(
            d.fonts,
            d.fallback,
            content,
            style,
            size,
            d.scale,
            Some((from, to)),
            d.out_w,
        ),
        overlays::span_overlay(of_preview(d, t), content, style, size, from, to) == if from <= t < to {
            captions::draw_lines(
                d.fonts,
                d.fallback,
                content,
                style,
                size,
                d.scale,
                None,
                d.out_w,
            )
        } else {
            Seq::<Seq<char>>::empty()
        },
        d.at is None && (exists|i: int|
            0 <= i < d.windows.len() && (#[trigger] d.windows[i]).0 <= t < d.windows[i].1 && from <= t
                < to) ==> overlays::span_overlay(d, content, style, size, from, to)
            == overlays::span_overlay(of_export(d), content, style, size, from, to),
        d.at is None && d.windows.len() > 0 && (forall|i: int|
            0 <= i < d.windows.len() ==> to <= (#[trigger] d.windows[i]).0 || d.windows[i].1 <= from)
            ==> overlays::span_overlay(d, content, style, size, from, to) == Seq::<Seq<char>>::empty(),
{
}

/// A title shows while its clip does.
pub proof fn law_title_shows(d: DrawV, p: ProjectV, s: SequenceV, c: ClipV, t: TimeUs)
    requires
        c.payload is Text,
        !text::is_blank(c.payload->Text_content),
        moderate(c.start),
        moderate(c.duration),
    ensures
        ({
            let content = c.payload->Text_content;
            let style = c.payload->Text_style;
            &&& overlays::clip_overlays(of_export(d), p, s, c, None, false) == captions::draw_lines(
                d.fonts,
                d.fallback,
                content,
                style,
                style.size,
                d.scale,
                Some((c.start, (c.start + c.duration) as TimeUs)),
                d.out_w,
            )
            &&& overlays::clip_overlays(of_preview(d, t), p, s, c, None, false) == if c.start <= t
                < c.start + c.duration {
                captions::draw_lines(
                    d.fonts,
                    d.fallback,
                    content,
                    style,
                    style.size,
                    d.scale,
                    None,
                    d.out_w,
                )
            } else {
                Seq::<Seq<char>>::empty()
            }
        }),
{
    reveal(overlays::clip_overlays);
    law_span_shows(
        d,
        c.payload->Text_content,
        c.payload->Text_style,
        c.payload->Text_style.size,
        c.start,
        c.finish(),
        t,
    );
}

/// A caption shows from where its first word lies on the timeline, for as long as
/// it is said, but only while its clip does; in a preview exactly at the times at
/// which an export shows it.
pub proof fn law_caption_shows(
    d: DrawV,
    s: SequenceV,
    asset_id: Id,
    c: ClipV,
    style: TextStyle,
    size: Real,
    item: PhraseV,
    t: TimeUs,
)
    requires
        moderate(c.start),
        moderate(c.duration),
        moderate(item.1),
        moderate(item.2),
    ensures
        ({
            let none = Seq::<Seq<char>>::empty();
            let export = overlays::item_overlay(of_export(d), s, asset_id, c, style, size, item);
            let preview = overlays::item_overlay(of_preview(d, t), s, asset_id, c, style, size, item);
            match overlays::time_on_tracks(s.tracks, asset_id, item.1) {
                Some(on) => moderate(on) && !text::is_blank(item.0) ==> {
                    let from = later_of(on as int, c.start as int);
                    let to = earlier_of(on + item.2 - item.1, c.start + c.duration);
                    &&& export == if from < to {
                        captions::draw_lines(
                            d.fonts,
                            d.fallback,
                            item.0,
                            style,
                            size,
                            d.scale,
                            Some((from as TimeUs, to as TimeUs)),
                            d.out_w,
                        )
                    } else {
                        none
                    }
                    &&& preview == if from <= t < to {
                        captions::draw_lines(
                            d.fonts,
                            d.fallback,
                            item.0,
                            style,
                            size,
                            d.scale,
                            None,
                            d.out_w,
                        )
                    } else {
                        none
                    }
                },
                None => export == none && preview == none,
            }
        }),
{
    reveal(overlays::item_overlay);
    if let Some(on) = overlays::time_on_tracks(s.tracks, asset_id, item.1) {
        if moderate(on) {
            let from = later_of(on as int, c.start as int) as TimeUs;
            let to = earlier_of(on + item.2 - item.1, c.start + c.duration) as TimeUs;
            law_span_shows(d, item.0, style, size, from, to, t);
        }
    }
}

/// A phrase of karaoke shows as a caption does: from where it lies on the timeline,
/// for as long as it is said, while its clip shows.
pub proof fn law_phrase_shows(
    s: SequenceV,
    asset_id: Id,
    c: ClipV,
    phrase: PhraseV,
    t: TimeUs,
)
    requires
        moderate(c.start),
        moderate(c.duration),
        moderate(phrase.1),
        moderate(phrase.2),
    ensures
        ({
            let all = Seq::<(TimeUs, TimeUs)>::empty();
            let export = overlays::sung_span(s, asset_id, c, phrase, all, None);
            let preview = overlays::sung_span(s, asset_id, c, phrase, all, Some(t));
            match overlays::time_on_tracks(s.tracks, asset_id, phrase.1) {
                Some(on) => moderate(on) ==> {
                    let from = later_of(on as int, c.start as int);
                    let to = earlier_of(on + phrase.2 - phrase.1, c.start + c.duration);
                    let span = Some((on, from as TimeUs, to as TimeUs));
                    &&& export == if from < to {
                        span
                    } else {
                        None
                    }
                    &&& preview == if from <= t < to {
                        span
                    } else {
                        None
                    }
                },
                None => export is None && preview is None,
            }
        }),
{
}

/// A word of karaoke is dim as long as its phrase shows, and bright from when it is
/// said until the phrase ends. It is not bright before its clip starts. A word that
/// lies nowhere on the timeline is bright with its phrase. A preview draws it
/// bright exactly from then on.
pub proof fn law_word_lights_up(
    g: SingV,
    s: SequenceV,
    asset_id: Id,
    clip_start: TimeUs,
    w: WordV,
    spot: Spot,
    n_lines: nat,
    span: Sung,
    t: TimeUs,
)
    ensures
        ({
            let export = overlays::sung_word(
                g,
                s,
                asset_id,
                clip_start,
                w,
                spot,
                n_lines,
                span,
                None,
            );
            let preview = overlays::sung_word(
                g,
                s,
                asset_id,
                clip_start,
                w,
                spot,
                n_lines,
                span,
                Some(t),
            );
            let said = match overlays::time_on_tracks(s.tracks, asset_id, w.start_us) {
                Some(on) => on as int,
                None => span.0 as int,
            };
            let from = earlier_of(later_of(said, clip_start as int), span.2 as int);
            let x = "(w-"@ + crate::decimal::fixed_text(spot.2, 0) + ")/2+"@
                + crate::decimal::fixed_text(spot.1, 0);
            let y = captions::line_place(g.y_offset, g.scale, spot.0, n_lines, g.px, g.line_height);
            let draw = |color: Seq<char>, when: Option<(TimeUs, TimeUs)>|
                captions::draw_text(
                    g.font,
                    w.label(),
                    captions::small(g.px),
                    color,
                    x,
                    y,
                    g.scale,
                    when,
                );
            &&& export.len() == 2
            &&& export[0] == draw(g.dim, Some((span.1, span.2)))
            &&& export[1] == draw(g.bright, Some((from as TimeUs, span.2)))
            &&& preview.len() == if from <= t {
                2nat
            } else {
                1nat
            }
            &&& preview[0] == draw(g.dim, None)
            &&& from <= t ==> preview[1] == draw(g.bright, None)
        }),
{
    reveal(overlays::sung_word);
}

} // verus!
