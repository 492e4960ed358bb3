//! Titles and subtitles drawn over the picture of a sequence.

use vstd::prelude::*;

use crate::captions;
use crate::captions::{
    caption_max_chars, caption_phrases, drawtext_at, drawtext_for, font_part_for, keep_words,
    place_line, real_count, to_small, wrap_words, Phrase, PhraseV, WIDTH_BITS, WORD_SCALE_BITS,
};
use crate::decimal;
use crate::decimal::fixed;
use crate::edl;
use crate::edl::track_shows;
use crate::float::Real;
use crate::fonts;
use crate::fonts::{find_font, measure_text_px, Fonts, FontsV, HALF_BITS};
use crate::ident::Id;
use crate::keyframe::{Param, ParamV};
use crate::model;
use crate::model::{Clip, ClipPayload, ClipV, PayloadV, Project, ProjectV, Sequence, SequenceV, SubtitleMode, TextStyle, TrackV, TranscriptDoc, TranscriptV, Transform2D, TransformV, Word, WordV};
use crate::render;
use crate::seqs;
use crate::seqs::Duplicate;
use crate::text;
use crate::text::{blank, copy_text, join, push_text, strip_start, trim_head};
use crate::time;
use crate::time::{max2, min2, minus, plus, TimeUs};

verus! {

// ---- where a piece of an asset is ----

/// Where a time of an asset lies on clips.
pub open spec fn time_on_clips(clips: Seq<ClipV>, asset_id: Id, t: TimeUs) -> Option<TimeUs>
    decreases clips.len(),
{
    if clips.len() == 0 {
        None
    } else {
        let c = clips[0];
        match c.payload {
            PayloadV::Media { asset_id: a, src_in, src_out } => if a == asset_id && t >= src_in && t
                < src_out {
                Some(time::later(c.start, time::sooner(t, src_in)))
            } else {
                time_on_clips(clips.drop_first(), asset_id, t)
            },
            _ => time_on_clips(clips.drop_first(), asset_id, t),
        }
    }
}

/// Where a time of an asset lies on tracks: on the first media clip that holds
/// it.
pub open spec fn time_on_tracks(tracks: Seq<TrackV>, asset_id: Id, t: TimeUs) -> Option<TimeUs>
    decreases tracks.len(),
{
    if tracks.len() == 0 {
        None
    } else {
        match time_on_clips(tracks[0].clips, asset_id, t) {
            Some(x) => Some(x),
            None => time_on_tracks(tracks.drop_first(), asset_id, t),
        }
    }
}

fn find_on_clips(clips: &Vec<Clip>, asset_id: Id, t: TimeUs) -> (r: Option<TimeUs>)
    ensures
        r == time_on_clips(seqs::views(clips@), asset_id, t),
{
    let ghost all = seqs::views(clips@);
    let mut i: usize = 0;
    assert(all.skip(0) =~= all);
    while i < clips.len()
        invariant
            i <= clips.len(),
            all == seqs::views(clips@),
            time_on_clips(all, asset_id, t) == time_on_clips(all.skip(i as int), asset_id, t),
        decreases clips.len() - i,
    {
        let c: &Clip = &clips[i];
        assert(all.skip(i as int)[0] == c@);
        assert(all.skip(i as int).drop_first() =~= all.skip(i as int + 1));
        if let ClipPayload::Media { asset_id: a, src_in, src_out } = &c.payload {
            if *a == asset_id && t >= *src_in && t < *src_out {
                return Some(plus(c.start, minus(t, *src_in)));
            }
        }
        i = i + 1;
    }
    None
}

/// Finds where a time of an asset lies in a sequence.
pub fn asset_time_to_timeline_pub(seq: &Sequence, asset_id: Id, t_asset: TimeUs) -> (r: Option<TimeUs>)
    ensures
        r == time_on_tracks(seq@.tracks, asset_id, t_asset),
{
    let ghost all = seq@.tracks;
    let mut i: usize = 0;
    assert(all.skip(0) =~= all);
    while i < seq.tracks.len()
        invariant
            i <= seq.tracks.len(),
            all == seq@.tracks,
            time_on_tracks(all, asset_id, t_asset) == time_on_tracks(
                all.skip(i as int),
                asset_id,
                t_asset,
            ),
        decreases seq.tracks.len() - i,
    {
        assert(all.skip(i as int)[0] == seq.tracks@[i as int]@);
        assert(all.skip(i as int).drop_first() =~= all.skip(i as int + 1));
        if let Some(x) = find_on_clips(&seq.tracks[i].clips, asset_id, t_asset) {
            return Some(x);
        }
        i = i + 1;
    }
    None
}

// ---- what is drawn where ----

/// Whether a time span shows in some window; no windows let everything show.
pub open spec fn in_windows(from: TimeUs, to: TimeUs, windows: Seq<(TimeUs, TimeUs)>) -> bool {
    windows.len() == 0 || exists|i: int|
        0 <= i < windows.len() && from < (#[trigger] windows[i]).1 && to > windows[i].0
}

fn in_export_windows(from: TimeUs, to: TimeUs, windows: &Vec<(TimeUs, TimeUs)>) -> (b: bool)
    ensures
        b == in_windows(from, to, windows@),
{
    if windows.len() == 0 {
        return true;
    }
    let mut i: usize = 0;
    while i < windows.len()
        invariant
            i <= windows.len(),
            forall|k: int|
                0 <= k < i ==> !(from < (#[trigger] windows@[k]).1 && to > windows@[k].0),
        decreases windows.len() - i,
    {
        if from < windows[i].1 && to > windows[i].0 {
            return true;
        }
        i = i + 1;
    }
    false
}

/// Whether something from one time to another is drawn, and in which window: an
/// export draws it in its span, a preview only where it shows at its time.
pub open spec fn span_window(
    from: TimeUs,
    to: TimeUs,
    at: Option<TimeUs>,
    windows: Seq<(TimeUs, TimeUs)>,
) -> Option<Option<(TimeUs, TimeUs)>> {
    match at {
        None => if in_windows(from, to, windows) {
            Some(Some((from, to)))
        } else {
            None
        },
        Some(t) => if from <= t && t < to {
            Some(None)
        } else {
            None
        },
    }
}

fn window_of(from: TimeUs, to: TimeUs, at: Option<TimeUs>, windows: &Vec<(TimeUs, TimeUs)>) -> (r: Option<
    Option<(TimeUs, TimeUs)>,
>)
    ensures
        r == span_window(from, to, at, windows@),
{
    match at {
        None => if in_export_windows(from, to, windows) {
            Some(Some((from, to)))
        } else {
            None
        },
        Some(t) => if from <= t && t < to {
            Some(None)
        } else {
            None
        },
    }
}

/// Whether a parameter is constant at a value.
pub open spec fn is_constant(p: ParamV, v: Real) -> bool {
    p matches ParamV::Const(x) && x.same(v)
}

fn constant_at(p: &Param, v: Real) -> (b: bool)
    ensures
        b == is_constant(p@, v),
{
    match p {
        Param::Const(x) => x.equals(v),
        Param::Curve(c) => false,
    }
}

/// Whether a transform changes nothing.
pub open spec fn is_plain(t: TransformV) -> bool {
    let zero = Real::of(0);
    let one = Real::of(1);
    is_constant(t.position.0, zero) && is_constant(t.position.1, zero) && is_constant(
        t.scale.0,
        one,
    ) && is_constant(t.scale.1, one) && is_constant(t.rotation, zero) && is_constant(
        t.crop.0,
        zero,
    ) && is_constant(t.crop.1, zero) && is_constant(t.crop.2, zero) && is_constant(t.crop.3, zero)
        && is_constant(t.opacity, one) && !t.flip_h && !t.flip_v
}

fn plain(t: &Transform2D) -> (b: bool)
    ensures
        b == is_plain(t@),
{
    let zero: Real = Real::from_int(0);
    let one: Real = Real::from_int(1);
    constant_at(&t.position.0, zero) && constant_at(&t.position.1, zero) && constant_at(
        &t.scale.0,
        one,
    ) && constant_at(&t.scale.1, one) && constant_at(&t.rotation, zero) && constant_at(
        &t.crop.0,
        zero,
    ) && constant_at(&t.crop.1, zero) && constant_at(&t.crop.2, zero) && constant_at(
        &t.crop.3,
        zero,
    ) && constant_at(&t.opacity, one) && !t.flip_h && !t.flip_v
}

/// Whether a clip has an effect that is on, or a transform.
pub open spec fn is_styled(c: ClipV) -> bool {
    (exists|i: int| 0 <= i < c.effects.len() && (#[trigger] c.effects[i]).enabled) || !is_plain(
        c.transform,
    )
}

/// Tells whether a text clip has an effect that is on, or a transform: it then
/// becomes a layer of its own and is not drawn into the picture.
pub fn text_is_styled_pub(clip: &Clip) -> (b: bool)
    ensures
        b == is_styled(clip@),
{
    let mut i: usize = 0;
    while i < clip.effects.len()
        invariant
            i <= clip.effects.len(),
            forall|k: int| 0 <= k < i ==> !(#[trigger] clip@.effects[k]).enabled,
        decreases clip.effects.len() - i,
    {
        assert(clip@.effects[i as int] == clip.effects@[i as int]@);
        if clip.effects[i].enabled {
            return true;
        }
        i = i + 1;
    }
    !plain(&clip.transform)
}

// ---- karaoke ----

/// Words that are spoken from a time on and before another.
pub open spec fn spoken(words: Seq<WordV>, from: TimeUs, to: TimeUs) -> Seq<WordV>
    decreases words.len(),
{
    if words.len() == 0 {
        words
    } else {
        let r = spoken(words.drop_last(), from, to);
        let w = words.last();
        if !w.rejected && w.start_us >= from && w.start_us < to {
            r.push(w)
        } else {
            r
        }
    }
}

fn find_spoken(words: &Vec<Word>, from: TimeUs, to: TimeUs) -> (r: Vec<Word>)
    ensures
        seqs::views(r@) == spoken(seqs::views(words@), from, to),
{
    let ghost all = seqs::views(words@);
    let mut r: Vec<Word> = Vec::new();
    let mut i: usize = 0;
    assert(seqs::views(r@) =~= all.take(0));
    while i < words.len()
        invariant
            i <= words.len(),
            all == seqs::views(words@),
            seqs::views(r@) == spoken(all.take(i as int), from, to),
        decreases words.len() - i,
    {
        let w: &Word = &words[i];
        proof {
            assert(all.take(i as int + 1).drop_last() =~= all.take(i as int));
            assert(all.take(i as int + 1).last() == w@);
        }
        if !w.rejected && w.start_us >= from && w.start_us < to {
            let ghost before = r@;
            r.push(w.duplicate());
            assert(seqs::views(r@) =~= seqs::views(before).push(w@));
        }
        i = i + 1;
    }
    assert(all.take(i as int) =~= all);
    r
}

/// Where a word stands: its line, how far it is in it, and the line's width.
pub type Spot = (nat, Real, Real);

/// The width of a word in karaoke.
pub open spec fn sung_px(f: FontsV, path: Seq<char>, word: Seq<char>, px: Real) -> Real {
    match fonts::text_width(f, path, word, px) {
        Some(w) => w,
        None => px.times(Real { bits: HALF_BITS }),
    }
}

fn sung_width(fonts: &Fonts, path: &str, word: &str, px: Real) -> (r: Real)
    ensures
        r == sung_px(fonts@, path@, word@, px),
{
    match measure_text_px(fonts, path, word, px) {
        Some(w) => w,
        None => px.mul(Real { bits: HALF_BITS }),
    }
}

/// The sum of the widths of words.
pub open spec fn sung_sum(f: FontsV, path: Seq<char>, line: Seq<Seq<char>>, px: Real) -> Real
    decreases line.len(),
{
    if line.len() == 0 {
        Real::of(0)
    } else {
        sung_sum(f, path, line.drop_last(), px).plus(sung_px(f, path, line.last(), px))
    }
}

/// The width of a line with its spaces.
pub open spec fn line_total(f: FontsV, path: Seq<char>, line: Seq<Seq<char>>, px: Real, gap: Real) -> Real {
    sung_sum(f, path, line, px).plus(
        gap.times(
            captions::count_real(
                if line.len() == 0 {
                    0
                } else {
                    (line.len() - 1) as nat
                },
            ),
        ),
    )
}

/// How far words get in a line, each with a space behind it.
pub open spec fn sung_prefix(f: FontsV, path: Seq<char>, line: Seq<Seq<char>>, px: Real, gap: Real) -> Real
    decreases line.len(),
{
    if line.len() == 0 {
        Real::of(0)
    } else {
        sung_prefix(f, path, line.drop_last(), px, gap).plus(
            sung_px(f, path, line.last(), px).plus(gap),
        )
    }
}

/// The places of the words of a line.
pub open spec fn line_spots(
    f: FontsV,
    path: Seq<char>,
    line: Seq<Seq<char>>,
    n: nat,
    px: Real,
    gap: Real,
) -> Seq<Spot> {
    Seq::new(
        line.len(),
        |k: int| (n, sung_prefix(f, path, line.take(k), px, gap), line_total(f, path, line, px, gap)),
    )
}

/// The places of the words of lines.
pub open spec fn spots(f: FontsV, path: Seq<char>, lines: Seq<Seq<Seq<char>>>, px: Real, gap: Real) -> Seq<
    Spot,
>
    decreases lines.len(),
{
    if lines.len() == 0 {
        Seq::<Spot>::empty()
    } else {
        spots(f, path, lines.drop_last(), px, gap) + line_spots(
            f,
            path,
            lines.last(),
            (lines.len() - 1) as nat,
            px,
            gap,
        )
    }
}

/// The contents of spots.
pub open spec fn spots_view(v: Seq<(usize, Real, Real)>) -> Seq<Spot> {
    v.map_values(|x: (usize, Real, Real)| (x.0 as nat, x.1, x.2))
}

fn find_total(fonts: &Fonts, path: &str, line: &Vec<String>, px: Real, gap: Real) -> (r: Real)
    ensures
        r == line_total(fonts@, path@, text::texts(line@), px, gap),
{
    let ghost all = text::texts(line@);
    let mut sum: Real = Real::from_int(0);
    let mut i: usize = 0;
    assert(all.take(0) =~= Seq::<Seq<char>>::empty());
    while i < line.len()
        invariant
            i <= line.len(),
            all == text::texts(line@),
            sum == sung_sum(fonts@, path@, all.take(i as int), px),
        decreases line.len() - i,
    {
        proof {
            assert(all.take(i as int + 1).drop_last() =~= all.take(i as int));
            assert(all.take(i as int + 1).last() == line@[i as int]@);
        }
        sum = sum.add(sung_width(fonts, path, line[i].as_str(), px));
        i = i + 1;
    }
    assert(all.take(i as int) =~= all);
    let n: usize = if line.len() == 0 {
        0
    } else {
        line.len() - 1
    };
    sum.add(gap.mul(real_count(n)))
}

fn add_spots(
    v: &mut Vec<(usize, Real, Real)>,
    fonts: &Fonts,
    path: &str,
    line: &Vec<String>,
    n: usize,
    px: Real,
    gap: Real,
)
    ensures
        spots_view(final(v)@) == spots_view(old(v)@) + line_spots(
            fonts@,
            path@,
            text::texts(line@),
            n as nat,
            px,
            gap,
        ),
{
    let total: Real = find_total(fonts, path, line, px, gap);
    let ghost all = text::texts(line@);
    let ghost ls = line_spots(fonts@, path@, all, n as nat, px, gap);
    let ghost v0 = v@;
    let mut prefix: Real = Real::from_int(0);
    let mut i: usize = 0;
    assert(all.take(0) =~= Seq::<Seq<char>>::empty());
    assert(spots_view(v@) =~= spots_view(v0) + ls.take(0));
    while i < line.len()
        invariant
            i <= line.len(),
            all == text::texts(line@),
            ls == line_spots(fonts@, path@, all, n as nat, px, gap),
            total == line_total(fonts@, path@, all, px, gap),
            prefix == sung_prefix(fonts@, path@, all.take(i as int), px, gap),
            spots_view(v@) == spots_view(v0) + ls.take(i as int),
        decreases line.len() - i,
    {
        proof {
            assert(all.take(i as int + 1).drop_last() =~= all.take(i as int));
            assert(all.take(i as int + 1).last() == line@[i as int]@);
            assert(ls[i as int] == (n as nat, prefix, total));
        }
        let ghost before = v@;
        v.push((n, prefix, total));
        assert(spots_view(v@) =~= spots_view(before).push((n as nat, prefix, total)));
        assert(spots_view(v@) =~= spots_view(v0) + ls.take(i as int + 1));
        prefix = prefix.add(sung_width(fonts, path, line[i].as_str(), px).add(gap));
        i = i + 1;
    }
    assert(ls.take(i as int) =~= ls);
}

fn find_spots(fonts: &Fonts, path: &str, lines: &Vec<Vec<String>>, px: Real, gap: Real) -> (v: Vec<
    (usize, Real, Real),
>)
    ensures
        spots_view(v@) == spots(fonts@, path@, captions::lines_view(lines@), px, gap),
{
    let ghost all = captions::lines_view(lines@);
    let mut v: Vec<(usize, Real, Real)> = Vec::new();
    let mut i: usize = 0;
    assert(all.take(0) =~= Seq::<Seq<Seq<char>>>::empty());
    assert(spots_view(v@) =~= Seq::<Spot>::empty());
    while i < lines.len()
        invariant
            i <= lines.len(),
            all == captions::lines_view(lines@),
            spots_view(v@) == spots(fonts@, path@, all.take(i as int), px, gap),
        decreases lines.len() - i,
    {
        proof {
            assert(all.take(i as int + 1).drop_last() =~= all.take(i as int));
            assert(all.take(i as int + 1).last() == text::texts(lines@[i as int]@));
        }
        add_spots(&mut v, fonts, path, &lines[i], i, px, gap);
        i = i + 1;
    }
    assert(all.take(i as int) =~= all);
    v
}

/// What all words of a karaoke clip share.
#[verifier::ext_equal]
pub struct SingV {
    pub fonts: FontsV,
    pub font: Seq<char>,
    pub path: Seq<char>,
    pub px: Real,
    pub scale: Real,
    pub y_offset: Real,
    pub line_height: Real,
    pub dim: Seq<char>,
    pub bright: Seq<char>,
    pub gap: Real,
    pub max_w: Real,
}

struct Sing<'a> {
    fonts: &'a Fonts,
    font: String,
    path: String,
    px: Real,
    scale: Real,
    y_offset: Real,
    line_height: Real,
    dim: String,
    bright: String,
    gap: Real,
    max_w: Real,
}

impl<'a> Sing<'a> {
    spec fn shown(self) -> SingV {
        SingV {
            fonts: self.fonts@,
            font: self.font@,
            path: self.path@,
            px: self.px,
            scale: self.scale,
            y_offset: self.y_offset,
            line_height: self.line_height,
            dim: self.dim@,
            bright: self.bright@,
            gap: self.gap,
            max_w: self.max_w,
        }
    }
}

/// A span of karaoke: where its phrase starts on the timeline, and from when to
/// when it shows.
pub type Sung = (TimeUs, TimeUs, TimeUs);

/// The commands for one word: dim for the whole phrase, and bright from when it
/// is spoken.
#[verifier::opaque]
pub open spec fn sung_word(
    g: SingV,
    s: SequenceV,
    asset_id: Id,
    clip_start: TimeUs,
    w: WordV,
    spot: Spot,
    n_lines: nat,
    span: Sung,
    at: Option<TimeUs>,
) -> Seq<Seq<char>> {
    let x = "(w-"@ + decimal::fixed_text(spot.2, 0) + ")/2+"@ + decimal::fixed_text(spot.1, 0);
    let y = captions::line_place(g.y_offset, g.scale, spot.0, n_lines, g.px, g.line_height);
    let on = match time_on_tracks(s.tracks, asset_id, w.start_us) {
        Some(t) => t,
        None => span.0,
    };
    let from = time::min_time(time::max_time(on, clip_start), span.2);
    let size = captions::small(g.px);
    match at {
        Some(t) => {
            let dim = captions::draw_text(g.font, w.label(), size, g.dim, x, y, g.scale, None);
            let bright = captions::draw_text(
                g.font,
                w.label(),
                size,
                g.bright,
                x,
                y,
                g.scale,
                None,
            );
            if t >= from {
                seq![dim, bright]
            } else {
                seq![dim]
            }
        },
        None => seq![
            captions::draw_text(
                g.font,
                w.label(),
                size,
                g.dim,
                x,
                y,
                g.scale,
                Some((span.1, span.2)),
            ),
            captions::draw_text(
                g.font,
                w.label(),
                size,
                g.bright,
                x,
                y,
                g.scale,
                Some((from, span.2)),
            ),
        ],
    }
}

fn sing_word(
    out: &mut Vec<String>,
    g: &Sing,
    seq: &Sequence,
    asset_id: Id,
    clip_start: TimeUs,
    w: &Word,
    spot: (usize, Real, Real),
    n_lines: usize,
    span: Sung,
    at: Option<TimeUs>,
)
    ensures
        text::texts(final(out)@) == text::texts(old(out)@) + sung_word(
            g.shown(),
            seq@,
            asset_id,
            clip_start,
            w@,
            (spot.0 as nat, spot.1, spot.2),
            n_lines as nat,
            span,
            at,
        ),
{
    reveal(sung_word);
    let total: String = fixed(spot.2, 0);
    let prefix: String = fixed(spot.1, 0);
    let mut x: String = copy_text("(w-");
    x.append(total.as_str());
    x.append(")/2+");
    x.append(prefix.as_str());
    let y: i64 = place_line(g.y_offset, g.scale, spot.0, n_lines, g.px, g.line_height);
    let on: TimeUs = match asset_time_to_timeline_pub(seq, asset_id, w.start_us) {
        Some(t) => t,
        None => span.0,
    };
    let from: TimeUs = min2(max2(on, clip_start), span.2);
    let size: u32 = to_small(g.px);
    let (dim_when, bright_when, lit): (
        Option<(TimeUs, TimeUs)>,
        Option<(TimeUs, TimeUs)>,
        bool,
    ) = match at {
        Some(t) => (None, None, t >= from),
        None => (Some((span.1, span.2)), Some((from, span.2)), true),
    };
    let ghost before = text::texts(out@);
    let dim: String = drawtext_at(
        g.font.as_str(),
        w.label(),
        size,
        g.dim.as_str(),
        x.as_str(),
        y,
        g.scale,
        dim_when,
    );
    push_text(out, dim);
    if lit {
        let bright: String = drawtext_at(
            g.font.as_str(),
            w.label(),
            size,
            g.bright.as_str(),
            x.as_str(),
            y,
            g.scale,
            bright_when,
        );
        push_text(out, bright);
    }
    assert(text::texts(out@) =~= before + sung_word(
        g.shown(),
        seq@,
        asset_id,
        clip_start,
        w@,
        (spot.0 as nat, spot.1, spot.2),
        n_lines as nat,
        span,
        at,
    ));
}

/// The place of a word by its number.
pub open spec fn spot_at(list: Seq<Spot>, i: int) -> Spot {
    if i < list.len() {
        list[i]
    } else {
        (0, Real::of(0), Real::of(0))
    }
}

/// The commands for the first words of a phrase.
pub open spec fn sung_words(
    g: SingV,
    s: SequenceV,
    asset_id: Id,
    clip_start: TimeUs,
    words: Seq<WordV>,
    n: int,
    list: Seq<Spot>,
    n_lines: nat,
    span: Sung,
    at: Option<TimeUs>,
) -> Seq<Seq<char>>
    decreases n,
{
    if n <= 0 {
        Seq::<Seq<char>>::empty()
    } else {
        sung_words(g, s, asset_id, clip_start, words, n - 1, list, n_lines, span, at) + sung_word(
            g,
            s,
            asset_id,
            clip_start,
            words[n - 1],
            spot_at(list, n - 1),
            n_lines,
            span,
            at,
        )
    }
}

/// From when to when a phrase of karaoke shows; none where it does not.
pub open spec fn sung_span(
    s: SequenceV,
    asset_id: Id,
    c: ClipV,
    phrase: PhraseV,
    windows: Seq<(TimeUs, TimeUs)>,
    at: Option<TimeUs>,
) -> Option<Sung> {
    match time_on_tracks(s.tracks, asset_id, phrase.1) {
        None => None,
        Some(t) => {
            let from = time::max_time(t, c.start);
            let to = time::min_time(
                time::later(t, time::sooner(phrase.2, phrase.1)),
                c.finish(),
            );
            if to <= from {
                None
            } else {
                match at {
                    Some(x) => if x < from || x >= to {
                        None
                    } else {
                        Some((t, from, to))
                    },
                    None => if in_windows(from, to, windows) {
                        Some((t, from, to))
                    } else {
                        None
                    },
                }
            }
        },
    }
}

fn find_span(
    seq: &Sequence,
    asset_id: Id,
    c: &Clip,
    phrase: &Phrase,
    windows: &Vec<(TimeUs, TimeUs)>,
    at: Option<TimeUs>,
) -> (r: Option<Sung>)
    ensures
        r == sung_span(
            seq@,
            asset_id,
            c@,
            (phrase.0@, phrase.1, phrase.2),
            windows@,
            at,
        ),
{
    let t: TimeUs = match asset_time_to_timeline_pub(seq, asset_id, phrase.1) {
        Some(t) => t,
        None => {
            return None;
        },
    };
    let from: TimeUs = max2(t, c.start);
    let to: TimeUs = min2(plus(t, minus(phrase.2, phrase.1)), c.end());
    if to <= from {
        return None;
    }
    match at {
        Some(x) => if x < from || x >= to {
            None
        } else {
            Some((t, from, to))
        },
        None => if in_export_windows(from, to, windows) {
            Some((t, from, to))
        } else {
            None
        },
    }
}

/// The commands for one phrase of karaoke.
#[verifier::opaque]
pub open spec fn sung_phrase(
    g: SingV,
    s: SequenceV,
    doc: TranscriptV,
    c: ClipV,
    phrase: PhraseV,
    windows: Seq<(TimeUs, TimeUs)>,
    at: Option<TimeUs>,
) -> Seq<Seq<char>> {
    let words = spoken(doc.words, phrase.1, phrase.2);
    match sung_span(s, doc.asset_id, c, phrase, windows, at) {
        Some(span) => if words.len() > 0 {
            let lines = captions::wrapped(
                g.fonts,
                Some(g.path),
                captions::labels_of(words),
                g.px,
                g.max_w,
            );
            sung_words(
                g,
                s,
                doc.asset_id,
                c.start,
                words,
                words.len() as int,
                spots(g.fonts, g.path, lines, g.px, g.gap),
                lines.len(),
                span,
                at,
            )
        } else {
            Seq::<Seq<char>>::empty()
        },
        None => Seq::<Seq<char>>::empty(),
    }
}

fn labels(words: &Vec<Word>) -> (r: Vec<String>)
    ensures
        text::texts(r@) == captions::labels_of(seqs::views(words@)),
{
    let ghost all = captions::labels_of(seqs::views(words@));
    let mut r: Vec<String> = Vec::new();
    let mut i: usize = 0;
    assert(text::texts(r@) =~= all.take(0));
    while i < words.len()
        invariant
            i <= words.len(),
            all == captions::labels_of(seqs::views(words@)),
            text::texts(r@) == all.take(i as int),
        decreases words.len() - i,
    {
        let s: String = copy_text(words[i].label());
        assert(all[i as int] == s@);
        push_text(&mut r, s);
        assert(text::texts(r@) =~= all.take(i as int + 1));
        i = i + 1;
    }
    assert(all.take(i as int) =~= all);
    r
}

fn sing_phrase(
    out: &mut Vec<String>,
    g: &Sing,
    seq: &Sequence,
    doc: &TranscriptDoc,
    c: &Clip,
    phrase: &Phrase,
    windows: &Vec<(TimeUs, TimeUs)>,
    at: Option<TimeUs>,
)
    ensures
        text::texts(final(out)@) == text::texts(old(out)@) + sung_phrase(
            g.shown(),
            seq@,
            doc@,
            c@,
            (phrase.0@, phrase.1, phrase.2),
            windows@,
            at,
        ),
{
    reveal(sung_phrase);
    let ghost start = text::texts(out@);
    assert(start + Seq::<Seq<char>>::empty() =~= start);
    let words: Vec<Word> = find_spoken(&doc.words, phrase.1, phrase.2);
    let ghost wv = seqs::views(words@);
    assert(wv.len() == words.len());
    if words.len() == 0 {
        return;
    }
    let span: Sung = match find_span(seq, doc.asset_id, c, phrase, windows, at) {
        Some(x) => x,
        None => {
            return;
        },
    };
    let names: Vec<String> = labels(&words);
    let path: Option<String> = Some(g.path.clone());
    let lines: Vec<Vec<String>> = wrap_words(g.fonts, &path, &names, g.px, g.max_w);
    assert(captions::lines_view(lines@).len() == lines.len());
    let places: Vec<(usize, Real, Real)> = find_spots(
        g.fonts,
        g.path.as_str(),
        &lines,
        g.px,
        g.gap,
    );
    let ghost pv = spots_view(places@);
    let ghost gv = g.shown();
    let mut i: usize = 0;
    while i < words.len()
        invariant
            i <= words.len(),
            wv == seqs::views(words@),
            gv == g.shown(),
            pv == spots_view(places@),
            text::texts(out@) == start + sung_words(
                gv,
                seq@,
                doc.asset_id,
                c.start,
                wv,
                i as int,
                pv,
                lines@.len(),
                span,
                at,
            ),
        decreases words.len() - i,
    {
        let spot: (usize, Real, Real) = if i < places.len() {
            places[i]
        } else {
            (0, Real::from_int(0), Real::from_int(0))
        };
        proof {
            assert(wv[i as int] == words@[i as int]@);
            assert((spot.0 as nat, spot.1, spot.2) == spot_at(pv, i as int));
        }
        let ghost before = text::texts(out@);
        sing_word(
            out,
            g,
            seq,
            doc.asset_id,
            c.start,
            &words[i],
            spot,
            lines.len(),
            span,
            at,
        );
        assert(text::texts(out@) =~= start + sung_words(
            gv,
            seq@,
            doc.asset_id,
            c.start,
            wv,
            i as int + 1,
            pv,
            lines@.len(),
            span,
            at,
        ));
        i = i + 1;
    }
}

/// The commands for phrases of karaoke.
pub open spec fn sung_phrases(
    g: SingV,
    s: SequenceV,
    doc: TranscriptV,
    c: ClipV,
    phrases: Seq<PhraseV>,
    windows: Seq<(TimeUs, TimeUs)>,
    at: Option<TimeUs>,
) -> Seq<Seq<char>>
    decreases phrases.len(),
{
    if phrases.len() == 0 {
        Seq::<Seq<char>>::empty()
    } else {
        sung_phrases(g, s, doc, c, phrases.drop_last(), windows, at) + sung_phrase(
            g,
            s,
            doc,
            c,
            phrases.last(),
            windows,
            at,
        )
    }
}

/// What the words of a karaoke clip share; none where its font cannot be
/// measured.
pub open spec fn sing_of(
    f: FontsV,
    style: TextStyle,
    fallback: Seq<char>,
    scale: Real,
    out_w: u32,
) -> Option<SingV> {
    let font = captions::font_part(f, style, fallback);
    let px = captions::size_px(style.size, scale);
    match text::without_prefix(font, "fontfile="@) {
        None => None,
        Some(path) => match fonts::text_width(f, path, " "@, px) {
            None => None,
            Some(gap) => Some(
                SingV {
                    fonts: f,
                    font,
                    path,
                    px,
                    scale,
                    y_offset: style.y_offset,
                    line_height: style.line_height,
                    dim: "0x"@ + text::cut_head(style.color@, '#') + "@0.4"@,
                    bright: "0x"@ + text::cut_head(
                        match style.highlight_color {
                            Some(h) => h@,
                            None => "#FFB224"@,
                        },
                        '#',
                    ),
                    gap,
                    max_w: Real::of(out_w as int).times(Real { bits: WIDTH_BITS }),
                },
            ),
        },
    }
}

/// The commands for a karaoke clip; none where its font cannot be measured.
pub open spec fn karaoke(
    s: SequenceV,
    doc: TranscriptV,
    c: ClipV,
    f: FontsV,
    style: TextStyle,
    fallback: Seq<char>,
    scale: Real,
    out_w: u32,
    windows: Seq<(TimeUs, TimeUs)>,
    at: Option<TimeUs>,
    max_words: Option<u32>,
) -> Option<Seq<Seq<char>>> {
    match sing_of(f, style, fallback, scale, out_w) {
        None => None,
        Some(g) => Some(
            sung_phrases(
                g,
                s,
                doc,
                c,
                captions::phrases_of(doc, captions::line_chars(out_w, g.px), max_words),
                windows,
                at,
            ),
        ),
    }
}

/// Draws a karaoke clip: each word dim for its whole phrase and bright from when
/// it is spoken. For a preview at a time only the phrase that shows then is
/// drawn. `None` where the font cannot be measured.
pub fn karaoke_overlays(
    seq: &Sequence,
    doc: &TranscriptDoc,
    clip: &Clip,
    fonts: &Fonts,
    style: &TextStyle,
    fallback: &str,
    scale: Real,
    out_w: u32,
    windows: &Vec<(TimeUs, TimeUs)>,
    at: Option<TimeUs>,
    max_words: Option<u32>,
) -> (r: Option<Vec<String>>)
    ensures
        match karaoke(
            seq@,
            doc@,
            clip@,
            fonts@,
            *style,
            fallback@,
            scale,
            out_w,
            windows@,
            at,
            max_words,
        ) {
            Some(x) => r is Some && text::texts(r->Some_0@) == x,
            None => r is None,
        },
{
    let font: String = font_part_for(fonts, style, fallback);
    let px: Real = style.size.mul(scale).round().max(Real::from_int(8));
    let path: String = match strip_start(font.as_str(), "fontfile=") {
        Some(p) => p,
        None => {
            return None;
        },
    };
    let gap: Real = match measure_text_px(fonts, path.as_str(), " ", px) {
        Some(w) => w,
        None => {
            return None;
        },
    };
    let bare: String = trim_head(style.color.as_str(), '#');
    let mut dim: String = copy_text("0x");
    dim.append(bare.as_str());
    dim.append("@0.4");
    let hi: String = match &style.highlight_color {
        Some(h) => trim_head(h.as_str(), '#'),
        None => trim_head("#FFB224", '#'),
    };
    let mut bright: String = copy_text("0x");
    bright.append(hi.as_str());
    let g: Sing = Sing {
        fonts,
        font,
        path,
        px,
        scale,
        y_offset: style.y_offset,
        line_height: style.line_height,
        dim,
        bright,
        gap,
        max_w: Real::from_int(out_w as i64).mul(Real { bits: WIDTH_BITS }),
    };
    let ghost gv = g.shown();
    assert(sing_of(fonts@, *style, fallback@, scale, out_w) == Some(gv));
    let phrases: Vec<Phrase> = caption_phrases(doc, caption_max_chars(out_w, px), max_words);
    let ghost all = captions::phrase_views(phrases@);
    let mut out: Vec<String> = Vec::new();
    let mut i: usize = 0;
    assert(all.take(0) =~= Seq::<PhraseV>::empty());
    assert(text::texts(out@) =~= Seq::<Seq<char>>::empty());
    while i < phrases.len()
        invariant
            i <= phrases.len(),
            all == captions::phrase_views(phrases@),
            gv == g.shown(),
            text::texts(out@) == sung_phrases(
                gv,
                seq@,
                doc@,
                clip@,
                all.take(i as int),
                windows@,
                at,
            ),
        decreases phrases.len() - i,
    {
        proof {
            assert(all.take(i as int + 1).drop_last() =~= all.take(i as int));
            let p = phrases@[i as int];
            assert(all.take(i as int + 1).last() == (p.0@, p.1, p.2));
        }
        sing_phrase(&mut out, &g, seq, doc, clip, &phrases[i], windows, at);
        i = i + 1;
    }
    assert(all.take(i as int) =~= all);
    Some(out)
}

// ---- titles and subtitles ----

/// How the texts of a sequence are drawn: for which frame, and for an export or
/// a preview at a time.
#[verifier::ext_equal]
pub struct DrawV {
    pub fonts: FontsV,
    pub fallback: Seq<char>,
    pub scale: Real,
    pub out_w: u32,
    pub at: Option<TimeUs>,
    pub windows: Seq<(TimeUs, TimeUs)>,
}

struct Draw<'a> {
    fonts: &'a Fonts,
    fallback: String,
    scale: Real,
    out_w: u32,
    at: Option<TimeUs>,
    windows: &'a Vec<(TimeUs, TimeUs)>,
}

impl<'a> Draw<'a> {
    spec fn shown(self) -> DrawV {
        DrawV {
            fonts: self.fonts@,
            fallback: self.fallback@,
            scale: self.scale,
            out_w: self.out_w,
            at: self.at,
            windows: self.windows@,
        }
    }
}

/// The commands for a text from one time to another.
pub open spec fn span_overlay(
    d: DrawV,
    content: Seq<char>,
    style: TextStyle,
    size: Real,
    from: TimeUs,
    to: TimeUs,
) -> Seq<Seq<char>> {
    match span_window(from, to, d.at, d.windows) {
        Some(enable) => captions::draw_lines(
            d.fonts,
            d.fallback,
            content,
            style,
            size,
            d.scale,
            enable,
            d.out_w,
        ),
        None => Seq::<Seq<char>>::empty(),
    }
}

/// Adds texts to a list.
fn append_texts(v: &mut Vec<String>, more: Vec<String>)
    ensures
        text::texts(final(v)@) == text::texts(old(v)@) + text::texts(more@),
{
    let ghost before = text::texts(v@);
    let ghost mv = text::texts(more@);
    let mut i: usize = 0;
    assert(text::texts(v@) =~= before + mv.take(0));
    while i < more.len()
        invariant
            i <= more.len(),
            mv == text::texts(more@),
            text::texts(v@) == before + mv.take(i as int),
        decreases more.len() - i,
    {
        push_text(v, more[i].clone());
        assert(mv[i as int] == more@[i as int]@);
        assert(text::texts(v@) =~= before + mv.take(i as int + 1));
        i = i + 1;
    }
    assert(mv.take(i as int) =~= mv);
}

fn draw_span(
    out: &mut Vec<String>,
    d: &Draw,
    content: &str,
    style: &TextStyle,
    size: Real,
    from: TimeUs,
    to: TimeUs,
)
    ensures
        text::texts(final(out)@) == text::texts(old(out)@) + span_overlay(
            d.shown(),
            content@,
            *style,
            size,
            from,
            to,
        ),
{
    let ghost before = text::texts(out@);
    assert(before + Seq::<Seq<char>>::empty() =~= before);
    if let Some(enable) = window_of(from, to, d.at, d.windows) {
        let lines: Vec<String> = drawtext_for(
            d.fonts,
            d.fallback.as_str(),
            content,
            style,
            size,
            d.scale,
            enable,
            d.out_w,
        );
        append_texts(out, lines);
    }
}

/// The commands for one caption of a clip.
#[verifier::opaque]
pub open spec fn item_overlay(
    d: DrawV,
    s: SequenceV,
    asset_id: Id,
    c: ClipV,
    style: TextStyle,
    size: Real,
    item: PhraseV,
) -> Seq<Seq<char>> {
    let none = Seq::<Seq<char>>::empty();
    if text::is_blank(item.0) {
        none
    } else {
        match time_on_tracks(s.tracks, asset_id, item.1) {
            None => none,
            Some(t) => {
                let from = time::max_time(t, c.start);
                let to = time::min_time(
                    time::later(t, time::sooner(item.2, item.1)),
                    c.finish(),
                );
                if to <= from {
                    none
                } else {
                    span_overlay(d, item.0, style, size, from, to)
                }
            },
        }
    }
}

/// The commands for captions of a clip.
pub open spec fn item_overlays(
    d: DrawV,
    s: SequenceV,
    asset_id: Id,
    c: ClipV,
    style: TextStyle,
    size: Real,
    items: Seq<PhraseV>,
) -> Seq<Seq<char>>
    decreases items.len(),
{
    if items.len() == 0 {
        Seq::<Seq<char>>::empty()
    } else {
        item_overlays(d, s, asset_id, c, style, size, items.drop_last()) + item_overlay(
            d,
            s,
            asset_id,
            c,
            style,
            size,
            items.last(),
        )
    }
}

fn draw_item(
    out: &mut Vec<String>,
    d: &Draw,
    seq: &Sequence,
    asset_id: Id,
    c: &Clip,
    style: &TextStyle,
    size: Real,
    item: &Phrase,
)
    ensures
        text::texts(final(out)@) == text::texts(old(out)@) + item_overlay(
            d.shown(),
            seq@,
            asset_id,
            c@,
            *style,
            size,
            (item.0@, item.1, item.2),
        ),
{
    reveal(item_overlay);
    let ghost before = text::texts(out@);
    assert(before + Seq::<Seq<char>>::empty() =~= before);
    if blank(item.0.as_str()) {
        return;
    }
    if let Some(t) = asset_time_to_timeline_pub(seq, asset_id, item.1) {
        let from: TimeUs = max2(t, c.start);
        let to: TimeUs = min2(plus(t, minus(item.2, item.1)), c.end());
        if to <= from {
            return;
        }
        draw_span(out, d, item.0.as_str(), style, size, from, to);
    }
}

fn draw_items(
    out: &mut Vec<String>,
    d: &Draw,
    seq: &Sequence,
    asset_id: Id,
    c: &Clip,
    style: &TextStyle,
    size: Real,
    items: &Vec<Phrase>,
)
    ensures
        text::texts(final(out)@) == text::texts(old(out)@) + item_overlays(
            d.shown(),
            seq@,
            asset_id,
            c@,
            *style,
            size,
            captions::phrase_views(items@),
        ),
{
    let ghost all = captions::phrase_views(items@);
    let ghost start = text::texts(out@);
    let ghost dv = d.shown();
    let mut i: usize = 0;
    assert(all.take(0) =~= Seq::<PhraseV>::empty());
    assert(start + Seq::<Seq<char>>::empty() =~= start);
    while i < items.len()
        invariant
            i <= items.len(),
            all == captions::phrase_views(items@),
            dv == d.shown(),
            text::texts(out@) == start + item_overlays(
                dv,
                seq@,
                asset_id,
                c@,
                *style,
                size,
                all.take(i as int),
            ),
        decreases items.len() - i,
    {
        proof {
            assert(all.take(i as int + 1).drop_last() =~= all.take(i as int));
            let p = items@[i as int];
            assert(all.take(i as int + 1).last() == (p.0@, p.1, p.2));
        }
        draw_item(out, d, seq, asset_id, c, style, size, &items[i]);
        assert(text::texts(out@) =~= start + item_overlays(
            dv,
            seq@,
            asset_id,
            c@,
            *style,
            size,
            all.take(i as int + 1),
        ));
        i = i + 1;
    }
    assert(all.take(i as int) =~= all);
}

/// Words as captions of one word each.
pub open spec fn word_items(words: Seq<WordV>) -> Seq<PhraseV> {
    captions::kept(words).map_values(|w: WordV| (w.label(), w.start_us, w.end_us))
}

fn list_words(doc: &TranscriptDoc) -> (r: Vec<Phrase>)
    ensures
        captions::phrase_views(r@) == word_items(doc@.words),
{
    let words: Vec<Word> = keep_words(&doc.words);
    let ghost all = word_items(doc@.words);
    let mut r: Vec<Phrase> = Vec::new();
    let mut i: usize = 0;
    assert(captions::phrase_views(r@) =~= all.take(0));
    assert(seqs::views(words@).len() == words.len());
    while i < words.len()
        invariant
            i <= words.len(),
            words.len() == all.len(),
            all == word_items(doc@.words),
            seqs::views(words@) == captions::kept(doc@.words),
            captions::phrase_views(r@) == all.take(i as int),
        decreases words.len() - i,
    {
        let w: &Word = &words[i];
        assert(seqs::views(words@)[i as int] == w@);
        let ghost before = r@;
        r.push((copy_text(w.label()), w.start_us, w.end_us));
        assert(captions::phrase_views(r@) =~= captions::phrase_views(before).push(all[i as int]));
        assert(captions::phrase_views(r@) =~= all.take(i as int + 1));
        i = i + 1;
    }
    assert(all.take(i as int) =~= all);
    r
}

/// The commands for a subtitles clip.
pub open spec fn subtitle_overlays(
    d: DrawV,
    s: SequenceV,
    doc: TranscriptV,
    c: ClipV,
    style: TextStyle,
    mode: SubtitleMode,
    max_words: Option<u32>,
) -> Seq<Seq<char>> {
    let sung = if mode == SubtitleMode::Karaoke {
        karaoke(
            s,
            doc,
            c,
            d.fonts,
            style,
            d.fallback,
            d.scale,
            d.out_w,
            d.windows,
            d.at,
            max_words,
        )
    } else {
        None
    };
    match sung {
        Some(x) => x,
        None => if mode == SubtitleMode::Word {
            item_overlays(
                d,
                s,
                doc.asset_id,
                c,
                style,
                style.size.times(Real { bits: WORD_SCALE_BITS }).single(),
                word_items(doc.words),
            )
        } else {
            item_overlays(
                d,
                s,
                doc.asset_id,
                c,
                style,
                style.size,
                captions::phrases_of(
                    doc,
                    captions::line_chars(d.out_w, style.size.times(d.scale)),
                    max_words,
                ),
            )
        },
    }
}

fn draw_subtitles(
    out: &mut Vec<String>,
    d: &Draw,
    seq: &Sequence,
    doc: &TranscriptDoc,
    c: &Clip,
    style: &TextStyle,
    mode: SubtitleMode,
    max_words: Option<u32>,
)
    ensures
        text::texts(final(out)@) == text::texts(old(out)@) + subtitle_overlays(
            d.shown(),
            seq@,
            doc@,
            c@,
            *style,
            mode,
            max_words,
        ),
{
    if mode == SubtitleMode::Karaoke {
        if let Some(lines) = karaoke_overlays(
            seq,
            doc,
            c,
            d.fonts,
            style,
            d.fallback.as_str(),
            d.scale,
            d.out_w,
            d.windows,
            d.at,
            max_words,
        ) {
            append_texts(out, lines);
            return;
        }
    }
    if mode == SubtitleMode::Word {
        let items: Vec<Phrase> = list_words(doc);
        let size: Real = style.size.mul(Real { bits: WORD_SCALE_BITS }).to_single();
        draw_items(out, d, seq, doc.asset_id, c, style, size, &items);
    } else {
        let n: usize = caption_max_chars(d.out_w, style.size.mul(d.scale));
        let items: Vec<Phrase> = caption_phrases(doc, n, max_words);
        draw_items(out, d, seq, doc.asset_id, c, style, style.size, &items);
    }
}

/// The commands for a clip.
#[verifier::opaque]
pub open spec fn clip_overlays(
    d: DrawV,
    p: ProjectV,
    s: SequenceV,
    c: ClipV,
    only: Option<Id>,
    skip_styled: bool,
) -> Seq<Seq<char>> {
    let none = Seq::<Seq<char>>::empty();
    let left_out = match only {
        Some(id) => c.id != id,
        None => skip_styled && is_styled(c),
    };
    if left_out {
        none
    } else {
        match c.payload {
            PayloadV::Text { content, style } => if text::is_blank(content) {
                none
            } else {
                span_overlay(d, content, style, style.size, c.start, c.finish())
            },
            PayloadV::Subtitles { transcript_id, style, mode, max_words } => if seqs::holds(
                p.transcripts,
                transcript_id,
            ) {
                subtitle_overlays(
                    d,
                    s,
                    p.transcripts[seqs::pos(p.transcripts, transcript_id) as int],
                    c,
                    style,
                    mode,
                    max_words,
                )
            } else {
                none
            },
            _ => none,
        }
    }
}

fn draw_clip(
    out: &mut Vec<String>,
    d: &Draw,
    project: &Project,
    seq: &Sequence,
    c: &Clip,
    only: Option<Id>,
    skip_styled: bool,
)
    ensures
        text::texts(final(out)@) == text::texts(old(out)@) + clip_overlays(
            d.shown(),
            project@,
            seq@,
            c@,
            only,
            skip_styled,
        ),
{
    reveal(clip_overlays);
    let ghost before = text::texts(out@);
    assert(before + Seq::<Seq<char>>::empty() =~= before);
    let left_out: bool = match only {
        Some(id) => c.id != id,
        None => skip_styled && text_is_styled_pub(c),
    };
    if left_out {
        return;
    }
    match &c.payload {
        ClipPayload::Text { content, style } => {
            if !blank(content.as_str()) {
                draw_span(out, d, content.as_str(), style, style.size, c.start, c.end());
            }
        },
        ClipPayload::Subtitles { transcript_id, style, mode, max_words } => {
            if let Some(i) = seqs::find(&project.transcripts, *transcript_id) {
                assert(project@.transcripts[i as int] == project.transcripts@[i as int]@);
                draw_subtitles(
                    out,
                    d,
                    seq,
                    &project.transcripts[i],
                    c,
                    style,
                    *mode,
                    *max_words,
                );
            }
        },
        _ => {},
    }
}

/// The commands for clips.
pub open spec fn clips_overlays(
    d: DrawV,
    p: ProjectV,
    s: SequenceV,
    clips: Seq<ClipV>,
    only: Option<Id>,
    skip_styled: bool,
) -> Seq<Seq<char>>
    decreases clips.len(),
{
    if clips.len() == 0 {
        Seq::<Seq<char>>::empty()
    } else {
        clips_overlays(d, p, s, clips.drop_last(), only, skip_styled) + clip_overlays(
            d,
            p,
            s,
            clips.last(),
            only,
            skip_styled,
        )
    }
}

fn draw_clips(
    out: &mut Vec<String>,
    d: &Draw,
    project: &Project,
    seq: &Sequence,
    clips: &Vec<Clip>,
    only: Option<Id>,
    skip_styled: bool,
)
    ensures
        text::texts(final(out)@) == text::texts(old(out)@) + clips_overlays(
            d.shown(),
            project@,
            seq@,
            seqs::views(clips@),
            only,
            skip_styled,
        ),
{
    let ghost all = seqs::views(clips@);
    let ghost start = text::texts(out@);
    let ghost dv = d.shown();
    let mut i: usize = 0;
    assert(all.take(0) =~= Seq::<ClipV>::empty());
    assert(start + Seq::<Seq<char>>::empty() =~= start);
    while i < clips.len()
        invariant
            i <= clips.len(),
            all == seqs::views(clips@),
            dv == d.shown(),
            text::texts(out@) == start + clips_overlays(
                dv,
                project@,
                seq@,
                all.take(i as int),
                only,
                skip_styled,
            ),
        decreases clips.len() - i,
    {
        proof {
            assert(all.take(i as int + 1).drop_last() =~= all.take(i as int));
            assert(all.take(i as int + 1).last() == clips@[i as int]@);
        }
        draw_clip(out, d, project, seq, &clips[i], only, skip_styled);
        assert(text::texts(out@) =~= start + clips_overlays(
            dv,
            project@,
            seq@,
            all.take(i as int + 1),
            only,
            skip_styled,
        ));
        i = i + 1;
    }
    assert(all.take(i as int) =~= all);
}

/// The commands for tracks.
pub open spec fn tracks_overlays(
    d: DrawV,
    p: ProjectV,
    s: SequenceV,
    tracks: Seq<TrackV>,
    only: Option<Id>,
    skip_styled: bool,
) -> Seq<Seq<char>>
    decreases tracks.len(),
{
    if tracks.len() == 0 {
        Seq::<Seq<char>>::empty()
    } else {
        let r = tracks_overlays(d, p, s, tracks.drop_last(), only, skip_styled);
        if edl::shows(tracks.last()) {
            r + clips_overlays(d, p, s, tracks.last().clips, only, skip_styled)
        } else {
            r
        }
    }
}

/// The font where a style names none that is there.
pub open spec fn fallback_font(f: FontsV) -> Seq<char> {
    match fonts::first_present(f.present, fonts::usual_files()) {
        Some(x) => "fontfile="@ + x,
        None => "font=sans"@,
    }
}

/// The chain that draws the texts of a sequence; none where there is nothing to
/// draw.
pub open spec fn overlay_chain(
    p: ProjectV,
    s: SequenceV,
    f: FontsV,
    out_h: u32,
    out_w: u32,
    at: Option<TimeUs>,
    windows: Seq<(TimeUs, TimeUs)>,
    only: Option<Id>,
    skip_styled: bool,
) -> Option<Seq<char>> {
    render::chained(
        tracks_overlays(
            DrawV {
                fonts: f,
                fallback: fallback_font(f),
                scale: Real::of(out_h as int).over(Real::of(1080)),
                out_w,
                at,
                windows,
            },
            p,
            s,
            s.tracks,
            only,
            skip_styled,
        ),
    )
}

/// Draws the texts of a sequence: for an export all of them in their windows,
/// for a preview those that show at a time. `only` names the one clip to draw,
/// and `skip_styled` leaves those out that are layers of their own.
pub fn text_overlays_inner(
    project: &Project,
    seq: &Sequence,
    fonts: &Fonts,
    out_h: u32,
    out_w: u32,
    at: Option<TimeUs>,
    windows: &Vec<(TimeUs, TimeUs)>,
    only: Option<Id>,
    skip_styled: bool,
) -> (r: Option<String>)
    ensures
        model::opt_text(r) == overlay_chain(
            project@,
            seq@,
            fonts@,
            out_h,
            out_w,
            at,
            windows@,
            only,
            skip_styled,
        ),
{
    let fallback: String = match find_font(fonts) {
        Some(x) => {
            let mut r: String = copy_text("fontfile=");
            r.append(x);
            r
        },
        None => copy_text("font=sans"),
    };
    let d: Draw = Draw {
        fonts,
        fallback,
        scale: Real::from_int(out_h as i64).div(Real::from_int(1080)),
        out_w,
        at,
        windows,
    };
    let ghost dv = d.shown();
    let ghost all = seq@.tracks;
    let mut out: Vec<String> = Vec::new();
    let mut i: usize = 0;
    assert(all.take(0) =~= Seq::<TrackV>::empty());
    assert(text::texts(out@) =~= Seq::<Seq<char>>::empty());
    while i < seq.tracks.len()
        invariant
            i <= seq.tracks.len(),
            all == seq@.tracks,
            dv == d.shown(),
            text::texts(out@) == tracks_overlays(
                dv,
                project@,
                seq@,
                all.take(i as int),
                only,
                skip_styled,
            ),
        decreases seq.tracks.len() - i,
    {
        proof {
            assert(all.take(i as int + 1).drop_last() =~= all.take(i as int));
            assert(all.take(i as int + 1).last() == seq.tracks@[i as int]@);
        }
        if track_shows(&seq.tracks[i]) {
            draw_clips(&mut out, &d, project, seq, &seq.tracks[i].clips, only, skip_styled);
        }
        i = i + 1;
    }
    assert(all.take(i as int) =~= all);
    assert(text::texts(out@).len() == out.len());
    if out.len() == 0 {
        None
    } else {
        Some(join(&out, ","))
    }
}

/// Draws the texts that show at a time, for a preview of that time. The frame
/// is that of the sequence.
pub fn text_overlays_at(
    project: &Project,
    seq: &Sequence,
    fonts: &Fonts,
    out_h: u32,
    out_w: u32,
    t_us: TimeUs,
) -> (r: Option<String>)
    ensures
        model::opt_text(r) == overlay_chain(
            project@,
            seq@,
            fonts@,
            out_h,
            out_w,
            Some(t_us),
            Seq::<(TimeUs, TimeUs)>::empty(),
            None,
            true,
        ),
{
    let none: Vec<(TimeUs, TimeUs)> = Vec::new();
    assert(none@ =~= Seq::<(TimeUs, TimeUs)>::empty());
    text_overlays_inner(project, seq, fonts, out_h, out_w, Some(t_us), &none, None, true)
}

/// Draws one text clip, to be a layer of its own.
pub fn text_clip_chain(
    project: &Project,
    seq: &Sequence,
    fonts: &Fonts,
    clip_id: Id,
    out_h: u32,
    out_w: u32,
    at: Option<TimeUs>,
    windows: &Vec<(TimeUs, TimeUs)>,
) -> (r: Option<String>)
    ensures
        model::opt_text(r) == overlay_chain(
            project@,
            seq@,
            fonts@,
            out_h,
            out_w,
            at,
            windows@,
            Some(clip_id),
            false,
        ),
{
    text_overlays_inner(project, seq, fonts, out_h, out_w, at, windows, Some(clip_id), false)
}

/// Draws all texts of a sequence for an export of the given windows.
pub fn build_text_overlays(
    project: &Project,
    seq: &Sequence,
    fonts: &Fonts,
    out_h: u32,
    out_w: u32,
    windows: &Vec<(TimeUs, TimeUs)>,
) -> (r: Option<String>)
    ensures
        model::opt_text(r) == overlay_chain(
            project@,
            seq@,
            fonts@,
            out_h,
            out_w,
            None,
            windows@,
            None,
            true,
        ),
{
    text_overlays_inner(project, seq, fonts, out_h, out_w, None, windows, None, true)
}

} // verus!
