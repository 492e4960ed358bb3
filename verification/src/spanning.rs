//! Spans of the timeline: which ranges are cut out, which track is the base and
//! what lies over it, and where things end.

use vstd::prelude::*;

use crate::action;
use crate::action::ActionV;
use crate::edl;
use crate::frames;
use crate::graph;
use crate::graph::{LayerSourceV, LayerV};
use crate::model;
use crate::model::{ClipV, ProjectV, SequenceV, TrackKind, TrackV};
use crate::ops;
use crate::ranges;
use crate::render::{EffectDefV, Labels};
use crate::silence;
use crate::sound;
use crate::sound::AudioItemV;
use crate::speeding::{playable, plays_in};
use crate::time;
use crate::time::TimeUs;

verus! {

// ---- ranges ----

/// Whether a time lies in one of some ranges.
pub open spec fn covered(list: Seq<(TimeUs, TimeUs)>, t: TimeUs) -> bool {
    exists|i: int| 0 <= i < list.len() && (#[trigger] list[i]).0 <= t < list[i].1
}

/// Whether a time lies in a range that is asked for, from the frame nearest to its
/// start, which is not before the start of the timeline, to the frame nearest to
/// its end. A range that does not last is none.
pub open spec fn asked_for(list: Seq<(TimeUs, TimeUs)>, fps: (u32, u32), t: TimeUs) -> bool {
    exists|i: int|
        0 <= i < list.len() && (#[trigger] list[i]).0 < list[i].1 && time::quantized(
            if list[i].0 < 0 {
                0
            } else {
                list[i].0
            },
            fps,
        ) <= t < time::quantized(list[i].1, fps)
}

/// Whether ranges start one after the other.
spec fn by_start(list: Seq<(TimeUs, TimeUs)>) -> bool {
    forall|i: int, j: int|
        0 <= i <= j < list.len() ==> (#[trigger] list[i]).0 <= (#[trigger] list[j]).0
}

proof fn lemma_cover_push(list: Seq<(TimeUs, TimeUs)>, x: (TimeUs, TimeUs), t: TimeUs)
    ensures
        covered(list.push(x), t) <==> covered(list, t) || x.0 <= t < x.1,
{
    let r = list.push(x);
    if covered(list, t) {
        let i = choose|i: int| 0 <= i < list.len() && (#[trigger] list[i]).0 <= t < list[i].1;
        assert(r[i] == list[i]);
    }
    if x.0 <= t < x.1 {
        assert(r[list.len() as int] == x);
    }
    if covered(r, t) {
        let i = choose|i: int| 0 <= i < r.len() && (#[trigger] r[i]).0 <= t < r[i].1;
        if i < list.len() {
            assert(list[i] == r[i]);
        }
    }
}

proof fn lemma_asked(list: Seq<(TimeUs, TimeUs)>, fps: (u32, u32), t: TimeUs)
    ensures
        covered(ranges::on_grid(ranges::lasting_ranges(list), fps), t) <==> asked_for(list, fps, t),
    decreases list.len(),
{
    if list.len() > 0 {
        let rest = list.drop_last();
        let x = list.last();
        lemma_asked(rest, fps, t);
        assert forall|i: int| 0 <= i < rest.len() implies list[i] == #[trigger] rest[i] by {}
        assert(list[list.len() - 1] == x);
        if asked_for(rest, fps, t) {
            let i = choose|i: int|
                0 <= i < rest.len() && (#[trigger] rest[i]).0 < rest[i].1 && time::quantized(
                    if rest[i].0 < 0 {
                        0
                    } else {
                        rest[i].0
                    },
                    fps,
                ) <= t < time::quantized(rest[i].1, fps);
            assert(list[i] == rest[i]);
        }
        if asked_for(list, fps, t) {
            let i = choose|i: int|
                0 <= i < list.len() && (#[trigger] list[i]).0 < list[i].1 && time::quantized(
                    if list[i].0 < 0 {
                        0
                    } else {
                        list[i].0
                    },
                    fps,
                ) <= t < time::quantized(list[i].1, fps);
            if i < rest.len() {
                assert(rest[i] == list[i]);
            }
        }
        let lasting = ranges::lasting_ranges(rest);
        if x.0 < x.1 {
            let all = lasting.push(x);
            assert(ranges::lasting_ranges(list) == all);
            assert(all.drop_last() =~= lasting);
            assert(all.last() == x);
            let a = time::quantized(time::max_time(x.0, 0), fps);
            let b = time::quantized(x.1, fps);
            lemma_cover_push(ranges::on_grid(lasting, fps), (a, b), t);
        }
    }
}

proof fn lemma_range_place(s: Seq<(TimeUs, TimeUs)>, x: (TimeUs, TimeUs))
    ensures
        action::range_place(s, x) <= s.len(),
        forall|j: int|
            0 <= j < action::range_place(s, x) ==> !action::range_before(x, #[trigger] s[j]),
        action::range_place(s, x) < s.len() ==> action::range_before(
            x,
            s[action::range_place(s, x) as int],
        ),
    decreases s.len(),
{
    if s.len() > 0 && !action::range_before(x, s[0]) {
        let r = s.drop_first();
        lemma_range_place(r, x);
        assert forall|j: int| 0 <= j < action::range_place(s, x) implies !action::range_before(
            x,
            #[trigger] s[j],
        ) by {
            if j > 0 {
                assert(s[j] == r[j - 1]);
            }
        }
    }
}

proof fn lemma_sorted(list: Seq<(TimeUs, TimeUs)>, t: TimeUs)
    ensures
        by_start(action::sorted_ranges(list)),
        action::sorted_ranges(list).len() == list.len(),
        covered(action::sorted_ranges(list), t) <==> covered(list, t),
    decreases list.len(),
{
    if list.len() > 0 {
        let rest = list.drop_last();
        let x = list.last();
        lemma_sorted(rest, t);
        let r = action::sorted_ranges(rest);
        lemma_range_place(r, x);
        let k = action::range_place(r, x) as int;
        let all = r.insert(k, x);
        assert(action::sorted_ranges(list) == all);
        assert(rest.push(x) =~= list);
        lemma_cover_push(rest, x, t);
        assert(all[k] == x);
        assert forall|i: int, j: int| 0 <= i <= j < all.len() implies (#[trigger] all[i]).0 <= (
        #[trigger] all[j]).0 by {
            if i < k && j == k {
                assert(!action::range_before(x, r[i]));
            } else if i == k && j > k {
                assert(action::range_before(x, r[k]));
                assert(r[k].0 <= r[j - 1].0);
            } else if i < k && j > k {
                assert(r[i].0 <= r[j - 1].0);
            } else if j < k {
                assert(r[i].0 <= r[j].0);
            } else if i > k {
                assert(r[i - 1].0 <= r[j - 1].0);
            }
        }
        if covered(r, t) {
            let i = choose|i: int| 0 <= i < r.len() && (#[trigger] r[i]).0 <= t < r[i].1;
            if i < k {
                assert(all[i] == r[i]);
            } else {
                assert(all[i + 1] == r[i]);
            }
        }
        if covered(all, t) {
            let i = choose|i: int| 0 <= i < all.len() && (#[trigger] all[i]).0 <= t < all[i].1;
            if i < k {
                assert(r[i] == all[i]);
            } else if i > k {
                assert(r[i - 1] == all[i]);
            }
        }
    }
}

/// Whether ranges stand apart, each before the next.
pub open spec fn stand_apart(list: Seq<(TimeUs, TimeUs)>) -> bool {
    forall|i: int, j: int|
        0 <= i < j < list.len() ==> (#[trigger] list[i]).1 < (#[trigger] list[j]).0
}

proof fn lemma_joined(list: Seq<(TimeUs, TimeUs)>, t: TimeUs)
    requires
        by_start(list),
        forall|i: int| 0 <= i < list.len() ==> (#[trigger] list[i]).0 < list[i].1,
    ensures
        ({
            let m = ranges::joined_ranges(list);
            &&& covered(m, t) <==> covered(list, t)
            &&& stand_apart(m)
            &&& m.len() > 0 <==> list.len() > 0
            &&& list.len() > 0 ==> m.last().0 <= list.last().0 && m.last().0 < m.last().1
            &&& forall|i: int| 0 <= i < m.len() ==> (#[trigger] m[i]).0 < m[i].1
        }),
    decreases list.len(),
{
    if list.len() > 0 {
        let rest = list.drop_last();
        let x = list.last();
        assert(x == list[list.len() - 1]);
        assert forall|i: int, j: int| 0 <= i <= j < rest.len() implies (#[trigger] rest[i]).0 <= (
        #[trigger] rest[j]).0 by {
            assert(list[i].0 <= list[j].0);
        }
        assert forall|i: int| 0 <= i < rest.len() implies (#[trigger] rest[i]).0 < rest[i].1 by {
            assert(list[i].0 < list[i].1);
        }
        lemma_joined(rest, t);
        let m = ranges::joined_ranges(rest);
        assert(rest.push(x) =~= list);
        lemma_cover_push(rest, x, t);
        if m.len() > 0 {
            assert(rest.last() == list[list.len() - 2]);
            assert(rest.last().0 <= x.0);
            assert(m.last() == m[m.len() - 1]);
        }
        if m.len() > 0 && x.0 <= m.last().1 {
            let y = (m.last().0, time::max_time(m.last().1, x.1));
            let less = m.drop_last();
            assert(less.push(m.last()) =~= m);
            lemma_cover_push(less, m.last(), t);
            lemma_cover_push(less, y, t);
            let all = less.push(y);
            assert forall|i: int, j: int| 0 <= i < j < all.len() implies (#[trigger] all[i]).1 < (
            #[trigger] all[j]).0 by {
                assert(all[i] == m[i]);
                assert(m[i].1 < m[j].0);
            }
            assert forall|i: int| 0 <= i < all.len() implies (#[trigger] all[i]).0 < all[i].1 by {
                if i < less.len() {
                    assert(all[i] == m[i]);
                }
            }
        } else {
            lemma_cover_push(m, x, t);
            let all = m.push(x);
            assert forall|i: int, j: int| 0 <= i < j < all.len() implies (#[trigger] all[i]).1 < (
            #[trigger] all[j]).0 by {
                assert(all[i] == m[i]);
                if j < m.len() {
                    assert(all[j] == m[j]);
                } else if i < m.len() - 1 {
                    assert(m[i].1 < m[m.len() - 1].0);
                }
            }
            assert forall|i: int| 0 <= i < all.len() implies (#[trigger] all[i]).0 < all[i].1 by {
                if i < m.len() {
                    assert(all[i] == m[i]);
                }
            }
        }
    }
}

proof fn lemma_on_grid_lasts(list: Seq<(TimeUs, TimeUs)>, fps: (u32, u32))
    ensures
        forall|i: int|
            0 <= i < ranges::on_grid(list, fps).len() ==> (#[trigger] ranges::on_grid(
                list,
                fps,
            )[i]).0 < ranges::on_grid(list, fps)[i].1,
    decreases list.len(),
{
    if list.len() > 0 {
        let rest = ranges::on_grid(list.drop_last(), fps);
        let all = ranges::on_grid(list, fps);
        lemma_on_grid_lasts(list.drop_last(), fps);
        assert forall|i: int| 0 <= i < all.len() implies (#[trigger] all[i]).0 < all[i].1 by {
            if i < rest.len() {
                assert(all[i] == rest[i]);
            }
        }
    }
}

proof fn lemma_sorted_lasts(list: Seq<(TimeUs, TimeUs)>)
    requires
        forall|i: int| 0 <= i < list.len() ==> (#[trigger] list[i]).0 < list[i].1,
    ensures
        forall|i: int|
            0 <= i < action::sorted_ranges(list).len() ==> (#[trigger] action::sorted_ranges(
                list,
            )[i]).0 < action::sorted_ranges(list)[i].1,
    decreases list.len(),
{
    if list.len() > 0 {
        let rest = list.drop_last();
        assert forall|i: int| 0 <= i < rest.len() implies (#[trigger] rest[i]).0 < rest[i].1 by {
            assert(list[i].0 < list[i].1);
        }
        lemma_sorted_lasts(rest);
        let r = action::sorted_ranges(rest);
        let x = list.last();
        assert(x == list[list.len() - 1]);
        lemma_range_place(r, x);
        let k = action::range_place(r, x) as int;
        let all = r.insert(k, x);
        assert forall|i: int| 0 <= i < all.len() implies (#[trigger] all[i]).0 < all[i].1 by {
            if i < k {
                assert(all[i] == r[i]);
            } else if i > k {
                assert(all[i] == r[i - 1]);
            }
        }
    }
}

/// The ranges that are cut out cover exactly what was asked for, on the frame grid,
/// and stand apart from one another.
pub proof fn law_ranges_cover(list: Seq<(TimeUs, TimeUs)>, fps: (u32, u32), t: TimeUs)
    ensures
        ({
            let merged = ranges::joined_ranges(
                action::sorted_ranges(ranges::on_grid(ranges::lasting_ranges(list), fps)),
            );
            &&& covered(merged, t) <==> asked_for(list, fps, t)
            &&& stand_apart(merged)
        }),
{
    let grid = ranges::on_grid(ranges::lasting_ranges(list), fps);
    lemma_asked(list, fps, t);
    lemma_on_grid_lasts(ranges::lasting_ranges(list), fps);
    lemma_sorted(grid, t);
    lemma_sorted_lasts(grid);
    lemma_joined(action::sorted_ranges(grid), t);
}

/// Closing gaps moves each clip that has a gap before it to where its start goes,
/// and leaves its length and source; clips with no gap before them stay.
pub proof fn law_gaps_are_closed(clips: Seq<ClipV>, list: Seq<(TimeUs, TimeUs)>)
    ensures
        ({
            let moved = clips.filter(|c: ClipV| ops::gone_before(list, c.start) > 0);
            let actions = ops::close_gaps(clips, list);
            &&& actions.len() == moved.len()
            &&& forall|i: int|
                0 <= i < moved.len() ==> #[trigger] actions[i] == (ActionV::SetClipBounds {
                    clip_id: moved[i].id,
                    start: time::held(moved[i].start - ops::gone_before(list, moved[i].start)),
                    duration: moved[i].duration,
                    src_in: None,
                    src_out: None,
                })
        }),
    decreases clips.len(),
{
    reveal(Seq::filter);
    if clips.len() > 0 {
        law_gaps_are_closed(clips.drop_last(), list);
    }
}

// ---- the base and what lies over it ----

/// Whether a track shows something that fills the picture.
pub open spec fn shows_content(t: TrackV) -> bool {
    &&& t.kind == TrackKind::Video
    &&& !t.muted
    &&& exists|i: int|
        0 <= i < t.clips.len() && ((#[trigger] t.clips[i]).payload is Media
            || t.clips[i].payload is Generator)
}

/// The base is the lowest track that shows something that fills the picture, and
/// over it lie all tracks above it.
pub proof fn law_base_is_lowest(tracks: Seq<TrackV>)
    ensures
        ({
            let b = graph::base_track(tracks) as int;
            &&& b <= tracks.len()
            &&& forall|i: int| 0 <= i < b ==> !shows_content(#[trigger] tracks[i])
            &&& b < tracks.len() ==> shows_content(tracks[b])
            &&& b < tracks.len() ==> graph::over_base(tracks) == tracks.subrange(
                b + 1,
                tracks.len() as int,
            )
            &&& b == tracks.len() ==> graph::over_base(tracks).len() == 0
        }),
    decreases tracks.len(),
{
    if tracks.len() > 0 {
        let t = tracks[0];
        if graph::has_content(t) {
            let i = choose|i: int| 0 <= i < t.clips.len() && edl::fills(#[trigger] t.clips[i]);
            assert(t.clips[i].payload is Media || t.clips[i].payload is Generator);
        }
        if shows_content(t) {
            let i = choose|i: int|
                0 <= i < t.clips.len() && ((#[trigger] t.clips[i]).payload is Media
                    || t.clips[i].payload is Generator);
            assert(edl::fills(t.clips[i]));
            assert(graph::has_content(t));
        } else {
            let rest = tracks.drop_first();
            law_base_is_lowest(rest);
            let b = graph::base_track(tracks) as int;
            assert forall|i: int| 0 <= i < b implies !shows_content(#[trigger] tracks[i]) by {
                if i > 0 {
                    assert(tracks[i] == rest[i - 1]);
                }
            }
            if b < tracks.len() {
                assert(tracks[b] == rest[b - 1]);
            }
        }
        let b = graph::base_track(tracks) as int;
        if b < tracks.len() {
            assert(tracks.skip(b + 1) =~= tracks.subrange(b + 1, tracks.len() as int));
        }
    }
}

/// A layer is a clip over the base: its source at its speed from its start on, for
/// as long as the material lasts, to within a microsecond, and with its
/// transitions. A generator lasts as long as its clip.
pub proof fn law_layer_of_a_clip(
    x: (Seq<LayerV>, Labels),
    p: ProjectV,
    s: SequenceV,
    registry: Seq<EffectDefV>,
    drawn: Seq<crate::edl::DrawnV>,
    c: ClipV,
)
    ensures
        match graph::layer_step(x, p, s, registry, drawn, c) {
            Ok(y) => if c.payload is Media {
                let l = y.0.last();
                let length = c.payload->Media_src_out - c.payload->Media_src_in;
                &&& y.0 == x.0.push(l)
                &&& l.start == c.start
                &&& l.source == (LayerSourceV::Media {
                    asset_id: c.payload->Media_asset_id,
                    src_in: c.payload->Media_src_in,
                    src_out: c.payload->Media_src_out,
                    speed: c.speed,
                })
                &&& playable(length, c.speed) ==> plays_in(l.length as int, length, c.speed, 1)
                &&& l.entrance == edl::cross_of(c.transition_in)
                &&& l.exit == edl::cross_of(c.transition_out)
            } else if c.payload is Generator && edl::source_for(drawn, c.id, c.duration) is Some {
                let l = y.0.last();
                &&& y.0 == x.0.push(l)
                &&& l.start == c.start
                &&& l.length == c.duration
                &&& l.source == (LayerSourceV::Gen {
                    source: edl::source_for(drawn, c.id, c.duration)->Some_0,
                })
                &&& l.entrance == edl::cross_of(c.transition_in)
                &&& l.exit == edl::cross_of(c.transition_out)
            } else {
                y.0 == x.0
            },
            Err(e) => c.payload is Media && model::asset_of(p, c.payload->Media_asset_id) is None,
        },
{
    reveal(graph::layer_step);
    if c.payload is Media {
        let length = c.payload->Media_src_out - c.payload->Media_src_in;
        if playable(length, c.speed) {
            vstd::arithmetic::power2::lemma2_to64_rest();
            crate::exact::law_divided_time(length as TimeUs, c.speed);
            assert(time::sooner(c.payload->Media_src_out, c.payload->Media_src_in) == length);
            assert(1 * crate::exact::fine(c.speed) == crate::exact::fine(c.speed));
        }
    }
}

// ---- ends ----

/// The layers end when the last of them does.
pub proof fn law_layers_end(layers: Seq<LayerV>)
    ensures
        layers.len() == 0 ==> graph::layers_end(layers) == 0,
        forall|i: int|
            0 <= i < layers.len() ==> time::held((#[trigger] layers[i]).start + layers[i].length)
                <= graph::layers_end(layers),
        layers.len() > 0 ==> exists|i: int|
            0 <= i < layers.len() && time::held((#[trigger] layers[i]).start + layers[i].length)
                == graph::layers_end(layers),
    decreases layers.len(),
{
    if layers.len() > 0 {
        let rest = layers.drop_last();
        law_layers_end(rest);
        assert(layers.last() == layers[layers.len() - 1]);
        assert forall|i: int| 0 <= i < rest.len() implies layers[i] == #[trigger] rest[i] by {}
        assert forall|i: int| 0 <= i < layers.len() implies time::held(
            (#[trigger] layers[i]).start + layers[i].length,
        ) <= graph::layers_end(layers) by {
            if i < rest.len() {
                assert(rest[i] == layers[i]);
            }
        }
        if rest.len() > 0 {
            let i = choose|i: int|
                0 <= i < rest.len() && time::held((#[trigger] rest[i]).start + rest[i].length)
                    == graph::layers_end(rest);
            assert(layers[i] == rest[i]);
        }
    }
}

/// The sounds end when the last of them does: each lasts as long as its material
/// does at its speed.
pub proof fn law_sounds_end(items: Seq<AudioItemV>)
    ensures
        items.len() == 0 ==> graph::sounds_end(items) == 0,
        forall|i: int|
            0 <= i < items.len() ==> time::held(
                (#[trigger] items[i]).start + sound::heard_length(items[i]),
            ) <= graph::sounds_end(items),
        items.len() > 0 ==> exists|i: int|
            0 <= i < items.len() && time::held(
                (#[trigger] items[i]).start + sound::heard_length(items[i]),
            ) == graph::sounds_end(items),
    decreases items.len(),
{
    if items.len() > 0 {
        let rest = items.drop_last();
        law_sounds_end(rest);
        assert(items.last() == items[items.len() - 1]);
        assert forall|i: int| 0 <= i < items.len() implies time::held(
            (#[trigger] items[i]).start + sound::heard_length(items[i]),
        ) <= graph::sounds_end(items) by {
            if i < rest.len() {
                assert(rest[i] == items[i]);
            }
        }
        if rest.len() > 0 {
            let i = choose|i: int|
                0 <= i < rest.len() && time::held(
                    (#[trigger] rest[i]).start + sound::heard_length(rest[i]),
                ) == graph::sounds_end(rest);
            assert(items[i] == rest[i]);
        }
    }
}

/// A sound is heard for as long as its material lasts at its speed, to within a
/// microsecond.
pub proof fn law_heard_length(x: AudioItemV)
    requires
        playable(x.src_out - x.src_in, x.speed),
    ensures
        plays_in(sound::heard_length(x) as int, x.src_out - x.src_in, x.speed, 1),
{
    vstd::arithmetic::power2::lemma2_to64_rest();
    let length = x.src_out - x.src_in;
    crate::exact::law_divided_time(length as TimeUs, x.speed);
    assert(time::sooner(x.src_out, x.src_in) == length);
    assert(1 * crate::exact::fine(x.speed) == crate::exact::fine(x.speed));
}

// ---- frames ----

/// Whether a media clip of a track is there at a time.
pub open spec fn media_there(t: TrackV, j: int, at: TimeUs) -> bool {
    &&& t.kind == TrackKind::Video
    &&& !t.muted
    &&& 0 <= j < t.clips.len()
    &&& t.clips[j].start <= at < t.clips[j].finish()
    &&& t.clips[j].payload is Media
}

proof fn lemma_media_at(clips: Seq<ClipV>, t: TimeUs) -> (j: int)
    ensures
        match frames::media_at(clips, t) {
            Some(c) => 0 <= j < clips.len() && clips[j] == c && c.start <= t < c.finish()
                && c.payload is Media,
            None => forall|l: int|
                0 <= l < clips.len() ==> !((#[trigger] clips[l]).start <= t < clips[l].finish()
                    && clips[l].payload is Media),
        },
    decreases clips.len(),
{
    if clips.len() == 0 {
        0
    } else if clips[0].start <= t < clips[0].finish() && clips[0].payload is Media {
        0
    } else {
        let rest = clips.drop_first();
        let j = lemma_media_at(rest, t);
        assert forall|l: int| 0 < l < clips.len() implies #[trigger] clips[l] == rest[l - 1] by {}
        j + 1
    }
}

/// The frame of a sequence is one of a media clip that is there, on the highest
/// track that shows one; there is none where no track does.
pub proof fn law_top_media(tracks: Seq<TrackV>, t: TimeUs)
    ensures
        match frames::top_media(tracks, t) {
            Some(c) => exists|i: int, j: int|
                {
                    &&& 0 <= i < tracks.len()
                    &&& #[trigger] media_there(tracks[i], j, t)
                    &&& tracks[i].clips[j] == c
                    &&& forall|k: int, l: int|
                        i < k < tracks.len() ==> !#[trigger] media_there(tracks[k], l, t)
                },
            None => forall|k: int, l: int|
                0 <= k < tracks.len() ==> !#[trigger] media_there(tracks[k], l, t),
        },
    decreases tracks.len(),
{
    if tracks.len() > 0 {
        let n = tracks.len() - 1;
        let top = tracks[n];
        assert(top == tracks.last());
        let j = lemma_media_at(top.clips, t);
        if edl::shows(top) && frames::media_at(top.clips, t) is Some {
            assert(media_there(tracks[n], j, t));
        } else {
            assert forall|l: int| !#[trigger] media_there(tracks[n], l, t) by {}
            let rest = tracks.drop_last();
            law_top_media(rest, t);
            assert forall|k: int| 0 <= k < rest.len() implies tracks[k] == #[trigger] rest[k] by {}
            match frames::top_media(rest, t) {
                Some(c) => {
                    let (i, m) = choose|i: int, m: int|
                        {
                            &&& 0 <= i < rest.len()
                            &&& #[trigger] media_there(rest[i], m, t)
                            &&& rest[i].clips[m] == c
                            &&& forall|k: int, l: int|
                                i < k < rest.len() ==> !#[trigger] media_there(rest[k], l, t)
                        };
                    assert(media_there(tracks[i], m, t));
                    assert forall|k: int, l: int| i < k < tracks.len() implies !#[trigger] media_there(
                        tracks[k],
                        l,
                        t,
                    ) by {
                        if k < n {
                            assert(!media_there(rest[k], l, t));
                        }
                    }
                },
                None => {
                    assert forall|k: int, l: int| 0 <= k < tracks.len() implies !#[trigger] media_there(
                        tracks[k],
                        l,
                        t,
                    ) by {
                        if k < n {
                            assert(!media_there(rest[k], l, t));
                        }
                    }
                },
            }
        }
    }
}

/// A frame that is too high is made as high as allowed, to an even number, and so
/// wide that it keeps its shape, to an even number too; any other stays.
pub proof fn law_frame_keeps_its_shape(s: SequenceV, max_height: Option<u32>)
    ensures
        ({
            let f = graph::frame_of(s, max_height);
            let (w, h) = s.resolution;
            match max_height {
                Some(m) => if h > m {
                    &&& f.h % 2 == 0 && f.h <= m < f.h + 2
                    &&& f.w % 2 == 0 && f.w <= w
                    &&& f.w * h <= w * m < (f.w + 2) * h
                } else {
                    f.w == w && f.h == h
                },
                None => f.w == w && f.h == h,
            }
        }),
{
    let (w, h) = s.resolution;
    if let Some(m) = max_height {
        if h > m {
            let q = (w * m) / (h as int);
            assert(0 <= q <= w && q * h <= w * m < (q + 1) * h) by (nonlinear_arith)
                requires
                    0 <= m < h,
                    0 <= w,
                    q == (w * m) / (h as int),
            ;
            let e = graph::even(q);
            assert(e * h <= q * h && (q + 1) * h <= (e + 2) * h) by (nonlinear_arith)
                requires
                    e <= q < e + 2,
                    h > 0,
            ;
        }
    }
}

/// A range of a source lies on the timeline as far behind the start of its clip as
/// it is behind the first place of the source.
pub proof fn law_range_on_timeline(clip_start: TimeUs, src_in: TimeUs, r: (TimeUs, TimeUs))
    requires
        crate::crossing::moderate(clip_start),
        crate::crossing::moderate(src_in),
        crate::crossing::moderate(r.0),
        crate::crossing::moderate(r.1),
    ensures
        silence::on_timeline(clip_start, src_in, r).0 - clip_start == r.0 - src_in,
        silence::on_timeline(clip_start, src_in, r).1 - clip_start == r.1 - src_in,
{
}

} // verus!
