//! What is seen of a sequence and when: which track is on top, where a time of an
//! asset lies on the timeline, where gaps close, and how far edges can be moved.

use vstd::arithmetic::power2::*;
use vstd::prelude::*;

use crate::edl;
use crate::edl::{DrawnV, SegmentV};
use crate::exact;
use crate::exact::{apart, fine, one};
use crate::ident::Id;
use crate::model;
use crate::model::{ClipV, ProjectV, SequenceV, TrackKind, TrackV, WordV};
use crate::ops;
use crate::overlays;
use crate::playing;
use crate::render::{EffectDefV, Labels};
use crate::speeding;
use crate::time;
use crate::time::TimeUs;

verus! {

// ---- gaps ----

/// Whether ranges follow one another, each from a time to a later one.
pub open spec fn in_a_row(ranges: Seq<(TimeUs, TimeUs)>) -> bool {
    &&& forall|i: int| 0 <= i < ranges.len() ==> 0 <= (#[trigger] ranges[i]).0 <= ranges[i].1
    &&& forall|i: int, j: int|
        0 <= i < j < ranges.len() ==> (#[trigger] ranges[i]).1 <= (#[trigger] ranges[j]).0
}

/// Where a time goes when gaps are closed.
pub open spec fn closed_up(ranges: Seq<(TimeUs, TimeUs)>, t: TimeUs) -> int {
    t - ops::gone_before(ranges, t)
}

proof fn lemma_gone_bounds(ranges: Seq<(TimeUs, TimeUs)>, t: TimeUs)
    requires
        in_a_row(ranges),
        t >= 0,
    ensures
        0 <= ops::gone_before(ranges, t) <= t,
        ranges.len() > 0 ==> ops::gone_before(ranges, t) <= ranges.last().1,
    decreases ranges.len(),
{
    if ranges.len() > 0 {
        let rest = ranges.drop_last();
        assert(in_a_row(rest));
        lemma_gone_bounds(rest, t);
        if rest.len() > 0 {
            assert(rest.last() == ranges[ranges.len() - 2]);
            assert(ranges[ranges.len() - 2].1 <= ranges[ranges.len() - 1].0);
        }
        assert(ops::gone_before(rest, t) <= ranges.last().0);
    }
}

proof fn lemma_gone_same(ranges: Seq<(TimeUs, TimeUs)>, t: TimeUs, u: TimeUs)
    requires
        forall|i: int|
            0 <= i < ranges.len() ==> ((#[trigger] ranges[i]).1 <= t <==> ranges[i].1 <= u),
    ensures
        ops::gone_before(ranges, t) == ops::gone_before(ranges, u),
    decreases ranges.len(),
{
    if ranges.len() > 0 {
        assert(ranges[ranges.len() - 1] == ranges.last());
        assert forall|i: int| 0 <= i < ranges.drop_last().len() implies ((
        #[trigger] ranges.drop_last()[i]).1 <= t <==> ranges.drop_last()[i].1 <= u) by {
            assert(ranges[i] == ranges.drop_last()[i]);
        }
        lemma_gone_same(ranges.drop_last(), t, u);
    }
}

proof fn lemma_gone_at(ranges: Seq<(TimeUs, TimeUs)>, k: int)
    requires
        in_a_row(ranges),
        0 <= k < ranges.len(),
        ranges[k].0 < ranges[k].1,
    ensures
        ops::gone_before(ranges, ranges[k].1) == ops::gone_before(ranges, ranges[k].0)
            + ranges[k].1 - ranges[k].0,
    decreases ranges.len(),
{
    let rest = ranges.drop_last();
    let n = ranges.len() - 1;
    assert(in_a_row(rest));
    let a = ranges[k].0;
    let b = ranges[k].1;
    assert(ranges[n] == ranges.last());
    if k < n {
        assert(rest[k] == ranges[k]);
        lemma_gone_at(rest, k);
        lemma_gone_bounds(rest, b);
        lemma_gone_bounds(ranges, b);
        assert(ranges[k].1 <= ranges[n].0);
        if ranges[n].1 <= b {
            assert(ranges[n].0 == ranges[n].1);
        }
    } else {
        assert forall|i: int| 0 <= i < rest.len() implies ((#[trigger] rest[i]).1 <= a <==> rest[i].1
            <= b) by {
            assert(rest[i] == ranges[i]);
            assert(ranges[i].1 <= ranges[n].0);
        }
        lemma_gone_same(rest, a, b);
        lemma_gone_bounds(rest, a);
    }
}

/// Closing the gaps closes each gap and nothing else: the start and the end of a
/// range come to the same time, what stands before all ranges stays, and times
/// with no end of a range between them stay as far apart.
pub proof fn law_gaps_close(ranges: Seq<(TimeUs, TimeUs)>, k: int, t: TimeUs, u: TimeUs)
    requires
        in_a_row(ranges),
        0 <= t <= u,
    ensures
        0 <= closed_up(ranges, t),
        0 <= k < ranges.len() && ranges[k].0 < ranges[k].1 ==> closed_up(ranges, ranges[k].0)
            == closed_up(ranges, ranges[k].1),
        (forall|i: int| 0 <= i < ranges.len() ==> t < (#[trigger] ranges[i]).1) ==> closed_up(ranges, t)
            == t,
        (forall|i: int| 0 <= i < ranges.len() ==> !(t < (#[trigger] ranges[i]).1 <= u))
            ==> closed_up(ranges, u) - closed_up(ranges, t) == u - t,
{
    lemma_gone_bounds(ranges, t);
    if 0 <= k < ranges.len() && ranges[k].0 < ranges[k].1 {
        lemma_gone_at(ranges, k);
    }
    if forall|i: int| 0 <= i < ranges.len() ==> t < (#[trigger] ranges[i]).1 {
        lemma_none_gone(ranges, t);
    }
    if forall|i: int| 0 <= i < ranges.len() ==> !(t < (#[trigger] ranges[i]).1 <= u) {
        lemma_gone_same(ranges, t, u);
    }
}

proof fn lemma_none_gone(ranges: Seq<(TimeUs, TimeUs)>, t: TimeUs)
    requires
        forall|i: int| 0 <= i < ranges.len() ==> t < (#[trigger] ranges[i]).1,
    ensures
        ops::gone_before(ranges, t) == 0,
    decreases ranges.len(),
{
    if ranges.len() > 0 {
        assert(ranges[ranges.len() - 1] == ranges.last());
        assert forall|i: int| 0 <= i < ranges.drop_last().len() implies t < (
        #[trigger] ranges.drop_last()[i]).1 by {
            assert(ranges[i] == ranges.drop_last()[i]);
        }
        lemma_none_gone(ranges.drop_last(), t);
    }
}

// ---- times of an asset ----

/// Whether a clip holds a time of an asset.
pub open spec fn holds_time(c: ClipV, asset_id: Id, t: TimeUs) -> bool {
    &&& c.payload is Media
    &&& c.payload->Media_asset_id == asset_id
    &&& c.payload->Media_src_in <= t < c.payload->Media_src_out
}

proof fn lemma_on_clips(clips: Seq<ClipV>, asset_id: Id, t: TimeUs) -> (j: int)
    ensures
        match overlays::time_on_clips(clips, asset_id, t) {
            Some(x) => {
                &&& 0 <= j < clips.len() && holds_time(clips[j], asset_id, t)
                &&& forall|l: int| 0 <= l < j ==> !holds_time(#[trigger] clips[l], asset_id, t)
                &&& x == time::held(
                    clips[j].start + time::held(t - clips[j].payload->Media_src_in),
                )
            },
            None => forall|l: int|
                0 <= l < clips.len() ==> !holds_time(#[trigger] clips[l], asset_id, t),
        },
    decreases clips.len(),
{
    if clips.len() == 0 {
        0
    } else if holds_time(clips[0], asset_id, t) {
        0
    } else {
        let rest = clips.drop_first();
        let j = lemma_on_clips(rest, asset_id, t);
        assert forall|l: int| 0 < l < clips.len() implies #[trigger] clips[l] == rest[l - 1] by {}
        j + 1
    }
}

/// Where a time of an asset lies on the timeline: on the first clip of the lowest
/// track that holds it, as far behind the start of the clip as the time is behind
/// the first place of its source. It lies nowhere if no clip holds it.
pub proof fn law_time_on_tracks(tracks: Seq<TrackV>, asset_id: Id, t: TimeUs)
    ensures
        match overlays::time_on_tracks(tracks, asset_id, t) {
            Some(x) => exists|i: int, j: int|
                {
                    &&& 0 <= i < tracks.len() && 0 <= j < tracks[i].clips.len()
                    &&& holds_time(#[trigger] tracks[i].clips[j], asset_id, t)
                    &&& forall|k: int, l: int|
                        0 <= k < tracks.len() && 0 <= l < tracks[k].clips.len() && holds_time(
                            #[trigger] tracks[k].clips[l],
                            asset_id,
                            t,
                        ) ==> i < k || (i == k && j <= l)
                    &&& x == time::held(
                        tracks[i].clips[j].start + time::held(
                            t - tracks[i].clips[j].payload->Media_src_in,
                        ),
                    )
                },
            None => forall|k: int, l: int|
                0 <= k < tracks.len() && 0 <= l < tracks[k].clips.len() ==> !holds_time(
                    #[trigger] tracks[k].clips[l],
                    asset_id,
                    t,
                ),
        },
    decreases tracks.len(),
{
    if tracks.len() > 0 {
        let rest = tracks.drop_first();
        let j = lemma_on_clips(tracks[0].clips, asset_id, t);
        assert forall|k: int| 0 < k < tracks.len() implies #[trigger] tracks[k] == rest[k - 1] by {}
        match overlays::time_on_clips(tracks[0].clips, asset_id, t) {
            Some(x) => {
                assert(holds_time(tracks[0].clips[j], asset_id, t));
            },
            None => {
                law_time_on_tracks(rest, asset_id, t);
                if let Some(x) = overlays::time_on_tracks(rest, asset_id, t) {
                    let (a, b) = choose|a: int, b: int|
                        {
                            &&& 0 <= a < rest.len() && 0 <= b < rest[a].clips.len()
                            &&& holds_time(#[trigger] rest[a].clips[b], asset_id, t)
                            &&& forall|k: int, l: int|
                                0 <= k < rest.len() && 0 <= l < rest[k].clips.len() && holds_time(
                                    #[trigger] rest[k].clips[l],
                                    asset_id,
                                    t,
                                ) ==> a < k || (a == k && b <= l)
                            &&& x == time::held(
                                rest[a].clips[b].start + time::held(
                                    t - rest[a].clips[b].payload->Media_src_in,
                                ),
                            )
                        };
                    assert(tracks[a + 1].clips[b] == rest[a].clips[b]);
                    assert forall|k: int, l: int|
                        0 <= k < tracks.len() && 0 <= l < tracks[k].clips.len() && holds_time(
                            #[trigger] tracks[k].clips[l],
                            asset_id,
                            t,
                        ) implies a + 1 < k || (a + 1 == k && b <= l) by {
                        if k > 0 {
                            assert(tracks[k].clips[l] == rest[k - 1].clips[l]);
                        }
                    }
                } else {
                    assert forall|k: int, l: int|
                        0 <= k < tracks.len() && 0 <= l < tracks[k].clips.len() implies !holds_time(
                        #[trigger] tracks[k].clips[l],
                        asset_id,
                        t,
                    ) by {
                        if k > 0 {
                            assert(tracks[k].clips[l] == rest[k - 1].clips[l]);
                        }
                    }
                }
            },
        }
    }
}

/// The words that are sung in a span are those that start in it and are not
/// rejected, in their order.
pub proof fn law_spoken(words: Seq<WordV>, from: TimeUs, to: TimeUs)
    ensures
        overlays::spoken(words, from, to) == words.filter(
            |w: WordV| !w.rejected && from <= w.start_us && w.start_us < to,
        ),
    decreases words.len(),
{
    reveal(Seq::filter);
    if words.len() > 0 {
        law_spoken(words.drop_last(), from, to);
    }
}

// ---- edges ----

/// How far the edges of a clip can be moved. To the left, until its source is
/// used up, or to the start of the timeline; to the right, until the material
/// ends. On the other side a frame stays.
pub proof fn law_trim_limits(p: ProjectV, c: ClipV, frame: TimeUs)
    requires
        playing::roomy(c),
        0 <= frame <= c.duration,
        c.start >= 0,
    ensures
        ({
            let v = c.payload->Media_src_in;
            let limits = ops::trim_limits(p, c, true, frame);
            &&& speeding::playable(v as int, c.speed) ==> {
                &&& limits.0 >= 0
                &&& speeding::plays_in(c.start - limits.0, v as int, c.speed, 1) || limits.0 == 0
                    && c.start * fine(c.speed) <= v * one() + fine(c.speed)
            }
            &&& limits.1 == c.start + c.duration - frame
        }),
        ({
            let v = c.payload->Media_src_in;
            let limits = ops::trim_limits(p, c, false, frame);
            &&& limits.0 == c.start + frame
            &&& match ops::material_length(p, c) {
                Some(d) => speeding::playable(d - v, c.speed) ==> speeding::plays_in(
                    limits.1 - c.start,
                    d - v,
                    c.speed,
                    1,
                ),
                None => limits.1 == ops::FAR_RIGHT,
            }
        }),
{
    let v = c.payload->Media_src_in;
    lemma2_to64();
    lemma2_to64_rest();
    if speeding::playable(v as int, c.speed) {
        exact::law_divided_time(v, c.speed);
        let t = ops::divided_time(v, c.speed);
        assert(c.start - time::sooner(c.start, t) == t);
        if c.start < t {
            exact::lemma_fine_positive(c.speed);
            assert(c.start * fine(c.speed) <= t * fine(c.speed)) by (nonlinear_arith)
                requires
                    c.start < t,
                    fine(c.speed) > 0,
            ;
        }
    }
    if let Some(d) = ops::material_length(p, c) {
        if speeding::playable(d - v, c.speed) {
            exact::law_divided_time((d - v) as TimeUs, c.speed);
        }
    }
}

// ---- the picture ----

/// Whether the clips of a track do not overlap.
pub open spec fn side_by_side(clips: Seq<ClipV>) -> bool {
    forall|i: int, j: int|
        0 <= i < j < clips.len() ==> (#[trigger] clips[i]).finish() <= (#[trigger] clips[j]).start
}

/// Whether a clip has a picture that lasts so long: media has one, a generator
/// where its source was drawn.
pub open spec fn pictured(drawn: Seq<DrawnV>, c: ClipV, length: TimeUs) -> bool {
    ||| c.payload is Media
    ||| c.payload is Generator && edl::source_for(drawn, c.id, length) is Some
}

/// Whether a clip on a track fills the picture at a time.
pub open spec fn seen(
    drawn: Seq<DrawnV>,
    t: TrackV,
    j: int,
    at: TimeUs,
    length: TimeUs,
) -> bool {
    &&& t.kind == TrackKind::Video
    &&& !t.muted
    &&& 0 <= j < t.clips.len()
    &&& t.clips[j].start <= at < t.clips[j].finish()
    &&& pictured(drawn, t.clips[j], length)
}

/// Whether a segment is what a clip shows from one time to another.
pub open spec fn pictures(drawn: Seq<DrawnV>, c: ClipV, a: TimeUs, b: TimeUs, s: SegmentV) -> bool {
    match s {
        SegmentV::Source { asset_id, src_in, src_out, speed, .. } => {
            &&& c.payload is Media
            &&& asset_id == c.payload->Media_asset_id
            &&& speed == c.speed
            &&& playing::roomy(c) && c.start <= a <= b <= c.finish() && exact::within(
                c.duration as int,
                c.speed,
            ) ==> {
                &&& apart(src_in * one(), playing::played(c, a as int)) <= one()
                &&& src_out <= c.payload->Media_src_out
                &&& apart(src_out * one(), playing::played(c, b as int)) <= one() || src_out
                    == c.payload->Media_src_out && src_out * one() < playing::played(c, b as int)
                    + one()
            }
        },
        SegmentV::Gen { source, duration, .. } => {
            &&& c.payload is Generator
            &&& duration == time::held(b - a)
            &&& edl::source_for(drawn, c.id, duration) == Some(source)
        },
        SegmentV::Black { .. } => false,
    }
}

proof fn lemma_covering_unique(clips: Seq<ClipV>, at: TimeUs, j: int)
    requires
        side_by_side(clips),
        0 <= j < clips.len(),
        clips[j].start <= at < clips[j].finish(),
    ensures
        edl::covering(clips, at) == Some(clips[j]),
    decreases clips.len(),
{
    if j > 0 {
        let rest = clips.drop_first();
        assert(clips[0].finish() <= clips[j].start);
        assert forall|i: int, k: int| 0 <= i < k < rest.len() implies (#[trigger] rest[i]).finish() <= (
        #[trigger] rest[k]).start by {
            assert(rest[i] == clips[i + 1]);
            assert(rest[k] == clips[k + 1]);
            assert(clips[i + 1].finish() <= clips[k + 1].start);
        }
        assert(rest[j - 1] == clips[j]);
        lemma_covering_unique(rest, at, j - 1);
    }
}

/// What a clip shows is its picture, where it has one.
proof fn lemma_clip_pictures(
    p: ProjectV,
    s: SequenceV,
    registry: Seq<EffectDefV>,
    drawn: Seq<DrawnV>,
    c: ClipV,
    a: TimeUs,
    b: TimeUs,
    labels: Labels,
)
    ensures
        match edl::clip_shows(p, s, registry, drawn, c, a, b, labels) {
            Ok(x) => match x.0 {
                Some(y) => pictured(drawn, c, time::held(b - a)) && pictures(drawn, c, a, b, y),
                None => !pictured(drawn, c, time::held(b - a)) && x.1 == labels,
            },
            Err(e) => c.payload is Media && model::asset_of(p, c.payload->Media_asset_id) is None,
        },
{
    if c.payload is Media && playing::roomy(c) && c.start <= a <= b <= c.finish() && exact::within(
        c.duration as int,
        c.speed,
    ) {
        assert(c.finish() == c.start + c.duration);
        playing::law_segment_plays_the_window(
            c,
            a,
            b,
            crate::render::clip_chain(
                registry,
                c.effects,
                0,
                c.transform,
                Some(s.resolution),
                false,
                "t"@,
                false,
                labels,
            ),
        );
    }
}

/// Whether nothing is seen on tracks from one on.
pub open spec fn unseen_from(
    drawn: Seq<DrawnV>,
    tracks: Seq<TrackV>,
    from: int,
    at: TimeUs,
    length: TimeUs,
) -> bool {
    forall|k: int, l: int|
        from <= k < tracks.len() ==> !#[trigger] seen(drawn, tracks[k], l, at, length)
}

/// Whether a clip is seen and no clip on a higher track is.
pub open spec fn on_top(
    drawn: Seq<DrawnV>,
    tracks: Seq<TrackV>,
    i: int,
    j: int,
    at: TimeUs,
    length: TimeUs,
) -> bool {
    &&& 0 <= i < tracks.len()
    &&& seen(drawn, tracks[i], j, at, length)
    &&& unseen_from(drawn, tracks, i + 1, at, length)
}

/// The top track wins: in a window between two borders the picture is that of the
/// clip in its middle on the highest track that has one there. Muted tracks, and
/// tracks of sound or text, do not show. Nothing shows where no track has a
/// picture, and only the top one has to have its asset.
pub proof fn law_top_track_shows(
    p: ProjectV,
    s: SequenceV,
    registry: Seq<EffectDefV>,
    drawn: Seq<DrawnV>,
    tracks: Seq<TrackV>,
    a: TimeUs,
    b: TimeUs,
    labels: Labels,
)
    requires
        forall|i: int| 0 <= i < tracks.len() ==> side_by_side((#[trigger] tracks[i]).clips),
    ensures
        ({
            let at = edl::middle(a, b);
            let length = time::held(b - a);
            match edl::window_shows(p, s, registry, drawn, tracks, a, b, labels) {
                Ok(x) => match x.0 {
                    Some(y) => exists|i: int, j: int| #[trigger]
                        on_top(drawn, tracks, i, j, at, length) && pictures(
                            drawn,
                            tracks[i].clips[j],
                            a,
                            b,
                            y,
                        ),
                    None => unseen_from(drawn, tracks, 0, at, length),
                },
                Err(e) => exists|i: int, j: int| #[trigger]
                    on_top(drawn, tracks, i, j, at, length) && tracks[i].clips[j].payload is Media
                        && model::asset_of(p, tracks[i].clips[j].payload->Media_asset_id) is None,
            }
        }),
    decreases tracks.len(),
{
    let at = edl::middle(a, b);
    let length = time::held(b - a);
    if tracks.len() > 0 {
        let n = tracks.len() - 1;
        let t = tracks[n];
        let rest = tracks.drop_last();
        assert(tracks.last() == t);
        assert(side_by_side(tracks[n].clips));
        playing::law_covering(t.clips, at);
        let here = edl::covering(t.clips, at);
        if here is Some && edl::shows(t) && pictured(drawn, here->Some_0, length) {
            let c = here->Some_0;
            let j = t.clips.index_of(c);
            assert(t.clips[j] == c);
            lemma_clip_pictures(p, s, registry, drawn, c, a, b, labels);
            assert(seen(drawn, tracks[n], j, at, length));
            assert(on_top(drawn, tracks, n, j, at, length));
        } else {
            assert forall|l: int| !#[trigger] seen(drawn, tracks[n], l, at, length) by {
                if seen(drawn, tracks[n], l, at, length) {
                    lemma_covering_unique(t.clips, at, l);
                }
            }
            if here is Some && edl::shows(t) {
                lemma_clip_pictures(p, s, registry, drawn, here->Some_0, a, b, labels);
            }
            assert forall|i: int| 0 <= i < rest.len() implies side_by_side((#[trigger] rest[i]).clips) by {
                assert(side_by_side(tracks[i].clips));
            }
            law_top_track_shows(p, s, registry, drawn, rest, a, b, labels);
            let r = edl::window_shows(p, s, registry, drawn, rest, a, b, labels);
            assert(edl::window_shows(p, s, registry, drawn, tracks, a, b, labels) == r);
            assert forall|i: int| 0 <= i && unseen_from(drawn, rest, i, at, length) implies #[trigger] unseen_from(
                drawn,
                tracks,
                i,
                at,
                length,
            ) by {
                assert forall|k: int, l: int| i <= k < tracks.len() implies !#[trigger] seen(
                    drawn,
                    tracks[k],
                    l,
                    at,
                    length,
                ) by {
                    if k < n {
                        assert(!seen(drawn, rest[k], l, at, length));
                    }
                }
            }
            match r {
                Ok(x) => {
                    match x.0 {
                        Some(y) => {
                            let (i, j) = choose|i: int, j: int| #[trigger]
                                on_top(drawn, rest, i, j, at, length) && pictures(
                                    drawn,
                                    rest[i].clips[j],
                                    a,
                                    b,
                                    y,
                                );
                            assert(unseen_from(drawn, tracks, i + 1, at, length));
                            assert(on_top(drawn, tracks, i, j, at, length));
                        },
                        None => {
                            assert(unseen_from(drawn, tracks, 0, at, length));
                        },
                    }
                },
                Err(e) => {
                    let (i, j) = choose|i: int, j: int| #[trigger]
                        on_top(drawn, rest, i, j, at, length) && rest[i].clips[j].payload is Media
                            && model::asset_of(p, rest[i].clips[j].payload->Media_asset_id) is None;
                    assert(unseen_from(drawn, tracks, i + 1, at, length));
                    assert(on_top(drawn, tracks, i, j, at, length));
                },
            }
        }
    }
}

/// Whether a time is an edge of a clip that fills the picture, on a track that
/// shows, or the start of the timeline.
pub open spec fn is_edge(tracks: Seq<TrackV>, t: TimeUs) -> bool {
    t == 0 || exists|i: int, j: int|
        0 <= i < tracks.len() && 0 <= j < tracks[i].clips.len() && tracks[i].kind == TrackKind::Video
            && !tracks[i].muted && edl::fills(#[trigger] tracks[i].clips[j]) && (
        tracks[i].clips[j].start == t || tracks[i].clips[j].finish() == t)
}

/// Whether times rise.
pub open spec fn rising(times: Seq<TimeUs>) -> bool {
    forall|i: int, j: int| 0 <= i < j < times.len() ==> #[trigger] times[i] < #[trigger] times[j]
}

proof fn lemma_below_count(times: Seq<TimeUs>, t: TimeUs)
    requires
        rising(times),
    ensures
        edl::below(times, t) <= times.len(),
        forall|i: int| 0 <= i < times.len() ==> (i < edl::below(times, t) <==> #[trigger] times[i] < t),
    decreases times.len(),
{
    if times.len() > 0 && times[0] < t {
        let rest = times.drop_first();
        assert forall|i: int, j: int| 0 <= i < j < rest.len() implies #[trigger] rest[i]
            < #[trigger] rest[j] by {
            assert(times[i + 1] < times[j + 1]);
        }
        lemma_below_count(rest, t);
        assert forall|i: int| 0 <= i < times.len() implies (i < edl::below(times, t)
            <==> #[trigger] times[i] < t) by {
            if i > 0 {
                assert(times[i] == rest[i - 1]);
            }
        }
    } else if times.len() > 0 {
        assert forall|i: int| 0 <= i < times.len() implies !(#[trigger] times[i] < t) by {
            if i > 0 {
                assert(times[0] < times[i]);
            }
        }
    }
}

proof fn lemma_with_time(times: Seq<TimeUs>, t: TimeUs)
    requires
        rising(times),
    ensures
        rising(edl::with_time(times, t)),
        forall|u: TimeUs| #[trigger]
            edl::with_time(times, t).contains(u) <==> times.contains(u) || u == t,
{
    lemma_below_count(times, t);
    let k = edl::below(times, t) as int;
    let r = edl::with_time(times, t);
    if k < times.len() && times[k] == t {
        assert(r == times);
    } else {
        assert(r == times.insert(k, t));
        assert(r[k] == t);
        assert forall|u: TimeUs| #[trigger] r.contains(u) implies times.contains(u) || u == t by {
            let i = choose|i: int| 0 <= i < r.len() && r[i] == u;
            if i < k {
                assert(times[i] == u);
            } else if i > k {
                assert(times[i - 1] == u);
            }
        }
        assert forall|u: TimeUs| times.contains(u) || u == t implies #[trigger] r.contains(u) by {
            if times.contains(u) {
                let i = choose|i: int| 0 <= i < times.len() && times[i] == u;
                if i < k {
                    assert(r[i] == u);
                } else {
                    assert(r[i + 1] == u);
                }
            }
        }
        assert forall|i: int, j: int| 0 <= i < j < r.len() implies #[trigger] r[i] < #[trigger] r[j] by {
            if j < k {
                assert(times[i] < times[j]);
            } else if i > k {
                assert(times[i - 1] < times[j - 1]);
            } else if i < k && j > k {
                assert(times[i] < times[j - 1]);
            } else if j == k {
                assert(times[i] < t);
            } else {
                assert(!(times[j - 1] < t));
                if j > k + 1 {
                    assert(times[k] < times[j - 1]);
                }
            }
        }
    }
}

proof fn lemma_clip_borders(clips: Seq<ClipV>, times: Seq<TimeUs>)
    requires
        rising(times),
    ensures
        rising(edl::clip_borders(clips, times)),
        forall|u: TimeUs| #[trigger]
            edl::clip_borders(clips, times).contains(u) <==> times.contains(u) || exists|j: int|
                0 <= j < clips.len() && edl::fills(#[trigger] clips[j]) && (clips[j].start == u
                    || clips[j].finish() == u),
    decreases clips.len(),
{
    if clips.len() > 0 {
        let rest = clips.drop_last();
        let n = clips.len() - 1;
        let c = clips[n];
        assert(c == clips.last());
        lemma_clip_borders(rest, times);
        let r = edl::clip_borders(rest, times);
        let all = edl::clip_borders(clips, times);
        if edl::fills(c) {
            lemma_with_time(r, c.start);
            lemma_with_time(edl::with_time(r, c.start), c.finish());
        }
        assert forall|u: TimeUs| #[trigger]
            all.contains(u) <==> times.contains(u) || exists|j: int|
                0 <= j < clips.len() && edl::fills(#[trigger] clips[j]) && (clips[j].start == u
                    || clips[j].finish() == u) by {
            if exists|j: int|
                0 <= j < rest.len() && edl::fills(#[trigger] rest[j]) && (rest[j].start == u
                    || rest[j].finish() == u) {
                let j = choose|j: int|
                    0 <= j < rest.len() && edl::fills(#[trigger] rest[j]) && (rest[j].start == u
                        || rest[j].finish() == u);
                assert(clips[j] == rest[j]);
            }
            if exists|j: int|
                0 <= j < clips.len() && edl::fills(#[trigger] clips[j]) && (clips[j].start == u
                    || clips[j].finish() == u) {
                let j = choose|j: int|
                    0 <= j < clips.len() && edl::fills(#[trigger] clips[j]) && (clips[j].start == u
                        || clips[j].finish() == u);
                if j < n {
                    assert(clips[j] == rest[j]);
                }
            }
            if edl::fills(c) {
                assert(edl::with_time(r, c.start).contains(u) <==> r.contains(u) || u == c.start);
            }
        }
    }
}

/// The borders of the windows are the start of the timeline and the edges of all
/// clips that fill the picture on tracks that show, and nothing else. They rise.
pub proof fn law_borders(tracks: Seq<TrackV>)
    ensures
        rising(edl::borders(tracks)),
        forall|u: TimeUs| #[trigger] edl::borders(tracks).contains(u) <==> is_edge(tracks, u),
    decreases tracks.len(),
{
    if tracks.len() == 0 {
        assert(seq![0i64][0] == 0);
        assert forall|u: TimeUs| #[trigger] edl::borders(tracks).contains(u) <==> is_edge(tracks, u) by {}
    } else {
        let n = tracks.len() - 1;
        let rest = tracks.drop_last();
        let t = tracks[n];
        assert(t == tracks.last());
        law_borders(rest);
        if edl::shows(t) {
            lemma_clip_borders(t.clips, edl::borders(rest));
        }
        assert forall|u: TimeUs| #[trigger] edl::borders(tracks).contains(u) <==> is_edge(tracks, u) by {
            assert(edl::borders(rest).contains(u) <==> is_edge(rest, u));
            if is_edge(rest, u) && u != 0 {
                let (i, j) = choose|i: int, j: int|
                    0 <= i < rest.len() && 0 <= j < rest[i].clips.len() && rest[i].kind
                        == TrackKind::Video && !rest[i].muted && edl::fills(
                        #[trigger] rest[i].clips[j],
                    ) && (rest[i].clips[j].start == u || rest[i].clips[j].finish() == u);
                assert(tracks[i].clips[j] == rest[i].clips[j]);
            }
            if is_edge(tracks, u) && u != 0 {
                let (i, j) = choose|i: int, j: int|
                    0 <= i < tracks.len() && 0 <= j < tracks[i].clips.len() && tracks[i].kind
                        == TrackKind::Video && !tracks[i].muted && edl::fills(
                        #[trigger] tracks[i].clips[j],
                    ) && (tracks[i].clips[j].start == u || tracks[i].clips[j].finish() == u);
                if i < n {
                    assert(tracks[i].clips[j] == rest[i].clips[j]);
                } else {
                    assert(edl::fills(t.clips[j]));
                }
            }
            if edl::shows(t) && exists|j: int|
                0 <= j < t.clips.len() && edl::fills(#[trigger] t.clips[j]) && (t.clips[j].start == u
                    || t.clips[j].finish() == u) {
                let j = choose|j: int|
                    0 <= j < t.clips.len() && edl::fills(#[trigger] t.clips[j]) && (t.clips[j].start
                        == u || t.clips[j].finish() == u);
                assert(edl::fills(tracks[n].clips[j]));
            }
        }
    }
}

/// Two segments become one only where nothing shows between them: the second goes
/// on in the same source where the first ends, at the same speed and with the same
/// filters, and no transition comes between; the one has all of both. Black with
/// black behind it is black for as long as both.
pub proof fn law_fused_segments(x: SegmentV, y: SegmentV)
    ensures
        match edl::fused(x, y) {
            Some(z) => {
                ||| {
                    &&& x is Black && y is Black
                    &&& z == (SegmentV::Black {
                        duration: time::held(x->Black_duration + y->Black_duration),
                    })
                }
                ||| {
                    &&& x is Source && y is Source
                    &&& x->Source_asset_id == y->Source_asset_id
                    &&& x->Source_src_out == y->Source_src_in
                    &&& x->Source_speed == y->Source_speed
                    &&& x->Source_vf == y->Source_vf
                    &&& y->Source_transition_in is None && y->Source_entrance is None
                    &&& z == (SegmentV::Source {
                        asset_id: x->Source_asset_id,
                        src_in: x->Source_src_in,
                        src_out: y->Source_src_out,
                        speed: x->Source_speed,
                        vf: x->Source_vf,
                        transition_in: x->Source_transition_in,
                        entrance: x->Source_entrance,
                        exit: y->Source_exit,
                    })
                }
            },
            None => !(x is Black && y is Black),
        },
{
}

/// The flat list has one segment for each window between two borders, in their
/// order: what shows there, or black for as long as the window.
pub proof fn law_windows_are_shown(
    p: ProjectV,
    s: SequenceV,
    registry: Seq<EffectDefV>,
    drawn: Seq<DrawnV>,
    times: Seq<TimeUs>,
    labels: Labels,
    i: int,
)
    requires
        0 <= i < times.len() - 1,
        edl::window_list(p, s, registry, drawn, times, labels) is Ok,
    ensures
        ({
            let list = edl::window_list(p, s, registry, drawn, times, labels)->Ok_0.0;
            let a = times[i];
            let b = times[i + 1];
            &&& list.len() == times.len() - 1
            &&& exists|l: Labels|
                match #[trigger] edl::window_shows(p, s, registry, drawn, s.tracks, a, b, l) {
                    Ok(x) => match x.0 {
                        Some(y) => list[i] == y,
                        None => list[i] == (SegmentV::Black { duration: time::held(b - a) }),
                    },
                    Err(e) => false,
                }
        }),
    decreases times.len(),
{
    let n = times.len() as int;
    let rest = times.drop_last();
    let before = edl::window_list(p, s, registry, drawn, rest, labels);
    assert(times.last() == times[n - 1]);
    if n == 2 {
        assert(rest.len() == 1);
        assert(before->Ok_0.0.len() == 0);
    } else {
        let k = if i < n - 2 {
            i
        } else {
            0
        };
        law_windows_are_shown(p, s, registry, drawn, rest, labels, k);
        assert(rest[k] == times[k] && rest[k + 1] == times[k + 1]);
    }
    let list = edl::window_list(p, s, registry, drawn, times, labels)->Ok_0.0;
    assert(before is Ok);
    assert(list.len() == before->Ok_0.0.len() + 1);
    if i == n - 2 {
        let l = before->Ok_0.1;
        let r = edl::window_shows(p, s, registry, drawn, s.tracks, times[n - 2], times[n - 1], l);
        assert(r is Ok);
        assert(list[i] == list.last());
    } else {
        assert(list[i] == before->Ok_0.0[i]);
    }
}

} // verus!
