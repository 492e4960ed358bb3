//! Pieces of a timeline: a project cut down to some ranges of a sequence, which
//! then follow each other from the start.

use vstd::prelude::*;

use crate::edl;
use crate::ident::Id;
use crate::laws;
use crate::model;
use crate::model::{Clip, ClipV, Project, ProjectV, Sequence, SequenceV, Track, TrackV};
use crate::ops;
use crate::ops::{clamp_time, split_clip_data};
use crate::seqs;
use crate::seqs::{find, Duplicate};
use crate::time;
use crate::time::{max2, minus, plus, TimeUs};

verus! {

/// A range of a timeline.
pub type Piece = (TimeUs, TimeUs);

/// A range held within a timeline of some length.
pub open spec fn within(r: Piece, length: TimeUs) -> Piece {
    let a = ops::clamped(r.0, 0, time::max_time(length, 0));
    (a, ops::clamped(r.1, a, time::max_time(length, 0)))
}

fn hold_within(r: Piece, length: TimeUs) -> (p: Piece)
    ensures
        p == within(r, length),
{
    let end: TimeUs = max2(length, 0);
    let a: TimeUs = clamp_time(r.0, 0, end);
    (a, clamp_time(r.1, a, end))
}

/// How long the first pieces are together: where the next one starts.
pub open spec fn place_of(pieces: Seq<Piece>, n: nat, length: TimeUs) -> TimeUs
    decreases n,
{
    if n == 0 {
        0
    } else {
        let r = within(pieces[n - 1], length);
        time::later(place_of(pieces, (n - 1) as nat, length), time::sooner(r.1, r.0))
    }
}

/// Whether a clip and a range share an instant.
pub open spec fn meets(c: ClipV, r: Piece) -> bool {
    r.0 < r.1 && c.start < r.1 && r.0 < c.finish()
}

/// The part of a clip inside a range. The transitions at its ends stay only
/// where the clip is not cut there.
pub open spec fn part(c: ClipV, r: Piece) -> ClipV {
    let x = if c.start < r.0 {
        ops::right_half(c, time::sooner(r.0, c.start), c.id)
    } else {
        c
    };
    if r.1 < x.finish() {
        ClipV { transition_out: None, ..ops::left_half(x, time::sooner(r.1, x.start), c.id) }
    } else {
        x
    }
}

/// The part of a clip inside a range that is shown from some place on. No
/// transition runs over the seam of two ranges.
pub open spec fn placed(c: ClipV, r: Piece, place: TimeUs) -> ClipV {
    let x = part(c, r);
    ClipV {
        start: time::later(time::sooner(x.start, r.0), place),
        transition_in: if place > 0 && c.start == r.0 {
            None
        } else {
            x.transition_in
        },
        ..x
    }
}

/// What a range of a track holds, shown from some place on.
pub open spec fn piece_clips(clips: Seq<ClipV>, r: Piece, place: TimeUs) -> Seq<ClipV>
    decreases clips.len(),
{
    if clips.len() == 0 {
        clips
    } else {
        let before = piece_clips(clips.drop_last(), r, place);
        if meets(clips.last(), r) {
            before.push(placed(clips.last(), r, place))
        } else {
            before
        }
    }
}

/// What the first of some ranges of a track hold, one behind the other.
pub open spec fn pieces_clips(clips: Seq<ClipV>, pieces: Seq<Piece>, n: nat, length: TimeUs) -> Seq<ClipV>
    decreases n,
{
    if n == 0 {
        Seq::<ClipV>::empty()
    } else {
        pieces_clips(clips, pieces, (n - 1) as nat, length) + piece_clips(
            clips,
            within(pieces[n - 1], length),
            place_of(pieces, (n - 1) as nat, length),
        )
    }
}

/// A sequence that shows some of its ranges, one behind the other.
pub open spec fn cut_down(s: SequenceV, pieces: Seq<Piece>) -> SequenceV {
    SequenceV {
        tracks: s.tracks.map_values(
            |t: TrackV|
                TrackV { clips: pieces_clips(t.clips, pieces, pieces.len(), s.length()), ..t },
        ),
        ..s
    }
}

/// A project of which one sequence shows some of its ranges, one behind the
/// other.
pub open spec fn restricted(p: ProjectV, sequence_id: Id, pieces: Seq<Piece>) -> ProjectV {
    if seqs::holds(p.sequences, sequence_id) {
        let i = seqs::pos(p.sequences, sequence_id) as int;
        ProjectV { sequences: p.sequences.update(i, cut_down(p.sequences[i], pieces)), ..p }
    } else {
        p
    }
}

fn take_part(c: &Clip, r: Piece) -> (x: Clip)
    ensures
        x@ == part(c@, r),
{
    let x: Clip = if c.start < r.0 {
        split_clip_data(c, minus(r.0, c.start), c.id, c.id).1
    } else {
        c.duplicate()
    };
    if r.1 < x.end() {
        let mut y: Clip = split_clip_data(&x, minus(r.1, x.start), c.id, c.id).0;
        y.transition_out = None;
        y
    } else {
        x
    }
}

fn place_part(c: &Clip, r: Piece, place: TimeUs) -> (x: Clip)
    ensures
        x@ == placed(c@, r, place),
{
    let mut x: Clip = take_part(c, r);
    x.start = plus(minus(x.start, r.0), place);
    if place > 0 && c.start == r.0 {
        x.transition_in = None;
    }
    x
}

fn add_piece(out: &mut Vec<Clip>, clips: &Vec<Clip>, r: Piece, place: TimeUs)
    ensures
        seqs::views(final(out)@) == seqs::views(old(out)@) + piece_clips(
            seqs::views(clips@),
            r,
            place,
        ),
{
    let ghost before = seqs::views(out@);
    let ghost all = seqs::views(clips@);
    let mut i: usize = 0;
    assert(all.take(0) =~= Seq::<ClipV>::empty());
    assert(before + piece_clips(all.take(0), r, place) =~= before);
    while i < clips.len()
        invariant
            i <= clips.len(),
            all == seqs::views(clips@),
            seqs::views(out@) == before + piece_clips(all.take(i as int), r, place),
        decreases clips.len() - i,
    {
        proof {
            assert(all.take(i as int + 1).drop_last() =~= all.take(i as int));
            assert(all.take(i as int + 1).last() == clips@[i as int]@);
        }
        if r.0 < r.1 && clips[i].start < r.1 && r.0 < clips[i].end() {
            let x: Clip = place_part(&clips[i], r, place);
            let ghost sofar = out@;
            let ghost xv = x@;
            out.push(x);
            assert(seqs::views(out@) =~= seqs::views(sofar).push(xv));
            assert(seqs::views(out@) =~= before + piece_clips(all.take(i as int + 1), r, place));
        }
        i = i + 1;
    }
    assert(all.take(i as int) =~= all);
}

fn cut_track(clips: &Vec<Clip>, pieces: &Vec<Piece>, length: TimeUs) -> (out: Vec<Clip>)
    ensures
        seqs::views(out@) == pieces_clips(seqs::views(clips@), pieces@, pieces@.len(), length),
{
    let ghost all = seqs::views(clips@);
    let mut out: Vec<Clip> = Vec::new();
    let mut place: TimeUs = 0;
    let mut k: usize = 0;
    assert(seqs::views(out@) =~= Seq::<ClipV>::empty());
    while k < pieces.len()
        invariant
            k <= pieces.len(),
            all == seqs::views(clips@),
            place == place_of(pieces@, k as nat, length),
            seqs::views(out@) == pieces_clips(all, pieces@, k as nat, length),
        decreases pieces.len() - k,
    {
        let r: Piece = hold_within(pieces[k], length);
        add_piece(&mut out, clips, r, place);
        place = plus(place, minus(r.1, r.0));
        k = k + 1;
    }
    out
}

/// Cuts a project down to some ranges of a sequence: the sequence then shows
/// them one behind the other, from its start. A range reaches no further than
/// the sequence does.
pub fn restrict_to_ranges(project: &Project, sequence_id: Id, pieces: &Vec<(TimeUs, TimeUs)>) -> (r:
    Project)
    ensures
        r@ == restricted(project@, sequence_id, pieces@),
{
    let mut r: Project = project.duplicate();
    let i: usize = match find(&project.sequences, sequence_id) {
        Some(i) => i,
        None => {
            return r;
        },
    };
    let ghost s = project.sequences@[i as int]@;
    let ghost target = cut_down(s, pieces@);
    let length: TimeUs = project.sequences[i].duration_us();
    let mut tracks: Vec<Track> = Vec::new();
    let mut t: usize = 0;
    let ghost done = target.tracks;
    while t < project.sequences[i].tracks.len()
        invariant
            i < project.sequences.len(),
            s == project.sequences@[i as int]@,
            target == cut_down(s, pieces@),
            done == target.tracks,
            length == s.length(),
            t <= project.sequences@[i as int].tracks.len(),
            seqs::views(tracks@) == done.take(t as int),
        decreases project.sequences@[i as int].tracks.len() - t,
    {
        let one: &Track = &project.sequences[i].tracks[t];
        let mut x: Track = one.duplicate();
        x.clips = cut_track(&one.clips, pieces, length);
        let ghost sofar = tracks@;
        let ghost xv = x@;
        assert(s.tracks[t as int] == one@);
        assert(xv == done[t as int]);
        tracks.push(x);
        assert(seqs::views(tracks@) =~= seqs::views(sofar).push(xv));
        t = t + 1;
        assert(seqs::views(tracks@) =~= done.take(t as int));
    }
    let ghost before = r@;
    assert(before.sequences[i as int] == s);
    let mut x: Sequence = project.sequences[i].duplicate();
    x.tracks = tracks;
    assert(seqs::views(x.tracks@) =~= target.tracks);
    assert(x@ == target);
    let ghost rs = r.sequences@;
    assert(before.sequences.len() == r.sequences.len());
    r.sequences.set(i, x);
    assert(seqs::views(r.sequences@) =~= before.sequences.update(i as int, target));
    r
}

// ---- what the pieces show ----

/// How long some ranges are together.
pub open spec fn total(pieces: Seq<Piece>, n: nat, length: TimeUs) -> int
    decreases n,
{
    if n == 0 {
        0
    } else {
        let r = within(pieces[n - 1], length);
        total(pieces, (n - 1) as nat, length) + (r.1 - r.0)
    }
}

proof fn lemma_place(pieces: Seq<Piece>, n: nat, m: nat, length: TimeUs)
    requires
        n <= m <= pieces.len(),
        total(pieces, m, length) <= i64::MAX,
    ensures
        place_of(pieces, n, length) == total(pieces, n, length),
        0 <= total(pieces, n, length) <= total(pieces, m, length),
    decreases m,
{
    if m > n {
        lemma_place(pieces, n, (m - 1) as nat, length);
    } else if n > 0 {
        lemma_place(pieces, (n - 1) as nat, (n - 1) as nat, length);
    }
}

proof fn lemma_placed(c: ClipV, r: Piece, place: TimeUs)
    requires
        laws::lasting(c),
        meets(c, r),
        0 <= r.0 <= r.1,
        c.start >= 0,
        0 <= place,
        place + (r.1 - r.0) <= i64::MAX,
    ensures
        placed(c, r, place).start == place + time::max_time(c.start, r.0) - r.0,
        placed(c, r, place).finish() == place + time::min_time(c.finish(), r.1) - r.0,
        placed(c, r, place).id == c.id,
{
}

/// The clip that covers a time of a range covers it where the range is shown.
proof fn lemma_piece_shows(clips: Seq<ClipV>, r: Piece, place: TimeUs, t: TimeUs)
    requires
        forall|i: int|
            0 <= i < clips.len() ==> laws::lasting(#[trigger] clips[i]) && clips[i].start >= 0,
        0 <= r.0 <= t < r.1,
        0 <= place,
        place + (r.1 - r.0) <= i64::MAX,
    ensures
        ({
            let u = (place + t - r.0) as TimeUs;
            match edl::covering(clips, t) {
                Some(c) => edl::covering(piece_clips(clips, r, place), u) == Some(
                    placed(c, r, place),
                ) && meets(c, r),
                None => edl::covering(piece_clips(clips, r, place), u) is None,
            }
        }),
    decreases clips.len(),
{
    let u = (place + t - r.0) as TimeUs;
    if clips.len() > 0 {
        let front = clips.drop_last();
        let c = clips.last();
        assert forall|i: int| 0 <= i < front.len() implies laws::lasting(#[trigger] front[i])
            && front[i].start >= 0 by {
            assert(front[i] == clips[i]);
        }
        lemma_piece_shows(front, r, place, t);
        assert(laws::lasting(clips[clips.len() - 1]));
        assert(clips =~= front.push(c));
        lemma_covering_push(front, c, t);
        if meets(c, r) {
            lemma_placed(c, r, place);
            lemma_covering_push(piece_clips(front, r, place), placed(c, r, place), u);
        }
    }
}

proof fn lemma_covering_push(clips: Seq<ClipV>, c: ClipV, t: TimeUs)
    ensures
        edl::covering(clips.push(c), t) == match edl::covering(clips, t) {
            Some(x) => Some(x),
            None => if c.start <= t && t < c.finish() {
                Some(c)
            } else {
                None
            },
        },
    decreases clips.len(),
{
    let all = clips.push(c);
    if clips.len() == 0 {
        assert(all.drop_first() =~= Seq::<ClipV>::empty());
        assert(all[0] == c);
        assert(edl::covering(all.drop_first(), t) is None);
    } else {
        assert(all[0] == clips[0]);
        assert(all.drop_first() =~= clips.drop_first().push(c));
        lemma_covering_push(clips.drop_first(), c, t);
    }
}

proof fn lemma_covering_add(a: Seq<ClipV>, b: Seq<ClipV>, t: TimeUs)
    ensures
        edl::covering(a + b, t) == match edl::covering(a, t) {
            Some(x) => Some(x),
            None => edl::covering(b, t),
        },
    decreases b.len(),
{
    if b.len() == 0 {
        assert(a + b =~= a);
    } else {
        let front = b.drop_last();
        assert(a + b =~= (a + front).push(b.last()));
        assert(b =~= front.push(b.last()));
        lemma_covering_add(a, front, t);
        lemma_covering_push(a + front, b.last(), t);
        lemma_covering_push(front, b.last(), t);
    }
}

/// What a range shows stays inside its place.
proof fn lemma_piece_inside(clips: Seq<ClipV>, r: Piece, place: TimeUs, u: TimeUs)
    requires
        forall|i: int|
            0 <= i < clips.len() ==> laws::lasting(#[trigger] clips[i]) && clips[i].start >= 0,
        0 <= r.0 <= r.1,
        0 <= place,
        place + (r.1 - r.0) <= i64::MAX,
        u < place || u >= place + (r.1 - r.0),
    ensures
        edl::covering(piece_clips(clips, r, place), u) is None,
    decreases clips.len(),
{
    if clips.len() > 0 {
        let front = clips.drop_last();
        let c = clips.last();
        assert forall|i: int| 0 <= i < front.len() implies laws::lasting(#[trigger] front[i])
            && front[i].start >= 0 by {
            assert(front[i] == clips[i]);
        }
        lemma_piece_inside(front, r, place, u);
        assert(laws::lasting(clips[clips.len() - 1]));
        if meets(c, r) {
            lemma_placed(c, r, place);
            lemma_covering_push(piece_clips(front, r, place), placed(c, r, place), u);
        }
    }
}

/// The ranges are shown one behind the other: a time of a range shows the clip
/// that covers it, at the place of the range, and nothing where nothing covers
/// it.
pub proof fn law_pieces_are_shown(
    clips: Seq<ClipV>,
    pieces: Seq<Piece>,
    n: nat,
    k: int,
    t: TimeUs,
    length: TimeUs,
)
    requires
        forall|i: int|
            0 <= i < clips.len() ==> laws::lasting(#[trigger] clips[i]) && clips[i].start >= 0,
        0 <= k < n <= pieces.len(),
        within(pieces[k], length).0 <= t < within(pieces[k], length).1,
        total(pieces, n, length) <= i64::MAX,
    ensures
        ({
            let r = within(pieces[k], length);
            let place = total(pieces, k as nat, length) as TimeUs;
            let u = (place + t - r.0) as TimeUs;
            match edl::covering(clips, t) {
                Some(c) => {
                    let x = placed(c, r, place);
                    &&& edl::covering(pieces_clips(clips, pieces, n, length), u) == Some(x)
                    &&& x.id == c.id
                    &&& x.start == place + time::max_time(c.start, r.0) - r.0
                    &&& x.finish() == place + time::min_time(c.finish(), r.1) - r.0
                },
                None => edl::covering(pieces_clips(clips, pieces, n, length), u) is None,
            }
        }),
    decreases n,
{
    let m: nat = (n - 1) as nat;
    let r = within(pieces[k], length);
    lemma_place(pieces, k as nat, n, length);
    lemma_place(pieces, (k + 1) as nat, n, length);
    lemma_place(pieces, m, n, length);
    let place = total(pieces, k as nat, length) as TimeUs;
    let u = (place + t - r.0) as TimeUs;
    let last = within(pieces[m as int], length);
    let spot = place_of(pieces, m, length);
    lemma_covering_add(
        pieces_clips(clips, pieces, m, length),
        piece_clips(clips, last, spot),
        u,
    );
    if k < m {
        law_pieces_are_shown(clips, pieces, m, k, t, length);
        lemma_place(pieces, (k + 1) as nat, m, length);
        lemma_piece_inside(clips, last, spot, u);
    } else {
        lemma_nothing_behind(clips, pieces, m, u, length);
        lemma_piece_shows(clips, last, spot, t);
    }
    if let Some(c) = edl::covering(clips, t) {
        lemma_covering_found(clips, t);
        lemma_placed(c, r, place);
    }
}

proof fn lemma_covering_found(clips: Seq<ClipV>, t: TimeUs)
    requires
        edl::covering(clips, t) is Some,
    ensures
        clips.contains(edl::covering(clips, t)->Some_0),
        edl::covering(clips, t)->Some_0.start <= t < edl::covering(clips, t)->Some_0.finish(),
    decreases clips.len(),
{
    if clips[0].start <= t && t < clips[0].finish() {
        assert(clips.contains(clips[0]));
    } else {
        lemma_covering_found(clips.drop_first(), t);
        let c = edl::covering(clips, t)->Some_0;
        let j = choose|j: int| 0 <= j < clips.drop_first().len() && clips.drop_first()[j] == c;
        assert(clips[j + 1] == c);
    }
}

proof fn lemma_nothing_behind(
    clips: Seq<ClipV>,
    pieces: Seq<Piece>,
    n: nat,
    u: TimeUs,
    length: TimeUs,
)
    requires
        forall|i: int|
            0 <= i < clips.len() ==> laws::lasting(#[trigger] clips[i]) && clips[i].start >= 0,
        n <= pieces.len(),
        total(pieces, n, length) <= u,
    ensures
        edl::covering(pieces_clips(clips, pieces, n, length), u) is None,
    decreases n,
{
    if n > 0 {
        let m: nat = (n - 1) as nat;
        lemma_place(pieces, m, n, length);
        lemma_nothing_behind(clips, pieces, m, u, length);
        let last = within(pieces[m as int], length);
        let spot = place_of(pieces, m, length);
        lemma_piece_inside(clips, last, spot, u);
        lemma_covering_add(
            pieces_clips(clips, pieces, m, length),
            piece_clips(clips, last, spot),
            u,
        );
    }
}

/// All but the one sequence stays as it is.
pub proof fn law_other_sequences_stay(p: ProjectV, sequence_id: Id, pieces: Seq<Piece>, i: int)
    requires
        0 <= i < p.sequences.len(),
        i != seqs::pos(p.sequences, sequence_id),
    ensures
        restricted(p, sequence_id, pieces).sequences[i] == p.sequences[i],
        restricted(p, sequence_id, pieces).assets == p.assets,
        restricted(p, sequence_id, pieces).transcripts == p.transcripts,
{
}

} // verus!
