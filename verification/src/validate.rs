//! The invariants of a project, checked one by one.

use vstd::prelude::*;

use crate::float::Real;
use crate::ident::Id;
use crate::keyframe;
use crate::keyframe::{Keyframe, Param, ParamV};
use crate::laws;
use crate::model;
use crate::model::{Clip, ClipPayload, ClipV, EffectInstance, EffectV, MediaAsset, MediaKind, PayloadV, Project, ProjectV, Sequence, SequenceV, Track, TrackV, TranscriptV};
use crate::seqs;
use crate::seqs::holds_id;
use crate::text;
use crate::text::{copy_text, int_to_text};

verus! {

/// What a check finds: one text for each violation.
pub type Issues = Seq<Seq<char>>;

/// One finding where a condition holds, and none otherwise.
pub open spec fn when(cond: bool, issue: Seq<char>) -> Issues {
    if cond {
        seq![issue]
    } else {
        Seq::<Seq<char>>::empty()
    }
}

/// The identifiers of clips, as they are met.
pub open spec fn clip_ids(clips: Seq<ClipV>) -> Seq<(Id, Seq<char>)> {
    clips.map_values(|c: ClipV| (c.id, "clip"@))
}

/// The identifiers of tracks and their clips, as they are met.
pub open spec fn track_ids(tracks: Seq<TrackV>) -> Seq<(Id, Seq<char>)>
    decreases tracks.len(),
{
    if tracks.len() == 0 {
        Seq::<(Id, Seq<char>)>::empty()
    } else {
        track_ids(tracks.drop_last()) + (seq![(tracks.last().id, "track"@)] + clip_ids(
            tracks.last().clips,
        ))
    }
}

/// The identifiers of sequences, their tracks and clips, as they are met.
pub open spec fn sequence_ids(seqs: Seq<SequenceV>) -> Seq<(Id, Seq<char>)>
    decreases seqs.len(),
{
    if seqs.len() == 0 {
        Seq::<(Id, Seq<char>)>::empty()
    } else {
        sequence_ids(seqs.drop_last()) + (seq![(seqs.last().id, "sequence"@)] + track_ids(
            seqs.last().tracks,
        ))
    }
}

/// All identifiers of a project, as they are met.
pub open spec fn all_ids(p: ProjectV) -> Seq<(Id, Seq<char>)> {
    seq![(p.id, "project"@)] + p.assets.map_values(|a: MediaAsset| (a.id, "asset"@))
        + p.transcripts.map_values(|t: TranscriptV| (t.id, "transcript"@)) + sequence_ids(
        p.sequences,
    )
}

/// Whether an identifier is in a list.
pub open spec fn met(list: Seq<(Id, Seq<char>)>, id: Id) -> bool {
    exists|i: int| 0 <= i < list.len() && (#[trigger] list[i]).0 == id
}

/// One finding for each identifier that was met before.
pub open spec fn repeats(list: Seq<(Id, Seq<char>)>) -> Issues
    decreases list.len(),
{
    if list.len() == 0 {
        Seq::<Seq<char>>::empty()
    } else {
        let x = list.last();
        repeats(list.drop_last()) + when(
            met(list.drop_last(), x.0),
            "duplicate id in "@ + x.1 + ": "@ + x.0.text(),
        )
    }
}

/// The findings on the order of the clips up to the `n`-th.
pub open spec fn order_issues(t: TrackV, n: nat) -> Issues
    decreases n,
{
    if n < 2 {
        Seq::<Seq<char>>::empty()
    } else {
        let a = t.clips[n - 2];
        let b = t.clips[n - 1];
        order_issues(t, (n - 1) as nat) + when(
            a.start > b.start,
            "track "@ + t.name + ": clips out of order"@,
        ) + when(
            a.finish() > b.start,
            "track "@ + t.name + ": overlap between "@ + a.id.text() + " and "@ + b.id.text(),
        )
    }
}

/// The findings on the keys of a curve up to the `n`-th.
pub open spec fn key_issues(keys: Seq<Keyframe>, n: nat, id: Id, what: Seq<char>) -> Issues
    decreases n,
{
    if n < 2 {
        Seq::<Seq<char>>::empty()
    } else {
        key_issues(keys, (n - 1) as nat, id, what) + when(
            keys[n - 2].t >= keys[n - 1].t,
            "clip "@ + id.text() + ": non-increasing keys in "@ + what,
        )
    }
}

/// The findings on a parameter.
pub open spec fn param_issues(p: ParamV, id: Id, what: Seq<char>) -> Issues {
    match p {
        ParamV::Const(v) => Seq::<Seq<char>>::empty(),
        ParamV::Curve(keys) => when(
            keys.len() == 0,
            "clip "@ + id.text() + ": empty curve in "@ + what,
        ) + key_issues(keys, keys.len(), id, what),
    }
}

/// The findings on the first `n` parameters of an effect.
pub open spec fn effect_issues(e: EffectV, n: nat, id: Id) -> Issues
    decreases n,
{
    if n == 0 {
        Seq::<Seq<char>>::empty()
    } else {
        let x = e.params[n - 1];
        effect_issues(e, (n - 1) as nat, id) + param_issues(
            x.1,
            id,
            "effect "@ + e.effect_id + "."@ + x.0,
        )
    }
}

/// The findings on the first `n` effects of a clip.
pub open spec fn effects_issues(c: ClipV, n: nat) -> Issues
    decreases n,
{
    if n == 0 {
        Seq::<Seq<char>>::empty()
    } else {
        let e = c.effects[n - 1];
        effects_issues(c, (n - 1) as nat) + effect_issues(e, e.params.len(), c.id)
    }
}

/// The findings on the source range of a clip. A still holds for any length:
/// its range is not bounded by its file.
pub open spec fn source_issues(p: ProjectV, c: ClipV) -> Issues {
    match c.payload {
        PayloadV::Media { asset_id, src_in, src_out } => when(
            src_in >= src_out,
            "clip "@ + c.id.text() + ": src_in >= src_out"@,
        ) + when(src_in < 0, "clip "@ + c.id.text() + ": src_in < 0"@) + match model::asset_of(
            p,
            asset_id,
        ) {
            None => seq![
                "clip "@ + c.id.text() + ": asset "@ + asset_id.text() + " does not exist"@,
            ],
            Some(a) => when(
                a.kind != MediaKind::Image && src_out > a.probe.duration_us && a.probe.duration_us
                    > 0,
                "clip "@ + c.id.text() + ": src_out "@ + text::int_text(src_out as int)
                    + " > asset duration "@ + text::int_text(a.probe.duration_us as int),
            ),
        },
        _ => Seq::<Seq<char>>::empty(),
    }
}

/// The findings on a clip.
pub open spec fn clip_issues(p: ProjectV, c: ClipV) -> Issues {
    when(c.duration <= 0, "clip "@ + c.id.text() + ": duration <= 0"@) + when(
        c.speed.at_most(Real::of(0)),
        "clip "@ + c.id.text() + ": speed <= 0"@,
    ) + source_issues(p, c) + param_issues(c.transform.opacity, c.id, "opacity"@) + param_issues(
        c.transform.rotation,
        c.id,
        "rotation"@,
    ) + param_issues(c.transform.position.0, c.id, "position.x"@) + param_issues(
        c.transform.position.1,
        c.id,
        "position.y"@,
    ) + param_issues(c.transform.scale.0, c.id, "scale.x"@) + param_issues(
        c.transform.scale.1,
        c.id,
        "scale.y"@,
    ) + param_issues(c.audio.gain_db, c.id, "gain_db"@) + param_issues(c.audio.pan, c.id, "pan"@)
        + effects_issues(c, c.effects.len())
}

/// The findings on the first `n` clips of a track.
pub open spec fn clips_issues(p: ProjectV, t: TrackV, n: nat) -> Issues
    decreases n,
{
    if n == 0 {
        Seq::<Seq<char>>::empty()
    } else {
        clips_issues(p, t, (n - 1) as nat) + clip_issues(p, t.clips[n - 1])
    }
}

/// The findings on the first `n` tracks of a sequence.
pub open spec fn tracks_issues(p: ProjectV, s: SequenceV, n: nat) -> Issues
    decreases n,
{
    if n == 0 {
        Seq::<Seq<char>>::empty()
    } else {
        let t = s.tracks[n - 1];
        tracks_issues(p, s, (n - 1) as nat) + order_issues(t, t.clips.len()) + clips_issues(
            p,
            t,
            t.clips.len(),
        )
    }
}

/// The findings on the first `n` sequences of a project.
pub open spec fn sequences_issues(p: ProjectV, n: nat) -> Issues
    decreases n,
{
    if n == 0 {
        Seq::<Seq<char>>::empty()
    } else {
        let s = p.sequences[n - 1];
        sequences_issues(p, (n - 1) as nat) + when(
            s.fps.0 == 0 || s.fps.1 == 0,
            "sequence "@ + s.name + ": invalid fps"@,
        ) + tracks_issues(p, s, s.tracks.len())
    }
}

/// All findings on a project.
pub open spec fn issues_of(p: ProjectV) -> Issues {
    repeats(all_ids(p)) + when(
        !seqs::holds(p.sequences, p.active_sequence),
        "active_sequence does not exist"@,
    ) + sequences_issues(p, p.sequences.len())
}

/// Notes an issue where a condition holds.
fn note(out: &mut Vec<String>, cond: bool, issue: String)
    ensures
        text::texts(final(out)@) == text::texts(old(out)@) + when(cond, issue@),
{
    let ghost before = out@;
    let ghost iv = issue@;
    if cond {
        out.push(issue);
        assert(text::texts(out@) =~= text::texts(before) + when(cond, iv));
    } else {
        assert(text::texts(out@) =~= text::texts(before) + when(cond, iv));
    }
}

/// `clip <id><rest>`.
fn clip_text(id: Id, rest: &str) -> (s: String)
    ensures
        s@ == "clip "@ + id.text() + rest@,
{
    let mut s: String = copy_text("clip ");
    let t: String = id.to_text();
    s.append(t.as_str());
    s.append(rest);
    s
}

/// Notes an identifier, with an issue where it was met before.
fn meet(
    seen: &mut Vec<Id>,
    id: Id,
    what: &str,
    out: &mut Vec<String>,
    Ghost(list): Ghost<Seq<(Id, Seq<char>)>>,
)
    requires
        old(seen)@ == list.map_values(|x: (Id, Seq<char>)| x.0),
        text::texts(old(out)@) == repeats(list),
    ensures
        final(seen)@ == list.push((id, what@)).map_values(|x: (Id, Seq<char>)| x.0),
        text::texts(final(out)@) == repeats(list.push((id, what@))),
{
    let dup: bool = holds_id(seen, id);
    proof {
        assert(dup == met(list, id)) by {
            if met(list, id) {
                let i = choose|i: int| 0 <= i < list.len() && (#[trigger] list[i]).0 == id;
                assert(seen@[i] == id);
            }
            if seen@.contains(id) {
                let i = choose|i: int| 0 <= i < seen@.len() && seen@[i] == id;
                assert(list[i].0 == id);
            }
        }
        let next = list.push((id, what@));
        assert(next.drop_last() =~= list);
        assert(next.last() == (id, what@));
    }
    let mut s: String = copy_text("duplicate id in ");
    s.append(what);
    s.append(": ");
    let t: String = id.to_text();
    s.append(t.as_str());
    note(out, dup, s);
    let ghost before = seen@;
    seen.push(id);
    assert(seen@ =~= list.push((id, what@)).map_values(|x: (Id, Seq<char>)| x.0));
}

fn check_ids(project: &Project, out: &mut Vec<String>)
    requires
        old(out)@.len() == 0,
    ensures
        text::texts(final(out)@) == repeats(all_ids(project@)),
{
    let mut seen: Vec<Id> = Vec::new();
    let ghost mut list: Seq<(Id, Seq<char>)> = Seq::empty();
    assert(seen@ =~= list.map_values(|x: (Id, Seq<char>)| x.0));
    assert(text::texts(out@) =~= repeats(list));
    meet(&mut seen, project.id, "project", out, Ghost(list));
    proof {
        list = list.push((project.id, "project"@));
    }
    let ghost base = list;
    let ghost assets = project@.assets.map_values(|a: MediaAsset| (a.id, "asset"@));
    let mut i: usize = 0;
    assert(list =~= base + assets.take(0));
    while i < project.assets.len()
        invariant
            i <= project.assets.len(),
            assets == project@.assets.map_values(|a: MediaAsset| (a.id, "asset"@)),
            list == base + assets.take(i as int),
            seen@ == list.map_values(|x: (Id, Seq<char>)| x.0),
            text::texts(out@) == repeats(list),
        decreases project.assets.len() - i,
    {
        let id: Id = project.assets[i].id;
        meet(&mut seen, id, "asset", out, Ghost(list));
        proof {
            list = list.push((id, "asset"@));
            assert(assets[i as int] == (id, "asset"@));
            assert(list =~= base + assets.take(i as int + 1));
        }
        i = i + 1;
    }
    assert(assets.take(assets.len() as int) =~= assets);
    let ghost base = list;
    let ghost docs = project@.transcripts.map_values(|t: TranscriptV| (t.id, "transcript"@));
    let mut i: usize = 0;
    assert(list =~= base + docs.take(0));
    while i < project.transcripts.len()
        invariant
            i <= project.transcripts.len(),
            docs == project@.transcripts.map_values(|t: TranscriptV| (t.id, "transcript"@)),
            list == base + docs.take(i as int),
            seen@ == list.map_values(|x: (Id, Seq<char>)| x.0),
            text::texts(out@) == repeats(list),
        decreases project.transcripts.len() - i,
    {
        let id: Id = project.transcripts[i].id;
        meet(&mut seen, id, "transcript", out, Ghost(list));
        proof {
            list = list.push((id, "transcript"@));
            assert(docs[i as int] == (id, "transcript"@));
            assert(list =~= base + docs.take(i as int + 1));
        }
        i = i + 1;
    }
    assert(docs.take(docs.len() as int) =~= docs);
    let ghost base = list;
    let ghost seqs = project@.sequences;
    let mut i: usize = 0;
    assert(list =~= base + sequence_ids(seqs.take(0)));
    while i < project.sequences.len()
        invariant
            i <= project.sequences.len(),
            seqs == project@.sequences,
            list == base + sequence_ids(seqs.take(i as int)),
            seen@ == list.map_values(|x: (Id, Seq<char>)| x.0),
            text::texts(out@) == repeats(list),
        decreases project.sequences.len() - i,
    {
        let s: &Sequence = &project.sequences[i];
        let ghost head = sequence_ids(seqs.take(i as int));
        proof {
            let t = seqs.take(i as int + 1);
            assert(t.drop_last() =~= seqs.take(i as int));
            assert(t.last() == s@);
        }
        meet(&mut seen, s.id, "sequence", out, Ghost(list));
        proof {
            list = list.push((s.id, "sequence"@));
        }
        let ghost own = seq![(s.id, "sequence"@)];
        let ghost before = base + head + own;
        assert(list =~= before);
        let mut j: usize = 0;
        assert(list =~= before + track_ids(s@.tracks.take(0)));
        while j < s.tracks.len()
            invariant
                j <= s.tracks.len(),
                list == before + track_ids(s@.tracks.take(j as int)),
                seen@ == list.map_values(|x: (Id, Seq<char>)| x.0),
                text::texts(out@) == repeats(list),
            decreases s.tracks.len() - j,
        {
            let tr: &Track = &s.tracks[j];
            let ghost thead = track_ids(s@.tracks.take(j as int));
            proof {
                let t = s@.tracks.take(j as int + 1);
                assert(t.drop_last() =~= s@.tracks.take(j as int));
                assert(t.last() == tr@);
            }
            meet(&mut seen, tr.id, "track", out, Ghost(list));
            proof {
                list = list.push((tr.id, "track"@));
            }
            let ghost tbefore = before + thead + seq![(tr.id, "track"@)];
            let ghost cids = clip_ids(tr@.clips);
            assert(list =~= tbefore + cids.take(0));
            let mut k: usize = 0;
            while k < tr.clips.len()
                invariant
                    k <= tr.clips.len(),
                    cids == clip_ids(tr@.clips),
                    list == tbefore + cids.take(k as int),
                    seen@ == list.map_values(|x: (Id, Seq<char>)| x.0),
                    text::texts(out@) == repeats(list),
                decreases tr.clips.len() - k,
            {
                let id: Id = tr.clips[k].id;
                meet(&mut seen, id, "clip", out, Ghost(list));
                proof {
                    list = list.push((id, "clip"@));
                    assert(cids[k as int] == (id, "clip"@));
                    assert(list =~= tbefore + cids.take(k as int + 1));
                }
                k = k + 1;
            }
            proof {
                assert(cids.take(cids.len() as int) =~= cids);
                assert(list =~= before + track_ids(s@.tracks.take(j as int + 1)));
            }
            j = j + 1;
        }
        proof {
            assert(s@.tracks.take(s@.tracks.len() as int) =~= s@.tracks);
            assert(list =~= base + sequence_ids(seqs.take(i as int + 1)));
        }
        i = i + 1;
    }
    assert(seqs.take(seqs.len() as int) =~= seqs);
    assert(list =~= all_ids(project@));
}

fn check_order(t: &Track, out: &mut Vec<String>)
    ensures
        text::texts(final(out)@) == text::texts(old(out)@) + order_issues(t@, t@.clips.len()),
{
    let mut n: usize = 1;
    let ghost base = text::texts(out@);
    assert(base + order_issues(t@, 1) =~= base);
    assert(base + order_issues(t@, 0) =~= base);
    while n < t.clips.len()
        invariant
            1 <= n,
            n == 1 || n <= t.clips.len(),
            text::texts(out@) == base + order_issues(t@, n as nat),
        decreases t.clips.len() - n,
    {
        let a: &Clip = &t.clips[n - 1];
        let b: &Clip = &t.clips[n];
        assert(t@.clips[n - 1] == a@ && t@.clips[n as int] == b@);
        let mut s: String = copy_text("track ");
        s.append(t.name.as_str());
        s.append(": clips out of order");
        note(out, a.start > b.start, s);
        let mut o: String = copy_text("track ");
        o.append(t.name.as_str());
        o.append(": overlap between ");
        let x: String = a.id.to_text();
        o.append(x.as_str());
        o.append(" and ");
        let y: String = b.id.to_text();
        o.append(y.as_str());
        note(out, a.end() > b.start, o);
        assert(text::texts(out@) =~= base + order_issues(t@, (n + 1) as nat));
        n = n + 1;
    }
    assert(t@.clips.len() == t.clips.len());
    assert(order_issues(t@, t@.clips.len()) =~= order_issues(t@, n as nat));
}

fn check_param(p: &Param, id: Id, what: &str, out: &mut Vec<String>)
    ensures
        text::texts(final(out)@) == text::texts(old(out)@) + param_issues(p@, id, what@),
{
    let ghost base = text::texts(out@);
    match p {
        Param::Const(v) => {
            assert(base + param_issues(p@, id, what@) =~= base);
        },
        Param::Curve(c) => {
            let mut e: String = clip_text(id, ": empty curve in ");
            e.append(what);
            note(out, c.keys.len() == 0, e);
            let ghost mid = text::texts(out@);
            let ghost keys = c.keys@;
            let mut n: usize = 1;
            assert(mid + key_issues(keys, 1, id, what@) =~= mid);
            while n < c.keys.len()
                invariant
                    1 <= n,
                    n == 1 || n <= c.keys.len(),
                    keys == c.keys@,
                    text::texts(out@) == mid + key_issues(keys, n as nat, id, what@),
                decreases c.keys.len() - n,
            {
                let mut s: String = clip_text(id, ": non-increasing keys in ");
                s.append(what);
                note(out, c.keys[n - 1].t >= c.keys[n].t, s);
                assert(text::texts(out@) =~= mid + key_issues(keys, (n + 1) as nat, id, what@));
                n = n + 1;
            }
            assert(key_issues(keys, keys.len(), id, what@) =~= key_issues(
                keys,
                n as nat,
                id,
                what@,
            ));
            assert(text::texts(out@) =~= base + param_issues(p@, id, what@));
        },
    }
}

fn check_effects(c: &Clip, out: &mut Vec<String>)
    ensures
        text::texts(final(out)@) == text::texts(old(out)@) + effects_issues(c@, c@.effects.len()),
{
    let ghost base = text::texts(out@);
    let mut i: usize = 0;
    assert(base + effects_issues(c@, 0) =~= base);
    while i < c.effects.len()
        invariant
            i <= c.effects.len(),
            text::texts(out@) == base + effects_issues(c@, i as nat),
        decreases c.effects.len() - i,
    {
        let e: &EffectInstance = &c.effects[i];
        assert(c@.effects[i as int] == e@);
        let ghost mid = text::texts(out@);
        let mut j: usize = 0;
        assert(mid + effect_issues(e@, 0, c.id) =~= mid);
        while j < e.params.entries.len()
            invariant
                j <= e.params.entries.len(),
                text::texts(out@) == mid + effect_issues(e@, j as nat, c.id),
            decreases e.params.entries.len() - j,
        {
            let mut what: String = copy_text("effect ");
            what.append(e.effect_id.as_str());
            what.append(".");
            what.append(e.params.entries[j].0.as_str());
            assert(e@.params[j as int] == (
                e.params.entries@[j as int].0@,
                e.params.entries@[j as int].1@,
            ));
            check_param(&e.params.entries[j].1, c.id, what.as_str(), out);
            assert(text::texts(out@) =~= mid + effect_issues(e@, (j + 1) as nat, c.id));
            j = j + 1;
        }
        assert(e@.params.len() == e.params.entries.len());
        assert(text::texts(out@) =~= base + effects_issues(c@, (i + 1) as nat));
        i = i + 1;
    }
    assert(c@.effects.len() == c.effects.len());
}

fn check_source(project: &Project, c: &Clip, out: &mut Vec<String>)
    ensures
        text::texts(final(out)@) == text::texts(old(out)@) + source_issues(project@, c@),
{
    let ghost base = text::texts(out@);
    match &c.payload {
        ClipPayload::Media { asset_id, src_in, src_out } => {
            note(out, *src_in >= *src_out, clip_text(c.id, ": src_in >= src_out"));
            note(out, *src_in < 0, clip_text(c.id, ": src_in < 0"));
            let ghost mid = text::texts(out@);
            match project.asset(*asset_id) {
                None => {
                    let mut s: String = clip_text(c.id, ": asset ");
                    let a: String = asset_id.to_text();
                    s.append(a.as_str());
                    s.append(" does not exist");
                    note(out, true, s);
                },
                Some(a) => {
                    let mut s: String = clip_text(c.id, ": src_out ");
                    let x: String = int_to_text(*src_out);
                    s.append(x.as_str());
                    s.append(" > asset duration ");
                    let y: String = int_to_text(a.probe.duration_us);
                    s.append(y.as_str());
                    note(
                        out,
                        a.kind != MediaKind::Image && *src_out > a.probe.duration_us
                            && a.probe.duration_us > 0,
                        s,
                    );
                },
            }
            assert(text::texts(out@) =~= base + source_issues(project@, c@));
        },
        _ => {
            assert(base + source_issues(project@, c@) =~= base);
        },
    }
}

fn check_clip(project: &Project, c: &Clip, out: &mut Vec<String>)
    ensures
        text::texts(final(out)@) == text::texts(old(out)@) + clip_issues(project@, c@),
{
    let ghost base = text::texts(out@);
    let ghost mut found: Issues = Seq::empty();
    assert(base + found =~= base);
    note(out, c.duration <= 0, clip_text(c.id, ": duration <= 0"));
    proof {
        found = when(c.duration <= 0, "clip "@ + c.id.text() + ": duration <= 0"@);
    }
    note(out, c.speed.le(Real::from_int(0)), clip_text(c.id, ": speed <= 0"));
    proof {
        lemma_joined(base, found, when(c.speed.at_most(Real::of(0)), "clip "@ + c.id.text() + ": speed <= 0"@));
        found = found + when(c.speed.at_most(Real::of(0)), "clip "@ + c.id.text() + ": speed <= 0"@);
    }
    check_source(project, c, out);
    proof {
        lemma_joined(base, found, source_issues(project@, c@));
        found = found + source_issues(project@, c@);
    }
    check_param(&c.transform.opacity, c.id, "opacity", out);
    proof {
        lemma_joined(base, found, param_issues(c@.transform.opacity, c.id, "opacity"@));
        found = found + param_issues(c@.transform.opacity, c.id, "opacity"@);
    }
    check_param(&c.transform.rotation, c.id, "rotation", out);
    proof {
        lemma_joined(base, found, param_issues(c@.transform.rotation, c.id, "rotation"@));
        found = found + param_issues(c@.transform.rotation, c.id, "rotation"@);
    }
    check_param(&c.transform.position.0, c.id, "position.x", out);
    proof {
        lemma_joined(base, found, param_issues(c@.transform.position.0, c.id, "position.x"@));
        found = found + param_issues(c@.transform.position.0, c.id, "position.x"@);
    }
    check_param(&c.transform.position.1, c.id, "position.y", out);
    proof {
        lemma_joined(base, found, param_issues(c@.transform.position.1, c.id, "position.y"@));
        found = found + param_issues(c@.transform.position.1, c.id, "position.y"@);
    }
    check_param(&c.transform.scale.0, c.id, "scale.x", out);
    proof {
        lemma_joined(base, found, param_issues(c@.transform.scale.0, c.id, "scale.x"@));
        found = found + param_issues(c@.transform.scale.0, c.id, "scale.x"@);
    }
    check_param(&c.transform.scale.1, c.id, "scale.y", out);
    proof {
        lemma_joined(base, found, param_issues(c@.transform.scale.1, c.id, "scale.y"@));
        found = found + param_issues(c@.transform.scale.1, c.id, "scale.y"@);
    }
    check_param(&c.audio.gain_db, c.id, "gain_db", out);
    proof {
        lemma_joined(base, found, param_issues(c@.audio.gain_db, c.id, "gain_db"@));
        found = found + param_issues(c@.audio.gain_db, c.id, "gain_db"@);
    }
    check_param(&c.audio.pan, c.id, "pan", out);
    proof {
        lemma_joined(base, found, param_issues(c@.audio.pan, c.id, "pan"@));
        found = found + param_issues(c@.audio.pan, c.id, "pan"@);
    }
    check_effects(c, out);
    proof {
        lemma_joined(base, found, effects_issues(c@, c@.effects.len()));
        found = found + effects_issues(c@, c@.effects.len());
    }
}

/// Issues may be gathered before they are put behind others.
proof fn lemma_joined(a: Issues, b: Issues, c: Issues)
    ensures
        a + b + c == a + (b + c),
{
    assert(a + b + c =~= a + (b + c));
}

fn check_track(project: &Project, t: &Track, out: &mut Vec<String>)
    ensures
        text::texts(final(out)@) == text::texts(old(out)@) + order_issues(t@, t@.clips.len()) + clips_issues(
            project@,
            t@,
            t@.clips.len(),
        ),
{
    check_order(t, out);
    let ghost base = text::texts(out@);
    let mut i: usize = 0;
    assert(base + clips_issues(project@, t@, 0) =~= base);
    while i < t.clips.len()
        invariant
            i <= t.clips.len(),
            text::texts(out@) == base + clips_issues(project@, t@, i as nat),
        decreases t.clips.len() - i,
    {
        assert(t@.clips[i as int] == t.clips@[i as int]@);
        check_clip(project, &t.clips[i], out);
        assert(text::texts(out@) =~= base + clips_issues(project@, t@, (i + 1) as nat));
        i = i + 1;
    }
}

/// Checks the invariants of a project: one text for each violation, and none
/// for a valid project.
pub fn validate(project: &Project) -> (issues: Vec<String>)
    ensures
        text::texts(issues@) == issues_of(project@),
{
    let mut out: Vec<String> = Vec::new();
    check_ids(project, &mut out);
    note(
        &mut out,
        project.sequence(project.active_sequence).is_none(),
        copy_text("active_sequence does not exist"),
    );
    let ghost base = text::texts(out@);
    let mut i: usize = 0;
    assert(base + sequences_issues(project@, 0) =~= base);
    while i < project.sequences.len()
        invariant
            i <= project.sequences.len(),
            text::texts(out@) == base + sequences_issues(project@, i as nat),
        decreases project.sequences.len() - i,
    {
        let s: &Sequence = &project.sequences[i];
        assert(project@.sequences[i as int] == s@);
        let mut f: String = copy_text("sequence ");
        f.append(s.name.as_str());
        f.append(": invalid fps");
        note(&mut out, s.fps.0 == 0 || s.fps.1 == 0, f);
        let ghost mid = text::texts(out@);
        let mut j: usize = 0;
        assert(mid + tracks_issues(project@, s@, 0) =~= mid);
        while j < s.tracks.len()
            invariant
                j <= s.tracks.len(),
                text::texts(out@) == mid + tracks_issues(project@, s@, j as nat),
            decreases s.tracks.len() - j,
        {
            assert(s@.tracks[j as int] == s.tracks@[j as int]@);
            check_track(project, &s.tracks[j], &mut out);
            assert(text::texts(out@) =~= mid + tracks_issues(project@, s@, (j + 1) as nat));
            j = j + 1;
        }
        assert(text::texts(out@) =~= base + sequences_issues(project@, (i + 1) as nat));
        i = i + 1;
    }
    out
}

// ---- when nothing is found ----

/// Whether identifiers are all different.
pub open spec fn all_different(list: Seq<(Id, Seq<char>)>) -> bool {
    forall|i: int, j: int|
        0 <= i < j < list.len() ==> (#[trigger] list[i]).0 != (#[trigger] list[j]).0
}

/// Whether each clip starts no earlier than those before it start and end.
pub open spec fn well_placed(clips: Seq<ClipV>) -> bool {
    forall|i: int, j: int|
        0 <= i < j < clips.len() ==> (#[trigger] clips[i]).start <= (#[trigger] clips[j]).start
            && clips[i].finish() <= clips[j].start
}

/// Whether a parameter is constant, or has keys that follow each other.
pub open spec fn valid_param(p: ParamV) -> bool {
    match p {
        ParamV::Const(v) => true,
        ParamV::Curve(keys) => keys.len() > 0 && keyframe::increasing(keys),
    }
}

/// Whether a clip shows a range of material that exists.
pub open spec fn valid_source(p: ProjectV, c: ClipV) -> bool {
    match c.payload {
        PayloadV::Media { asset_id, src_in, src_out } => {
            &&& 0 <= src_in < src_out
            &&& match model::asset_of(p, asset_id) {
                None => false,
                Some(a) => a.kind == MediaKind::Image || src_out <= a.probe.duration_us
                    || a.probe.duration_us <= 0,
            }
        },
        _ => true,
    }
}

/// Whether a clip takes up time, and its material and parameters are in order.
pub open spec fn valid_clip(p: ProjectV, c: ClipV) -> bool {
    &&& c.duration > 0
    &&& !c.speed.at_most(Real::of(0))
    &&& valid_source(p, c)
    &&& valid_param(c.transform.opacity)
    &&& valid_param(c.transform.rotation)
    &&& valid_param(c.transform.position.0)
    &&& valid_param(c.transform.position.1)
    &&& valid_param(c.transform.scale.0)
    &&& valid_param(c.transform.scale.1)
    &&& valid_param(c.audio.gain_db)
    &&& valid_param(c.audio.pan)
    &&& forall|e: int, i: int|
        0 <= e < c.effects.len() && 0 <= i < c.effects[e].params.len() ==> valid_param(
            (#[trigger] c.effects[e].params[i]).1,
        )
}

/// Whether the clips of a track are well placed and valid.
pub open spec fn valid_track(p: ProjectV, t: TrackV) -> bool {
    well_placed(t.clips) && forall|i: int|
        0 <= i < t.clips.len() ==> valid_clip(p, #[trigger] t.clips[i])
}

/// Whether a sequence has a frame rate and valid tracks.
pub open spec fn valid_sequence(p: ProjectV, s: SequenceV) -> bool {
    s.fps.0 != 0 && s.fps.1 != 0 && forall|i: int|
        0 <= i < s.tracks.len() ==> valid_track(p, #[trigger] s.tracks[i])
}

/// Whether the invariants of a project hold.
pub open spec fn valid(p: ProjectV) -> bool {
    &&& all_different(all_ids(p))
    &&& seqs::holds(p.sequences, p.active_sequence)
    &&& forall|i: int| 0 <= i < p.sequences.len() ==> valid_sequence(p, #[trigger] p.sequences[i])
}

proof fn lemma_repeats(list: Seq<(Id, Seq<char>)>)
    ensures
        repeats(list).len() == 0 <==> all_different(list),
    decreases list.len(),
{
    if list.len() > 0 {
        let rest = list.drop_last();
        let n = rest.len() as int;
        lemma_repeats(rest);
        if all_different(list) {
            assert forall|i: int, j: int| 0 <= i < j < rest.len() implies (#[trigger] rest[i]).0
                != (#[trigger] rest[j]).0 by {
                assert(rest[i] == list[i] && rest[j] == list[j]);
            }
            if met(rest, list.last().0) {
                let i = choose|i: int| 0 <= i < rest.len() && (#[trigger] rest[i]).0 == list.last().0;
                assert(list[i].0 != list[n].0);
            }
        } else if all_different(rest) {
            let (i, j) = choose|i: int, j: int|
                0 <= i < j < list.len() && (#[trigger] list[i]).0 == (#[trigger] list[j]).0;
            assert(rest[i] == list[i]);
            if j < n {
                assert(rest[j] == list[j]);
            }
            assert(met(rest, list.last().0));
        }
    }
}

proof fn lemma_order(t: TrackV, n: nat)
    requires
        n <= t.clips.len(),
    ensures
        order_issues(t, n).len() == 0 <==> well_placed(t.clips.take(n as int)),
    decreases n,
{
    let x = t.clips.take(n as int);
    if n >= 2 {
        let y = t.clips.take(n - 1);
        lemma_order(t, (n - 1) as nat);
        assert forall|i: int| 0 <= i < n - 1 implies #[trigger] y[i] == x[i] by {}
        let a = x[n - 2];
        let b = x[n - 1];
        if order_issues(t, n).len() == 0 {
            assert forall|i: int, j: int| 0 <= i < j < x.len() implies (#[trigger] x[i]).start <= (
            #[trigger] x[j]).start && x[i].finish() <= x[j].start by {
                assert(y[i] == x[i]);
                if j < n - 1 {
                    assert(y[j] == x[j]);
                } else if i < n - 2 {
                    assert(y[n - 2] == a);
                }
            }
        } else if well_placed(x) {
            assert forall|i: int, j: int| 0 <= i < j < y.len() implies (#[trigger] y[i]).start <= (
            #[trigger] y[j]).start && y[i].finish() <= y[j].start by {
                assert(x[i] == y[i] && x[j] == y[j]);
            }
            assert(x[n - 2].start <= x[n - 1].start && x[n - 2].finish() <= x[n - 1].start);
        }
    }
}

proof fn lemma_keys(keys: Seq<Keyframe>, n: nat, id: Id, what: Seq<char>)
    requires
        n <= keys.len(),
    ensures
        key_issues(keys, n, id, what).len() == 0 <==> keyframe::increasing(keys.take(n as int)),
    decreases n,
{
    let x = keys.take(n as int);
    if n >= 2 {
        let y = keys.take(n - 1);
        lemma_keys(keys, (n - 1) as nat, id, what);
        assert forall|i: int| 0 <= i < n - 1 implies #[trigger] y[i] == x[i] by {}
        if key_issues(keys, n, id, what).len() == 0 {
            assert forall|i: int, j: int| 0 <= i < j < x.len() implies x[i].t < x[j].t by {
                assert(y[i] == x[i]);
                if j < n - 1 {
                    assert(y[j] == x[j]);
                } else if i < n - 2 {
                    assert(y[n - 2] == x[n - 2]);
                    assert(y[i].t < y[n - 2].t);
                }
            }
        } else if keyframe::increasing(x) {
            assert forall|i: int, j: int| 0 <= i < j < y.len() implies y[i].t < y[j].t by {
                assert(x[i] == y[i] && x[j] == y[j]);
            }
            assert(x[n - 2].t < x[n - 1].t);
        }
    }
}

proof fn lemma_param(p: ParamV, id: Id, what: Seq<char>)
    ensures
        param_issues(p, id, what).len() == 0 <==> valid_param(p),
{
    if let ParamV::Curve(keys) = p {
        lemma_keys(keys, keys.len(), id, what);
        assert(keys.take(keys.len() as int) =~= keys);
    }
}

proof fn lemma_effect(e: EffectV, n: nat, id: Id)
    requires
        n <= e.params.len(),
    ensures
        effect_issues(e, n, id).len() == 0 <==> forall|i: int|
            0 <= i < n ==> valid_param((#[trigger] e.params[i]).1),
    decreases n,
{
    if n > 0 {
        lemma_effect(e, (n - 1) as nat, id);
        let x = e.params[n - 1];
        lemma_param(x.1, id, "effect "@ + e.effect_id + "."@ + x.0);
    }
}

proof fn lemma_effects(c: ClipV, n: nat)
    requires
        n <= c.effects.len(),
    ensures
        effects_issues(c, n).len() == 0 <==> forall|e: int, i: int|
            0 <= e < n && 0 <= i < c.effects[e].params.len() ==> valid_param(
                (#[trigger] c.effects[e].params[i]).1,
            ),
    decreases n,
{
    if n > 0 {
        lemma_effects(c, (n - 1) as nat);
        let e = c.effects[n - 1];
        lemma_effect(e, e.params.len(), c.id);
        if effects_issues(c, n).len() != 0 && effects_issues(c, (n - 1) as nat).len() == 0 {
            let i = choose|i: int|
                0 <= i < e.params.len() && !valid_param((#[trigger] e.params[i]).1);
            assert(!valid_param(c.effects[n - 1].params[i].1));
        }
    }
}

proof fn lemma_clip(p: ProjectV, c: ClipV)
    ensures
        clip_issues(p, c).len() == 0 <==> valid_clip(p, c),
{
    lemma_param(c.transform.opacity, c.id, "opacity"@);
    lemma_param(c.transform.rotation, c.id, "rotation"@);
    lemma_param(c.transform.position.0, c.id, "position.x"@);
    lemma_param(c.transform.position.1, c.id, "position.y"@);
    lemma_param(c.transform.scale.0, c.id, "scale.x"@);
    lemma_param(c.transform.scale.1, c.id, "scale.y"@);
    lemma_param(c.audio.gain_db, c.id, "gain_db"@);
    lemma_param(c.audio.pan, c.id, "pan"@);
    lemma_effects(c, c.effects.len());
}

proof fn lemma_clips(p: ProjectV, t: TrackV, n: nat)
    requires
        n <= t.clips.len(),
    ensures
        clips_issues(p, t, n).len() == 0 <==> forall|i: int|
            0 <= i < n ==> valid_clip(p, #[trigger] t.clips[i]),
    decreases n,
{
    if n > 0 {
        lemma_clips(p, t, (n - 1) as nat);
        lemma_clip(p, t.clips[n - 1]);
    }
}

proof fn lemma_tracks(p: ProjectV, s: SequenceV, n: nat)
    requires
        n <= s.tracks.len(),
    ensures
        tracks_issues(p, s, n).len() == 0 <==> forall|i: int|
            0 <= i < n ==> valid_track(p, #[trigger] s.tracks[i]),
    decreases n,
{
    if n > 0 {
        lemma_tracks(p, s, (n - 1) as nat);
        let t = s.tracks[n - 1];
        lemma_order(t, t.clips.len());
        assert(t.clips.take(t.clips.len() as int) =~= t.clips);
        lemma_clips(p, t, t.clips.len());
    }
}

proof fn lemma_sequences(p: ProjectV, n: nat)
    requires
        n <= p.sequences.len(),
    ensures
        sequences_issues(p, n).len() == 0 <==> forall|i: int|
            0 <= i < n ==> valid_sequence(p, #[trigger] p.sequences[i]),
    decreases n,
{
    if n > 0 {
        lemma_sequences(p, (n - 1) as nat);
        let s = p.sequences[n - 1];
        lemma_tracks(p, s, s.tracks.len());
    }
}

/// Nothing is found in a project if and only if its invariants hold.
pub proof fn law_no_issues_if_valid(p: ProjectV)
    ensures
        issues_of(p).len() == 0 <==> valid(p),
{
    lemma_repeats(all_ids(p));
    lemma_sequences(p, p.sequences.len());
}

/// In a sound project, as every operation leaves it, no track has clips out of
/// order or over each other.
pub proof fn law_sound_is_in_order(p: ProjectV, s: int, t: int)
    requires
        laws::sound(p),
        0 <= s < p.sequences.len(),
        0 <= t < p.sequences[s].tracks.len(),
    ensures
        well_placed(p.sequences[s].tracks[t].clips),
        order_issues(p.sequences[s].tracks[t], p.sequences[s].tracks[t].clips.len()).len() == 0,
{
    let track = p.sequences[s].tracks[t];
    assert(laws::sound_sequence(p, p.sequences[s]));
    assert(laws::sound_track(p, track));
    assert forall|i: int, j: int| 0 <= i < j < track.clips.len() implies (
    #[trigger] track.clips[i]).start <= (#[trigger] track.clips[j]).start
        && track.clips[i].finish() <= track.clips[j].start by {
        assert(laws::lasting(track.clips[i]));
    }
    assert(track.clips.take(track.clips.len() as int) =~= track.clips);
    lemma_order(track, track.clips.len());
}

} // verus!
