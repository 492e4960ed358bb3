//! The timeline as a list of segments.

use ubereditor::action::{Action, TrackProp};
use ubereditor::edl::{build_video_edl, build_video_edl_with, edl_duration, Drawn, Segment};
use ubereditor::export::{ExportError, ExportResult};
use ubereditor::float::Real;
use ubereditor::ident::Id;
use ubereditor::model::{
    Clip, ClipPayload, MediaAsset, MediaKind, ProbeInfo, Project, Track, TrackKind, TransitionRef,
};
use ubereditor::ops::InsertMode;
use ubereditor::render::Labels;
use ubereditor::store::ProjectStore;
use ubereditor::strmap::StrMap;

const SEC: i64 = 1_000_000;

fn num(x: f64) -> Real {
    Real { bits: x.to_bits() }
}

fn fake_asset(kind: MediaKind, path: &str, dur_s: i64, with_audio: bool) -> MediaAsset {
    MediaAsset {
        id: Id::new(),
        kind,
        path: path.into(),
        content_hash: format!("xxh3:{path}"),
        probe: ProbeInfo {
            duration_us: dur_s * SEC,
            fps: if kind == MediaKind::Video { Some((30, 1)) } else { None },
            width: if kind == MediaKind::Video { 640 } else { 0 },
            height: if kind == MediaKind::Video { 360 } else { 0 },
            rotation: 0,
            vcodec: None,
            acodec: None,
            audio_channels: if with_audio { 2 } else { 0 },
            vfr: false,
        },
        proxy: None,
        audio_conform: None,
        peaks: None,
        thumbnails: None,
        transcript: None,
        offline: false,
    }
}

/// (store, seq, v1, v2, a1, asset_a, asset_b)
fn project_two_video_tracks() -> (ProjectStore, Id, Id, Id, Id, Id, Id) {
    let mut p = Project::new("t");
    let seq_id = p.active_sequence;
    let a = fake_asset(MediaKind::Video, "a.mp4", 10, false);
    let b = fake_asset(MediaKind::Video, "b.mp4", 10, false);
    let (aid, bid) = (a.id, b.id);
    p.assets.push(a);
    p.assets.push(b);
    // add V2 above V1
    let seq = p.sequence_mut(seq_id).unwrap();
    seq.tracks.push(Track::new(TrackKind::Video, "V2"));
    let v2 = seq.tracks.last().unwrap().id;
    let v1 = seq.tracks.iter().find(|t| t.kind == TrackKind::Video && t.name == "V1").unwrap().id;
    let a1 = seq.tracks.iter().find(|t| t.kind == TrackKind::Audio).unwrap().id;
    (ProjectStore::new(p), seq_id, v1, v2, a1, aid, bid)
}

fn edl_of(p: &Project, seq: Id) -> ExportResult<Vec<Segment>> {
    build_video_edl(p, seq, &vec![], &vec![], &mut Labels::new())
}

fn source(asset_id: Id, src_in: i64, src_out: i64) -> Segment {
    Segment::Source {
        asset_id,
        src_in,
        src_out,
        speed: num(1.0),
        vf: None,
        transition_in: None,
        entrance: None,
        exit: None,
    }
}

#[test]
fn edl_with_gap_and_two_sources() {
    let (mut store, seq, v1, _v2, _a1, a, b) = project_two_video_tracks();
    store.insert_clip(v1, Clip::new_media(a, 1 * SEC, 3 * SEC, 0), InsertMode::Strict).unwrap();
    store.insert_clip(v1, Clip::new_media(b, 4 * SEC, 6 * SEC, 2 * SEC), InsertMode::Strict).unwrap();
    // gap [4, 5) then A again
    store.insert_clip(v1, Clip::new_media(a, 8 * SEC, 9 * SEC, 5 * SEC), InsertMode::Strict).unwrap();

    let edl = edl_of(&store.project, seq).unwrap();
    assert_eq!(
        edl,
        vec![
            source(a, 1 * SEC, 3 * SEC),
            source(b, 4 * SEC, 6 * SEC),
            Segment::Black { duration: 1 * SEC },
            source(a, 8 * SEC, 9 * SEC),
        ]
    );
    assert_eq!(edl_duration(&edl), 6 * SEC);
}

#[test]
fn edl_top_track_wins() {
    let (mut store, seq, v1, v2, _a1, a, b) = project_two_video_tracks();
    // V1: A covers [0, 6); V2: B covers [2, 4) → B must win in the middle
    store.insert_clip(v1, Clip::new_media(a, 0, 6 * SEC, 0), InsertMode::Strict).unwrap();
    store.insert_clip(v2, Clip::new_media(b, 0, 2 * SEC, 2 * SEC), InsertMode::Strict).unwrap();

    let edl = edl_of(&store.project, seq).unwrap();
    assert_eq!(
        edl,
        vec![source(a, 0, 2 * SEC), source(b, 0, 2 * SEC), source(a, 4 * SEC, 6 * SEC)]
    );
}

#[test]
fn edl_merges_contiguous_and_trims_trailing_black() {
    let (mut store, seq, v1, _v2, _a1, a, _b) = project_two_video_tracks();
    // two contiguous clips with continuous source → they merge
    store.insert_clip(v1, Clip::new_media(a, 1 * SEC, 3 * SEC, 0), InsertMode::Strict).unwrap();
    store.insert_clip(v1, Clip::new_media(a, 3 * SEC, 5 * SEC, 2 * SEC), InsertMode::Strict).unwrap();
    let edl = edl_of(&store.project, seq).unwrap();
    assert_eq!(edl, vec![source(a, 1 * SEC, 5 * SEC)]);
}

#[test]
fn edl_supports_speed_and_rejects_empty() {
    let (mut store, seq, v1, _v2, _a1, a, _b) = project_two_video_tracks();
    assert!(matches!(edl_of(&store.project, seq), Err(ExportError::EmptyTimeline)));
    // clip at 2×: uses [0..2s) of the source in 1 s of timeline
    let mut clip = Clip::new_media(a, 0, 2 * SEC, 0);
    clip.speed = num(2.0);
    clip.duration = 1 * SEC;
    store.insert_clip(v1, clip, InsertMode::Strict).unwrap();
    let edl = edl_of(&store.project, seq).unwrap();
    match &edl[0] {
        Segment::Source { src_in, src_out, speed, .. } => {
            assert_eq!((*src_in, *src_out), (0, 2 * SEC), "consumes the whole source");
            assert_eq!(*speed, num(2.0));
        }
        other => panic!("{other:?}"),
    }
    assert_eq!(edl_duration(&edl), 1 * SEC, "1 s of output at 2×");
}

#[test]
fn muted_track_is_invisible() {
    let (mut store, seq, v1, v2, _a1, a, b) = project_two_video_tracks();
    store.insert_clip(v1, Clip::new_media(a, 0, 2 * SEC, 0), InsertMode::Strict).unwrap();
    store.insert_clip(v2, Clip::new_media(b, 0, 2 * SEC, 0), InsertMode::Strict).unwrap();
    // without mute V2 (B) wins
    let edl = edl_of(&store.project, seq).unwrap();
    assert!(matches!(edl[0], Segment::Source { asset_id, .. } if asset_id == b));
    // with V2 muted V1 (A) wins
    store
        .dispatch(
            "mute",
            vec![Action::SetTrackProp { track_id: v2, prop: TrackProp::Muted(true) }],
        )
        .unwrap();
    let edl = edl_of(&store.project, seq).unwrap();
    assert!(matches!(edl[0], Segment::Source { asset_id, .. } if asset_id == a));
}

fn crossfade(clip_id: Id) -> Action {
    Action::SetClipTransition {
        clip_id,
        transition: Some(TransitionRef {
            effect_id: "core.crossfade".into(),
            duration: 1 * SEC,
            params: StrMap::new(),
        }),
        out: false,
    }
}

#[test]
fn transition_extends_handles_and_survives_edl() {
    let (mut store, seq, v1, _v2, _a1, a, b) = project_two_video_tracks();
    // A uses [1..3) of the file (there is material after); B uses [4..6) (there is before)
    store.insert_clip(v1, Clip::new_media(a, 1 * SEC, 3 * SEC, 0), InsertMode::Strict).unwrap();
    let clip_b = Clip::new_media(b, 4 * SEC, 6 * SEC, 2 * SEC);
    let b_id = clip_b.id;
    store.insert_clip(v1, clip_b, InsertMode::Strict).unwrap();
    store.dispatch("transition", vec![crossfade(b_id)]).unwrap();

    let edl = edl_of(&store.project, seq).unwrap();
    assert_eq!(edl.len(), 2);
    // handles: A extended +0.5s, B pulled forward -0.5s, effective transition 1s
    match (&edl[0], &edl[1]) {
        (
            Segment::Source { src_in: a_in, src_out: a_out, .. },
            Segment::Source { src_in: b_in, src_out: b_out, transition_in, .. },
        ) => {
            assert_eq!((*a_in, *a_out), (1 * SEC, 3 * SEC + 500_000));
            assert_eq!((*b_in, *b_out), (4 * SEC - 500_000, 6 * SEC));
            assert_eq!(*transition_in, Some((1 * SEC, "core.crossfade".to_string())));
        }
        other => panic!("unexpected EDL: {other:?}"),
    }
    // the output duration does not change: 4 s
    assert_eq!(edl_duration(&edl), 4 * SEC);

    // not enough material (clip A pinned to the end of the file) → it shrinks
    let (mut store2, seq2, v1b, _v, _a, a2, b2) = project_two_video_tracks();
    store2.insert_clip(v1b, Clip::new_media(a2, 8 * SEC, 10 * SEC, 0), InsertMode::Strict).unwrap();
    let cb = Clip::new_media(b2, 4 * SEC, 6 * SEC, 2 * SEC);
    let cb_id = cb.id;
    store2.insert_clip(v1b, cb, InsertMode::Strict).unwrap();
    store2.dispatch("transition", vec![crossfade(cb_id)]).unwrap();
    let edl2 = edl_of(&store2.project, seq2).unwrap();
    match &edl2[1] {
        Segment::Source { transition_in, entrance, .. } => {
            assert_eq!(*transition_in, None, "no handle on the left → no transition");
            assert_eq!(*entrance, Some((1 * SEC, "core.crossfade".to_string())));
        }
        other => panic!("{other:?}"),
    }
}

#[test]
fn what_an_edl_needs_must_be_there() {
    let (mut store, seq, v1, _v2, _a1, a, _b) = project_two_video_tracks();
    let nowhere = Id::new();
    match edl_of(&store.project, nowhere) {
        Err(ExportError::NoSequence(id)) => assert_eq!(id, nowhere),
        other => panic!("{other:?}"),
    }
    store.insert_clip(v1, Clip::new_media(a, 0, 2 * SEC, 0), InsertMode::Strict).unwrap();
    store.project.assets.clear();
    match edl_of(&store.project, seq) {
        Err(ExportError::MissingAsset(id)) => assert_eq!(id, a),
        other => panic!("{other:?}"),
    }
}

#[test]
fn generators_are_drawn_for_their_window() {
    let (mut store, seq, v1, _v2, _a1, _a, _b) = project_two_video_tracks();
    let mut clip = Clip::new_text("", 0, 2 * SEC);
    clip.payload = ClipPayload::Generator {
        generator_id: "solid".into(),
        params: StrMap::new(),
        color_params: StrMap::new(),
    };
    let id = clip.id;
    store.insert_clip(v1, clip, InsertMode::Strict).unwrap();
    let drawn = vec![Drawn { clip_id: id, duration: 2 * SEC, source: "color=red:d=2".into() }];
    let edl = build_video_edl_with(
        &store.project,
        seq,
        &vec![],
        &vec![],
        &drawn,
        &mut Labels::new(),
    )
    .unwrap();
    assert_eq!(
        edl,
        vec![Segment::Gen { source: "color=red:d=2".into(), duration: 2 * SEC, vf: None }]
    );
}
