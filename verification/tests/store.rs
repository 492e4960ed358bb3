//! Timeline operations through the store: split, trim, move, delete and cut,
//! atomicity, undo and redo.

use ubereditor::action::{apply, Action, TrackProp};
use ubereditor::float::Real;
use ubereditor::ident::Id;
use ubereditor::keyframe::{Interp, Keyframe, KeyframeCurve, Param};
use ubereditor::model::{
    AvatarConfig, Clip, ClipPayload, MediaAsset, MediaKind, ProbeInfo, Project, Sequence, TrackKind,
};
use ubereditor::ops::{carve_range, split_clip_with, InsertMode, Planner};
use ubereditor::ident::IdPool;
use ubereditor::seqs::Duplicate;
use ubereditor::store::ProjectStore;
use ubereditor::time::{frame_to_time, quantize_to_frame, US_PER_SEC};
use ubereditor::validate::validate;

fn num(x: f64) -> Real {
    Real { bits: x.to_bits() }
}

fn float(x: Real) -> f64 {
    f64::from_bits(x.bits)
}

const SEC: i64 = US_PER_SEC;

/// Fixture project: 1 video asset of 60 s, 1 audio asset of 120 s,
/// a 30 fps sequence with V1/A1 (and the asset already in the pool).
/// Returns (store, seq_id, video_track, audio_track, video_asset, audio_asset).
fn fixture() -> (ProjectStore, Id, Id, Id, Id, Id) {
    let mut p = Project::new("Test");
    let seq_id = p.active_sequence;
    let video_asset = MediaAsset {
        id: Id::new(),
        kind: MediaKind::Video,
        path: "media/video.mp4".into(),
        content_hash: "xxh3:v".into(),
        probe: ProbeInfo {
            duration_us: 60 * SEC,
            fps: Some((30, 1)),
            width: 1920,
            height: 1080,
            rotation: 0,
            vcodec: Some("h264".into()),
            acodec: Some("aac".into()),
            audio_channels: 2,
            vfr: false,
        },
        proxy: None,
        audio_conform: None,
        peaks: None,
        thumbnails: None,
        transcript: None,
        offline: false,
    };
    let audio_asset = MediaAsset {
        id: Id::new(),
        kind: MediaKind::Audio,
        path: "media/music.mp3".into(),
        content_hash: "xxh3:a".into(),
        probe: ProbeInfo {
            duration_us: 120 * SEC,
            fps: None,
            width: 0,
            height: 0,
            rotation: 0,
            vcodec: None,
            acodec: Some("mp3".into()),
            audio_channels: 2,
            vfr: false,
        },
        proxy: None,
        audio_conform: None,
        peaks: None,
        thumbnails: None,
        transcript: None,
        offline: false,
    };
    let va = video_asset.id;
    let aa = audio_asset.id;
    p.assets.push(video_asset);
    p.assets.push(audio_asset);
    let seq = p.sequence(seq_id).unwrap();
    let audio_track = seq.tracks.iter().find(|t| t.kind == TrackKind::Audio).unwrap().id;
    let video_track = seq.tracks.iter().find(|t| t.kind == TrackKind::Video).unwrap().id;
    (ProjectStore::new(p), seq_id, video_track, audio_track, va, aa)
}

fn media_src(clip: &Clip) -> (i64, i64) {
    match &clip.payload {
        ClipPayload::Media { src_in, src_out, .. } => (*src_in, *src_out),
        _ => panic!("not media"),
    }
}

#[test]
fn insert_split_undo_roundtrip() {
    let (mut store, _seq, vtrack, _atrack, va, _aa) = fixture();
    let clip = Clip::new_media(va, 0, 10 * SEC, 0);
    store.insert_clip(vtrack, clip, InsertMode::Strict).unwrap();
    let snapshot = store.project.clone();

    let clip_id = store.project.track(vtrack).unwrap().clips[0].id;
    let (l, r) = store.split_clip(clip_id, 4 * SEC).unwrap();

    {
        let track = store.project.track(vtrack).unwrap();
        assert_eq!(track.clips.len(), 2);
        let (lc, rc) = (&track.clips[0], &track.clips[1]);
        assert_eq!((lc.id, rc.id), (l, r));
        assert_eq!((lc.start, lc.duration), (0, 4 * SEC));
        assert_eq!((rc.start, rc.duration), (4 * SEC, 6 * SEC));
        assert_eq!(media_src(lc), (0, 4 * SEC));
        assert_eq!(media_src(rc), (4 * SEC, 10 * SEC));
    }

    store.undo().unwrap();
    assert_eq!(store.project, snapshot, "undo must restore byte for byte");

    store.redo().unwrap();
    let track = store.project.track(vtrack).unwrap();
    assert_eq!(track.clips.len(), 2);
    assert_eq!(track.clips[0].id, l, "redo reuses the same ids");
}

#[test]
fn split_quantizes_to_frame() {
    let (mut store, _seq, vtrack, _at, va, _aa) = fixture();
    let clip = Clip::new_media(va, 0, 10 * SEC, 0);
    let clip_id = store.insert_clip(vtrack, clip, InsertMode::Strict).unwrap();
    // 1.017 s is not a frame boundary at 30 fps → quantizes to the nearest frame (31)
    store.split_clip(clip_id, 1_017_000).unwrap();
    let track = store.project.track(vtrack).unwrap();
    let boundary = track.clips[1].start;
    assert_eq!(boundary, frame_to_time(31, (30, 1)), "cut at frame 31");
    assert_eq!(
        quantize_to_frame(boundary, (30, 1)),
        boundary,
        "the boundary is idempotent under quantization"
    );
}

#[test]
fn split_keyframes_preserve_boundary_value() {
    let (mut store, _seq, vtrack, _at, va, _aa) = fixture();
    let mut clip = Clip::new_media(va, 0, 10 * SEC, 0);
    clip.transform.opacity = Param::Curve(KeyframeCurve::new(vec![
        Keyframe { t: 0, value: num(0.0), interp: Interp::Linear },
        Keyframe { t: 10 * SEC, value: num(1.0), interp: Interp::Linear },
    ]));
    let clip_id = store.insert_clip(vtrack, clip, InsertMode::Strict).unwrap();
    let (l, r) = store.split_clip(clip_id, 4 * SEC).unwrap();
    let track = store.project.track(vtrack).unwrap();
    let lc = track.clips.iter().find(|c| c.id == l).unwrap();
    let rc = track.clips.iter().find(|c| c.id == r).unwrap();
    // at the boundary both halves equal 0.4
    assert!((float(lc.transform.opacity.eval(4 * SEC)) - 0.4).abs() < 1e-9);
    assert!((float(rc.transform.opacity.eval(0)) - 0.4).abs() < 1e-9);
    // and the right one still reaches 1.0 at its end
    assert!((float(rc.transform.opacity.eval(6 * SEC)) - 1.0).abs() < 1e-9);
}

#[test]
fn ripple_delete_closes_gap() {
    let (mut store, _seq, vtrack, _at, va, _aa) = fixture();
    let a = store.insert_clip(vtrack, Clip::new_media(va, 0, 2 * SEC, 0), InsertMode::Strict).unwrap();
    let _b = store.insert_clip(vtrack, Clip::new_media(va, 0, 3 * SEC, 2 * SEC), InsertMode::Strict).unwrap();
    let c = store.insert_clip(vtrack, Clip::new_media(va, 0, 1 * SEC, 5 * SEC), InsertMode::Strict).unwrap();

    // delete the middle clip with ripple
    let b_id = store.project.track(vtrack).unwrap().clips[1].id;
    store.delete_clips(&vec![b_id], true).unwrap();

    let track = store.project.track(vtrack).unwrap();
    assert_eq!(track.clips.len(), 2);
    assert_eq!(track.clips[0].id, a);
    assert_eq!(track.clips[1].id, c);
    assert_eq!(track.clips[1].start, 2 * SEC, "c shifts 3 s to the left");
    assert!(validate(&store.project).is_empty());
}

#[test]
fn delete_without_ripple_leaves_gap() {
    let (mut store, _seq, vtrack, _at, va, _aa) = fixture();
    store.insert_clip(vtrack, Clip::new_media(va, 0, 2 * SEC, 0), InsertMode::Strict).unwrap();
    let b = store.insert_clip(vtrack, Clip::new_media(va, 0, 3 * SEC, 2 * SEC), InsertMode::Strict).unwrap();
    let c = store.insert_clip(vtrack, Clip::new_media(va, 0, 1 * SEC, 5 * SEC), InsertMode::Strict).unwrap();
    store.delete_clips(&vec![b], false).unwrap();
    let track = store.project.track(vtrack).unwrap();
    assert_eq!(track.clips.len(), 2);
    let cc = track.clips.iter().find(|cl| cl.id == c).unwrap();
    assert_eq!(cc.start, 5 * SEC, "without ripple, c doesn't move");
}

#[test]
fn overwrite_insert_carves_middle() {
    let (mut store, _seq, vtrack, _at, va, _aa) = fixture();
    // large clip [0, 10s)
    store.insert_clip(vtrack, Clip::new_media(va, 0, 10 * SEC, 0), InsertMode::Strict).unwrap();
    // overwrite in the middle [4s, 6s)
    let new_clip = Clip::new_media(va, 20 * SEC, 22 * SEC, 4 * SEC);
    let new_id = store.insert_clip(vtrack, new_clip, InsertMode::Overwrite).unwrap();

    let track = store.project.track(vtrack).unwrap();
    assert_eq!(track.clips.len(), 3, "left + new + right");
    let (l, m, r) = (&track.clips[0], &track.clips[1], &track.clips[2]);
    assert_eq!((l.start, l.end()), (0, 4 * SEC));
    assert_eq!(m.id, new_id);
    assert_eq!((m.start, m.end()), (4 * SEC, 6 * SEC));
    assert_eq!((r.start, r.end()), (6 * SEC, 10 * SEC));
    // the right clip's source material advanced: [6s, 10s) of the file
    assert_eq!(media_src(r), (6 * SEC, 10 * SEC));
    assert!(validate(&store.project).is_empty());

    // undo brings back the single clip
    store.undo().unwrap();
    assert_eq!(store.project.track(vtrack).unwrap().clips.len(), 1);
}

#[test]
fn overwrite_insert_trims_edges() {
    let (mut store, _seq, vtrack, _at, va, _aa) = fixture();
    store.insert_clip(vtrack, Clip::new_media(va, 0, 4 * SEC, 0), InsertMode::Strict).unwrap();
    store.insert_clip(vtrack, Clip::new_media(va, 0, 4 * SEC, 6 * SEC), InsertMode::Strict).unwrap();
    // overwrite [3s, 7s): trims the end of the first and the start of the second
    store
        .insert_clip(vtrack, Clip::new_media(va, 30 * SEC, 34 * SEC, 3 * SEC), InsertMode::Overwrite)
        .unwrap();
    let track = store.project.track(vtrack).unwrap();
    assert_eq!(track.clips.len(), 3);
    assert_eq!((track.clips[0].start, track.clips[0].end()), (0, 3 * SEC));
    assert_eq!((track.clips[1].start, track.clips[1].end()), (3 * SEC, 7 * SEC));
    assert_eq!((track.clips[2].start, track.clips[2].end()), (7 * SEC, 10 * SEC));
    // the third clip's src_in advanced 1 s
    assert_eq!(media_src(&track.clips[2]).0, 1 * SEC);
}

#[test]
fn trim_respects_source_material() {
    let (mut store, _seq, vtrack, _at, va, _aa) = fixture();
    // clip that uses [5s, 10s) of the file, placed at t=20s
    let clip_id = store
        .insert_clip(vtrack, Clip::new_media(va, 5 * SEC, 10 * SEC, 20 * SEC), InsertMode::Strict)
        .unwrap();
    // try to extend the left edge to t=0: only 5 s of handle → clamps to 15 s
    store.trim_clip(clip_id, true, 0).unwrap();
    let clip = store.project.clip(clip_id).unwrap();
    assert_eq!(clip.start, 15 * SEC, "the edge stops where the material runs out");
    assert_eq!(media_src(clip).0, 0, "src_in reached the start of the file");
    assert_eq!(clip.duration, 10 * SEC);

    // extend the right edge beyond the file (60 s asset)
    store.trim_clip(clip_id, false, 500 * SEC).unwrap();
    let clip = store.project.clip(clip_id).unwrap();
    assert_eq!(media_src(clip).1, 60 * SEC, "src_out clamped to the asset duration");
}

#[test]
fn cut_ranges_multitrack_ripple() {
    let (mut store, seq, vtrack, atrack, va, aa) = fixture();
    store.insert_clip(vtrack, Clip::new_media(va, 0, 10 * SEC, 0), InsertMode::Strict).unwrap();
    store.insert_clip(atrack, Clip::new_media(aa, 0, 10 * SEC, 0), InsertMode::Strict).unwrap();

    // cut [2s,3s) and [5s,6s) — overlap/merge included
    store.cut_ranges(seq, &vec![(2 * SEC, 3 * SEC), (5 * SEC, 6 * SEC)], true).unwrap();

    for track_id in [vtrack, atrack] {
        let track = store.project.track(track_id).unwrap();
        let total: i64 = track.clips.iter().map(|c| c.duration).sum();
        assert_eq!(total, 8 * SEC, "8 s of material remain on the track");
        // contiguous with no gaps (ripple)
        let mut expected_start = 0;
        for c in &track.clips {
            assert_eq!(c.start, expected_start);
            expected_start = c.end();
        }
    }
    assert!(validate(&store.project).is_empty());
    assert_eq!(store.undo_labels().last().copied(), Some("Cut 2 range(s)"));

    // and it's ONE undo entry
    store.undo().unwrap();
    let track = store.project.track(vtrack).unwrap();
    assert_eq!(track.clips.len(), 1);
    assert_eq!(track.clips[0].duration, 10 * SEC);
}

#[test]
fn transaction_atomicity_on_failure() {
    let (mut store, _seq, vtrack, _at, va, _aa) = fixture();
    let a = Clip::new_media(va, 0, 2 * SEC, 0);
    let b_colliding = Clip::new_media(va, 0, 2 * SEC, SEC); // collides with a
    let snapshot = store.project.clone();

    let result = store.dispatch(
        "broken transaction",
        vec![
            Action::InsertClip { track_id: vtrack, clip: a },
            Action::InsertClip { track_id: vtrack, clip: b_colliding },
        ],
    );
    assert!(result.is_err());
    assert_eq!(store.project, snapshot, "full rollback: the project is left intact");
    assert!(!store.can_undo(), "a failed transaction does not enter the history");
}

#[test]
fn locked_track_rejects_ops() {
    let (mut store, _seq, vtrack, _at, va, _aa) = fixture();
    let clip_id = store
        .insert_clip(vtrack, Clip::new_media(va, 0, 2 * SEC, 0), InsertMode::Strict)
        .unwrap();
    store
        .dispatch(
            "Lock track",
            vec![Action::SetTrackProp { track_id: vtrack, prop: TrackProp::Locked(true) }],
        )
        .unwrap();
    assert!(store.split_clip(clip_id, SEC).is_err());
    assert!(store.delete_clips(&vec![clip_id], false).is_err());
    // but undoing the lock works
    store.undo().unwrap();
    assert!(store.split_clip(clip_id, SEC).is_ok());
}

#[test]
fn track_kind_rules() {
    let (mut store, _seq, vtrack, atrack, va, aa) = fixture();
    // a VIDEO asset can go on an audio track (audio-only use, linked pairs)
    let video_on_audio = Clip::new_media(va, 0, 2 * SEC, 0);
    assert!(store.insert_clip(atrack, video_on_audio, InsertMode::Strict).is_ok());
    // an AUDIO asset still can't go on a video track
    let audio_on_video = Clip::new_media(aa, 0, 2 * SEC, 0);
    assert!(
        store.insert_clip(vtrack, audio_on_video, InsertMode::Strict).is_err(),
        "an audio clip does not fit on a video track"
    );
    // a text clip doesn't fit on an audio track either
    let text = Clip::new_text("hi", 5 * SEC, 1 * SEC);
    assert!(store.insert_clip(atrack, text, InsertMode::Strict).is_err());
}

#[test]
fn move_range_reorders_and_preserves_material() {
    let (mut store, seq, vtrack, atrack, va, aa) = fixture();
    // V1: a 9 s clip [0..9); A1: parallel audio [0..9)
    store.insert_clip(vtrack, Clip::new_media(va, 0, 9 * SEC, 0), InsertMode::Strict).unwrap();
    store.insert_clip(atrack, Clip::new_media(aa, 0, 9 * SEC, 0), InsertMode::Strict).unwrap();
    let snapshot = store.project.clone();

    // move the middle third [3..6) to the beginning (dest=0)
    store.move_range(seq, 3 * SEC, 6 * SEC, 0).unwrap();

    for track_id in [vtrack, atrack] {
        let track = store.project.track(track_id).unwrap();
        // total material preserved and contiguous
        let total: i64 = track.clips.iter().map(|c| c.duration).sum();
        assert_eq!(total, 9 * SEC);
        let mut expected = 0;
        for c in &track.clips {
            assert_eq!(c.start, expected, "no gaps after moving");
            expected = c.end();
        }
        // the first clip is now the source material [3..6)
        let first = &track.clips[0];
        match &first.payload {
            ClipPayload::Media { src_in, src_out, .. } => {
                assert_eq!((*src_in, *src_out), (3 * SEC, 6 * SEC), "the middle third goes first");
            }
            _ => panic!("unexpected payload"),
        }
    }
    assert!(validate(&store.project).is_empty());

    // a single undo entry reverts it all
    store.undo().unwrap();
    assert_eq!(store.project, snapshot);
}

#[test]
fn move_range_forward_and_edge_cases() {
    let (mut store, seq, vtrack, _at, va, _aa) = fixture();
    store.insert_clip(vtrack, Clip::new_media(va, 0, 9 * SEC, 0), InsertMode::Strict).unwrap();

    // move [0..3) to the end (dest=9): leaves [3..9)+[0..3)
    store.move_range(seq, 0, 3 * SEC, 9 * SEC).unwrap();
    let track = store.project.track(vtrack).unwrap();
    let last = track.clips.last().unwrap();
    match &last.payload {
        ClipPayload::Media { src_in, .. } => assert_eq!(*src_in, 0, "the start ended up at the end"),
        _ => panic!(),
    }
    assert_eq!(track.clips.last().unwrap().end(), 9 * SEC, "total duration intact");

    // destination inside the range → error and no changes
    let before = store.project.clone();
    assert!(store.move_range(seq, 0, 4 * SEC, 2 * SEC).is_err());
    assert_eq!(store.project, before);
}

#[test]
fn linked_pair_propagates_all_operations() {
    let (mut store, _seq, vtrack, atrack, va, _aa) = fixture();
    // linked pair: video on V1 + its audio on A1 (video asset on an audio track)
    let group = Id::new();
    let mut vclip = Clip::new_media(va, 0, 10 * SEC, 0);
    vclip.group = Some(group);
    vclip.audio.muted = true;
    let mut aclip = Clip::new_media(va, 0, 10 * SEC, 0);
    aclip.group = Some(group);
    let v_id = store.insert_clip(vtrack, vclip, InsertMode::Strict).unwrap();
    let _a_id = store.insert_clip(atrack, aclip, InsertMode::Strict).unwrap();

    // SPLIT: splits both; the right halves share a NEW group
    let (vl, vr) = store.split_clip(v_id, 4 * SEC).unwrap();
    let a_clips: Vec<Clip> = store.project.track(atrack).unwrap().clips.clone();
    assert_eq!(a_clips.len(), 2, "the linked audio was split too");
    let v_right = store.project.clip(vr).unwrap().clone();
    let a_right = a_clips.iter().find(|c| c.start == 4 * SEC).unwrap();
    assert_eq!(v_right.group, a_right.group, "right halves re-linked");
    assert_ne!(v_right.group, Some(group), "with a new group");
    let v_left = store.project.clip(vl).unwrap().clone();
    assert_eq!(v_left.group, Some(group), "the left halves keep the group");

    // MOVE: moving the right video +5s drags its audio along
    store.move_clip(vr, vtrack, 9 * SEC, InsertMode::Strict).unwrap();
    let a_right_now = store
        .project
        .track(atrack)
        .unwrap()
        .clips
        .iter()
        .find(|c| c.group == v_right.group)
        .unwrap()
        .clone();
    assert_eq!(a_right_now.start, 9 * SEC, "the audio followed the video");

    // TRIM: trimming the right edge of the video trims the audio
    store.trim_clip(vr, false, 12 * SEC).unwrap();
    let v_now = store.project.clip(vr).unwrap();
    let a_now = store
        .project
        .track(atrack)
        .unwrap()
        .clips
        .iter()
        .find(|c| c.group == v_right.group)
        .unwrap();
    assert_eq!(v_now.end(), a_now.end(), "edges aligned after the trim");

    // SPEED: 2x on both
    store.set_clip_speed(vr, num(2.0)).unwrap();
    let a_now = store
        .project
        .track(atrack)
        .unwrap()
        .clips
        .iter()
        .find(|c| c.group == v_right.group)
        .unwrap();
    assert_eq!(a_now.speed, num(2.0), "speed propagated to the audio");
    assert_eq!(store.project.clip(vr).unwrap().duration, a_now.duration);

    // DELETE with ripple: deletes the pair and closes gaps on both tracks
    store.delete_clips(&vec![vl], true).unwrap();
    let v_clips = &store.project.track(vtrack).unwrap().clips;
    let a_clips = &store.project.track(atrack).unwrap().clips;
    assert_eq!(v_clips.len(), 1);
    assert_eq!(a_clips.len(), 1);
    assert_eq!(v_clips[0].start, a_clips[0].start, "tracks aligned after ripple");
    assert!(validate(&store.project).is_empty());
}

/// Split-at-silences mode: boundaries only, nothing removed, duration intact.
#[test]
fn split_ranges_segments_without_removing() {
    let (mut store, _seq, vtrack, atrack, va, _aa) = fixture();
    store
        .insert_clip(vtrack, Clip::new_media(va, 0, 10 * SEC, 0), InsertMode::Strict)
        .unwrap();
    store
        .insert_clip(atrack, Clip::new_media(va, 0, 10 * SEC, 0), InsertMode::Strict)
        .unwrap();
    let seq_id = store.project.active_sequence;
    // two "silences": [2,3) and [6,7)
    store
        .split_ranges(seq_id, &vec![(2 * SEC, 3 * SEC), (6 * SEC, 7 * SEC)])
        .unwrap();
    let seq = store.project.sequence(seq_id).unwrap();
    for tid in [vtrack, atrack] {
        let track = seq.tracks.iter().find(|t| t.id == tid).unwrap();
        assert_eq!(track.clips.len(), 5, "4 cuts → 5 segments");
        let total: i64 = track.clips.iter().map(|c| c.duration).sum();
        assert_eq!(total, 10 * SEC, "nothing was removed");
        let starts: Vec<i64> = track.clips.iter().map(|c| c.start).collect();
        assert_eq!(starts, vec![0, 2 * SEC, 3 * SEC, 6 * SEC, 7 * SEC]);
    }
    // one undo restores the original single clips
    store.undo().unwrap();
    let seq = store.project.sequence(seq_id).unwrap();
    assert!(seq.tracks.iter().filter(|t| t.id == vtrack || t.id == atrack).all(|t| t.clips.len() == 1));
}

/// Slowing a clip down next to another clamps its duration to the gap
/// instead of failing with a collision error.
#[test]
fn set_clip_speed_clamps_to_next_clip() {
    let (mut store, _seq, vtrack, _at, va, _aa) = fixture();
    let a = store
        .insert_clip(vtrack, Clip::new_media(va, 0, 4 * SEC, 0), InsertMode::Strict)
        .unwrap();
    store
        .insert_clip(vtrack, Clip::new_media(va, 4 * SEC, 8 * SEC, 4 * SEC), InsertMode::Strict)
        .unwrap();
    // 0.5x would need 8 s but only 4 s fit before the next clip
    store.set_clip_speed(a, num(0.5)).unwrap();
    let clip = store.project.clip(a).unwrap();
    assert!((float(clip.speed) - 0.5).abs() < 1e-9);
    assert_eq!(clip.duration, 4 * SEC, "clamped to the gap");
}

/// A slider drag emits many same-label dispatches; they must coalesce into
/// ONE history entry whose undo restores the pre-gesture state (field
/// report: 'Edit transform' x10 per drag).
#[test]
fn coalesced_dispatches_undo_as_one_gesture() {
    let (mut store, _seq, vtrack, _at, va, _aa) = fixture();
    let c = store
        .insert_clip(vtrack, Clip::new_media(va, 0, 4 * SEC, 0), InsertMode::Strict)
        .unwrap();
    // simulate a drag: 0 → 10 → 20 → … → 100 px
    for x in (10..=100).step_by(10) {
        let mut t = store.project.clip(c).unwrap().transform.clone();
        t.position.0 = Param::constant(num(x as f64));
        store
            .dispatch_coalesced(
                "Edit transform",
                vec![Action::SetClipTransform { clip_id: c, transform: t }],
            )
            .unwrap();
    }
    assert_eq!(
        store.project.clip(c).unwrap().transform.position.0.eval(0),
        num(100.0),
        "latest value applied"
    );
    // ONE undo returns to the pre-drag state (0), not to 90
    store.undo().unwrap();
    assert_eq!(
        store.project.clip(c).unwrap().transform.position.0.eval(0),
        num(0.0),
        "the whole gesture undoes as one step"
    );
    // and redo replays the final value
    store.redo().unwrap();
    assert_eq!(store.project.clip(c).unwrap().transform.position.0.eval(0), num(100.0));
}

/// Field crash: dragging a curve key onto another (or a UI rounding collision)
/// produced two keys with the same t; validate() then aborted the process
/// ('non-increasing keys in position.x'). The action must SANITIZE curves
/// instead: sort by t and drop duplicates (last write wins).
#[test]
fn duplicate_curve_keys_are_sanitized_not_fatal() {
    let (mut store, _seq, vtrack, _at, va, _aa) = fixture();
    let c = store
        .insert_clip(vtrack, Clip::new_media(va, 0, 4 * SEC, 0), InsertMode::Strict)
        .unwrap();
    let mut t = store.project.clip(c).unwrap().transform.clone();
    // out of order AND duplicated t (exactly what the curve editor can emit)
    t.position.0 = Param::Curve(KeyframeCurve::new(vec![
        Keyframe { t: 2 * SEC, value: num(50.0), interp: Interp::Linear },
        Keyframe { t: 0, value: num(0.0), interp: Interp::Linear },
        Keyframe { t: 2 * SEC, value: num(90.0), interp: Interp::Linear },
    ]));
    store
        .dispatch(
            "Edit transform",
            vec![Action::SetClipTransform { clip_id: c, transform: t }],
        )
        .expect("must not panic nor error");

    let keys = match &store.project.clip(c).unwrap().transform.position.0 {
        Param::Curve(k) => k.keys.clone(),
        Param::Const(_) => panic!("still a curve"),
    };
    assert_eq!(keys.len(), 2, "duplicate t collapsed");
    assert_eq!(keys[0].t, 0);
    assert_eq!(keys[1].t, 2 * SEC);
    assert_eq!(keys[1].value, num(90.0), "last write wins");
    assert!(validate(&store.project).is_empty(), "invariants hold");
}

/// Regression: an IMAGE clip holds for any duration — adding one (default 5 s)
/// must not trip the "src_out > asset duration" invariant, since a still's
/// probe duration is a single tiny frame.
#[test]
fn image_clip_can_be_longer_than_its_probe_duration() {
    let mut project = Project::new("img");
    let seq_id = project.active_sequence;
    // a still: 40 ms "duration" like ffprobe reports for a PNG
    let img = MediaAsset {
        id: Id::new(), kind: MediaKind::Image, path: "pic.png".into(), content_hash: "h".into(),
        probe: ProbeInfo { duration_us: 40_000, fps: None, width: 1920, height: 1080, rotation: 0,
            vcodec: None, acodec: None, audio_channels: 0, vfr: false },
        proxy: None, audio_conform: None, peaks: None, thumbnails: None, transcript: None, offline: false,
    };
    let aid = img.id;
    project.assets.push(img);
    let v1 = project.sequence(seq_id).unwrap().tracks.iter().find(|t| t.kind == TrackKind::Video).unwrap().id;
    let mut store = ProjectStore::new(project);
    // 5 s image clip: src_out (5_000_000) >> probe (40_000) — must be allowed
    let clip = Clip::new_media(aid, 0, 5_000_000, 0);
    store.insert_clip(v1, clip, InsertMode::Strict).expect("adding a 5 s image clip must succeed");
    assert!(validate(&store.project).is_empty(), "no invariant violations");
}

/// A row of numbers that look random and are the same every time.
struct Dice(u64);

impl Dice {
    fn below(&mut self, n: u64) -> u64 {
        self.0 = self.0.wrapping_mul(6364136223846793005).wrapping_add(1442695040888963407);
        (self.0 >> 33) % n
    }
}

#[test]
fn random_ops_then_undo_all_restores_initial() {
    for seed in 0..64u64 {
        let mut dice = Dice(seed * 7919 + 1);
        let (mut store, seq, vtrack, _at, va, _aa) = fixture();
        store
            .insert_clip(vtrack, Clip::new_media(va, 0, 10 * SEC, 0), InsertMode::Strict)
            .unwrap();
        let initial = store.project.duplicate();
        let initial_undo_depth = store.undo_labels().len();
        let count = 1 + dice.below(39);
        for _ in 0..count {
            let clip_ids: Vec<Id> =
                store.project.track(vtrack).unwrap().clips.iter().map(|c| c.id).collect();
            let sel = dice.below(8) as usize;
            let pick = clip_ids.get(sel % clip_ids.len().max(1)).copied();
            let start_s = dice.below(30) as i64;
            let flag = dice.below(2) == 1;
            let _ = match (dice.below(6), pick) {
                (0, _) => {
                    let len = 1 + dice.below(7) as i64;
                    store
                        .insert_clip(
                            vtrack,
                            Clip::new_media(va, 0, len * SEC, start_s * SEC),
                            InsertMode::Overwrite,
                        )
                        .map(|_| ())
                }
                (1, Some(id)) => {
                    let c = store.project.clip(id).unwrap();
                    let t = c.start + c.duration * (5 + dice.below(90) as i64) / 100;
                    store.split_clip(id, t).map(|_| ())
                }
                (2, Some(id)) => store.delete_clips(&vec![id], flag),
                (3, Some(id)) => {
                    let mode = if flag { InsertMode::Overwrite } else { InsertMode::Strict };
                    store.move_clip(id, vtrack, start_s * SEC, mode)
                }
                (4, Some(id)) => store.trim_clip(id, flag, start_s * SEC),
                (5, _) => {
                    let len = 1 + dice.below(4) as i64;
                    let from = dice.below(25) as i64;
                    store.cut_ranges(seq, &vec![(from * SEC, (from + len) * SEC)], true)
                }
                _ => Ok(()),
            };
            let issues = validate(&store.project);
            assert!(issues.is_empty(), "invariants broken: {issues:?}");
        }
        while store.undo_labels().len() > initial_undo_depth {
            store.undo().unwrap();
        }
        assert_eq!(store.project, initial, "full undo brings back the initial project");
    }
}

#[test]
fn a_freed_range_is_free() {
    let (mut store, _seq, vtrack, _at, va, _aa) = fixture();
    store
        .insert_clip(vtrack, Clip::new_media(va, 0, 10 * SEC, 0), InsertMode::Strict)
        .unwrap();
    store
        .insert_clip(vtrack, Clip::new_media(va, 0, 4 * SEC, 12 * SEC), InsertMode::Strict)
        .unwrap();
    let mut plan = Planner::new(&store.project);
    let mut pool = IdPool::new();
    carve_range(&mut plan, vtrack, 8 * SEC, 13 * SEC, None, &mut pool).unwrap();
    let clips: Vec<(i64, i64)> =
        plan.proj.track(vtrack).unwrap().clips.iter().map(|c| (c.start, c.end())).collect();
    assert_eq!(clips, vec![(0, 8 * SEC), (13 * SEC, 16 * SEC)]);
}

#[test]
fn findings_tell_what_is_wrong() {
    let (mut store, _seq, vtrack, _at, va, _aa) = fixture();
    store
        .insert_clip(vtrack, Clip::new_media(va, 0, 10 * SEC, 0), InsertMode::Strict)
        .unwrap();
    assert!(validate(&store.project).is_empty());
    let mut broken = store.project.duplicate();
    broken.sequences[0].fps = (0, 1);
    broken.active_sequence = Id::new();
    assert_eq!(
        validate(&broken),
        vec![
            "active_sequence does not exist".to_string(),
            "sequence Principal: invalid fps".to_string(),
        ]
    );
}

#[test]
fn what_is_cut_is_gone_from_all_tracks() {
    let (mut store, seq, vtrack, atrack, va, aa) = fixture();
    store
        .insert_clip(vtrack, Clip::new_media(va, 0, 10 * SEC, 0), InsertMode::Strict)
        .unwrap();
    store
        .insert_clip(atrack, Clip::new_media(aa, 0, 10 * SEC, 0), InsertMode::Strict)
        .unwrap();
    store.cut_ranges(seq, &vec![(6 * SEC, 7 * SEC), (2 * SEC, 4 * SEC)], false).unwrap();
    for track in [vtrack, atrack] {
        let clips: Vec<(i64, i64)> =
            store.project.track(track).unwrap().clips.iter().map(|c| (c.start, c.end())).collect();
        assert_eq!(clips, vec![(0, 2 * SEC), (4 * SEC, 6 * SEC), (7 * SEC, 10 * SEC)]);
    }
}

#[test]
fn identifiers_come_from_the_supply() {
    let (mut store, _seq, vtrack, _at, va, _aa) = fixture();
    let clip =
        store.insert_clip(vtrack, Clip::new_media(va, 0, 10 * SEC, 0), InsertMode::Strict).unwrap();
    let (left, right) = (Id { value: 7 }, Id { value: 8 });
    let mut pool = IdPool::from_ids(vec![left, right]);
    let (actions, a, b) = split_clip_with(&store.project, clip, 4 * SEC, &mut pool).unwrap();
    assert_eq!((a, b), (left, right));
    assert_eq!(actions.len(), 1);
    store.dispatch("Split", actions).unwrap();
    assert_eq!(store.project.clip(right).unwrap().start, 4 * SEC);
}

#[test]
fn what_is_removed_from_the_middle_comes_back_there() {
    let (store, seq, _vtrack, _at, _va, _aa) = fixture();
    let mut p = store.project.duplicate();
    for name in ["second", "third"] {
        let sequence = Sequence::new(name, (640, 360), (25, 1));
        apply(&mut p, Action::AddSequence { sequence }).unwrap();
    }
    for name in ["one", "two", "three"] {
        apply(&mut p, Action::UpsertAvatarConfig { config: AvatarConfig::new(name) }).unwrap();
    }
    let before = p.duplicate();

    let middle = p.sequences[1].id;
    let back = apply(&mut p, Action::RemoveSequence { sequence_id: middle }).unwrap();
    assert_eq!(p.sequences.len(), 2);
    assert!(matches!(back, Action::RestoreSequence { index: 1, .. }));
    let again = apply(&mut p, back).unwrap();
    assert_eq!(p, before, "the sequence is back in its place");
    assert!(matches!(again, Action::RemoveSequence { sequence_id } if sequence_id == middle));

    let config_id = p.avatars[1].id;
    let back = apply(&mut p, Action::RemoveAvatarConfig { config_id }).unwrap();
    assert_eq!(p.avatars.len(), 2);
    apply(&mut p, back).unwrap();
    assert_eq!(p, before, "the configuration is back in its place");
    assert_eq!(p.active_sequence, seq);
}

#[test]
fn a_row_is_redone_as_it_was() {
    let (mut store, seq, vtrack, _at, va, _aa) = fixture();
    store
        .insert_clip(vtrack, Clip::new_media(va, 0, 10 * SEC, 0), InsertMode::Strict)
        .unwrap();
    let initial = store.project.duplicate();
    let id = store.project.track(vtrack).unwrap().clips[0].id;
    let (_, right) = store.split_clip(id, 4 * SEC).unwrap();
    store.trim_clip(right, false, 9 * SEC).unwrap();
    store.cut_ranges(seq, &vec![(SEC, 2 * SEC)], true).unwrap();
    let edited = store.project.duplicate();
    let labels: Vec<String> = store.undo_labels().iter().map(|l| l.to_string()).collect();
    for k in 0..3 {
        let label = store.undo().unwrap().unwrap();
        assert_eq!(label, labels[labels.len() - 1 - k]);
    }
    assert_eq!(store.project, initial);
    for _ in 0..3 {
        store.redo().unwrap();
    }
    assert_eq!(store.project, edited, "clip ids and all");
}

#[test]
fn a_piece_without_material_is_undone_too() {
    let (mut store, _seq, vtrack, _at, va, _aa) = fixture();
    let mut clip = Clip::new_media(va, 0, 4 * SEC, 0);
    clip.payload = ClipPayload::Media { asset_id: va, src_in: SEC, src_out: SEC };
    clip.duration = 4 * SEC;
    let id = clip.id;
    store.insert_clip(vtrack, clip, InsertMode::Strict).unwrap();
    let initial = store.project.duplicate();
    store.split_clip(id, 2 * SEC).unwrap();
    assert_eq!(store.project.track(vtrack).unwrap().clips.len(), 2);
    store.undo().unwrap();
    assert_eq!(store.project, initial);
}

#[test]
fn a_trim_keeps_to_the_material() {
    let (mut store, _seq, vtrack, _at, va, _aa) = fixture();
    let mut clip = Clip::new_media(va, 1, 10 * SEC + 1, 10 * SEC);
    clip.speed = num(1.9);
    let id = clip.id;
    store.insert_clip(vtrack, clip, InsertMode::Strict).unwrap();
    assert!(validate(&store.project).is_empty());
    // one microsecond of material is left, half a microsecond of the timeline
    store.trim_clip(id, true, 0).unwrap();
    assert_eq!(media_src(store.project.clip(id).unwrap()).0, 0);
    assert!(validate(&store.project).is_empty());
    store.trim_clip(id, false, 100 * SEC).unwrap();
    let end = media_src(store.project.clip(id).unwrap()).1;
    assert!(60 * SEC - 2 < end && end <= 60 * SEC);
    assert!(validate(&store.project).is_empty());
}

#[test]
fn what_is_not_cut_plays_earlier() {
    let (mut store, seq, vtrack, _at, va, _aa) = fixture();
    store
        .insert_clip(vtrack, Clip::new_media(va, 0, 10 * SEC, 0), InsertMode::Strict)
        .unwrap();
    store
        .cut_ranges(seq, &vec![(2 * SEC, 3 * SEC), (5 * SEC, 6 * SEC)], true)
        .unwrap();
    let clips = &store.project.track(vtrack).unwrap().clips;
    // the time before the cut, and how much was cut before it
    for (t, gone) in [(500_000, 0), (1_900_000, 0), (3 * SEC, SEC), (4_500_000, SEC), (6 * SEC, 2 * SEC), (9_500_000, 2 * SEC)] {
        let now = t - gone;
        let c = clips.iter().find(|c| c.start <= now && now < c.end()).unwrap();
        assert_eq!(media_src(c).0 + (now - c.start), t);
    }
    assert_eq!(clips.iter().map(|c| c.end()).max(), Some(8 * SEC));
    assert!(validate(&store.project).is_empty());
}
