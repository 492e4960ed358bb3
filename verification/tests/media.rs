//! Media files: probes, hashes, pictures in a stream, and where frames come
//! from.

use ubereditor::float::Real;
use ubereditor::frames::{
    frame_args, judge_frame, resolve_top_video, stream_args, MjpegSession, ResolvedFrame,
};
use ubereditor::ident::Id;
use ubereditor::media::{
    conform_args, content_hash, default_clip_duration, extract_jpeg, hash_text, judge_tool,
    new_asset, parse_rate, read_probe, MediaError, ProbeFormat, ProbeStream, Probed,
    IMAGE_CLIP_DURATION_US,
};
use ubereditor::model::{
    Clip, MediaAsset, MediaKind, ProbeInfo, Project, TrackKind, Transform2D,
};
use ubereditor::ops::InsertMode;
use ubereditor::store::ProjectStore;

const SEC: i64 = 1_000_000;

fn num(x: f64) -> Real {
    Real { bits: x.to_bits() }
}

#[test]
fn extract_jpeg_handles_partial_and_multiple() {
    let jpeg_a: Vec<u8> = [0xFF, 0xD8, 1, 2, 3, 0xFF, 0xD9].to_vec();
    let jpeg_b: Vec<u8> = [0xFF, 0xD8, 9, 8, 0xFF, 0x00, 0xD9, 7, 0xFF, 0xD9].to_vec();

    // partial: no FFD9 yet → None and the buffer stays intact
    let mut buf = jpeg_a[..4].to_vec();
    assert!(extract_jpeg(&mut buf).is_none());
    assert_eq!(buf.len(), 4);

    // complete + next partial
    let mut buf = [jpeg_a.clone(), jpeg_b[..3].to_vec()].concat();
    assert_eq!(extract_jpeg(&mut buf).unwrap(), jpeg_a);
    assert!(extract_jpeg(&mut buf).is_none());

    // the rest of b arrives → the whole b is extracted (with FF00 escaped inside)
    buf.extend_from_slice(&jpeg_b[3..]);
    assert_eq!(extract_jpeg(&mut buf).unwrap(), jpeg_b);
    assert!(buf.is_empty());

    // garbage before the SOI is discarded
    let mut buf = [vec![0u8, 1, 2], jpeg_a.clone()].concat();
    assert_eq!(extract_jpeg(&mut buf).unwrap(), jpeg_a);
}

#[test]
fn a_session_counts_the_pictures_it_hands_out() {
    let mut s = MjpegSession::open("v.mp4", 2_000_000, 24);
    assert_eq!(s.next_src_us(), 2_000_000);
    assert!(s.take_frame().is_none());
    for _ in 0..12 {
        s.feed(&vec![0xFF, 0xD8, 7]);
        assert!(s.take_frame().is_none());
        s.feed(&vec![0xFF, 0xD9]);
        let frame = s.take_frame().expect("frame available");
        assert_eq!(&frame[0..2], &[0xFF, 0xD8]);
        assert_eq!(&frame[frame.len() - 2..], &[0xFF, 0xD9]);
    }
    // 12 frames at 24 fps = 0.5 s advanced from the session start
    assert_eq!(s.next_src_us(), 2_500_000);
    s.frames_read = -1;
    s.fps = 30;
    assert_eq!(s.next_src_us(), 2_000_000 - 33_333);
}

#[test]
fn streams_loop_stills_and_seek_in_the_rest() {
    assert_eq!(
        stream_args("v.mp4", 2_000_000, 480, 24, Some("hflip"), false),
        [
            "-v", "error", "-ss", "2.000000", "-i", "v.mp4", "-an", "-vf",
            "hflip,fps=24,scale='min(480,iw)':-2", "-f", "mjpeg", "-q:v", "6", "pipe:1"
        ]
    );
    assert_eq!(
        stream_args("p.PNG", 2_000_000, 480, 24, Some(""), false),
        [
            "-v", "error", "-loop", "1", "-framerate", "24", "-ss", "0", "-i", "p.PNG", "-an",
            "-vf", "fps=24,scale='min(480,iw)':-2", "-f", "mjpeg", "-q:v", "6", "pipe:1"
        ]
    );
}

#[test]
fn hash_is_stable_and_sensitive() {
    let a = b"hola mundo hola mundo".to_vec();
    let b = b"hola mundo hola mundX".to_vec();
    let ha1 = content_hash(a.len() as u64, &a, &vec![]);
    let ha2 = content_hash(a.len() as u64, &a, &vec![]);
    let hb = content_hash(b.len() as u64, &b, &vec![]);
    assert_eq!(ha1, ha2);
    assert_ne!(ha1, hb);
    assert!(ha1.starts_with("xxh3:"));
    assert_eq!(ha1.len(), 21);
    // the hash is that of the crate over the size and the bytes
    let mut all = (a.len() as u64).to_le_bytes().to_vec();
    all.extend_from_slice(&a);
    assert_eq!(ha1, format!("xxh3:{:016x}", xxhash_rust::xxh3::xxh3_64(&all)));
}

#[test]
fn files_are_hashed_at_both_ends() {
    let head = vec![1u8, 2, 3];
    // the first part is all of such a file
    let small: u64 = 4 * 1024 * 1024;
    assert_eq!(content_hash(small, &head, &vec![4]), content_hash(small, &head, &vec![5]));
    let large = small + 1;
    for size in [large, 6 * 1024 * 1024, 8 * 1024 * 1024, 9 * 1024 * 1024] {
        assert_ne!(content_hash(size, &head, &vec![4]), content_hash(size, &head, &vec![5]));
    }
    let mut all = large.to_le_bytes().to_vec();
    all.extend_from_slice(&[1, 2, 3, 4]);
    assert_eq!(
        content_hash(large, &head, &vec![4]),
        format!("xxh3:{:016x}", xxhash_rust::xxh3::xxh3_64(&all))
    );
    assert_ne!(content_hash(large, &head, &vec![4]), content_hash(large, &head, &vec![5]));
    assert_ne!(content_hash(small, &head, &vec![]), content_hash(large, &head, &vec![]));
    assert_eq!(hash_text(0xABC), "xxh3:0000000000000abc");
}

fn stream(kind: &str) -> ProbeStream {
    ProbeStream {
        codec_type: kind.into(),
        codec_name: None,
        width: None,
        height: None,
        avg_frame_rate: None,
        r_frame_rate: None,
        channels: None,
        duration: None,
        rotations: vec![],
    }
}

#[test]
fn probes_are_read() {
    let mut v = stream("video");
    v.codec_name = Some("h264".into());
    v.width = Some(640);
    v.height = Some(360);
    v.avg_frame_rate = Some("30/1".into());
    v.r_frame_rate = Some("60/2".into());
    v.rotations = vec![num(-90.0)];
    let mut a = stream("audio");
    a.codec_name = Some("aac".into());
    a.channels = Some(2);
    a.duration = Some(num(5.5));
    let p = Probed {
        format: Some(ProbeFormat { format_name: "mov,mp4".into(), duration: Some(num(6.0000004)) }),
        streams: vec![v, a],
    };
    let (kind, info) = read_probe(&p, "v.mp4").unwrap();
    assert_eq!(kind, MediaKind::Video);
    assert_eq!(info.duration_us, 6_000_000);
    assert_eq!(info.fps, Some((30, 1)));
    assert_eq!((info.width, info.height), (640, 360));
    assert_eq!(info.rotation, -90);
    assert_eq!(info.vcodec.as_deref(), Some("h264"));
    assert_eq!(info.acodec.as_deref(), Some("aac"));
    assert_eq!(info.audio_channels, 2);
    assert!(!info.vfr, "30/1 and 60/2 are one rate");
}

#[test]
fn kinds_follow_from_streams_and_format() {
    let with = |name: &str, kinds: &[&str]| Probed {
        format: Some(ProbeFormat { format_name: name.into(), duration: None }),
        streams: kinds.iter().map(|k| stream(k)).collect(),
    };
    let kind = |p: Probed| read_probe(&p, "f").unwrap().0;
    assert_eq!(kind(with("png_pipe", &["video"])), MediaKind::Image);
    assert_eq!(kind(with("gif,webp_pipe", &["video"])), MediaKind::Image);
    assert_eq!(kind(with("matroska,webm", &["audio", "video"])), MediaKind::Video);
    assert_eq!(kind(with("image2", &["audio"])), MediaKind::Audio);
    match read_probe(&with("mov", &["subtitle"]), "odd.bin") {
        Err(e) => assert_eq!(e.to_text(), "unsupported file or no streams: odd.bin"),
        Ok(_) => panic!("must be refused"),
    }
    // the duration falls back to the streams
    let mut v = stream("video");
    v.duration = Some(num(2.5));
    v.avg_frame_rate = Some("24000/1001".into());
    v.r_frame_rate = Some("30/1".into());
    let p = Probed { format: None, streams: vec![v] };
    let (_, info) = read_probe(&p, "f").unwrap();
    assert_eq!(info.duration_us, 2_500_000);
    assert!(info.vfr);
}

#[test]
fn rates_are_two_numbers() {
    assert_eq!(parse_rate("30/1"), Some((30, 1)));
    assert_eq!(parse_rate("30000/1001"), Some((30000, 1001)));
    for bad in ["30", "0/1", "30/0", "a/1", "30/-1", "4294967296/1", "/", "1/2/3"] {
        assert_eq!(parse_rate(bad), None, "{bad}");
    }
}

#[test]
fn media_errors_read_well() {
    let cases = [
        (MediaError::Spawn("ffmpeg".into(), "gone".into()), "could not run ffmpeg: gone"),
        (MediaError::Tool("ffprobe".into(), "bad".into()), "ffprobe failed: bad"),
        (MediaError::Parse("x".into()), "could not parse ffprobe output: x"),
        (MediaError::Unsupported("f".into()), "unsupported file or no streams: f"),
        (MediaError::Io("denied".into()), "io: denied"),
    ];
    for (e, text) in cases {
        assert_eq!(e.to_text(), text);
    }
    assert!(judge_tool("ffprobe", true, "warning").is_ok());
    assert_eq!(
        judge_tool("ffmpeg (conform)", false, " no \n").unwrap_err().to_text(),
        "ffmpeg (conform) failed: no"
    );
    assert_eq!(
        conform_args("v.mp4", "o.wav.tmp").join(" "),
        "-y -v error -i v.mp4 -vn -ac 2 -ar 48000 -c:a pcm_s16le -f wav o.wav.tmp"
    );
}

fn asset(kind: MediaKind, path: &str) -> MediaAsset {
    let probe = ProbeInfo {
        duration_us: 6 * SEC,
        fps: Some((30, 1)),
        width: 640,
        height: 360,
        rotation: 0,
        vcodec: None,
        acodec: None,
        audio_channels: 2,
        vfr: false,
    };
    new_asset(kind, path, "xxh3:0".into(), probe)
}

fn store_with(a: MediaAsset) -> (ProjectStore, Id, Id) {
    let mut project = Project::new("t");
    let seq_id = project.active_sequence;
    project.assets.push(a);
    let vtrack = project
        .sequence(seq_id)
        .unwrap()
        .tracks
        .iter()
        .find(|t| t.kind == TrackKind::Video)
        .unwrap()
        .id;
    (ProjectStore::new(project), seq_id, vtrack)
}

#[test]
fn resolve_maps_timeline_to_source_time() {
    let a = asset(MediaKind::Video, "media/video_a.mp4");
    let asset_id = a.id;
    let (mut store, seq_id, vtrack) = store_with(a);
    let clip = Clip::new_media(asset_id, 3 * SEC, 6 * SEC, 10 * SEC);
    store.insert_clip(vtrack, clip, InsertMode::Strict).unwrap();

    let r = resolve_top_video(&store.project, seq_id, 12 * SEC, &vec![]).unwrap();
    assert_eq!(r.src_t_us, 5 * SEC);
    assert!(r.asset_path.ends_with("video_a.mp4"));

    // outside the clip → None
    assert!(resolve_top_video(&store.project, seq_id, 1 * SEC, &vec![]).is_none());
    assert!(resolve_top_video(&store.project, seq_id, 20 * SEC, &vec![]).is_none());
}

#[test]
fn frames_come_from_the_proxy_where_it_is_there() {
    let mut a = asset(MediaKind::Video, "v.mp4");
    a.proxy = Some("cache/proxy.mp4".into());
    let asset_id = a.id;
    let (mut store, seq_id, vtrack) = store_with(a);
    store.insert_clip(vtrack, Clip::new_media(asset_id, 0, 4 * SEC, 0), InsertMode::Strict).unwrap();
    let there = vec!["cache/proxy.mp4".to_string()];
    let r = resolve_top_video(&store.project, seq_id, SEC, &there).unwrap();
    assert_eq!(r.asset_path, "cache/proxy.mp4");
    let r = resolve_top_video(&store.project, seq_id, SEC, &vec![]).unwrap();
    assert_eq!(r.asset_path, "v.mp4", "broken proxy → original");
}

#[test]
fn a_still_is_the_same_at_all_times() {
    let a = asset(MediaKind::Image, "p.png");
    assert_eq!(default_clip_duration(&a), IMAGE_CLIP_DURATION_US);
    assert_eq!(default_clip_duration(&asset(MediaKind::Video, "v.mp4")), 6 * SEC);
    let asset_id = a.id;
    let (mut store, seq_id, vtrack) = store_with(a);
    store.insert_clip(vtrack, Clip::new_media(asset_id, 0, 5 * SEC, 0), InsertMode::Strict).unwrap();
    let r = resolve_top_video(&store.project, seq_id, 4 * SEC, &vec![]).unwrap();
    assert_eq!((r.src_t_us, r.clip_rel_us), (0, 4 * SEC));
}

#[test]
fn one_frame_is_one_call() {
    let frame = ResolvedFrame {
        asset_path: "v.mp4".into(),
        src_t_us: 1_500_000,
        clip_rel_us: 0,
        speed: num(1.0),
        effects: vec![],
        transform: Transform2D::default(),
    };
    assert_eq!(
        frame_args(&frame, 960, "/base", None, false),
        [
            "-v", "error", "-ss", "1.500000", "-i", "/base/v.mp4", "-frames:v", "1", "-vf",
            "scale='min(960,iw)':-2", "-f", "image2", "-c:v", "mjpeg", "-q:v", "4", "pipe:1"
        ]
    );
    assert_eq!(frame_args(&frame, 960, "/base", Some("vflip"), false)[9], "vflip,scale='min(960,iw)':-2");
    assert_eq!(judge_frame(true, vec![1], "").unwrap(), Some(vec![1]));
    assert_eq!(judge_frame(true, vec![], "").unwrap(), None);
    assert_eq!(judge_frame(false, vec![], " bad ").unwrap_err().to_text(), "ffmpeg failed: bad");
}
