//! Paused frames: the call of ffmpeg that composes them.

use ubereditor::edl::Drawn;
use ubereditor::export::{ExportError, ExportResult};
use ubereditor::float::Real;
use ubereditor::fonts::Fonts;
use ubereditor::graph::{Script, Surroundings, TitleImage};
use ubereditor::ident::Id;
use ubereditor::model::{
    Clip, ClipPayload, EffectInstance, MediaAsset, MediaKind, ProbeInfo, Project, Track, TrackKind,
    TransitionRef,
};
use ubereditor::ops::InsertMode;
use ubereditor::preview::{
    can_preview, describe_timeout, judge_frame, plan_preview_frame, FramePlan,
};
use ubereditor::render::{EffectDef, Labels, ParamDef, ParamKind};
use ubereditor::store::ProjectStore;
use ubereditor::strmap::StrMap;

const SEC: i64 = 1_000_000;

fn num(x: f64) -> Real {
    Real { bits: x.to_bits() }
}

fn asset(kind: MediaKind, path: &str, dur_s: i64) -> MediaAsset {
    MediaAsset {
        id: Id::new(),
        kind,
        path: path.into(),
        content_hash: "h".into(),
        probe: ProbeInfo {
            duration_us: dur_s * SEC,
            fps: None,
            width: 640,
            height: 360,
            rotation: 0,
            vcodec: None,
            acodec: None,
            audio_channels: 0,
            vfr: false,
        },
        proxy: None,
        audio_conform: None,
        peaks: None,
        thumbnails: None,
        transcript: None,
        offline: false,
    }
}

fn bare() -> Surroundings {
    Surroundings {
        core: vec![],
        drawn: vec![],
        denoised: vec![],
        titles: vec![],
        script: Script::Nothing,
        fonts: Fonts { db: fontdb::Database::new(), present: vec![], files: vec![] },
        windows: false,
    }
}

/// A sequence of 640 by 360 at 30 frames with two video tracks, and two assets.
fn fixture() -> (ProjectStore, Id, Id, Id, Id, Id) {
    let mut p = Project::new("t");
    let seq_id = p.active_sequence;
    let a = asset(MediaKind::Video, "a.mp4", 10);
    let b = asset(MediaKind::Image, "b.png", 0);
    let (aid, bid) = (a.id, b.id);
    p.assets.push(a);
    p.assets.push(b);
    let seq = p.sequence_mut(seq_id).unwrap();
    seq.resolution = (640, 360);
    seq.fps = (30, 1);
    seq.tracks.push(Track::new(TrackKind::Video, "V2"));
    let v1 = seq.tracks.iter().find(|t| t.name == "V1").unwrap().id;
    let v2 = seq.tracks.iter().find(|t| t.name == "V2").unwrap().id;
    (ProjectStore::new(p), seq_id, v1, v2, aid, bid)
}

fn plan(store: &ProjectStore, seq: Id, t: i64, env: &Surroundings) -> ExportResult<Option<FramePlan>> {
    plan_preview_frame(&store.project, seq, "/m", t, 960, &vec![], env, Labels::new())
}

fn graph_of(p: &FramePlan) -> String {
    let i = p.args.iter().position(|a| a == "-filter_complex").unwrap();
    p.args[i + 1].clone()
}

const NORM: &str = "fps=30/1,scale=640:360:force_original_aspect_ratio=decrease,\
pad=640:360:(ow-iw)/2:(oh-ih)/2,setsar=1,format=yuv420p";

#[test]
fn nothing_on_screen_is_no_frame() {
    let (store, seq, ..) = fixture();
    assert!(plan(&store, seq, 0, &bare()).unwrap().is_none());
    let nowhere = Id::new();
    assert!(matches!(plan(&store, nowhere, 0, &bare()), Err(ExportError::NoSequence(id)) if id == nowhere));
}

#[test]
fn a_base_clip_fills_the_frame() {
    let (mut store, seq, v1, _v2, a, _b) = fixture();
    store.insert_clip(v1, Clip::new_media(a, 2 * SEC, 6 * SEC, SEC), InsertMode::Strict).unwrap();
    let p = plan(&store, seq, 2 * SEC, &bare()).unwrap().unwrap();
    assert_eq!(p.args[..6], ["-v", "error", "-ss", "3.000000", "-i", "/m/a.mp4"]);
    assert_eq!(
        graph_of(&p),
        format!("[0:v]{NORM}[c0];[c0]scale='min(960,iw)':-2[out]")
    );
    let tail: Vec<&str> = p.args[8..].iter().map(|a| a.as_str()).collect();
    assert_eq!(
        tail,
        ["-map", "[out]", "-frames:v", "1", "-f", "image2", "-c:v", "mjpeg", "-q:v", "4", "pipe:1"]
    );
    store.project.assets.clear();
    assert!(matches!(plan(&store, seq, 2 * SEC, &bare()), Err(ExportError::MissingAsset(id)) if id == a));
}

#[test]
fn only_effects_of_the_frame_have_to_fit() {
    let (mut store, seq, v1, _v2, a, _b) = fixture();
    store.insert_clip(v1, Clip::new_media(a, 0, 2 * SEC, 0), InsertMode::Strict).unwrap();
    let mut late = Clip::new_media(a, 2 * SEC, 4 * SEC, 2 * SEC);
    late.effects.push(EffectInstance {
        effect_id: "odd".into(),
        enabled: true,
        params: StrMap::new(),
        color_params: StrMap::new(),
    });
    store.insert_clip(v1, late, InsertMode::Strict).unwrap();
    let kind = ParamKind::Float { default: num(1.0), min: num(2.0), max: num(1.0) };
    let packs = vec![EffectDef {
        id: "odd".into(),
        name: "Odd".into(),
        category: "x".into(),
        params: vec![ParamDef { key: "k".into(), label: None, kind }],
        ffmpeg: "odd={k}".into(),
        notes: None,
    }];
    assert!(can_preview(&store.project, seq, SEC, &packs, &bare()));
    assert!(!can_preview(&store.project, seq, 3 * SEC, &packs, &bare()));
    assert!(can_preview(&store.project, seq, 3 * SEC, &vec![], &bare()));
    let p = plan_preview_frame(&store.project, seq, "/m", SEC, 960, &packs, &bare(), Labels::new());
    assert!(p.unwrap().is_some());
    // in the transition both sides are needed
    store.project.sequence_mut(seq).unwrap().tracks[1].clips[1].transition_in =
        Some(TransitionRef { effect_id: "fade".into(), duration: SEC, params: StrMap::new() });
    assert!(!can_preview(&store.project, seq, 2 * SEC - SEC / 4, &packs, &bare()));
}

#[test]
fn a_layer_over_a_gap_goes_over_black() {
    let (mut store, seq, v1, v2, a, b) = fixture();
    store.insert_clip(v1, Clip::new_media(a, 0, SEC, 0), InsertMode::Strict).unwrap();
    store.insert_clip(v2, Clip::new_media(b, 0, 4 * SEC, 0), InsertMode::Strict).unwrap();
    let p = plan(&store, seq, 3 * SEC, &bare()).unwrap().unwrap();
    assert_eq!(p.args[2..8], ["-loop", "1", "-ss", "0.000000", "-i", "/m/b.png"]);
    assert_eq!(
        graph_of(&p),
        "color=c=black:s=640x360:d=1,format=yuv420p[c0];\
         [0:v]scale='min(640,iw)':'min(360,ih)':force_original_aspect_ratio=decrease,format=rgba[l0];\
         [c0][l0]overlay=x=(W-w)/2:y=(H-h)/2:eof_action=pass[c1];\
         [c1]scale='min(960,iw)':-2[out]"
    );
}

#[test]
fn generators_need_no_input() {
    let (mut store, seq, v1, ..) = fixture();
    let mut clip = Clip::new_text("", 0, 2 * SEC);
    clip.payload = ClipPayload::Generator {
        generator_id: "solid".into(),
        params: StrMap::new(),
        color_params: StrMap::new(),
    };
    let id = clip.id;
    store.insert_clip(v1, clip, InsertMode::Strict).unwrap();
    let mut env = bare();
    env.drawn = vec![Drawn { clip_id: id, duration: 2 * SEC, source: "color=red:d=2".into() }];
    let p = plan(&store, seq, SEC, &env).unwrap().unwrap();
    assert_eq!(graph_of(&p), format!("color=red:d=2,{NORM}[c0];[c0]scale='min(960,iw)':-2[out]"));
}

#[test]
fn a_transition_of_the_base_runs_as_in_the_export() {
    let (mut store, seq, v1, _v2, a, _b) = fixture();
    store.insert_clip(v1, Clip::new_media(a, 0, 2 * SEC, 0), InsertMode::Strict).unwrap();
    let mut second = Clip::new_media(a, 4 * SEC, 6 * SEC, 2 * SEC);
    second.transition_in = Some(TransitionRef {
        effect_id: "core.wipeleft".into(),
        duration: SEC,
        params: StrMap::new(),
    });
    store.insert_clip(v1, second, InsertMode::Strict).unwrap();
    let p = plan(&store, seq, 2 * SEC, &bare()).unwrap().unwrap();
    assert_eq!(
        graph_of(&p),
        format!(
            "[0:v]{NORM}[xs0];\
             [xs0]settb=AVTB,loop=loop=32:size=1:start=0,setpts=N/(30/1)/TB[xl0];\
             [1:v]{NORM}[xs1];\
             [xs1]settb=AVTB,loop=loop=32:size=1:start=0,setpts=N/(30/1)/TB[xl1];\
             [xl0][xl1]xfade=transition=wipeleft:duration=1.000000:offset=0[xfo];\
             [xfo]trim=start=0.500000,setpts=PTS-STARTPTS[c0];\
             [c0]scale='min(960,iw)':-2[out]"
        )
    );
}

#[test]
fn clips_apart_do_not_cross() {
    let (mut store, seq, v1, _v2, a, _b) = fixture();
    store.insert_clip(v1, Clip::new_media(a, 0, 2 * SEC, 0), InsertMode::Strict).unwrap();
    let mut second = Clip::new_media(a, 4 * SEC, 6 * SEC, 2 * SEC + 1);
    second.transition_in = Some(TransitionRef {
        effect_id: "core.wipeleft".into(),
        duration: SEC,
        params: StrMap::new(),
    });
    store.insert_clip(v1, second, InsertMode::Strict).unwrap();
    let g = graph_of(&plan(&store, seq, 2 * SEC + 100_000, &bare()).unwrap().unwrap());
    assert!(!g.contains("[xl0]"), "{g}");
}

#[test]
fn an_entrance_comes_from_black() {
    let (mut store, seq, v1, _v2, a, _b) = fixture();
    let mut clip = Clip::new_media(a, 0, 4 * SEC, 0);
    clip.transition_in = Some(TransitionRef {
        effect_id: "core.crossfade".into(),
        duration: SEC,
        params: StrMap::new(),
    });
    store.insert_clip(v1, clip, InsertMode::Strict).unwrap();
    let g = graph_of(&plan(&store, seq, SEC / 4, &bare()).unwrap().unwrap());
    assert!(g.contains("color=black:s=640x360:r=30/1:d=1,format=yuv420p,settb=AVTB"), "{g}");
    assert!(g.contains("[eb0t][eb0s]xfade=transition=fade:duration=1.000000:offset=0[eb0x]"), "{g}");
    assert!(g.contains("[eb0x]trim=start=0.250000,setpts=PTS-STARTPTS[c0]"), "{g}");
    // once it is over, nothing is left of it
    let g = graph_of(&plan(&store, seq, 2 * SEC, &bare()).unwrap().unwrap());
    assert!(!g.contains("xfade"), "{g}");
}

#[test]
fn titles_and_scripts_go_on_top() {
    let (mut store, seq, v1, v2, a, _b) = fixture();
    store.insert_clip(v1, Clip::new_media(a, 0, 4 * SEC, 0), InsertMode::Strict).unwrap();
    let title = Clip::new_text("Hola", 0, 2 * SEC);
    let id = title.id;
    store.insert_clip(v2, title, InsertMode::Strict).unwrap();
    let mut env = bare();
    env.titles = vec![TitleImage { clip_id: id, file: Ok("/tmp/t.png".into()) }];
    env.script = Script::Written { path: "/tmp/s.ass".into(), filter: "ass=/tmp/s.ass".into() };
    let p = plan(&store, seq, SEC, &env).unwrap().unwrap();
    assert_eq!(p.temp_files, ["/tmp/t.png"]);
    assert_eq!(p.subs_file.as_deref(), Some("/tmp/s.ass"));
    assert!(p.args.join(" ").contains("-loop 1 -i /tmp/t.png"));
    let g = graph_of(&p);
    assert!(g.contains("[1:v]format=rgba[tl0]"), "{g}");
    assert!(
        g.contains("[tc0]setpts=PTS+1.000000/TB,ass=/tmp/s.ass,setpts=PTS-STARTPTS[txt]"),
        "{g}"
    );
    assert!(g.ends_with("[txt]scale='min(960,iw)':-2[out]"), "{g}");
    // a title that could not be drawn is left out
    env.titles[0].file = Err("no font".into());
    let p = plan(&store, seq, SEC, &env).unwrap().unwrap();
    assert!(p.temp_files.is_empty());
    // a script that could not be written stops the frame
    env.script = Script::Failed("disk full".into());
    match plan(&store, seq, SEC, &env) {
        Err(ExportError::Ffmpeg(m)) => assert_eq!(m, "could not write the subtitles: disk full"),
        other => panic!("{other:?}"),
    }
}

#[test]
fn a_frame_is_its_bytes_or_a_complaint() {
    assert_eq!(judge_frame(true, vec![1, 2], "").unwrap(), Some(vec![1, 2]));
    assert_eq!(judge_frame(true, vec![], "").unwrap(), None);
    assert_eq!(judge_frame(false, vec![1], " no \n").unwrap_err().to_text(), "ffmpeg failed:\nno");
    assert_eq!(
        describe_timeout(20),
        "the preview frame took longer than 20s and was killed"
    );
    assert_eq!(num(1.0).bits, 1.0f64.to_bits());
}
