//! Exports: the plan of the call, its sound, its texts, and how it ends.

use ubereditor::action::Action;
use ubereditor::captions::{caption_phrases_for_test, transcript_phrases};
use ubereditor::export::{ExportError, ExportFormat, ExportSettings, FfmpegPlan};
use ubereditor::float::Real;
use ubereditor::fonts::Fonts;
use ubereditor::graph::{
    build_audio_only_args, build_ffmpeg_args, can_export, Script, Surroundings, TitleImage,
};
use ubereditor::ident::Id;
use ubereditor::model::{
    AudioProps, Clip, ClipPayload, EffectInstance, MediaAsset, MediaKind, ProbeInfo, Project, Segment,
    SubtitleMode, TextStyle, Track, TrackKind, TranscriptDoc, Transform2D, Word,
};
use ubereditor::ops::InsertMode;
use ubereditor::overlays::build_text_overlays;
use ubereditor::paths::denoised_path;
use ubereditor::pieces::restrict_to_ranges;
use ubereditor::render::{EffectDef, Labels, ParamDef, ParamKind};
use ubereditor::running::{
    at_end, at_line, describe_failure, keeps_command, read_progress, report_args, Ending, LineStep,
};
use ubereditor::store::ProjectStore;
use ubereditor::strmap::StrMap;
use ubereditor::transitions::{circle_mask, xfade_kind};

const SEC: i64 = 1_000_000;

fn num(x: f64) -> Real {
    Real { bits: x.to_bits() }
}

fn fake_asset(kind: MediaKind, path: &str, dur_s: i64, with_audio: bool) -> MediaAsset {
    MediaAsset {
        id: Id::new(),
        kind,
        path: path.into(),
        content_hash: format!("xxh3:{path}"),
        probe: ProbeInfo {
            duration_us: dur_s * SEC,
            fps: if kind == MediaKind::Video { Some((30, 1)) } else { None },
            width: if kind == MediaKind::Video { 640 } else { 0 },
            height: if kind == MediaKind::Video { 360 } else { 0 },
            rotation: 0,
            vcodec: None,
            acodec: None,
            audio_channels: if with_audio { 2 } else { 0 },
            vfr: false,
        },
        proxy: None,
        audio_conform: None,
        peaks: None,
        thumbnails: None,
        transcript: None,
        offline: false,
    }
}

fn no_fonts() -> Fonts {
    Fonts { db: fontdb::Database::new(), present: vec![], files: vec![] }
}

fn bare() -> Surroundings {
    Surroundings {
        core: vec![],
        drawn: vec![],
        denoised: vec![],
        titles: vec![],
        script: Script::Nothing,
        fonts: no_fonts(),
        windows: false,
    }
}

fn plan_with(store: &ProjectStore, seq: Id, s: &ExportSettings, env: &Surroundings) -> FfmpegPlan {
    build_ffmpeg_args(&store.project, seq, "/media", "/out.mp4", s, env, Labels::new()).unwrap()
}

/// Minimal timeline ready to export over counter.mp4.
fn simple_store() -> (ProjectStore, Id) {
    let mut project = Project::new("fx-test");
    let seq_id = project.active_sequence;
    let asset = fake_asset(MediaKind::Video, "counter.mp4", 8, true);
    let asset_id = asset.id;
    project.assets.push(asset);
    let v1 = project
        .sequence(seq_id)
        .unwrap()
        .tracks
        .iter()
        .find(|t| t.kind == TrackKind::Video)
        .unwrap()
        .id;
    let mut store = ProjectStore::new(project);
    store
        .insert_clip(v1, Clip::new_media(asset_id, 0, 4 * SEC, 0), InsertMode::Strict)
        .unwrap();
    (store, seq_id)
}

fn first_asset(store: &ProjectStore) -> Id {
    store.project.assets[0].id
}

fn subtitles(doc: Id, style: TextStyle, mode: SubtitleMode, duration: i64) -> Clip {
    Clip {
        id: Id::new(),
        payload: ClipPayload::Subtitles { transcript_id: doc, style, mode, max_words: None },
        start: 0,
        duration,
        speed: num(1.0),
        effects: vec![],
        transform: Transform2D::default(),
        audio: AudioProps::default(),
        transition_in: None,
        transition_out: None,
        label_color: None,
        name: None,
        group: None,
    }
}

#[test]
fn loudnorm_flag_appends_master_filter() {
    let (store, seq_id) = simple_store();
    let settings = ExportSettings { loudnorm: true, ..Default::default() };
    let plan = plan_with(&store, seq_id, &settings, &bare());
    let fc = plan.args.iter().find(|a| a.contains("amix")).unwrap();
    assert!(fc.contains("loudnorm=I=-14"), "graph with loudnorm: {fc}");
    let settings = ExportSettings::default();
    let plan = plan_with(&store, seq_id, &settings, &bare());
    let fc = plan.args.iter().find(|a| a.contains("amix")).unwrap();
    assert!(!fc.contains("loudnorm"), "without the flag there is no loudnorm: {fc}");
}

#[test]
fn denoise_flag_inserts_afftdn() {
    let (mut store, seq_id) = simple_store();
    let seq = store.project.sequences.iter_mut().find(|s| s.id == seq_id).unwrap();
    let clip = seq
        .tracks
        .iter_mut()
        .find(|t| t.kind == TrackKind::Video)
        .and_then(|t| t.clips.first_mut())
        .unwrap();
    clip.audio.denoise = true;
    let plan = plan_with(&store, seq_id, &ExportSettings::default(), &bare());
    let fc = plan.args.iter().find(|a| a.contains("amix")).unwrap();
    assert!(fc.contains("afftdn"), "denoise filter present: {fc}");
}

#[test]
fn denoised_wav_becomes_the_audio_input() {
    let (mut store, seq_id) = simple_store();
    let conform = "/cache/fake-conform.wav";
    let denoised = denoised_path(conform, false);
    {
        let seq = store.project.sequences.iter_mut().find(|s| s.id == seq_id).unwrap();
        let clip = seq
            .tracks
            .iter_mut()
            .find(|t| t.kind == TrackKind::Video)
            .and_then(|t| t.clips.first_mut())
            .unwrap();
        clip.audio.denoise = true;
    }
    store.project.assets[0].audio_conform = Some(conform.to_string());
    let mut env = bare();
    env.denoised = vec![denoised];
    let plan = plan_with(&store, seq_id, &ExportSettings::default(), &env);
    let args_s = plan.args.join(" ");
    assert!(args_s.contains("denoise.wav"), "the denoised wav is an ffmpeg input: {args_s}");
    let fc = plan.args.iter().find(|a| a.contains("amix")).unwrap();
    assert!(!fc.contains("afftdn"), "no inline fallback when the wav exists: {fc}");
}

#[test]
fn continuous_speech_chunks_into_multiple_captions() {
    let (mut store, seq_id) = simple_store(); // 4s clip
    let aid = first_asset(&store);
    // 20 words with no pauses inside ONE segment spanning the whole clip
    let words: Vec<Word> = (0..20)
        .map(|i| Word {
            text: format!("palabra{i:02}"),
            start_us: i * 200_000,
            end_us: i * 200_000 + 180_000,
            confidence: num(1.0),
            rejected: false,
            display: None,
        })
        .collect();
    let doc_id = Id::new();
    store.project.transcripts.push(TranscriptDoc {
        id: doc_id,
        asset_id: aid,
        language: "es".into(),
        model: "t".into(),
        words,
        segments: vec![Segment {
            text: "todo junto".into(),
            start_us: 0,
            end_us: 4 * SEC,
            word_range: (0, 20),
            emotion: None,
            volume_rms: num(0.0),
        }],
        global_avg_volume: num(0.0),
    });
    let seq = store.project.sequence_mut(seq_id).unwrap();
    seq.tracks.push(Track::new(TrackKind::Video, "V2"));
    let v2 = seq.tracks.last().unwrap().id;
    let style = TextStyle { size: num(60.0), y_offset: num(380.0), ..Default::default() };
    let subs = subtitles(doc_id, style, SubtitleMode::Phrase, 4 * SEC);
    store.insert_clip(v2, subs, InsertMode::Strict).unwrap();

    let seq = store.project.sequence(seq_id).unwrap();
    let fc = build_text_overlays(&store.project, seq, &no_fonts(), 1080, 1920, &vec![]).unwrap();
    let n = fc.matches("drawtext").count();
    assert!(n >= 3, "20 continuous words must yield several captions, got {n}");
    assert!(!fc.contains("todo junto"), "the giant segment text is not used");
}

#[test]
fn corrected_words_appear_in_captions() {
    let (mut store, seq_id) = simple_store();
    let aid = first_asset(&store);
    let doc_id = Id::new();
    let word = |text: &str, start_us: i64, end_us: i64| Word {
        text: text.into(),
        start_us,
        end_us,
        confidence: num(1.0),
        rejected: false,
        display: None,
    };
    store.project.transcripts.push(TranscriptDoc {
        id: doc_id,
        asset_id: aid,
        language: "es".into(),
        model: "t".into(),
        words: vec![word("uso", 100_000, 400_000), word("godo", 450_000, 800_000)],
        segments: vec![],
        global_avg_volume: num(0.0),
    });
    // correct via the action (undoable), like the command does
    store
        .dispatch(
            "Correct word",
            vec![Action::SetWordText {
                transcript_id: doc_id,
                index: 1,
                display: Some("godot".into()),
            }],
        )
        .unwrap();
    let seq = store.project.sequence_mut(seq_id).unwrap();
    seq.tracks.push(Track::new(TrackKind::Video, "V2"));
    let v2 = seq.tracks.last().unwrap().id;
    let subs = subtitles(doc_id, TextStyle::default(), SubtitleMode::Phrase, 2 * SEC);
    store.insert_clip(v2, subs, InsertMode::Strict).unwrap();
    let seq = store.project.sequence(seq_id).unwrap();
    let fc = build_text_overlays(&store.project, seq, &no_fonts(), 1080, 1920, &vec![]).unwrap();
    assert!(fc.contains("uso godot"), "corrected label burned: {fc}");
    // undo restores the original (first undo = the subs clip insert)
    store.undo().unwrap();
    store.undo().unwrap();
    assert_eq!(store.project.transcripts[0].words[1].label(), "godo");
}

#[test]
fn subtitles_respect_the_word_cap() {
    let asset_id = Id::new();
    let labels = ["uno", "dos", "tres", "cuatro", "cinco", "seis"];
    let words: Vec<Word> = labels
        .iter()
        .enumerate()
        .map(|(i, t)| Word {
            text: (*t).into(),
            start_us: i as i64 * 300_000,
            end_us: i as i64 * 300_000 + 250_000,
            confidence: num(1.0),
            rejected: false,
            display: None,
        })
        .collect();
    let doc = TranscriptDoc {
        id: Id::new(),
        asset_id,
        language: "es".into(),
        model: "t".into(),
        segments: vec![],
        words,
        global_avg_volume: num(0.0),
    };
    // no cap: the whole run fits one caption line at 64 chars
    let auto = transcript_phrases(&doc, 64);
    assert_eq!(auto.len(), 1, "without a cap it packs the line: {auto:?}");

    // the cap is what the UI/MCP write into the clip; check the chunker honours it
    let two = caption_phrases_for_test(&doc, 64, Some(2));
    assert_eq!(two.len(), 3, "6 words / 2 per line = 3 captions: {two:?}");
    assert_eq!(two[0].0, "uno dos");
    assert_eq!(two[1].0, "tres cuatro");
    assert_eq!(two[2].0, "cinco seis");

    let one = caption_phrases_for_test(&doc, 64, Some(1));
    assert_eq!(one.len(), 6, "one word per caption");
    assert_eq!(one[3].0, "cuatro");
}

#[test]
fn a_long_karaoke_transcript_no_longer_explodes_the_filtergraph() {
    // 20 minutes of dense speech: ~6000 words
    let asset = fake_asset(MediaKind::Video, "long.mp4", 1200, true);
    let aid = asset.id;
    let mut project = Project::new("kbig");
    let seq_id = project.active_sequence;
    project.sequence_mut(seq_id).unwrap().resolution = (640, 360);
    project.assets.push(asset);
    let words: Vec<Word> = (0..6000)
        .map(|i| Word {
            text: format!("palabra{i}"),
            start_us: i as i64 * 200_000,
            end_us: i as i64 * 200_000 + 180_000,
            confidence: num(1.0),
            rejected: false,
            display: None,
        })
        .collect();
    let doc = TranscriptDoc {
        id: Id::new(),
        asset_id: aid,
        language: "es".into(),
        model: "t".into(),
        segments: vec![],
        words,
        global_avg_volume: num(0.0),
    };
    let doc_id = doc.id;
    project.transcripts.push(doc);
    let seq = project.sequence_mut(seq_id).unwrap();
    seq.tracks.push(Track::new(TrackKind::Video, "V2"));
    let v1 = seq.tracks.iter().find(|t| t.name == "V1").unwrap().id;
    let v2 = seq.tracks.iter().find(|t| t.name == "V2").unwrap().id;
    let mut store = ProjectStore::new(project);
    store.insert_clip(v1, Clip::new_media(aid, 0, 1200 * SEC, 0), InsertMode::Strict).unwrap();
    let style = TextStyle {
        size: num(40.0),
        highlight_color: Some("#FFB224".into()),
        ..Default::default()
    };
    let sub = subtitles(doc_id, style, SubtitleMode::Karaoke, 1200 * SEC);
    store.insert_clip(v2, sub, InsertMode::Strict).unwrap();

    let mut env = bare();
    env.script = Script::Written { path: "/tmp/s.ass".into(), filter: "ass=/tmp/s.ass".into() };
    let plan = plan_with(&store, seq_id, &ExportSettings::default(), &env);
    let graph_len =
        plan.args.iter().find(|a| a.contains("[vout]")).map(|a| a.len()).unwrap_or(0);
    assert!(graph_len > 0);
    assert!(graph_len < 20_000, "the graph does not scale with the transcript ({graph_len} bytes)");
    assert_eq!(plan.subs_file.expect("an ASS script was written"), "/tmp/s.ass");
}

#[test]
fn a_plain_export_is_one_call() {
    let (store, seq_id) = simple_store();
    let plan = plan_with(&store, seq_id, &ExportSettings::default(), &bare());
    assert_eq!(plan.args[..5], ["-y", "-v", "error", "-i", "/media/counter.mp4"]);
    assert_eq!(plan.args.last().unwrap(), "/out.mp4");
    assert_eq!(plan.duration_us, 4 * SEC);
    let text = plan.args.join(" ");
    for part in ["-c:v libx264", "-preset veryfast", "-crf 18", "-c:a aac", "-b:a 256k"] {
        assert!(text.contains(part), "{part} in {text}");
    }
    // seeks are inputs of their own
    let (mut store, seq_id) = simple_store();
    let seq = store.project.sequence_mut(seq_id).unwrap();
    let track = seq.tracks.iter_mut().find(|t| t.kind == TrackKind::Video).unwrap();
    track.clips[0].payload = match &track.clips[0].payload {
        ClipPayload::Media { asset_id, .. } => {
            ClipPayload::Media { asset_id: *asset_id, src_in: 2 * SEC, src_out: 6 * SEC }
        }
        _ => panic!("not media"),
    };
    let plan = plan_with(&store, seq_id, &ExportSettings::default(), &bare());
    assert!(plan.args.join(" ").contains("-ss 2.000000 -i /media/counter.mp4"));
}

#[test]
fn paths_with_the_same_parts_are_one_input() {
    let (mut store, seq_id) = simple_store();
    let v1 = store.project.sequence(seq_id).unwrap().tracks[1].id;
    for (k, path) in [".//counter.mp4", "x//y.mp4", "x/./y.mp4"].iter().enumerate() {
        let asset = fake_asset(MediaKind::Video, path, 8, true);
        let id = asset.id;
        store.project.assets.push(asset);
        store
            .insert_clip(
                v1,
                Clip::new_media(id, 0, 4 * SEC, 4 * SEC * (k as i64 + 1)),
                InsertMode::Strict,
            )
            .unwrap();
    }
    let plan = plan_with(&store, seq_id, &ExportSettings::default(), &bare());
    let inputs: Vec<&String> =
        plan.args.iter().enumerate().filter(|(i, _)| *i > 0 && plan.args[i - 1] == "-i").map(|(_, a)| a).collect();
    assert_eq!(inputs, ["/media/counter.mp4", "/media/x//y.mp4"]);
    let alone = build_audio_only_args(
        &store.project,
        seq_id,
        "/media",
        "/out.m4a",
        &ExportSettings::default(),
        &vec![],
        false,
    )
    .unwrap();
    assert_eq!(alone.args.iter().filter(|a| *a == "-i").count(), 2);
    // on Windows a backslash parts a path too
    for a in &mut store.project.assets {
        a.path = a.path.replace('/', "\\");
    }
    let mut env = bare();
    let plan = plan_with(&store, seq_id, &ExportSettings::default(), &env);
    assert_eq!(plan.args.iter().filter(|a| *a == "-i").count(), 4);
    env.windows = true;
    let plan =
        build_ffmpeg_args(&store.project, seq_id, "C:\\m", "o.mp4", &ExportSettings::default(), &env, Labels::new())
            .unwrap();
    assert_eq!(plan.args.iter().filter(|a| *a == "-i").count(), 2);
    assert_eq!(plan.args[4], "C:\\m\\counter.mp4");
}

#[test]
fn only_effects_in_use_have_to_fit() {
    let (mut store, seq_id) = simple_store();
    let mut env = bare();
    let kind = ParamKind::Float { default: num(1.0), min: num(2.0), max: num(1.0) };
    env.core.push(EffectDef {
        id: "odd".into(),
        name: "Odd".into(),
        category: "x".into(),
        params: vec![ParamDef { key: "k".into(), label: None, kind }],
        ffmpeg: "odd={k}".into(),
        notes: None,
    });
    let kind = ParamKind::Color { default: "none".into() };
    env.core.push(EffectDef {
        id: "tint".into(),
        name: "Tint".into(),
        category: "x".into(),
        params: vec![ParamDef { key: "c".into(), label: None, kind }],
        ffmpeg: "tint={c}".into(),
        notes: None,
    });
    let s = ExportSettings::default();
    assert!(can_export(&store.project, seq_id, &s, &env));
    plan_with(&store, seq_id, &s, &env);
    let mut colors = StrMap::new();
    colors.insert("c".to_string(), "#102030".to_string());
    let on = |id: &str, color_params: StrMap<String>, enabled: bool| EffectInstance {
        effect_id: id.into(),
        enabled,
        params: StrMap::new(),
        color_params,
    };
    store.project.sequence_mut(seq_id).unwrap().tracks[1].clips[0].effects =
        vec![on("odd", StrMap::new(), false), on("tint", colors, true), on("gone", StrMap::new(), true)];
    assert!(can_export(&store.project, seq_id, &s, &env));
    let plan = plan_with(&store, seq_id, &s, &env);
    assert!(plan.args.join(" ").contains("tint=0x102030"), "{:?}", plan.args);
    store.project.sequence_mut(seq_id).unwrap().tracks[1].clips[0].effects =
        vec![on("tint", StrMap::new(), true)];
    assert!(!can_export(&store.project, seq_id, &s, &env));
    store.project.sequence_mut(seq_id).unwrap().tracks[1].clips[0].effects =
        vec![on("odd", StrMap::new(), true)];
    assert!(!can_export(&store.project, seq_id, &s, &env));
    // sound alone needs none of them, and neither does a range without the clip
    let sound = ExportSettings { format: ExportFormat::M4a, ..ExportSettings::default() };
    assert!(can_export(&store.project, seq_id, &sound, &env));
    store.project.sequence_mut(seq_id).unwrap().tracks[1].muted = true;
    assert!(can_export(&store.project, seq_id, &s, &env));
}

#[test]
fn formats_shape_the_call() {
    let (store, seq_id) = simple_store();
    let gif = ExportSettings { format: ExportFormat::Gif, ..Default::default() };
    let text = plan_with(&store, seq_id, &gif, &bare()).args.join(" ");
    assert!(text.contains("palettegen") && text.contains("-an"), "{text}");
    let m4a = ExportSettings { format: ExportFormat::M4a, ..Default::default() };
    let text = plan_with(&store, seq_id, &m4a, &bare()).args.join(" ");
    assert!(text.contains("-vn") && text.contains("aac"), "{text}");
    // of a range only its own material is heard
    let ranged = ExportSettings {
        format: ExportFormat::M4a,
        range: Some((SEC, 2 * SEC)),
        ..Default::default()
    };
    let plan = plan_with(&store, seq_id, &ranged, &bare());
    assert_eq!(plan.duration_us, SEC);
    let text = plan.args.join(" ");
    assert!(text.contains("atrim=start=1.000000:end=2.000000"), "{text}");
    assert!(!text.contains("aoutr"), "nothing is trimmed twice: {text}");
}

/// range=[1s,3s) lasts 2 s, and starts in the material at 1 s.
#[test]
fn range_export_trims_master() {
    let (store, seq_id) = simple_store(); // 4 s clip
    let settings = ExportSettings { range: Some((1 * SEC, 3 * SEC)), ..Default::default() };
    let plan = plan_with(&store, seq_id, &settings, &bare());
    let dur = plan.duration_us as f64 / 1e6;
    assert!((1.9..=2.2).contains(&dur), "2 s range, was {dur}");
    let text = plan.args.join(" ");
    assert!(text.contains("-ss 1.000000 -i /media/counter.mp4"), "{text}");
    assert!(text.contains("-c:a aac"), "with sound: {text}");
    let whole = plan_with(&store, seq_id, &ExportSettings::default(), &bare());
    assert_ne!(whole.args, plan.args);
    assert_eq!(whole.duration_us, 4 * SEC);
}

/// Several pieces, one behind the other, with sound: the duration is the sum of
/// the pieces, and each shows its own material.
#[test]
fn multi_range_export_concatenates_pieces() {
    let (store, seq_id) = simple_store();
    let pieces = vec![(0, 1 * SEC), (2 * SEC, 3 * SEC), (3 * SEC, 4 * SEC)];
    let settings = ExportSettings { ranges: pieces.clone(), ..Default::default() };
    let plan = plan_with(&store, seq_id, &settings, &bare());
    let dur = plan.duration_us as f64 / 1e6;
    assert!((2.9..=3.2).contains(&dur), "3 pieces of 1 s each, got {dur}");
    assert!(plan.args.join(" ").contains("-c:a aac"), "audio survived the concat");
    assert!(plan.args.join(" ").contains("-c:v libx264"));

    // the second output second must show master t≈2s, not t≈1s
    let cut = restrict_to_ranges(&store.project, seq_id, &pieces);
    let track = cut.sequence(seq_id).unwrap().tracks.iter().find(|t| !t.clips.is_empty()).unwrap();
    let shown: Vec<(i64, i64, i64, i64)> = track
        .clips
        .iter()
        .map(|c| match c.payload {
            ClipPayload::Media { src_in, src_out, .. } => (c.start, c.duration, src_in, src_out),
            _ => panic!("not media"),
        })
        .collect();
    assert_eq!(
        shown,
        [(0, SEC, 0, SEC), (SEC, SEC, 2 * SEC, 3 * SEC), (2 * SEC, SEC, 3 * SEC, 4 * SEC)]
    );
}

/// A single entry in `ranges` behaves exactly like the `range` shorthand.
#[test]
fn single_range_in_ranges_matches_shorthand() {
    let (store, seq_id) = simple_store();
    let settings = ExportSettings { ranges: vec![(1 * SEC, 3 * SEC)], ..Default::default() };
    let plan = plan_with(&store, seq_id, &settings, &bare());
    let dur = plan.duration_us as f64 / 1e6;
    assert!((1.9..=2.2).contains(&dur), "2 s piece, got {dur}");
    let short = ExportSettings { range: Some((1 * SEC, 3 * SEC)), ..Default::default() };
    assert_eq!(plan_with(&store, seq_id, &short, &bare()).args, plan.args);
    // the list comes before the shorthand
    let both = ExportSettings { range: Some((0, SEC)), ..settings };
    assert_eq!(plan_with(&store, seq_id, &both, &bare()).args, plan.args);
}

#[test]
fn ranges_keep_to_the_timeline() {
    let (store, seq_id) = simple_store();
    let cut = |pieces: Vec<(i64, i64)>| {
        let p = restrict_to_ranges(&store.project, seq_id, &pieces);
        let track = p.sequence(seq_id).unwrap().tracks.iter().find(|t| !t.clips.is_empty());
        track.map(|t| t.clips.iter().map(|c| (c.start, c.duration)).collect::<Vec<_>>())
    };
    // all of it, and past its end
    assert_eq!(cut(vec![(0, 4 * SEC)]), Some(vec![(0, 4 * SEC)]));
    assert_eq!(cut(vec![(-SEC, 9 * SEC)]), Some(vec![(0, 4 * SEC)]));
    assert_eq!(cut(vec![(3 * SEC, 9 * SEC), (0, SEC)]), Some(vec![(0, SEC), (SEC, SEC)]));
    // in any order, and twice
    assert_eq!(cut(vec![(2 * SEC, 3 * SEC), (2 * SEC, 3 * SEC)]), Some(vec![(0, SEC), (SEC, SEC)]));
    // an empty range holds nothing
    assert_eq!(cut(vec![(3 * SEC, SEC)]), None);
    let empty = ExportSettings { range: Some((9 * SEC, 10 * SEC)), ..Default::default() };
    let r = build_ffmpeg_args(
        &store.project, seq_id, "/media", "/out.mp4", &empty, &bare(), Labels::new(),
    );
    assert!(matches!(r, Err(ExportError::EmptyTimeline)));
    let missing = build_ffmpeg_args(
        &store.project, Id::new(), "/media", "/out.mp4", &empty, &bare(), Labels::new(),
    );
    assert!(matches!(missing, Err(ExportError::NoSequence(_))));
}

#[test]
fn titles_are_laid_over_the_picture() {
    let (mut store, seq_id) = simple_store();
    let seq = store.project.sequence_mut(seq_id).unwrap();
    seq.tracks.push(Track::new(TrackKind::Video, "V2"));
    let v2 = seq.tracks.last().unwrap().id;
    let title = Clip::new_text("Hola", SEC, SEC);
    let id = title.id;
    store.insert_clip(v2, title, InsertMode::Strict).unwrap();
    let mut env = bare();
    env.titles = vec![TitleImage { clip_id: id, file: Ok("/tmp/t.png".into()) }];
    let plan = plan_with(&store, seq_id, &ExportSettings::default(), &env);
    assert!(plan.args.iter().any(|a| a == "/tmp/t.png"));
    assert_eq!(plan.temp_files, ["/tmp/t.png"]);
    assert!(plan.args.iter().any(|a| a.contains("between(t,1.000000,2.000000)")));
    env.titles[0].file = Err("no font".into());
    let r = build_ffmpeg_args(
        &store.project,
        seq_id,
        "/media",
        "/out.mp4",
        &ExportSettings::default(),
        &env,
        Labels::new(),
    );
    assert_eq!(r.unwrap_err().to_text(), "ffmpeg failed:\ncould not render the title: no font");
}

#[test]
fn scripts_that_fail_stop_the_export() {
    let (store, seq_id) = simple_store();
    let mut env = bare();
    env.script = Script::Failed("disk full".into());
    let settings = ExportSettings::default();
    let r = build_ffmpeg_args(&store.project, seq_id, "/m", "/o", &settings, &env, Labels::new());
    match r {
        Err(ExportError::Ffmpeg(m)) => assert_eq!(m, "could not write the subtitles: disk full"),
        other => panic!("{other:?}"),
    }
    let nowhere = Id::new();
    let r = build_ffmpeg_args(&store.project, nowhere, "/m", "/o", &settings, &env, Labels::new());
    assert!(matches!(r, Err(ExportError::NoSequence(id)) if id == nowhere));
}

#[test]
fn transitions_have_kinds_and_masks() {
    assert_eq!(xfade_kind("core.crossfade"), "fade");
    assert_eq!(xfade_kind("what is this"), "fade");
    assert!(circle_mask("circleopen", "0.5", false).is_some());
    assert!(circle_mask("fade", "0.5", false).is_none());
}

#[test]
fn errors_read_well() {
    let id = Id { value: 1 };
    assert_eq!(
        ExportError::NoSequence(id).to_text(),
        "sequence 00000000000000000000000001 does not exist"
    );
    assert_eq!(
        ExportError::MissingAsset(id).to_text(),
        "asset 00000000000000000000000001 does not exist in the pool"
    );
    assert_eq!(ExportError::EmptyTimeline.to_text(), "nothing to export (empty timeline)");
    assert_eq!(ExportError::Spawn("gone".into()).to_text(), "could not run ffmpeg: gone");
    assert_eq!(ExportError::Cancelled.to_text(), "export cancelled");
}

#[test]
fn a_report_tells_how_far_it_is() {
    assert_eq!(read_progress("out_time_us=2000000", 4 * SEC), Some(num(0.5)));
    assert_eq!(read_progress("out_time_us= 9000000 ", 4 * SEC), Some(num(1.0)));
    assert_eq!(read_progress("out_time_us=-5", 4 * SEC), Some(num(0.0)));
    assert_eq!(read_progress("out_time_us=N/A", 4 * SEC), None);
    assert_eq!(read_progress("frame=12", 4 * SEC), None);
    let exact = (1_234_567_i64 as f32) / (7_654_321_i64 as f32);
    assert_eq!(read_progress("out_time_us=1234567", 7_654_321), Some(num(exact as f64)));
    assert!(matches!(at_line(false, "out_time_us=1", 1), LineStep::Report(x) if x == num(1.0)));
    assert!(matches!(at_line(false, "speed=1x", 1), LineStep::Go));
    // reports do not fall where the times do not
    let mut before = 0.0;
    for us in (0..9_000_000).step_by(7919) {
        let x = read_progress(&format!("out_time_us={us}"), 7_654_321).unwrap();
        let now = f64::from_bits(x.bits);
        assert!(before <= now && now <= 1.0, "{us}: {before} {now}");
        before = now;
    }
    assert!(matches!(at_line(true, "out_time_us=1", 1), LineStep::Abort));
    let (store, seq_id) = simple_store();
    let plan = plan_with(&store, seq_id, &ExportSettings::default(), &bare());
    let args = report_args(&plan);
    assert_eq!(args[..3], ["-progress", "pipe:1", "-nostats"]);
    assert_eq!(args[3..], plan.args[..]);
}

#[test]
fn an_export_ends_well_or_says_why() {
    let args: Vec<String> = vec!["-filter_complex".into(), "año".into(), "o.mp4".into()];
    let last = at_end(false, Ending::Code(0), "warning", &args, "f").unwrap();
    assert_eq!(last, num(1.0), "the last report says that all is done");
    assert!(matches!(at_end(true, Ending::Code(0), "", &args, "f"), Err(ExportError::Cancelled)));
    match at_end(false, Ending::Code(1), " bad filter \n", &args, "f") {
        Err(ExportError::Ffmpeg(m)) => assert_eq!(m, "exit code 1:\nbad filter"),
        other => panic!("{other:?}"),
    }
    assert_eq!(
        describe_failure(Ending::Signal(11), "", &args, "/tmp/c.txt"),
        "killed by signal 11 — a crash; the filtergraph may be too large; no stderr. \
         filter_complex is 4 bytes; full command written to /tmp/c.txt"
    );
    assert!(describe_failure(Ending::Unknown, "", &vec![], "f").starts_with("terminated abnormally"));
    assert!(keeps_command(Ending::Signal(9), " \n"));
    assert!(!keeps_command(Ending::Code(0), ""));
    assert!(!keeps_command(Ending::Code(1), "said"));
}
