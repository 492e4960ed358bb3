//! Voices, engines and the commands that make them speak.

use ubereditor::denoise::{env_step, EnvEvent, EnvStep, EnvTrouble, Machine};
use ubereditor::float::Real;
use ubereditor::tts::{
    admit_engine, espeak_library, judge_kokoro, judge_speech, kokoro_args, kokoro_availability,
    kokoro_import_args, kokoro_install_args, kokoro_python, kokoro_trouble, kokoro_voices,
    parse_say_voices, registry, say_args, say_availability, say_available, say_rate, which,
    CommandEngine, Engine, EngineManifest, KokoroStep, RateSpec, TtsVoice,
};

fn num(x: f64) -> Real {
    Real { bits: x.to_bits() }
}

fn manifest(id: &str, argv: &[&str]) -> EngineManifest {
    EngineManifest {
        id: id.into(),
        name: id.to_uppercase(),
        ext: "wav".into(),
        argv: argv.iter().map(|a| a.to_string()).collect(),
        voices: vec![],
        rate: None,
        stdin_text: false,
    }
}

fn engine(id: &str, argv: &[&str]) -> CommandEngine {
    CommandEngine { manifest: manifest(id, argv) }
}

fn machine(variable: Option<&str>, env_dir: Option<&str>, present: &[&str]) -> Machine {
    Machine {
        variable: variable.map(|v| v.to_string()),
        env_dir: env_dir.map(|v| v.to_string()),
        home: None,
        windows: false,
        present: present.iter().map(|p| p.to_string()).collect(),
    }
}

#[test]
fn parses_say_voice_listing() {
    let fixture = "\
Albert              en_US    # Hello! My name is Albert.
Amélie              fr_CA    # Bonjour! Je m’appelle Amélie.
Bad News            en_US    # Hello! My name is Bad News.
Eddy (Spanish (Mexico)) es_MX # ¡Hola! Me llamo Eddy.
";
    let voices = parse_say_voices(fixture);
    assert_eq!(voices.len(), 4);
    assert_eq!(voices[0].id, "Albert");
    assert_eq!(voices[0].lang, "en_US");
    // spaces inside the name survive
    assert_eq!(voices[2].id, "Bad News");
    assert_eq!(voices[2].lang, "en_US");
    // parenthesised variants keep the trailing locale
    assert_eq!(voices[3].id, "Eddy (Spanish (Mexico))");
    assert_eq!(voices[3].lang, "es_MX");
}

#[test]
fn voice_lines_without_a_language_are_skipped() {
    assert_eq!(parse_say_voices("").len(), 0);
    assert_eq!(parse_say_voices("Albert\n\n   # nothing\n").len(), 0);
    let one = parse_say_voices("Zoe en_GB\r\n");
    assert_eq!(one.len(), 1);
    assert_eq!((one[0].name.as_str(), one[0].lang.as_str()), ("Zoe", "en_GB"));
}

#[test]
fn kokoro_catalog_is_consistent() {
    for v in kokoro_voices() {
        // kokoro derives the language from the first letter of the id
        let lang0 = v.id.chars().next().unwrap();
        match v.lang.as_str() {
            "es" => assert_eq!(lang0, 'e', "{}", v.id),
            "en-US" => assert_eq!(lang0, 'a', "{}", v.id),
            "en-GB" => assert_eq!(lang0, 'b', "{}", v.id),
            other => panic!("unexpected lang {other}"),
        }
    }
}

#[test]
fn registry_always_lists_builtins() {
    let engines = registry(None, vec![]);
    assert_eq!(engines.iter().map(|e| e.id()).collect::<Vec<_>>(), ["say", "kokoro"]);
    // the catalog must always render: names, voices and a rate spec
    let system: Vec<TtsVoice> = vec![];
    for e in &engines {
        let (available, detail) = say_availability(false);
        let info = e.info(available, detail, &system);
        assert!(!info.name.is_empty());
        assert!(!info.detail.is_empty());
        assert!(e.rate_spec().is_some());
    }
    assert!(!engines[1].voices(&system).is_empty(), "kokoro ships a curated voice list");
}

#[test]
fn user_engines_take_the_place_of_those_with_their_name() {
    let user = vec![
        engine("espeak", &["espeak-ng", "-v", "{voice}", "-w", "{out}", "{text}"]),
        engine("say", &["true"]),
    ];
    let engines = registry(None, user);
    let ids: Vec<String> = engines.iter().map(|e| e.id()).collect();
    assert_eq!(ids, ["kokoro", "espeak", "say"]);
    assert_eq!(engines[2].name(), "SAY");
    assert!(matches!(engines[2], Engine::Command(_)));
    // the last of a name wins
    let engines = registry(None, vec![engine("x", &["a"]), engine("x", &["b"])]);
    assert_eq!(engines.len(), 3);
    match &engines[2] {
        Engine::Command(c) => assert_eq!(c.manifest.argv, ["b"]),
        _ => panic!("not a command"),
    }
}

#[test]
fn manifests_are_admitted_or_reported() {
    assert!(admit_engine("a.json", Ok(manifest("a", &["a"]))).is_ok());
    assert_eq!(
        admit_engine("b.json", Ok(manifest("  ", &["a"]))).unwrap_err(),
        "b.json: empty id"
    );
    assert_eq!(admit_engine("c.json", Ok(manifest("c", &[]))).unwrap_err(), "c.json: empty argv");
    assert_eq!(
        admit_engine("broken.json", Err("expected value".into())).unwrap_err(),
        "broken.json: expected value"
    );
}

#[test]
fn command_engine_renders_placeholders() {
    let eng = CommandEngine {
        manifest: EngineManifest {
            id: "x".into(),
            name: "X".into(),
            ext: "wav".into(),
            argv: vec![
                "bin".into(),
                "-v".into(),
                "{voice}".into(),
                "-s".into(),
                "{rate}".into(),
                "-w".into(),
                "{out}".into(),
                "{text}".into(),
            ],
            voices: vec![],
            rate: None,
            stdin_text: false,
        },
    };
    let argv = eng.render_argv("hola mundo", "es", num(170.0), "/tmp/o.wav");
    assert_eq!(argv, ["bin", "-v", "es", "-s", "170", "-w", "/tmp/o.wav", "hola mundo"]);
    let argv = eng.render_argv("{voice}", "es", num(1.5), "o");
    assert_eq!(argv, ["bin", "-v", "es", "-s", "1.5", "-w", "o", "es"]);
}

#[test]
fn commands_pick_voice_and_rate() {
    let mut m = manifest("x", &["bin", "{voice}", "{rate}"]);
    m.voices = vec![TtsVoice { id: "es".into(), name: "Español".into(), lang: "es".into() }];
    m.rate = Some(RateSpec {
        min: num(80.0),
        max: num(300.0),
        default: num(170.0),
        step: num(5.0),
        label: "wpm".into(),
    });
    let eng = CommandEngine { manifest: m };
    assert_eq!(eng.plan("t", None, None, "o").unwrap(), ["bin", "es", "170"]);
    assert_eq!(eng.plan("t", Some(""), Some(num(20.0)), "o").unwrap(), ["bin", "es", "80"]);
    assert_eq!(eng.plan("t", Some("en"), Some(num(999.0)), "o").unwrap(), ["bin", "en", "300"]);
    let empty = engine("x", &[]);
    assert_eq!(empty.plan("t", None, None, "o").unwrap_err(), "manifest has an empty argv");
    assert_eq!(empty.availability(&vec![], &vec![], false).1, "manifest has an empty argv");
}

#[test]
fn programs_are_looked_up() {
    let dirs: Vec<String> = vec!["/usr/bin".into(), "/opt/bin".into()];
    let files: Vec<String> = vec!["/opt/bin/espeak-ng".into(), "./here".into()];
    assert_eq!(which("espeak-ng", &dirs, &files, false).unwrap(), "/opt/bin/espeak-ng");
    assert_eq!(which("./here", &dirs, &files, false).unwrap(), "./here");
    assert!(which("/opt/bin/none", &dirs, &files, false).is_none());
    assert!(which("none", &dirs, &files, false).is_none());
    let eng = engine("x", &["none"]);
    assert_eq!(eng.availability(&dirs, &files, false), (false, "none not found in PATH".into()));
    let eng = engine("x", &["espeak-ng"]);
    assert_eq!(eng.availability(&dirs, &files, false), (true, "/opt/bin/espeak-ng".into()));
}

#[test]
fn the_voice_of_the_system() {
    let there: Vec<String> = vec!["/usr/bin/say".into()];
    assert!(say_available(true, &there));
    assert!(!say_available(false, &there));
    assert!(!say_available(true, &vec![]));
    assert_eq!(say_availability(true).1, "/usr/bin/say");
    assert_eq!(say_availability(false).1, "only available on macOS");
    assert_eq!(say_rate(num(175.4)), 175);
    assert_eq!(say_rate(num(20.0)), 90);
    assert_eq!(say_rate(num(9999.0)), 400);
    assert_eq!(say_rate(num(f64::NAN)), 0);
    assert_eq!(
        say_args(Some("Zoe"), Some(180), "o.aiff", "o.txt"),
        ["-v", "Zoe", "-r", "180", "-o", "o.aiff", "-f", "o.txt"]
    );
    assert_eq!(say_args(Some(""), None, "o.aiff", "o.txt"), ["-o", "o.aiff", "-f", "o.txt"]);
    assert!(judge_speech("say", true, "", true).is_ok());
    assert_eq!(judge_speech("say", false, " no voice \n", false).unwrap_err(), "say failed: no voice");
    assert_eq!(
        judge_speech("say", true, "", false).unwrap_err(),
        "say produced no audio file"
    );
}

#[test]
fn kokoro_runs_where_it_can() {
    let own = "/data/kokoro/venv/bin/python";
    let m = machine(None, Some("/data/kokoro"), &[own]);
    assert!(matches!(kokoro_python(&m), Ok(KokoroStep::Use(p)) if p == own));
    assert_eq!(kokoro_availability(&m, false), (true, "local AI voice, offline".into()));
    let m = machine(None, Some("/data/kokoro"), &[]);
    assert!(matches!(kokoro_python(&m), Ok(KokoroStep::Provision(d)) if d == "/data/kokoro"));
    assert_eq!(
        kokoro_availability(&m, true),
        (true, "sets itself up on first use (one-time download)".into())
    );
    assert!(!kokoro_availability(&m, false).0);
    let m = machine(None, None, &[]);
    assert_eq!(kokoro_python(&m).unwrap_err(), "no folder for the Kokoro env");
    let m = machine(Some("off"), Some("/data/kokoro"), &[own]);
    let (ok, why) = kokoro_availability(&m, true);
    assert!(!ok && why.contains("UE_TTS_PYTHON"));
    assert_eq!(kokoro_python(&m).unwrap_err(), why, "off is off");
    for v in ["none", "0"] {
        let m = machine(Some(v), Some("/data/kokoro"), &[own]);
        assert!(kokoro_python(&m).is_err());
    }
    // an empty variable names no interpreter, and switches nothing off
    let m = machine(Some(""), Some("/data/kokoro"), &[own]);
    assert!(matches!(kokoro_python(&m), Ok(KokoroStep::Provision(d)) if d == "/data/kokoro"));
    assert_eq!(
        kokoro_args("s.py", None, None, "o.wav"),
        ["s.py", "af_heart", "1", "o.wav"]
    );
    assert_eq!(
        kokoro_args("s.py", Some("ef_dora"), Some(num(0.1)), "o.wav"),
        ["s.py", "ef_dora", "0.5", "o.wav"]
    );
    assert!(judge_kokoro(true, "", true).is_ok());
    assert_eq!(judge_kokoro(true, "", false).unwrap_err(), "kokoro produced no audio file");
    assert_eq!(
        judge_kokoro(false, "a\nb\nc\nd\ne\n", false).unwrap_err(),
        "kokoro failed: b | c | d | e"
    );
    let lib = "/opt/homebrew/lib/libespeak-ng.1.dylib";
    assert_eq!(espeak_library(&vec![lib.to_string()]).unwrap(), lib);
    assert!(espeak_library(&vec![]).is_none());
}

#[test]
fn environments_are_set_up_step_by_step() {
    assert!(matches!(env_step(EnvEvent::Asked { there: true }), EnvStep::Ready));
    assert!(matches!(env_step(EnvEvent::Asked { there: false }), EnvStep::MakeFolder));
    assert!(matches!(env_step(EnvEvent::Folder(Ok(()))), EnvStep::FindSystem));
    match env_step(EnvEvent::System(Some("python3".into()))) {
        EnvStep::MakeVenv(p) => assert_eq!(p, "python3"),
        other => panic!("{other:?}"),
    }
    let made = EnvEvent::Made { system: "python3".into(), result: Ok(true) };
    assert!(matches!(env_step(made), EnvStep::Install));
    assert!(matches!(env_step(EnvEvent::Installed(Ok(true))), EnvStep::TryImport));
    assert!(matches!(env_step(EnvEvent::Tried { works: true }), EnvStep::Ready));
    // a broken half-install is removed
    assert!(matches!(
        env_step(EnvEvent::Tried { works: false }),
        EnvStep::Fail { trouble: EnvTrouble::Install, remove: true }
    ));
    assert_eq!(kokoro_trouble(EnvTrouble::Folder("denied".into())), "denied");
    assert_eq!(
        kokoro_trouble(EnvTrouble::NoPython),
        "no python3/python ≥ 3.9 found on the system"
    );
    assert_eq!(
        kokoro_trouble(EnvTrouble::VenvSpawn("py".into(), "gone".into())),
        "could not run py: gone"
    );
    assert_eq!(kokoro_trouble(EnvTrouble::Venv("py".into())), "venv creation failed");
    assert_eq!(kokoro_trouble(EnvTrouble::PipSpawn("gone".into())), "could not run pip: gone");
    assert_eq!(
        kokoro_trouble(EnvTrouble::Install),
        "kokoro install failed (network? python < 3.9?)"
    );
    assert_eq!(kokoro_install_args()[4], "kokoro==0.9.4");
    assert_eq!(kokoro_import_args()[1], "import kokoro, soundfile, numpy");
}
