//! Silences, noise reduction and the stretcher.

use ubereditor::denoise::{
    denoise_failed, denoise_step, denoiser_import_args, denoiser_install_args, denoiser_python,
    denoiser_trouble, fallback_args, find_system_python, judge_sidecar, neural_status,
    python_candidates, version_args, DenoiseEvent, DenoiseStep, EnvTrouble, Machine,
};
use ubereditor::float::Real;
use ubereditor::paths::{conform_part_path, denoise_part_path, denoised_path, venv_python};
use ubereditor::silence::{
    clip_silences_in_sound, clip_silences_on_timeline, cut_end, detect_silences, detect_speech,
    make_windows, silences_in_sound, speech_in_sound, window_power, window_starts, SilenceParams,
    Window,
};
use ubereditor::stretch::{best_offset, Pull, Stretcher, Wsola, HOP, PLACES, SEARCH, WIN};
use ubereditor::wave::{Frame, Wave};

const SEC: i64 = 1_000_000;

fn num(x: f64) -> Real {
    Real { bits: x.to_bits() }
}

/// Windows over a range that are loud in the given stretches.
fn windows(from: i64, to: i64, loud: &[(i64, i64)]) -> Vec<Window> {
    window_starts(from, to)
        .into_iter()
        .map(|t| {
            let mid = t + 25_000;
            let on = loud.iter().any(|(a, b)| *a <= mid && mid < *b);
            (mid, num(if on { -20.0 } else { -70.0 }))
        })
        .collect()
}

#[test]
fn windows_fit_into_the_range() {
    assert_eq!(window_starts(0, 49_999), Vec::<i64>::new());
    assert_eq!(window_starts(0, 50_000), vec![0]);
    assert_eq!(window_starts(5, 70_005), vec![5, 10_005, 20_005]);
    assert_eq!(window_starts(10, 0), Vec::<i64>::new());
    assert_eq!(cut_end(9 * SEC, 48_000 * 2, 48_000), 2 * SEC);
    assert_eq!(cut_end(SEC, 48_000 * 2, 48_000), SEC);
}

#[test]
fn speech_is_padded_and_silence_is_the_rest() {
    let p = SilenceParams::default();
    let w = windows(0, 10 * SEC, &[(2 * SEC, 4 * SEC), (7 * SEC, 8 * SEC)]);
    let speech = detect_speech(&w, 0, 10 * SEC, &p);
    assert_eq!(speech, vec![(1_855_000, 4_195_000), (6_855_000, 8_195_000)]);
    assert_eq!(
        detect_silences(&w, 0, 10 * SEC, &p),
        vec![(0, 1_855_000), (4_195_000, 6_855_000), (8_195_000, 10 * SEC)]
    );
    // on the timeline of a clip that starts at 30 s
    let on = clip_silences_on_timeline(&w, 30 * SEC, 0, 10 * SEC, &p);
    assert_eq!(on[0], (30 * SEC, 31_855_000));
}

#[test]
fn breaths_and_clicks_do_not_count() {
    let p = SilenceParams::default();
    // a pause of 0.3 s is a breath
    let w = windows(0, 4 * SEC, &[(SEC, 2 * SEC), (2_300_000, 3 * SEC)]);
    assert_eq!(detect_speech(&w, 0, 4 * SEC, &p).len(), 1);
    // 0.1 s of noise is a click
    let w = windows(0, 4 * SEC, &[(SEC, SEC + 100_000)]);
    assert!(detect_speech(&w, 0, 4 * SEC, &p).is_empty());
    assert_eq!(detect_silences(&w, 0, 4 * SEC, &p), vec![(0, 4 * SEC)]);
    assert!(detect_speech(&w, 4 * SEC, 0, &p).is_empty());
    assert!(detect_speech(&vec![], 0, SEC, &p).is_empty());
}

#[test]
fn speech_ends_well_below_the_threshold() {
    let p = SilenceParams::default();
    // between the two thresholds speech goes on, but does not start
    let mut w = windows(0, 4 * SEC, &[(SEC, 2 * SEC)]);
    for x in w.iter_mut() {
        if x.0 >= 2 * SEC && x.0 < 3 * SEC {
            x.1 = num(-41.0);
        }
    }
    let speech = detect_speech(&w, 0, 4 * SEC, &p);
    assert_eq!(speech.len(), 1);
    assert!(speech[0].1 > 3 * SEC);
    let quiet: Vec<Window> = w.iter().map(|x| (x.0, num(-41.0))).collect();
    assert!(detect_speech(&quiet, 0, 4 * SEC, &p).is_empty());
}

fn machine(variable: Option<&str>, env_dir: Option<&str>, home: Option<&str>, present: &[&str]) -> Machine {
    Machine {
        variable: variable.map(|v| v.to_string()),
        env_dir: env_dir.map(|v| v.to_string()),
        home: home.map(|v| v.to_string()),
        windows: false,
        present: present.iter().map(|p| p.to_string()).collect(),
    }
}

#[test]
fn neural_status_honours_the_override() {
    let (ok, hint) = neural_status(&machine(Some("off"), None, None, &[]), true);
    assert!(!ok);
    assert!(hint.contains("UE_DENOISER_PYTHON"));

    let (ok, _) = neural_status(&machine(Some("/usr/bin/python3"), None, None, &[]), false);
    assert!(ok);

    // without an env dir nor an override, both outcomes must carry a non-empty hint
    for system in [true, false] {
        let (ok, hint) = neural_status(&machine(None, None, None, &[]), system);
        assert!(!ok);
        assert!(!hint.is_empty());
    }
    let (ok, hint) = neural_status(&machine(None, Some("/d"), None, &[]), true);
    assert!(ok && hint.contains("first use"));
}

#[test]
fn interpreters_are_found_in_order() {
    let own = "/d/venv/bin/python";
    let toolkit = "/home/u/Videos Reel/Youtubers-toolkit/venv/bin/python";
    let m = machine(None, Some("/d"), Some("/home/u"), &[own, toolkit]);
    assert_eq!(denoiser_python(&m).as_deref(), Some(own));
    let m = machine(None, Some("/d"), Some("/home/u"), &[toolkit]);
    assert_eq!(denoiser_python(&m).as_deref(), Some(toolkit));
    let m = machine(Some("none"), Some("/d"), Some("/home/u"), &[own, toolkit]);
    assert_eq!(denoiser_python(&m), None);
    assert_eq!(venv_python("C:\\d", true), "C:\\d\\venv/Scripts/python.exe");
    assert_eq!(python_candidates(true), ["python3", "python", "py"]);
    assert_eq!(find_system_python(false, &vec![false, true]).as_deref(), Some("python"));
    assert_eq!(find_system_python(false, &vec![false, false, true]), None);
    assert_eq!(version_args()[0], "-c");
}

#[test]
fn files_are_denoised_step_by_step() {
    let own = "/d/venv/bin/python";
    let m = machine(None, Some("/d"), None, &[own]);
    assert!(matches!(
        denoise_step(&m, true, DenoiseEvent::Asked { there: true }),
        DenoiseStep::Ready
    ));
    assert!(matches!(
        denoise_step(&m, true, DenoiseEvent::Asked { there: false }),
        DenoiseStep::Neural(p) if p == own
    ));
    let m = machine(None, Some("/d"), None, &[]);
    let asked = || DenoiseEvent::Asked { there: false };
    assert!(matches!(denoise_step(&m, true, asked()), DenoiseStep::Provision));
    assert!(matches!(denoise_step(&m, false, asked()), DenoiseStep::Plain { remove: false }));
    let off = machine(Some("off"), Some("/d"), None, &[own]);
    assert!(matches!(denoise_step(&off, true, asked()), DenoiseStep::Plain { remove: false }));
    assert!(matches!(
        denoise_step(&m, true, DenoiseEvent::Neural { done: false }),
        DenoiseStep::Plain { remove: true }
    ));
    assert!(matches!(
        denoise_step(&m, true, DenoiseEvent::Plain { success: true, written: false }),
        DenoiseStep::Fail
    ));
    assert_eq!(denoise_failed().to_text(), "ffmpeg failed: denoise failed");
    assert!(judge_sidecar(true, "ok 1.2s", "", true).is_ok());
    assert_eq!(
        judge_sidecar(true, "no", "trace", true).unwrap_err().to_text(),
        "dns64 failed: denoiser sidecar failed: notrace"
    );
    assert_eq!(
        fallback_args("x.wav", "t.wav").join(" "),
        "-y -v error -i x.wav -af afftdn=nr=30:nf=-25:tn=1 -ar 48000 -ac 2 -c:a pcm_s16le t.wav"
    );
    assert_eq!(denoiser_install_args()[4], "denoiser==0.1.5");
    assert_eq!(denoiser_import_args()[1], "import denoiser, julius, numpy");
    assert_eq!(
        denoiser_trouble(EnvTrouble::Install).to_text(),
        "pip failed: denoiser install failed (network? python < 3.9?)"
    );
    assert_eq!(
        denoiser_trouble(EnvTrouble::NoPython).to_text(),
        "python failed: no python3/python ≥ 3.9 found"
    );
}

#[test]
fn sound_files_have_neighbours() {
    assert_eq!(denoised_path("/c/x.wav", false), "/c/x.denoise.wav");
    assert_eq!(denoise_part_path("/c/x.denoise.wav", false), "/c/x.denoise.part.wav");
    assert_eq!(conform_part_path("/c/x.wav", false), "/c/x.wav.tmp");
    assert_eq!(denoised_path("/c/noext", false), "/c/noext.denoise.wav");
}

#[test]
fn the_stretcher_keeps_its_place() {
    let mut s = Stretcher::new(num(2.0));
    assert_eq!(s.prev_src, -(HOP as i64));
    assert!(s.searches());
    assert_eq!(s.ask(0), Pull::Skip(0));
    assert_eq!(s.ask(0), Pull::Repeat);
    assert_eq!(s.ask(3), Pull::Skip(2));
    assert_eq!(s.next_out, 4);
    assert_eq!(s.nominal, num(0.0));
    assert_eq!(s.advance(8), 8);
    assert_eq!((s.nominal, s.prev_src), (num(1024.0), 8));
    assert_eq!(s.ask(100_000), Pull::Restart);
    assert_eq!((s.next_out, s.nominal), (100_001, num(200_000.0)));
    assert!(!Stretcher::new(num(1.0)).searches());
    assert_eq!(Stretcher::new(num(1000.0)).speed, num(20.0));
}

#[test]
fn the_likest_place_wins() {
    let mut scores = vec![num(0.0); PLACES];
    assert_eq!(best_offset(&scores), -SEARCH, "the first of equals");
    scores[72] = num(1.0);
    assert_eq!(best_offset(&scores), 0);
    scores[144] = num(2.0);
    assert_eq!(best_offset(&scores), SEARCH);
    assert_eq!(best_offset(&vec![num(f64::NAN)]), 0);
}

const RATE: u32 = 48_000;

fn wave(frames: i64, gen: impl Fn(i64) -> (i16, i16)) -> Wave {
    Wave { sample_rate: RATE, frames: (0..frames).map(gen).collect() }
}

fn sine(hz: f64, frames: i64) -> Wave {
    let sr = RATE as f64;
    wave(frames, |i| {
        let v = (2.0 * std::f64::consts::PI * hz * i as f64 / sr).sin();
        (((v * 20000.0) as i16), ((v * 20000.0) as i16))
    })
}

fn hann() -> Vec<f32> {
    (0..WIN)
        .map(|i| {
            let x = std::f32::consts::PI * i as f32 / WIN as f32;
            x.sin() * x.sin()
        })
        .collect()
}

fn stretcher(speed: f64) -> Wsola {
    Wsola::new(num(speed), hann().into_iter().map(|w| num(w as f64)).collect())
}

fn floats(f: Frame) -> (f32, f32) {
    (f64::from_bits(f.0.bits) as f32, f64::from_bits(f.1.bits) as f32)
}

#[test]
fn sound_is_silent_outside() {
    let w = wave(1000, |i| ((i * 16) as i16, (-i * 16) as i16));
    let (l, r) = floats(w.frame(10));
    assert_eq!((l, r), (160.0 / 32768.0, -160.0 / 32768.0));
    assert_eq!(floats(w.frame(-1)), (0.0, 0.0));
    assert_eq!(floats(w.frame(1000)), (0.0, 0.0), "out of range → silence");
    assert_eq!(floats(w.frame(i64::MAX)), (0.0, 0.0));
}

#[test]
fn power_is_the_mean_square() {
    let w = wave(48_000, |i| ((i * 7 % 4001) as i16, (i * 11 % 3001 - 1500) as i16));
    for t in [-20_000, 0, 123_457, 980_000] {
        let n = 2400usize;
        let start = t * 48_000 / 1_000_000;
        let mut acc = 0.0f64;
        for k in 0..n {
            let (l, r) = floats(w.frame(start + k as i64));
            let mono = 0.5 * (l + r) as f64;
            acc += mono * mono;
        }
        assert_eq!(window_power(&w, t), num(acc / n as f64));
    }
    let full = wave(48_000, |_| (16384, 16384));
    assert_eq!(window_power(&full, 0), num(0.25));
    assert_eq!(window_power(&full, 5 * SEC), num(0.0));
}

/// What the stretcher does, with the numbers of the machine.
struct Machined {
    s: Stretcher,
    tail: Vec<(f32, f32)>,
    ready: std::collections::VecDeque<(f32, f32)>,
}

impl Machined {
    fn next(&mut self, w: &Wave) -> (f32, f32) {
        if self.ready.is_empty() {
            let nominal = f64::from_bits(self.s.nominal.bits) as i64;
            let base = self.s.prev_src + HOP as i64;
            let mono = |at: i64| {
                let (l, r) = floats(w.frame(at));
                l + r
            };
            let (mut best, mut best_score) = (0i64, f32::MIN);
            let mut d = -SEARCH;
            while d <= SEARCH {
                let mut score = 0f32;
                for k in (0..256).step_by(4) {
                    score += mono(base + k) * mono(nominal + d + k);
                }
                if score > best_score {
                    best_score = score;
                    best = d;
                }
                d += 4;
            }
            let at = self.s.advance(if self.s.searches() { best } else { 0 });
            let window = hann();
            for k in 0..HOP {
                let (l, r) = floats(w.frame(at + k as i64));
                let (tl, tr) = self.tail[k];
                self.ready.push_back((tl + l * window[k], tr + r * window[k]));
            }
            for k in 0..HOP {
                let (l, r) = floats(w.frame(at + (HOP + k) as i64));
                self.tail[k] = (l * window[HOP + k], r * window[HOP + k]);
            }
        }
        self.ready.pop_front().unwrap()
    }
}

#[test]
fn the_stretcher_agrees_with_the_machine() {
    let w = wave(20_000, |i| ((i * i % 9973) as i16, (i * 37 % 7919 - 4000) as i16));
    for speed in [0.7, 1.0, 1.5, 4.0] {
        let mut ours = stretcher(speed);
        let mut theirs = Machined {
            s: Stretcher::new(num(speed)),
            tail: vec![(0.0, 0.0); HOP],
            ready: Default::default(),
        };
        for rel in 0..4000 {
            assert_eq!(floats(ours.frame_at(&w, 0, rel)), theirs.next(&w), "{speed} {rel}");
        }
    }
}

#[test]
fn skips_and_repeats_do_not_change_the_sound() {
    let w = sine(330.0, 48_000);
    let mut each = stretcher(1.5);
    let all: Vec<Frame> = (0..3000).map(|rel| each.frame_at(&w, 100, rel)).collect();
    let mut some = stretcher(1.5);
    for rel in [0, 1, 1, 4, 700, 700, 701, 2999] {
        assert_eq!(some.frame_at(&w, 100, rel), all[rel as usize]);
    }
    // a jump starts anew
    let mut jumped = stretcher(1.5);
    jumped.frame_at(&w, 100, 0);
    jumped.frame_at(&w, 100, 20_000);
    let mut fresh = stretcher(1.5);
    fresh.frame_at(&w, 100, 20_000);
    assert_eq!(jumped.frame_at(&w, 100, 20_001), fresh.frame_at(&w, 100, 20_001));
}

/// THE pitch test: a 220 Hz sine played at 2× through the WSOLA stretcher
/// must still be ~220 Hz (the naive resample would give 440 Hz).
#[test]
fn wsola_preserves_pitch_at_double_speed() {
    let sr = RATE as f64;
    let wav = sine(220.0, 4 * RATE as i64);

    let mut st = stretcher(2.0);
    // skip the fade-in, then collect half a second of stretched output
    let n = RATE as i64 / 2;
    let mut out = Vec::with_capacity(n as usize);
    for rel in 0..(n + 2048) {
        let (l, _r) = floats(st.frame_at(&wav, 0, rel));
        if rel >= 2048 {
            out.push(l);
        }
    }
    // zero crossings → frequency
    let mut crossings = 0u32;
    for w in out.windows(2) {
        if (w[0] >= 0.0) != (w[1] >= 0.0) {
            crossings += 1;
        }
    }
    let freq = crossings as f64 / 2.0 / (out.len() as f64 / sr);
    assert!(
        (195.0..=245.0).contains(&freq),
        "pitch preserved at 2x: expected ~220 Hz, got {freq:.1} Hz"
    );
    // and the naive resample really does shift it (sanity check of the test)
    let mut crossings2 = 0u32;
    let mut prev = 0.0f32;
    for rel in 0..n {
        let (l, _r) = floats(wav.frame((rel as f64 * 2.0) as i64));
        if rel > 0 && (prev >= 0.0) != (l >= 0.0) {
            crossings2 += 1;
        }
        prev = l;
    }
    let freq2 = crossings2 as f64 / 2.0 / (n as f64 / sr);
    assert!(freq2 > 400.0, "naive resample doubles the pitch ({freq2:.1} Hz)");
}

/// Stretched output has no gross discontinuities (no clicks): the max jump
/// between consecutive samples stays in the same ballpark as the source's.
#[test]
fn wsola_output_is_continuous() {
    let wav = sine(330.0, 2 * RATE as i64);
    let mut st = stretcher(1.5);
    let mut prev = 0.0f32;
    let mut max_jump = 0.0f32;
    for rel in 0..RATE as i64 {
        let (l, _r) = floats(st.frame_at(&wav, 0, rel));
        if rel > 2048 {
            max_jump = max_jump.max((l - prev).abs());
        }
        prev = l;
    }
    // a 330 Hz sine at full scale moves ≤ ~0.045/sample; allow overlap slack
    assert!(max_jump < 0.09, "no clicks: max jump {max_jump}");
}

/// Device rate conversion access patterns (44.1 kHz skips, 96 kHz repeats)
/// must NOT silence the stretcher.
#[test]
fn wsola_survives_device_rate_conversion_patterns() {
    let wav = sine(440.0, 4 * RATE as i64);

    for step in [48000.0 / 44100.0, 0.5] {
        let mut st = stretcher(1.5);
        let n = RATE / 2;
        let mut sq = 0.0f64;
        let mut count = 0u32;
        for i in 0..n {
            let rel = (i as f64 * step) as i64;
            let (l, _r) = floats(st.frame_at(&wav, 0, rel));
            if i > 4096 {
                sq += (l as f64) * (l as f64);
                count += 1;
            }
        }
        let rms = (sq / count as f64).sqrt();
        assert!(rms > 0.2, "audible output with step {step}: RMS {rms}");
    }
}

/// How loud each window is, with the numbers of the machine.
fn loudness(w: &Wave, from: i64, to: i64) -> Vec<Real> {
    window_starts(from, cut_end(to, w.frames.len() as u64, w.sample_rate))
        .into_iter()
        .map(|t| {
            let rms = f64::from_bits(window_power(w, t).bits).sqrt();
            num(if rms > 1e-9 { 20.0 * rms.log10() } else { -120.0 })
        })
        .collect()
}

#[test]
fn speech_and_silence_tile_a_sound() {
    // a tone from 0.5 s to 1.5 s, in a sound of two seconds
    let w = wave(2 * 48_000, |i| {
        let on = (24_000..72_000).contains(&i);
        let v = (2.0 * std::f64::consts::PI * 440.0 * i as f64 / 48_000.0).sin();
        let v = if on { (v * 12_000.0) as i16 } else { 0 };
        (v, v)
    });
    let p = SilenceParams::default();
    let loud = loudness(&w, 0, 9 * SEC);
    assert_eq!(make_windows(0, 2 * SEC, &loud).len(), 196);
    assert_eq!(make_windows(0, 2 * SEC, &loud)[1].0, 35_000);
    let speech = speech_in_sound(&w, 0, 9 * SEC, &loud, &p);
    let rest = silences_in_sound(&w, 0, 9 * SEC, &loud, &p);
    assert_eq!(speech.len(), 1);
    assert!(speech[0].0 < 500_000 && 1_500_000 < speech[0].1);
    assert_eq!(rest, vec![(0, speech[0].0), (speech[0].1, 2 * SEC)]);
    // on the timeline of a clip of the sound from 1 s on
    let loud = loudness(&w, SEC, 9 * SEC);
    let on = clip_silences_in_sound(&w, 10 * SEC, SEC, 9 * SEC, &loud, &p);
    assert_eq!(on.len(), 1);
    assert!(10_700_000 <= on[0].0 && on[0].0 < 10_730_000);
    assert_eq!(on[0].1, 11 * SEC);
    // behind the end there is nothing
    assert!(silences_in_sound(&w, 3 * SEC, 9 * SEC, &vec![], &p).is_empty());
}
