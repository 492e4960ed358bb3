//! Voices that read a text aloud: which engines there are, which voices they
//! have, and the calls that make them speak.

use vstd::prelude::*;

use crate::decimal;
use crate::decimal::shortest;
use crate::denoise::{denoiser_python, EnvTrouble, Machine, MachineV};
use crate::float::Real;
use crate::media::push_args;
use crate::model;
use crate::paths;
use crate::paths::resolve_path_pub;
use crate::reading;
use crate::reading::{split, split_lines};
use crate::seqs;
use crate::seqs::{duplicate_all, Duplicate};
use crate::sound::holds_text;
use crate::text;
use crate::text::{
    blank, chars_of, contains_text, copy_text, int_to_text, join, nat_to_text, push_text,
    replace_all, same_text, text_between, trim,
};

verus! {

// ---- voices ----

/// A voice of an engine.
#[derive(Debug)]
pub struct TtsVoice {
    /// What the engine calls it.
    pub id: String,
    pub name: String,
    /// Its language, such as "es_MX" or "en-US".
    pub lang: String,
}

/// The contents of a `TtsVoice`.
#[verifier::ext_equal]
pub struct VoiceV {
    pub id: Seq<char>,
    pub name: Seq<char>,
    pub lang: Seq<char>,
}

impl View for TtsVoice {
    type V = VoiceV;

    open spec fn view(&self) -> VoiceV {
        VoiceV { id: self.id@, name: self.name@, lang: self.lang@ }
    }
}

impl Duplicate for TtsVoice {
    fn duplicate(&self) -> (r: TtsVoice) {
        TtsVoice { id: self.id.clone(), name: self.name.clone(), lang: self.lang.clone() }
    }
}

/// A text before and after its last white space.
pub open spec fn around_space(s: Seq<char>) -> Option<(Seq<char>, Seq<char>)>
    decreases s.len(),
{
    if s.len() == 0 {
        None
    } else if text::is_space(s.last()) {
        Some((s.drop_last(), Seq::<char>::empty()))
    } else {
        match around_space(s.drop_last()) {
            Some(p) => Some((p.0, p.1.push(s.last()))),
            None => None,
        }
    }
}

fn split_at_space(s: &str) -> (r: Option<(String, String)>)
    ensures
        match around_space(s@) {
            Some(p) => r is Some && r->Some_0.0@ == p.0 && r->Some_0.1@ == p.1,
            None => r is None,
        },
{
    let v: Vec<char> = chars_of(s);
    let mut n: usize = v.len();
    assert(v@.take(n as int) =~= v@);
    while n > 0
        invariant
            n <= v.len(),
            v@ == s@,
            match around_space(v@.take(n as int)) {
                Some(p) => around_space(v@) == Some((p.0, p.1 + v@.skip(n as int))),
                None => around_space(v@) is None,
            },
        decreases n,
    {
        let ghost part = v@.take(n as int);
        assert(part.last() == v@[n - 1]);
        assert(part.drop_last() =~= v@.take(n - 1));
        if text::space(v[n - 1]) {
            assert(v@.subrange(0, n - 1) =~= part.drop_last());
            assert(v@.subrange(n as int, v@.len() as int) =~= Seq::<char>::empty() + v@.skip(
                n as int,
            ));
            return Some((text_between(&v, 0, n - 1), text_between(&v, n, v.len())));
        }
        proof {
            if let Some(p) = around_space(part.drop_last()) {
                assert(p.1.push(part.last()) + v@.skip(n as int) =~= p.1 + v@.skip(n - 1));
            }
        }
        n = n - 1;
    }
    None
}

/// The voice that a line of the list of the system names: a name, its language,
/// and a sample after `#`.
pub open spec fn voice_of(line: Seq<char>) -> Option<VoiceV> {
    match around_space(text::right_trimmed(reading::pieces(line, '#')[0])) {
        None => None,
        Some(p) => {
            let name = text::trimmed(p.0);
            let lang = text::trimmed(p.1);
            if name.len() == 0 || lang.len() == 0 {
                None
            } else {
                Some(VoiceV { id: name, name, lang })
            }
        },
    }
}

/// The voices of the first lines.
pub open spec fn voices_in(lines: Seq<Seq<char>>, n: nat) -> Seq<VoiceV>
    decreases n,
{
    if n == 0 {
        Seq::empty()
    } else {
        match voice_of(lines[n - 1]) {
            Some(v) => voices_in(lines, (n - 1) as nat).push(v),
            None => voices_in(lines, (n - 1) as nat),
        }
    }
}

/// Removes the white space at the end of a text.
fn trim_end(s: &str) -> (r: String)
    ensures
        r@ == text::right_trimmed(s@),
{
    let v: Vec<char> = chars_of(s);
    let mut n: usize = v.len();
    assert(v@.take(n as int) =~= v@);
    while n > 0 && text::space(v[n - 1])
        invariant
            n <= v.len(),
            v@ == s@,
            text::right_trimmed(v@.take(n as int)) == text::right_trimmed(v@),
        decreases n,
    {
        assert(v@.take(n as int).last() == v@[n - 1]);
        assert(v@.take(n as int).drop_last() =~= v@.take(n - 1));
        n = n - 1;
    }
    proof {
        if n > 0 {
            assert(v@.take(n as int).last() == v@[n - 1]);
        }
        assert(v@.subrange(0, n as int) =~= v@.take(n as int));
    }
    text_between(&v, 0, n)
}

fn read_voice(line: &str) -> (r: Option<TtsVoice>)
    ensures
        match voice_of(line@) {
            Some(v) => r is Some && r->Some_0@ == v,
            None => r is None,
        },
{
    let parts: Vec<String> = split(line, '#');
    assert(reading::pieces(line@, '#')[0] == parts@[0]@);
    let left: String = trim_end(parts[0].as_str());
    match split_at_space(left.as_str()) {
        None => None,
        Some(p) => {
            let name: String = trim(p.0.as_str());
            let lang: String = trim(p.1.as_str());
            let n: Vec<char> = chars_of(name.as_str());
            let l: Vec<char> = chars_of(lang.as_str());
            if n.len() == 0 || l.len() == 0 {
                None
            } else {
                Some(TtsVoice { id: name.clone(), name, lang })
            }
        },
    }
}

/// Reads the list of voices that the system prints. Names may hold spaces, so
/// the language is the last word before the sample.
pub fn parse_say_voices(output: &str) -> (r: Vec<TtsVoice>)
    ensures
        seqs::views(r@) == voices_in(reading::lines_of(output@), reading::lines_of(output@).len()),
{
    let lines: Vec<String> = split_lines(output);
    let ghost all = reading::lines_of(output@);
    let mut r: Vec<TtsVoice> = Vec::new();
    let mut i: usize = 0;
    assert(seqs::views(r@) =~= voices_in(all, 0));
    assert(all.len() == lines.len());
    while i < lines.len()
        invariant
            i <= lines.len(),
            all.len() == lines.len(),
            text::texts(lines@) == all,
            seqs::views(r@) == voices_in(all, i as nat),
        decreases lines.len() - i,
    {
        assert(all[i as int] == lines@[i as int]@);
        let ghost before = seqs::views(r@);
        if let Some(v) = read_voice(lines[i].as_str()) {
            let ghost vv = v@;
            r.push(v);
            assert(seqs::views(r@) =~= before.push(vv));
        }
        i = i + 1;
    }
    r
}

/// A voice in words.
pub open spec fn voice(id: Seq<char>, name: Seq<char>, lang: Seq<char>) -> VoiceV {
    VoiceV { id, name, lang }
}

/// The voices of Kokoro.
pub open spec fn kokoro_list() -> Seq<VoiceV> {
    seq![
        voice("ef_dora"@, "Dora"@, "es"@),
        voice("em_alex"@, "Alex"@, "es"@),
        voice("em_santa"@, "Santa"@, "es"@),
        voice("af_heart"@, "Heart"@, "en-US"@),
        voice("af_bella"@, "Bella"@, "en-US"@),
        voice("af_nicole"@, "Nicole"@, "en-US"@),
        voice("af_sarah"@, "Sarah"@, "en-US"@),
        voice("am_adam"@, "Adam"@, "en-US"@),
        voice("am_michael"@, "Michael"@, "en-US"@),
        voice("am_fenrir"@, "Fenrir"@, "en-US"@),
        voice("am_puck"@, "Puck"@, "en-US"@),
        voice("bf_emma"@, "Emma"@, "en-GB"@),
        voice("bf_isabella"@, "Isabella"@, "en-GB"@),
        voice("bm_george"@, "George"@, "en-GB"@),
        voice("bm_lewis"@, "Lewis"@, "en-GB"@),
    ]
}

fn add_voice(v: &mut Vec<TtsVoice>, id: &str, name: &str, lang: &str)
    ensures
        seqs::views(final(v)@) == seqs::views(old(v)@).push(voice(id@, name@, lang@)),
{
    let ghost before = seqs::views(v@);
    let x: TtsVoice = TtsVoice { id: copy_text(id), name: copy_text(name), lang: copy_text(lang) };
    let ghost xv = x@;
    v.push(x);
    assert(seqs::views(v@) =~= before.push(xv));
}

/// Lists the voices of Kokoro.
pub fn kokoro_voices() -> (r: Vec<TtsVoice>)
    ensures
        seqs::views(r@) == kokoro_list(),
{
    let mut r: Vec<TtsVoice> = Vec::new();
    assert(seqs::views(r@) =~= Seq::<VoiceV>::empty());
    add_voice(&mut r, "ef_dora", "Dora", "es");
    add_voice(&mut r, "em_alex", "Alex", "es");
    add_voice(&mut r, "em_santa", "Santa", "es");
    add_voice(&mut r, "af_heart", "Heart", "en-US");
    add_voice(&mut r, "af_bella", "Bella", "en-US");
    add_voice(&mut r, "af_nicole", "Nicole", "en-US");
    add_voice(&mut r, "af_sarah", "Sarah", "en-US");
    add_voice(&mut r, "am_adam", "Adam", "en-US");
    add_voice(&mut r, "am_michael", "Michael", "en-US");
    add_voice(&mut r, "am_fenrir", "Fenrir", "en-US");
    add_voice(&mut r, "am_puck", "Puck", "en-US");
    add_voice(&mut r, "bf_emma", "Emma", "en-GB");
    add_voice(&mut r, "bf_isabella", "Isabella", "en-GB");
    add_voice(&mut r, "bm_george", "George", "en-GB");
    add_voice(&mut r, "bm_lewis", "Lewis", "en-GB");
    assert(seqs::views(r@) =~= kokoro_list());
    r
}

/// The letter that a language has in the names of Kokoro's voices.
pub open spec fn language_letter(lang: Seq<char>) -> Option<char> {
    if lang == "es"@ {
        Some('e')
    } else if lang == "en-US"@ {
        Some('a')
    } else if lang == "en-GB"@ {
        Some('b')
    } else {
        None
    }
}

/// Every voice of Kokoro has its language in the first letter of its name.
pub proof fn law_kokoro_languages(i: int)
    requires
        0 <= i < kokoro_list().len(),
    ensures
        kokoro_list()[i].id.len() > 0,
        language_letter(kokoro_list()[i].lang) == Some(kokoro_list()[i].id[0]),
{
    reveal_strlit("ef_dora");
    reveal_strlit("em_alex");
    reveal_strlit("em_santa");
    reveal_strlit("af_heart");
    reveal_strlit("af_bella");
    reveal_strlit("af_nicole");
    reveal_strlit("af_sarah");
    reveal_strlit("am_adam");
    reveal_strlit("am_michael");
    reveal_strlit("am_fenrir");
    reveal_strlit("am_puck");
    reveal_strlit("bf_emma");
    reveal_strlit("bf_isabella");
    reveal_strlit("bm_george");
    reveal_strlit("bm_lewis");
    reveal_strlit("es");
    reveal_strlit("en-US");
    reveal_strlit("en-GB");
    assert("en-US"@[3] == 'U');
    assert("en-GB"@[3] == 'G');
    assert("es"@.len() == 2);
}

// ---- engines ----

/// How an engine understands its rate.
#[derive(Debug)]
pub struct RateSpec {
    pub min: Real,
    pub max: Real,
    pub default: Real,
    pub step: Real,
    /// What stands beside the slider.
    pub label: String,
}

/// The voice of the system.
#[derive(Debug)]
pub struct SayEngine;

/// The voice of Kokoro, in an environment of its own.
#[derive(Debug)]
pub struct KokoroEngine {
    pub env_dir: Option<String>,
}

/// An engine that a user describes: the command to run, with places for the
/// text, the voice, the rate and the file.
#[derive(Debug)]
pub struct EngineManifest {
    pub id: String,
    pub name: String,
    pub ext: String,
    pub argv: Vec<String>,
    pub voices: Vec<TtsVoice>,
    pub rate: Option<RateSpec>,
    /// Whether the text goes to the input of the command.
    pub stdin_text: bool,
}

/// The engine of a manifest.
#[derive(Debug)]
pub struct CommandEngine {
    pub manifest: EngineManifest,
}

/// One of the engines.
#[derive(Debug)]
pub enum Engine {
    Say(SayEngine),
    Kokoro(KokoroEngine),
    Command(CommandEngine),
}

/// The bits of 90.
pub const SAY_MIN_BITS: u64 = 0x4056_8000_0000_0000;

/// The bits of 400.
pub const SAY_MAX_BITS: u64 = 0x4079_0000_0000_0000;

/// The bits of 175.
pub const SAY_DEFAULT_BITS: u64 = 0x4065_E000_0000_0000;

/// The bits of 5.
pub const SAY_STEP_BITS: u64 = 0x4014_0000_0000_0000;

/// The bits of 0.5.
pub const SPEED_MIN_BITS: u64 = 0x3FE0_0000_0000_0000;

/// The bits of 2.
pub const SPEED_MAX_BITS: u64 = 0x4000_0000_0000_0000;

/// The bits of 1.
pub const SPEED_DEFAULT_BITS: u64 = 0x3FF0_0000_0000_0000;

/// The bits of 0.05.
pub const SPEED_STEP_BITS: u64 = 0x3FA9_9999_9999_999A;

impl Engine {
    /// What the engine is called by.
    pub open spec fn ident(self) -> Seq<char> {
        match self {
            Engine::Say(_) => "say"@,
            Engine::Kokoro(_) => "kokoro"@,
            Engine::Command(c) => c.manifest.id@,
        }
    }

    /// What the engine is shown as.
    pub open spec fn shown_name(self) -> Seq<char> {
        match self {
            Engine::Say(_) => "System voice (say)"@,
            Engine::Kokoro(_) => "Kokoro AI"@,
            Engine::Command(c) => c.manifest.name@,
        }
    }

    /// The voices of the engine, given those of the system.
    pub open spec fn voice_list(self, system: Seq<VoiceV>) -> Seq<VoiceV> {
        match self {
            Engine::Say(_) => system,
            Engine::Kokoro(_) => kokoro_list(),
            Engine::Command(c) => seqs::views(c.manifest.voices@),
        }
    }

    /// Whether a rate is how the engine understands it.
    pub open spec fn has_rate(self, r: Option<RateSpec>) -> bool {
        match self {
            Engine::Say(_) => r matches Some(s) && s.min.bits == SAY_MIN_BITS && s.max.bits
                == SAY_MAX_BITS && s.default.bits == SAY_DEFAULT_BITS && s.step.bits
                == SAY_STEP_BITS && s.label@ == "words/min"@,
            Engine::Kokoro(_) => r matches Some(s) && s.min.bits == SPEED_MIN_BITS && s.max.bits
                == SPEED_MAX_BITS && s.default.bits == SPEED_DEFAULT_BITS && s.step.bits
                == SPEED_STEP_BITS && s.label@ == "speed ×"@,
            Engine::Command(c) => match c.manifest.rate {
                Some(x) => r matches Some(s) && s.min == x.min && s.max == x.max && s.default
                    == x.default && s.step == x.step && s.label@ == x.label@,
                None => r is None,
            },
        }
    }

    /// Tells what the engine is called by.
    pub fn id(&self) -> (r: String)
        ensures
            r@ == self.ident(),
    {
        match self {
            Engine::Say(_) => copy_text("say"),
            Engine::Kokoro(_) => copy_text("kokoro"),
            Engine::Command(c) => c.manifest.id.clone(),
        }
    }

    /// Tells what the engine is shown as.
    pub fn name(&self) -> (r: String)
        ensures
            r@ == self.shown_name(),
    {
        match self {
            Engine::Say(_) => copy_text("System voice (say)"),
            Engine::Kokoro(_) => copy_text("Kokoro AI"),
            Engine::Command(c) => c.manifest.name.clone(),
        }
    }

    /// Tells what files the engine writes.
    pub fn ext(&self) -> (r: String)
        ensures
            r@ == match *self {
                Engine::Say(_) => "aiff"@,
                Engine::Kokoro(_) => "wav"@,
                Engine::Command(c) => c.manifest.ext@,
            },
    {
        match self {
            Engine::Say(_) => copy_text("aiff"),
            Engine::Kokoro(_) => copy_text("wav"),
            Engine::Command(c) => c.manifest.ext.clone(),
        }
    }

    /// Lists the voices of the engine, given those of the system.
    pub fn voices(&self, system: &Vec<TtsVoice>) -> (r: Vec<TtsVoice>)
        ensures
            seqs::views(r@) == self.voice_list(seqs::views(system@)),
    {
        match self {
            Engine::Say(_) => duplicate_all(system),
            Engine::Kokoro(_) => kokoro_voices(),
            Engine::Command(c) => duplicate_all(&c.manifest.voices),
        }
    }

    /// Tells how the engine understands its rate.
    pub fn rate_spec(&self) -> (r: Option<RateSpec>)
        ensures
            self.has_rate(r),
    {
        match self {
            Engine::Say(_) => Some(
                RateSpec {
                    min: Real { bits: SAY_MIN_BITS },
                    max: Real { bits: SAY_MAX_BITS },
                    default: Real { bits: SAY_DEFAULT_BITS },
                    step: Real { bits: SAY_STEP_BITS },
                    label: copy_text("words/min"),
                },
            ),
            Engine::Kokoro(_) => Some(
                RateSpec {
                    min: Real { bits: SPEED_MIN_BITS },
                    max: Real { bits: SPEED_MAX_BITS },
                    default: Real { bits: SPEED_DEFAULT_BITS },
                    step: Real { bits: SPEED_STEP_BITS },
                    label: copy_text("speed ×"),
                },
            ),
            Engine::Command(c) => match &c.manifest.rate {
                Some(x) => Some(
                    RateSpec {
                        min: x.min,
                        max: x.max,
                        default: x.default,
                        step: x.step,
                        label: x.label.clone(),
                    },
                ),
                None => None,
            },
        }
    }
}

/// All that is shown of an engine.
#[derive(Debug)]
pub struct EngineInfo {
    pub id: String,
    pub name: String,
    pub available: bool,
    /// Why it cannot be used, or where it was found.
    pub detail: String,
    pub voices: Vec<TtsVoice>,
    pub rate: Option<RateSpec>,
}

impl Engine {
    /// Tells all that is shown of the engine, given whether it can be used, why,
    /// and the voices of the system.
    pub fn info(&self, available: bool, detail: String, system: &Vec<TtsVoice>) -> (r: EngineInfo)
        ensures
            r.id@ == self.ident(),
            r.name@ == self.shown_name(),
            r.available == available,
            r.detail == detail,
            seqs::views(r.voices@) == self.voice_list(seqs::views(system@)),
            self.has_rate(r.rate),
    {
        EngineInfo {
            id: self.id(),
            name: self.name(),
            available,
            detail,
            voices: self.voices(system),
            rate: self.rate_spec(),
        }
    }
}

/// Engines without those of a name.
pub open spec fn without(list: Seq<Engine>, id: Seq<char>) -> Seq<Engine>
    decreases list.len(),
{
    if list.len() == 0 {
        list
    } else if list.last().ident() == id {
        without(list.drop_last(), id)
    } else {
        without(list.drop_last(), id).push(list.last())
    }
}

/// Engines with those of a user: each takes the place of those with its name.
pub open spec fn registered(built_in: Seq<Engine>, user: Seq<CommandEngine>) -> Seq<Engine>
    decreases user.len(),
{
    if user.len() == 0 {
        built_in
    } else {
        without(registered(built_in, user.drop_last()), user.last().manifest.id@).push(
            Engine::Command(user.last()),
        )
    }
}

/// The engines that are there without any of a user.
pub open spec fn built_in(kokoro_env_dir: Option<String>) -> Seq<Engine> {
    seq![Engine::Say(SayEngine), Engine::Kokoro(KokoroEngine { env_dir: kokoro_env_dir })]
}

fn remove_named(list: &mut Vec<Engine>, id: &str)
    ensures
        final(list)@ == without(old(list)@, id@),
{
    let ghost all = list@;
    let ghost mut k: int = 0;
    let mut i: usize = 0;
    assert(without(all.take(0), id@) + all.skip(0) =~= all);
    while i < list.len()
        invariant
            0 <= k <= all.len(),
            i <= list.len(),
            i == without(all.take(k), id@).len(),
            list@ == without(all.take(k), id@) + all.skip(k),
        decreases all.len() - k,
    {
        let ghost kept = without(all.take(k), id@);
        assert(list@.len() == kept.len() + (all.len() - k));
        assert(list@[i as int] == all[k]);
        proof {
            assert(all.take(k + 1).drop_last() =~= all.take(k));
            assert(all.take(k + 1).last() == all[k]);
        }
        let own: String = list[i].id();
        if same_text(own.as_str(), id) {
            list.remove(i);
            assert(list@ =~= kept + all.skip(k + 1));
        } else {
            assert(list@ =~= kept.push(all[k]) + all.skip(k + 1));
            i = i + 1;
        }
        proof {
            k = k + 1;
        }
    }
    assert(list@.len() == without(all.take(k), id@).len() + (all.len() - k));
    assert(all.take(k) =~= all);
    assert(list@ =~= without(all, id@));
}

/// Lists all engines: the built-in ones, then those of a user. One of a user
/// with the name of another takes its place.
pub fn registry(kokoro_env_dir: Option<String>, user: Vec<CommandEngine>) -> (r: Vec<Engine>)
    ensures
        r@ == registered(built_in(kokoro_env_dir), user@),
{
    let ghost all = user@;
    let ghost base = built_in(kokoro_env_dir);
    let mut left: Vec<CommandEngine> = user;
    let mut r: Vec<Engine> = Vec::new();
    r.push(Engine::Say(SayEngine));
    r.push(Engine::Kokoro(KokoroEngine { env_dir: kokoro_env_dir }));
    assert(r@ =~= base);
    let ghost mut k: int = 0;
    assert(all.skip(0) =~= all);
    assert(registered(base, all.take(0)) == base);
    while left.len() > 0
        invariant
            0 <= k <= all.len(),
            left@ == all.skip(k),
            r@ == registered(base, all.take(k)),
        decreases left.len(),
    {
        let e: CommandEngine = left.remove(0);
        assert(e == all[k]);
        assert(left@ =~= all.skip(k + 1));
        assert(all.take(k + 1).drop_last() =~= all.take(k));
        remove_named(&mut r, e.manifest.id.as_str());
        r.push(Engine::Command(e));
        proof {
            k = k + 1;
        }
    }
    assert(all.take(k) =~= all);
    r
}

/// Whether no two engines have one name.
pub open spec fn distinct(list: Seq<Engine>) -> bool {
    forall|i: int, j: int|
        0 <= i < j < list.len() ==> (#[trigger] list[i]).ident() != (#[trigger] list[j]).ident()
}

proof fn lemma_without(list: Seq<Engine>, id: Seq<char>)
    ensures
        forall|i: int| 0 <= i < without(list, id).len() ==> (#[trigger] without(list, id)[i]).ident() != id
            && list.contains(without(list, id)[i]),
        distinct(list) ==> distinct(without(list, id)),
        forall|i: int|
            0 <= i < list.len() && (#[trigger] list[i]).ident() != id ==> without(list, id).contains(
                list[i],
            ),
    decreases list.len(),
{
    if list.len() > 0 {
        let less = list.drop_last();
        let got = without(less, id);
        lemma_without(less, id);
        assert forall|i: int| 0 <= i < got.len() implies list.contains(#[trigger] got[i]) by {
            let k = choose|k: int| 0 <= k < less.len() && less[k] == got[i];
            assert(list[k] == got[i]);
        }
        if distinct(list) {
            assert(distinct(less)) by {
                assert forall|i: int, j: int| 0 <= i < j < less.len() implies (#[trigger] less[i]).ident()
                    != (#[trigger] less[j]).ident() by {
                    assert(list[i].ident() != list[j].ident());
                }
            }
            assert forall|i: int| 0 <= i < got.len() implies (#[trigger] got[i]).ident()
                != list.last().ident() by {
                let k = choose|k: int| 0 <= k < less.len() && less[k] == got[i];
                assert(list[k].ident() != list[list.len() - 1].ident());
            }
        }
        let all = without(list, id);
        assert(list.contains(list.last())) by {
            assert(list[list.len() - 1] == list.last());
        }
        assert forall|i: int| 0 <= i < list.len() && (#[trigger] list[i]).ident() != id implies all.contains(
            list[i],
        ) by {
            if i < list.len() - 1 {
                assert(less[i] == list[i]);
                let k = choose|k: int| 0 <= k < got.len() && got[k] == less[i];
                assert(all[k] == list[i]);
            } else {
                assert(all[all.len() - 1] == list[i]);
            }
        }
    }
}

/// No name is there twice among the engines, whatever a user adds.
pub proof fn law_names_are_distinct(kokoro_env_dir: Option<String>, user: Seq<CommandEngine>)
    ensures
        distinct(registered(built_in(kokoro_env_dir), user)),
    decreases user.len(),
{
    if user.len() == 0 {
        reveal_strlit("say");
        reveal_strlit("kokoro");
        assert("say"@.len() != "kokoro"@.len());
    } else {
        law_names_are_distinct(kokoro_env_dir, user.drop_last());
        lemma_without(
            registered(built_in(kokoro_env_dir), user.drop_last()),
            user.last().manifest.id@,
        );
    }
}

/// The engine that a user adds last under a name is the one of that name, and
/// an engine whose name no user takes stays.
pub proof fn law_user_engine_wins(kokoro_env_dir: Option<String>, user: Seq<CommandEngine>, k: int)
    requires
        0 <= k < user.len(),
        forall|j: int| k < j < user.len() ==> (#[trigger] user[j]).manifest.id@ != user[k].manifest.id@,
    ensures
        registered(built_in(kokoro_env_dir), user).contains(Engine::Command(user[k])),
    decreases user.len(),
{
    let all = registered(built_in(kokoro_env_dir), user);
    if k == user.len() - 1 {
        assert(all[all.len() - 1] == Engine::Command(user[k]));
    } else {
        let less = user.drop_last();
        assert(less[k] == user[k]);
        assert forall|j: int| k < j < less.len() implies (#[trigger] less[j]).manifest.id@
            != less[k].manifest.id@ by {
            assert(user[j].manifest.id@ != user[k].manifest.id@);
        }
        law_user_engine_wins(kokoro_env_dir, less, k);
        let before = registered(built_in(kokoro_env_dir), less);
        lemma_without(before, user.last().manifest.id@);
        assert(user[user.len() - 1].manifest.id@ != user[k].manifest.id@);
        let i = choose|i: int| 0 <= i < before.len() && before[i] == Engine::Command(user[k]);
        assert(before[i].ident() != user.last().manifest.id@);
        let got = without(before, user.last().manifest.id@);
        let m = choose|m: int| 0 <= m < got.len() && got[m] == before[i];
        assert(all[m] == Engine::Command(user[k]));
    }
}

/// The built-in engines whose names no user takes stay.
pub proof fn law_built_in_stays(kokoro_env_dir: Option<String>, user: Seq<CommandEngine>, k: int)
    requires
        0 <= k < 2,
        forall|j: int|
            0 <= j < user.len() ==> (#[trigger] user[j]).manifest.id@ != built_in(
                kokoro_env_dir,
            )[k].ident(),
    ensures
        registered(built_in(kokoro_env_dir), user).contains(built_in(kokoro_env_dir)[k]),
    decreases user.len(),
{
    let base = built_in(kokoro_env_dir);
    if user.len() > 0 {
        let less = user.drop_last();
        assert forall|j: int| 0 <= j < less.len() implies (#[trigger] less[j]).manifest.id@
            != base[k].ident() by {
            assert(user[j].manifest.id@ != base[k].ident());
        }
        law_built_in_stays(kokoro_env_dir, less, k);
        let before = registered(base, less);
        lemma_without(before, user.last().manifest.id@);
        assert(user[user.len() - 1].manifest.id@ != base[k].ident());
        let i = choose|i: int| 0 <= i < before.len() && before[i] == base[k];
        let got = without(before, user.last().manifest.id@);
        let m = choose|m: int| 0 <= m < got.len() && got[m] == before[i];
        assert(registered(base, user)[m] == base[k]);
    } else {
        assert(registered(base, user)[k] == base[k]);
    }
}

// ---- the voice of the system ----

/// Tells whether the voice of the system is there: on a Mac that has its
/// program.
pub fn say_available(macos: bool, present: &Vec<String>) -> (b: bool)
    ensures
        b == (macos && text::texts(present@).contains("/usr/bin/say"@)),
{
    macos && holds_text(present, "/usr/bin/say")
}

/// Tells whether the voice of the system can be used, and why or why not.
pub fn say_availability(available: bool) -> (r: (bool, String))
    ensures
        r.0 == available,
        r.1@ == if available {
            "/usr/bin/say"@
        } else {
            "only available on macOS"@
        },
{
    if available {
        (true, copy_text("/usr/bin/say"))
    } else {
        (false, copy_text("only available on macOS"))
    }
}

/// A number cut to a natural one of 32 bits.
pub open spec fn to_u32(x: Real) -> u32 {
    let w = x.to_whole_int();
    if w < 0 {
        0
    } else if w > u32::MAX {
        u32::MAX
    } else {
        w as u32
    }
}

/// Words in a minute, rounded and kept in bounds.
pub open spec fn words_per_minute(rate: Real) -> u32 {
    to_u32(rate.rounded().within(Real { bits: SAY_MIN_BITS }, Real { bits: SAY_MAX_BITS }))
}

/// Turns a rate into words in a minute.
pub fn say_rate(rate: Real) -> (n: u32)
    ensures
        n == words_per_minute(rate),
{
    let w: i64 = rate.round().clamp(
        Real { bits: SAY_MIN_BITS },
        Real { bits: SAY_MAX_BITS },
    ).to_int();
    if w < 0 {
        0
    } else if w > 0xFFFF_FFFF {
        0xFFFF_FFFF
    } else {
        w as u32
    }
}

/// The call of the system's voice.
pub open spec fn say_call(
    voice: Option<Seq<char>>,
    rate: Option<u32>,
    out: Seq<char>,
    script: Seq<char>,
) -> Seq<Seq<char>> {
    let a = match voice {
        Some(v) => if v.len() > 0 {
            seq!["-v"@, v]
        } else {
            Seq::empty()
        },
        None => Seq::empty(),
    };
    let b = match rate {
        Some(r) => a.push("-r"@).push(text::digits(r as nat)),
        None => a,
    };
    b.push("-o"@).push(out).push("-f"@).push(script)
}

/// Makes the call of the system's voice that reads a file aloud into another.
pub fn say_args(voice: Option<&str>, rate_wpm: Option<u32>, out: &str, script: &str) -> (r: Vec<String>)
    ensures
        text::texts(r@) == say_call(
            match voice {
                Some(v) => Some(v@),
                None => None,
            },
            rate_wpm,
            out@,
            script@,
        ),
{
    let mut r: Vec<String> = Vec::new();
    assert(text::texts(r@) =~= Seq::<Seq<char>>::empty());
    if let Some(v) = voice {
        let c: Vec<char> = chars_of(v);
        if c.len() > 0 {
            push_text(&mut r, copy_text("-v"));
            push_text(&mut r, copy_text(v));
            assert(text::texts(r@) =~= seq!["-v"@, v@]);
        }
    }
    if let Some(n) = rate_wpm {
        push_text(&mut r, copy_text("-r"));
        push_text(&mut r, nat_to_text(n as u128));
    }
    push_text(&mut r, copy_text("-o"));
    push_text(&mut r, copy_text(out));
    push_text(&mut r, copy_text("-f"));
    push_text(&mut r, copy_text(script));
    r
}

/// What a run of an engine came to: it must succeed and leave a file.
pub fn judge_speech(program: &str, success: bool, stderr: &str, written: bool) -> (r: Result<(), String>)
    ensures
        r is Ok <==> success && written,
        !success ==> r->Err_0@ == program@ + " failed: "@ + text::trimmed(stderr@),
        success && !written ==> r->Err_0@ == program@ + " produced no audio file"@,
{
    if !success {
        let said: String = trim(stderr);
        let mut m: String = copy_text(program);
        m.append(" failed: ");
        m.append(said.as_str());
        return Err(m);
    }
    if !written {
        let mut m: String = copy_text(program);
        m.append(" produced no audio file");
        return Err(m);
    }
    Ok(())
}

// ---- Kokoro ----

/// Whether the variable switches Kokoro off.
pub open spec fn kokoro_off(m: MachineV) -> bool {
    m.variable is Some && (m.variable->Some_0 == "off"@ || m.variable->Some_0 == "none"@
        || m.variable->Some_0 == "0"@)
}

fn is_kokoro_off(m: &Machine) -> (b: bool)
    ensures
        b == kokoro_off(m@),
{
    match &m.variable {
        Some(v) => same_text(v.as_str(), "off") || same_text(v.as_str(), "none") || same_text(
            v.as_str(),
            "0",
        ),
        None => false,
    }
}

/// Whether Kokoro can be used, and why or why not.
pub open spec fn kokoro_status(m: MachineV, system: bool) -> (bool, Seq<char>) {
    if kokoro_off(m) {
        (false, "disabled by UE_TTS_PYTHON — unset it to re-enable"@)
    } else if m.python() is Some {
        (true, "local AI voice, offline"@)
    } else if m.env_dir is Some && system {
        (true, "sets itself up on first use (one-time download)"@)
    } else {
        (false, "install Python 3 ≥ 3.9 (e.g. `brew install python`) to enable it"@)
    }
}

/// Tells whether Kokoro can be used, and why or why not. The flag tells whether
/// an interpreter of the system works.
pub fn kokoro_availability(m: &Machine, system: bool) -> (r: (bool, String))
    ensures
        (r.0, r.1@) == kokoro_status(m@, system),
{
    if is_kokoro_off(m) {
        return (false, copy_text("disabled by UE_TTS_PYTHON — unset it to re-enable"));
    }
    if denoiser_python(m).is_some() {
        return (true, copy_text("local AI voice, offline"));
    }
    if m.env_dir.is_some() && system {
        return (true, copy_text("sets itself up on first use (one-time download)"));
    }
    (false, copy_text("install Python 3 ≥ 3.9 (e.g. `brew install python`) to enable it"))
}

/// With what Kokoro runs.
#[derive(Debug)]
pub enum KokoroStep {
    /// An interpreter that is there.
    Use(String),
    /// One that is set up in a directory first.
    Provision(String),
}

/// With what Kokoro runs: an interpreter that is there, or a directory to set
/// one up in; a complaint where neither is, or where it is switched off.
pub open spec fn kokoro_choice(m: MachineV) -> Result<(bool, Seq<char>), Seq<char>> {
    if kokoro_off(m) {
        Err("disabled by UE_TTS_PYTHON — unset it to re-enable"@)
    } else {
        match m.python() {
            Some(p) => Ok((true, p)),
            None => match m.env_dir {
                Some(d) => Ok((false, d)),
                None => Err("no folder for the Kokoro env"@),
            },
        }
    }
}

/// Decides with what Kokoro runs.
pub fn kokoro_python(m: &Machine) -> (r: Result<KokoroStep, String>)
    ensures
        match kokoro_choice(m@) {
            Ok((true, p)) => r matches Ok(KokoroStep::Use(x)) && x@ == p,
            Ok((false, d)) => r matches Ok(KokoroStep::Provision(x)) && x@ == d,
            Err(m) => r matches Err(e) && e@ == m,
        },
{
    if is_kokoro_off(m) {
        return Err(copy_text("disabled by UE_TTS_PYTHON — unset it to re-enable"));
    }
    match denoiser_python(m) {
        Some(p) => Ok(KokoroStep::Use(p)),
        None => match &m.env_dir {
            Some(d) => Ok(KokoroStep::Provision(d.clone())),
            None => Err(copy_text("no folder for the Kokoro env")),
        },
    }
}

/// A variable that switches Kokoro off keeps it off: it is not available, no
/// interpreter runs it, and no environment is set up.
pub proof fn law_kokoro_off_is_off(m: MachineV, system: bool)
    requires
        kokoro_off(m),
    ensures
        !kokoro_status(m, system).0,
        kokoro_choice(m) is Err,
{
}

/// The trouble with the environment of Kokoro, in words.
pub open spec fn kokoro_message(t: EnvTrouble) -> Seq<char> {
    match t {
        EnvTrouble::Folder(e) => e@,
        EnvTrouble::NoPython => "no python3/python ≥ 3.9 found on the system"@,
        EnvTrouble::VenvSpawn(s, e) => "could not run "@ + s@ + ": "@ + e@,
        EnvTrouble::Venv(s) => "venv creation failed"@,
        EnvTrouble::PipSpawn(e) => "could not run pip: "@ + e@,
        EnvTrouble::Install => "kokoro install failed (network? python < 3.9?)"@,
    }
}

/// Puts the trouble with the environment of Kokoro into words.
pub fn kokoro_trouble(t: EnvTrouble) -> (r: String)
    ensures
        r@ == kokoro_message(t),
{
    match t {
        EnvTrouble::Folder(e) => e,
        EnvTrouble::NoPython => copy_text("no python3/python ≥ 3.9 found on the system"),
        EnvTrouble::VenvSpawn(s, e) => {
            let mut r: String = copy_text("could not run ");
            r.append(s.as_str());
            r.append(": ");
            r.append(e.as_str());
            r
        },
        EnvTrouble::Venv(s) => copy_text("venv creation failed"),
        EnvTrouble::PipSpawn(e) => {
            let mut r: String = copy_text("could not run pip: ");
            r.append(e.as_str());
            r
        },
        EnvTrouble::Install => copy_text("kokoro install failed (network? python < 3.9?)"),
    }
}

/// The arguments that install the packages of Kokoro.
pub fn kokoro_install_args() -> (r: Vec<String>)
    ensures
        text::texts(r@) == seq![
            "-m"@,
            "pip"@,
            "install"@,
            "--quiet"@,
            "kokoro==0.9.4"@,
            "misaki[en,espeak]==0.9.4"@,
            "soundfile"@,
        ],
{
    let mut r: Vec<String> = Vec::new();
    assert(text::texts(r@) =~= Seq::<Seq<char>>::empty());
    push_args(
        &mut r,
        &vec![
            "-m",
            "pip",
            "install",
            "--quiet",
            "kokoro==0.9.4",
            "misaki[en,espeak]==0.9.4",
            "soundfile",
        ],
    );
    assert(text::texts(r@) =~= seq![
        "-m"@,
        "pip"@,
        "install"@,
        "--quiet"@,
        "kokoro==0.9.4"@,
        "misaki[en,espeak]==0.9.4"@,
        "soundfile"@,
    ]);
    r
}

/// The arguments that try the packages of Kokoro.
pub fn kokoro_import_args() -> (r: Vec<String>)
    ensures
        text::texts(r@) == seq!["-c"@, "import kokoro, soundfile, numpy"@],
{
    let mut r: Vec<String> = Vec::new();
    assert(text::texts(r@) =~= Seq::<Seq<char>>::empty());
    push_args(&mut r, &vec!["-c", "import kokoro, soundfile, numpy"]);
    assert(text::texts(r@) =~= seq!["-c"@, "import kokoro, soundfile, numpy"@]);
    r
}

/// Where the library that Kokoro speaks Spanish with may be.
pub open spec fn espeak_places() -> Seq<Seq<char>> {
    seq![
        "/opt/homebrew/lib/libespeak-ng.dylib"@,
        "/opt/homebrew/lib/libespeak-ng.1.dylib"@,
        "/usr/local/lib/libespeak-ng.dylib"@,
    ]
}

/// The first of some files that is there.
pub open spec fn first_there(places: Seq<Seq<char>>, present: Seq<Seq<char>>) -> Option<Seq<char>>
    decreases places.len(),
{
    if places.len() == 0 {
        None
    } else if present.contains(places[0]) {
        Some(places[0])
    } else {
        first_there(places.drop_first(), present)
    }
}

fn find_there(places: &Vec<String>, present: &Vec<String>) -> (r: Option<String>)
    ensures
        model::opt_text(r) == first_there(text::texts(places@), text::texts(present@)),
{
    let ghost all = text::texts(places@);
    let mut i: usize = 0;
    assert(all.skip(0) =~= all);
    while i < places.len()
        invariant
            i <= places.len(),
            all == text::texts(places@),
            first_there(all, text::texts(present@)) == first_there(
                all.skip(i as int),
                text::texts(present@),
            ),
        decreases places.len() - i,
    {
        assert(all.skip(i as int)[0] == places@[i as int]@);
        assert(all.skip(i as int).drop_first() =~= all.skip(i + 1));
        if holds_text(present, places[i].as_str()) {
            return Some(places[i].clone());
        }
        i = i + 1;
    }
    None
}

/// Finds the library that Kokoro speaks Spanish with.
pub fn espeak_library(present: &Vec<String>) -> (r: Option<String>)
    ensures
        model::opt_text(r) == first_there(espeak_places(), text::texts(present@)),
{
    let mut places: Vec<String> = Vec::new();
    assert(text::texts(places@) =~= Seq::<Seq<char>>::empty());
    push_text(&mut places, copy_text("/opt/homebrew/lib/libespeak-ng.dylib"));
    push_text(&mut places, copy_text("/opt/homebrew/lib/libespeak-ng.1.dylib"));
    push_text(&mut places, copy_text("/usr/local/lib/libespeak-ng.dylib"));
    assert(text::texts(places@) =~= espeak_places());
    find_there(&places, present)
}

/// A voice that was asked for, or else a default.
pub open spec fn voice_or(voice: Option<Seq<char>>, default: Seq<char>) -> Seq<char> {
    match voice {
        Some(v) => if v.len() > 0 {
            v
        } else {
            default
        },
        None => default,
    }
}

fn pick_voice(voice: Option<&str>, default: &str) -> (r: String)
    ensures
        r@ == voice_or(
            match voice {
                Some(v) => Some(v@),
                None => None,
            },
            default@,
        ),
{
    if let Some(v) = voice {
        let c: Vec<char> = chars_of(v);
        if c.len() > 0 {
            return copy_text(v);
        }
    }
    copy_text(default)
}

/// The speed of Kokoro.
pub open spec fn kokoro_speed(rate: Option<Real>) -> Real {
    (match rate {
        Some(r) => r,
        None => Real { bits: SPEED_DEFAULT_BITS },
    }).within(Real { bits: SPEED_MIN_BITS }, Real { bits: SPEED_MAX_BITS })
}

/// Makes the arguments of Kokoro's script.
pub fn kokoro_args(script: &str, voice: Option<&str>, rate: Option<Real>, out: &str) -> (r: Vec<String>)
    ensures
        text::texts(r@) == seq![
            script@,
            voice_or(
                match voice {
                    Some(v) => Some(v@),
                    None => None,
                },
                "af_heart"@,
            ),
            decimal::short_text(kokoro_speed(rate)),
            out@,
        ],
{
    let speed: Real = (match rate {
        Some(x) => x,
        None => Real { bits: SPEED_DEFAULT_BITS },
    }).clamp(Real { bits: SPEED_MIN_BITS }, Real { bits: SPEED_MAX_BITS });
    let mut r: Vec<String> = Vec::new();
    assert(text::texts(r@) =~= Seq::<Seq<char>>::empty());
    push_text(&mut r, copy_text(script));
    push_text(&mut r, pick_voice(voice, "af_heart"));
    push_text(&mut r, shortest(speed));
    push_text(&mut r, copy_text(out));
    assert(text::texts(r@) =~= seq![
        script@,
        voice_or(
            match voice {
                Some(v) => Some(v@),
                None => None,
            },
            "af_heart"@,
        ),
        decimal::short_text(kokoro_speed(rate)),
        out@,
    ]);
    r
}

/// The last of some lines.
pub open spec fn last_lines(lines: Seq<Seq<char>>, n: nat) -> Seq<Seq<char>> {
    if lines.len() <= n {
        lines
    } else {
        lines.skip(lines.len() - n)
    }
}

/// What a run of Kokoro came to: it must succeed and leave a file. Of what it
/// said only the last four lines count.
pub fn judge_kokoro(success: bool, stderr: &str, written: bool) -> (r: Result<(), String>)
    ensures
        r is Ok <==> success && written,
        !success ==> r->Err_0@ == "kokoro failed: "@ + text::joined(
            last_lines(reading::lines_of(stderr@), 4),
            " | "@,
        ),
        success && !written ==> r->Err_0@ == "kokoro produced no audio file"@,
{
    if !success {
        let lines: Vec<String> = split_lines(stderr);
        let ghost all = reading::lines_of(stderr@);
        assert(all.len() == lines.len());
        let from: usize = if lines.len() <= 4 {
            0
        } else {
            lines.len() - 4
        };
        let mut tail: Vec<String> = Vec::new();
        let mut i: usize = from;
        assert(text::texts(tail@) =~= all.subrange(from as int, from as int));
        while i < lines.len()
            invariant
                from <= i <= lines.len(),
                text::texts(lines@) == all,
                all.len() == lines.len(),
                text::texts(tail@) == all.subrange(from as int, i as int),
            decreases lines.len() - i,
        {
            assert(all[i as int] == lines@[i as int]@);
            assert(all.subrange(from as int, i + 1) =~= all.subrange(from as int, i as int).push(
                all[i as int],
            ));
            push_text(&mut tail, lines[i].clone());
            i = i + 1;
        }
        assert(all.subrange(from as int, all.len() as int) =~= last_lines(all, 4));
        let said: String = join(&tail, " | ");
        let mut m: String = copy_text("kokoro failed: ");
        m.append(said.as_str());
        return Err(m);
    }
    if !written {
        return Err(copy_text("kokoro produced no audio file"));
    }
    Ok(())
}

// ---- engines of a user ----

/// Whether a number is a whole one, as all are that are too large for 64 bits.
pub open spec fn is_whole(x: Real) -> bool {
    let w = x.to_whole_int();
    x.is_finite() && (w == i64::MIN || w == i64::MAX || Real::of(w).same(x))
}

/// A rate in words: a whole number without a point.
pub open spec fn rate_text(x: Real) -> Seq<char> {
    if is_whole(x) {
        text::int_text(x.to_whole_int())
    } else {
        decimal::short_text(x)
    }
}

fn write_rate(x: Real) -> (r: String)
    ensures
        r@ == rate_text(x),
{
    let w: i64 = x.to_int();
    if x.finite() && (w == i64::MIN || w == i64::MAX || Real::from_int(w).equals(x)) {
        int_to_text(w)
    } else {
        shortest(x)
    }
}

/// An argument with its places filled: the text, the voice, the rate and the
/// file, one after the other.
pub open spec fn filled(
    a: Seq<char>,
    speech: Seq<char>,
    voice: Seq<char>,
    rate: Real,
    out: Seq<char>,
) -> Seq<char> {
    text::replaced(
        text::replaced(
            text::replaced(text::replaced(a, "{text}"@, speech), "{voice}"@, voice),
            "{rate}"@,
            rate_text(rate),
        ),
        "{out}"@,
        out,
    )
}

/// The voice of a command: that which was asked for, or the first of its own.
pub open spec fn command_voice(m: EngineManifest, voice: Option<Seq<char>>) -> Seq<char> {
    voice_or(
        voice,
        if m.voices@.len() > 0 {
            m.voices@[0].id@
        } else {
            ""@
        },
    )
}

/// The rate of a command: that which was asked for, or its own, kept in bounds.
pub open spec fn command_rate(m: EngineManifest, rate: Option<Real>) -> Real {
    let asked = match rate {
        Some(r) => r,
        None => match m.rate {
            Some(s) => s.default,
            None => Real { bits: SPEED_DEFAULT_BITS },
        },
    };
    match m.rate {
        Some(s) => asked.within(s.min, s.max),
        None => asked,
    }
}

impl CommandEngine {
    /// Fills the places of the command for one run.
    pub fn render_argv(&self, speech: &str, voice: &str, rate: Real, out: &str) -> (r: Vec<String>)
        ensures
            text::texts(r@) == text::texts(self.manifest.argv@).map_values(
                |a: Seq<char>| filled(a, speech@, voice@, rate, out@),
            ),
    {
        proof {
            reveal_strlit("{text}");
            reveal_strlit("{voice}");
            reveal_strlit("{rate}");
            reveal_strlit("{out}");
        }
        let ghost all = text::texts(self.manifest.argv@).map_values(
            |a: Seq<char>| filled(a, speech@, voice@, rate, out@),
        );
        let rate_words: String = write_rate(rate);
        let mut r: Vec<String> = Vec::new();
        let mut i: usize = 0;
        assert(text::texts(r@) =~= all.take(0));
        while i < self.manifest.argv.len()
            invariant
                i <= self.manifest.argv.len(),
                "{text}"@.len() > 0,
                "{voice}"@.len() > 0,
                "{rate}"@.len() > 0,
                "{out}"@.len() > 0,
                rate_words@ == rate_text(rate),
                all == text::texts(self.manifest.argv@).map_values(
                    |a: Seq<char>| filled(a, speech@, voice@, rate, out@),
                ),
                text::texts(r@) == all.take(i as int),
            decreases self.manifest.argv.len() - i,
        {
            let a: String = replace_all(self.manifest.argv[i].as_str(), "{text}", speech);
            let b: String = replace_all(a.as_str(), "{voice}", voice);
            let c: String = replace_all(b.as_str(), "{rate}", rate_words.as_str());
            let d: String = replace_all(c.as_str(), "{out}", out);
            assert(all.take(i + 1) =~= all.take(i as int).push(all[i as int]));
            push_text(&mut r, d);
            i = i + 1;
        }
        assert(all.take(i as int) =~= all);
        r
    }

    /// Makes the command that speaks a text: the program, and its arguments. An
    /// empty command cannot be run.
    pub fn plan(&self, speech: &str, voice: Option<&str>, rate: Option<Real>, out: &str) -> (r: Result<
        Vec<String>,
        String,
    >)
        ensures
            self.manifest.argv@.len() == 0 ==> r is Err && r->Err_0@ == "manifest has an empty argv"@,
            self.manifest.argv@.len() > 0 ==> r is Ok && text::texts(r->Ok_0@) == text::texts(
                self.manifest.argv@,
            ).map_values(
                |a: Seq<char>|
                    filled(
                        a,
                        speech@,
                        command_voice(
                            self.manifest,
                            match voice {
                                Some(v) => Some(v@),
                                None => None,
                            },
                        ),
                        command_rate(self.manifest, rate),
                        out@,
                    ),
            ),
    {
        if self.manifest.argv.len() == 0 {
            return Err(copy_text("manifest has an empty argv"));
        }
        let chosen: String = if self.manifest.voices.len() > 0 {
            pick_voice(voice, self.manifest.voices[0].id.as_str())
        } else {
            pick_voice(voice, "")
        };
        let asked: Real = match rate {
            Some(r) => r,
            None => match &self.manifest.rate {
                Some(s) => s.default,
                None => Real { bits: SPEED_DEFAULT_BITS },
            },
        };
        let kept: Real = match &self.manifest.rate {
            Some(s) => asked.clamp(s.min, s.max),
            None => asked,
        };
        Ok(self.render_argv(speech, chosen.as_str(), kept, out))
    }

    /// Tells whether the command can be run, and where its program was found or
    /// why not.
    pub fn availability(&self, dirs: &Vec<String>, files: &Vec<String>, windows: bool) -> (r: (
        bool,
        String,
    ))
        ensures
            self.manifest.argv@.len() == 0 ==> !r.0 && r.1@ == "manifest has an empty argv"@,
            self.manifest.argv@.len() > 0 ==> match program_at(
                self.manifest.argv@[0]@,
                text::texts(dirs@),
                text::texts(files@),
                windows,
            ) {
                Some(p) => r.0 && r.1@ == p,
                None => !r.0 && r.1@ == self.manifest.argv@[0]@ + " not found in PATH"@,
            },
    {
        if self.manifest.argv.len() == 0 {
            return (false, copy_text("manifest has an empty argv"));
        }
        let bin: &String = &self.manifest.argv[0];
        match which(bin.as_str(), dirs, files, windows) {
            Some(p) => (true, p),
            None => {
                let mut m: String = copy_text(bin.as_str());
                m.append(" not found in PATH");
                (false, m)
            },
        }
    }
}

/// A name in each of some directories.
pub open spec fn in_dirs(dirs: Seq<Seq<char>>, name: Seq<char>, windows: bool) -> Seq<Seq<char>> {
    dirs.map_values(|d: Seq<char>| paths::path_in(d, name, windows))
}

/// The program of a name: a name with a slash is the file itself, any other is
/// looked for in the directories, one after the other.
pub open spec fn program_at(
    bin: Seq<char>,
    dirs: Seq<Seq<char>>,
    files: Seq<Seq<char>>,
    windows: bool,
) -> Option<Seq<char>> {
    if text::has_text(bin, "/"@) {
        if files.contains(bin) {
            Some(bin)
        } else {
            None
        }
    } else {
        first_there(in_dirs(dirs, bin, windows), files)
    }
}

/// Finds the program of a name, among the files that are there.
pub fn which(bin: &str, dirs: &Vec<String>, files: &Vec<String>, windows: bool) -> (r: Option<String>)
    ensures
        model::opt_text(r) == program_at(bin@, text::texts(dirs@), text::texts(files@), windows),
{
    if contains_text(bin, "/") {
        return if holds_text(files, bin) {
            Some(copy_text(bin))
        } else {
            None
        };
    }
    let ghost all = in_dirs(text::texts(dirs@), bin@, windows);
    let mut places: Vec<String> = Vec::new();
    let mut i: usize = 0;
    assert(text::texts(places@) =~= all.take(0));
    while i < dirs.len()
        invariant
            i <= dirs.len(),
            all == in_dirs(text::texts(dirs@), bin@, windows),
            text::texts(places@) == all.take(i as int),
        decreases dirs.len() - i,
    {
        assert(all.take(i + 1) =~= all.take(i as int).push(all[i as int]));
        push_text(&mut places, resolve_path_pub(dirs[i].as_str(), bin, windows));
        i = i + 1;
    }
    assert(all.take(i as int) =~= all);
    find_there(&places, files)
}

/// Whether a manifest can be used.
pub open spec fn admissible(m: EngineManifest) -> bool {
    !text::is_blank(m.id@) && m.argv@.len() > 0
}

/// What is said against a manifest that cannot be used.
pub open spec fn objection(file: Seq<char>, m: EngineManifest) -> Seq<char> {
    if text::is_blank(m.id@) {
        file + ": empty id"@
    } else {
        file + ": empty argv"@
    }
}

/// Makes an engine of a manifest that was read from a file, or says what is
/// wrong with it.
pub fn admit_engine(file: &str, m: Result<EngineManifest, String>) -> (r: Result<CommandEngine, String>)
    ensures
        match m {
            Err(e) => r matches Err(x) && x@ == file@ + ": "@ + e@,
            Ok(y) => if admissible(y) {
                r == Ok::<CommandEngine, String>(CommandEngine { manifest: y })
            } else {
                r matches Err(x) && x@ == objection(file@, y)
            },
        },
{
    match m {
        Err(e) => {
            let mut x: String = copy_text(file);
            x.append(": ");
            x.append(e.as_str());
            Err(x)
        },
        Ok(y) => {
            if blank(y.id.as_str()) {
                let mut x: String = copy_text(file);
                x.append(": empty id");
                return Err(x);
            }
            if y.argv.len() == 0 {
                let mut x: String = copy_text(file);
                x.append(": empty argv");
                return Err(x);
            }
            Ok(CommandEngine { manifest: y })
        },
    }
}

} // verus!
