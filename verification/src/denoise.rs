//! Reduction of background noise: which engine does it, and what each of its
//! steps comes to. The files, variables and programs are looked at outside.

use vstd::prelude::*;

use crate::media::{push_args, MediaErrV, MediaError, MediaResult};
use crate::model;
use crate::paths;
use crate::paths::{resolve_path_pub, venv_python};
use crate::sound::{holds_text, DENOISE_FILTER};
use crate::text;
use crate::text::{contains_text, copy_text, push_text, same_text};

verus! {

// ---- the interpreter ----

/// Whether a value of the variable switches an engine off.
pub open spec fn off(v: Seq<char>) -> bool {
    v == "off"@ || v == "none"@ || v == "0"@ || v == ""@
}

/// Tells whether a value of the variable switches an engine off.
pub fn is_off(v: &str) -> (b: bool)
    ensures
        b == off(v@),
{
    same_text(v, "off") || same_text(v, "none") || same_text(v, "0") || same_text(v, "")
}

/// What is known of the machine: the value of the variable that names an
/// interpreter, the directory for environments of the application, the home
/// directory, the system, and which of the files in question are there.
#[derive(Debug)]
pub struct Machine {
    pub variable: Option<String>,
    pub env_dir: Option<String>,
    pub home: Option<String>,
    pub windows: bool,
    pub present: Vec<String>,
}

/// The contents of a `Machine`.
#[verifier::ext_equal]
pub struct MachineV {
    pub variable: Option<Seq<char>>,
    pub env_dir: Option<Seq<char>>,
    pub home: Option<Seq<char>>,
    pub windows: bool,
    pub present: Seq<Seq<char>>,
}

impl View for Machine {
    type V = MachineV;

    open spec fn view(&self) -> MachineV {
        MachineV {
            variable: model::opt_text(self.variable),
            env_dir: model::opt_text(self.env_dir),
            home: model::opt_text(self.home),
            windows: self.windows,
            present: text::texts(self.present@),
        }
    }
}

impl MachineV {
    /// The interpreter of the application's own environment, where it is there.
    pub open spec fn own(self) -> Option<Seq<char>> {
        match self.env_dir {
            Some(d) => if self.present.contains(paths::venv_of(d, self.windows)) {
                Some(paths::venv_of(d, self.windows))
            } else {
                None
            },
            None => None,
        }
    }

    /// The interpreter of a toolkit in the home directory, where it is there.
    pub open spec fn toolkit(self) -> Option<Seq<char>> {
        match self.home {
            Some(h) => {
                let p = paths::path_in(
                    h,
                    "Videos Reel/Youtubers-toolkit/venv/bin/python"@,
                    self.windows,
                );
                if self.present.contains(p) {
                    Some(p)
                } else {
                    None
                }
            },
            None => None,
        }
    }

    /// The interpreter to use: that of the variable, unless it switches the
    /// engine off, then the application's own, then that of the toolkit.
    pub open spec fn python(self) -> Option<Seq<char>> {
        match self.variable {
            Some(v) => if off(v) {
                None
            } else {
                Some(v)
            },
            None => match self.own() {
                Some(p) => Some(p),
                None => self.toolkit(),
            },
        }
    }
}

/// Finds the interpreter for the neural engine.
pub fn denoiser_python(m: &Machine) -> (r: Option<String>)
    ensures
        model::opt_text(r) == m@.python(),
{
    if let Some(v) = &m.variable {
        return if is_off(v.as_str()) {
            None
        } else {
            Some(v.clone())
        };
    }
    if let Some(d) = &m.env_dir {
        let own: String = venv_python(d.as_str(), m.windows);
        if holds_text(&m.present, own.as_str()) {
            return Some(own);
        }
    }
    match &m.home {
        Some(h) => {
            let p: String = resolve_path_pub(
                h.as_str(),
                "Videos Reel/Youtubers-toolkit/venv/bin/python",
                m.windows,
            );
            if holds_text(&m.present, p.as_str()) {
                Some(p)
            } else {
                None
            }
        },
        None => None,
    }
}

/// The names of interpreters of the system that are tried, in order.
pub open spec fn candidates(windows: bool) -> Seq<Seq<char>> {
    if windows {
        seq!["python3"@, "python"@, "py"@]
    } else {
        seq!["python3"@, "python"@]
    }
}

/// Lists the interpreters of the system to try, in order.
pub fn python_candidates(windows: bool) -> (r: Vec<String>)
    ensures
        text::texts(r@) == candidates(windows),
{
    let mut r: Vec<String> = Vec::new();
    assert(text::texts(r@) =~= Seq::<Seq<char>>::empty());
    push_text(&mut r, copy_text("python3"));
    push_text(&mut r, copy_text("python"));
    if windows {
        push_text(&mut r, copy_text("py"));
    }
    assert(text::texts(r@) =~= candidates(windows));
    r
}

/// The arguments that make an interpreter fail where it is too old.
pub fn version_args() -> (r: Vec<String>)
    ensures
        text::texts(r@) == seq!["-c"@, "import sys; assert sys.version_info >= (3, 9)"@],
{
    let mut r: Vec<String> = Vec::new();
    assert(text::texts(r@) =~= Seq::<Seq<char>>::empty());
    push_args(&mut r, &vec!["-c", "import sys; assert sys.version_info >= (3, 9)"]);
    assert(text::texts(r@) =~= seq![
        "-c"@,
        "import sys; assert sys.version_info >= (3, 9)"@,
    ]);
    r
}

/// The first candidate that works.
pub open spec fn first_working(names: Seq<Seq<char>>, works: Seq<bool>) -> Option<Seq<char>>
    decreases names.len(),
{
    if names.len() == 0 || works.len() == 0 {
        None
    } else if works[0] {
        Some(names[0])
    } else {
        first_working(names.drop_first(), works.drop_first())
    }
}

/// Picks the interpreter of the system: the first candidate that works.
pub fn find_system_python(windows: bool, works: &Vec<bool>) -> (r: Option<String>)
    ensures
        model::opt_text(r) == first_working(candidates(windows), works@),
{
    let names: Vec<String> = python_candidates(windows);
    let ghost all = candidates(windows);
    let mut i: usize = 0;
    assert(all.skip(0) =~= all);
    assert(works@.skip(0) =~= works@);
    assert(all.len() == names.len());
    while i < names.len() && i < works.len()
        invariant
            i <= names.len(),
            i <= works.len(),
            all == candidates(windows),
            text::texts(names@) == all,
            all.len() == names.len(),
            first_working(all, works@) == first_working(all.skip(i as int), works@.skip(i as int)),
        decreases names.len() - i,
    {
        assert(all.skip(i as int)[0] == names@[i as int]@);
        assert(all.skip(i as int).drop_first() =~= all.skip(i + 1));
        assert(works@.skip(i as int)[0] == works@[i as int]);
        assert(works@.skip(i as int).drop_first() =~= works@.skip(i + 1));
        if works[i] {
            return Some(names[i].clone());
        }
        i = i + 1;
    }
    None
}

/// Whether the neural engine can run, with a hint.
pub open spec fn status(m: MachineV, system: bool) -> (bool, Seq<char>) {
    if m.variable is Some && off(m.variable->Some_0) {
        (false, "disabled by UE_DENOISER_PYTHON — unset it to re-enable"@)
    } else if m.python() is Some {
        (true, "DNS64 neural engine ready"@)
    } else if m.env_dir is Some && system {
        (true, "sets itself up on first use (one-time download)"@)
    } else {
        (false, "install Python 3 ≥ 3.9 (e.g. `brew install python`) to enable it"@)
    }
}

/// Tells whether the neural engine can run, with a hint. The flag tells whether
/// an interpreter of the system works.
pub fn neural_status(m: &Machine, system: bool) -> (r: (bool, String))
    ensures
        (r.0, r.1@) == status(m@, system),
{
    if let Some(v) = &m.variable {
        if is_off(v.as_str()) {
            return (
                false,
                copy_text("disabled by UE_DENOISER_PYTHON — unset it to re-enable"),
            );
        }
    }
    if denoiser_python(m).is_some() {
        return (true, copy_text("DNS64 neural engine ready"));
    }
    if m.env_dir.is_some() && system {
        return (true, copy_text("sets itself up on first use (one-time download)"));
    }
    (false, copy_text("install Python 3 ≥ 3.9 (e.g. `brew install python`) to enable it"))
}

// ---- an environment that is set up ----

/// What happened last while an environment is set up.
#[derive(Debug)]
pub enum EnvEvent {
    /// It was asked for; its interpreter is there already or not.
    Asked { there: bool },
    /// Its directory was made, or why not.
    Folder(Result<(), String>),
    /// The interpreter of the system was looked for.
    System(Option<String>),
    /// The environment was made with an interpreter: whether that succeeded, or
    /// why it could not be run.
    Made { system: String, result: Result<bool, String> },
    /// Its packages were installed: whether that succeeded, or why it could not
    /// be run.
    Installed(Result<bool, String>),
    /// Its packages were tried.
    Tried { works: bool },
}

/// Why an environment could not be set up.
#[derive(Debug)]
pub enum EnvTrouble {
    Folder(String),
    NoPython,
    VenvSpawn(String, String),
    Venv(String),
    PipSpawn(String),
    Install,
}

/// What to do next for an environment.
#[derive(Debug)]
pub enum EnvStep {
    /// It is ready.
    Ready,
    MakeFolder,
    FindSystem,
    /// Make the environment with an interpreter.
    MakeVenv(String),
    Install,
    TryImport,
    /// Give up; what was installed is removed first where that is said.
    Fail { trouble: EnvTrouble, remove: bool },
}

/// Whether a step is the one that follows an event.
pub open spec fn follows(e: EnvEvent, s: EnvStep) -> bool {
    match e {
        EnvEvent::Asked { there } => s == if there {
            EnvStep::Ready
        } else {
            EnvStep::MakeFolder
        },
        EnvEvent::Folder(r) => match r {
            Ok(_) => s == EnvStep::FindSystem,
            Err(x) => s matches EnvStep::Fail { trouble: EnvTrouble::Folder(y), remove } && y@ == x@
                && !remove,
        },
        EnvEvent::System(o) => match o {
            Some(x) => s matches EnvStep::MakeVenv(y) && y@ == x@,
            None => s == (EnvStep::Fail { trouble: EnvTrouble::NoPython, remove: false }),
        },
        EnvEvent::Made { system, result } => match result {
            Ok(done) => if done {
                s == EnvStep::Install
            } else {
                s matches EnvStep::Fail { trouble: EnvTrouble::Venv(y), remove } && y@ == system@
                    && !remove
            },
            Err(x) => s matches EnvStep::Fail { trouble: EnvTrouble::VenvSpawn(y, z), remove } && y@
                == system@ && z@ == x@ && !remove,
        },
        EnvEvent::Installed(r) => match r {
            Ok(done) => s == if done {
                EnvStep::TryImport
            } else {
                EnvStep::Fail { trouble: EnvTrouble::Install, remove: true }
            },
            Err(x) => s matches EnvStep::Fail { trouble: EnvTrouble::PipSpawn(y), remove } && y@
                == x@ && !remove,
        },
        EnvEvent::Tried { works } => s == if works {
            EnvStep::Ready
        } else {
            EnvStep::Fail { trouble: EnvTrouble::Install, remove: true }
        },
    }
}

/// Decides what to do next for an environment. What was installed by half is
/// removed, so that the next attempt starts clean.
pub fn env_step(e: EnvEvent) -> (s: EnvStep)
    ensures
        follows(e, s),
{
    match e {
        EnvEvent::Asked { there } => if there {
            EnvStep::Ready
        } else {
            EnvStep::MakeFolder
        },
        EnvEvent::Folder(r) => match r {
            Ok(_) => EnvStep::FindSystem,
            Err(x) => EnvStep::Fail { trouble: EnvTrouble::Folder(x), remove: false },
        },
        EnvEvent::System(o) => match o {
            Some(x) => EnvStep::MakeVenv(x),
            None => EnvStep::Fail { trouble: EnvTrouble::NoPython, remove: false },
        },
        EnvEvent::Made { system, result } => match result {
            Ok(done) => if done {
                EnvStep::Install
            } else {
                EnvStep::Fail { trouble: EnvTrouble::Venv(system), remove: false }
            },
            Err(x) => EnvStep::Fail { trouble: EnvTrouble::VenvSpawn(system, x), remove: false },
        },
        EnvEvent::Installed(r) => match r {
            Ok(done) => if done {
                EnvStep::TryImport
            } else {
                EnvStep::Fail { trouble: EnvTrouble::Install, remove: true }
            },
            Err(x) => EnvStep::Fail { trouble: EnvTrouble::PipSpawn(x), remove: false },
        },
        EnvEvent::Tried { works } => if works {
            EnvStep::Ready
        } else {
            EnvStep::Fail { trouble: EnvTrouble::Install, remove: true }
        },
    }
}

/// An environment is never given up or ready by half: it is ready only where its
/// interpreter was there at the start or its packages could be used at the end,
/// and what was installed is removed exactly where they could not be.
pub proof fn law_env_is_whole(e: EnvEvent, s: EnvStep)
    requires
        follows(e, s),
    ensures
        s is Ready <==> e == (EnvEvent::Asked { there: true }) || e == (EnvEvent::Tried {
            works: true,
        }),
        (s matches EnvStep::Fail { trouble, remove } && remove) <==> e == (EnvEvent::Tried {
            works: false,
        }) || e == EnvEvent::Installed(Ok(false)),
{
}

/// The trouble with the environment of the neural engine, as an error.
pub open spec fn denoiser_error(t: EnvTrouble) -> MediaErrV {
    match t {
        EnvTrouble::Folder(e) => MediaErrV::Io(e@),
        EnvTrouble::NoPython => MediaErrV::Tool("python"@, "no python3/python ≥ 3.9 found"@),
        EnvTrouble::VenvSpawn(s, e) => MediaErrV::Spawn(s@, e@),
        EnvTrouble::Venv(s) => MediaErrV::Tool(s@, "venv creation failed"@),
        EnvTrouble::PipSpawn(e) => MediaErrV::Spawn("pip"@, e@),
        EnvTrouble::Install => MediaErrV::Tool(
            "pip"@,
            "denoiser install failed (network? python < 3.9?)"@,
        ),
    }
}

/// Makes an error of the trouble with the environment of the neural engine.
pub fn denoiser_trouble(t: EnvTrouble) -> (r: MediaError)
    ensures
        r@ == denoiser_error(t),
{
    match t {
        EnvTrouble::Folder(e) => MediaError::Io(e),
        EnvTrouble::NoPython => MediaError::Tool(
            copy_text("python"),
            copy_text("no python3/python ≥ 3.9 found"),
        ),
        EnvTrouble::VenvSpawn(s, e) => MediaError::Spawn(s, e),
        EnvTrouble::Venv(s) => MediaError::Tool(s, copy_text("venv creation failed")),
        EnvTrouble::PipSpawn(e) => MediaError::Spawn(copy_text("pip"), e),
        EnvTrouble::Install => MediaError::Tool(
            copy_text("pip"),
            copy_text("denoiser install failed (network? python < 3.9?)"),
        ),
    }
}

/// The arguments that install the packages of the neural engine.
pub fn denoiser_install_args() -> (r: Vec<String>)
    ensures
        text::texts(r@) == seq!["-m"@, "pip"@, "install"@, "--quiet"@, "denoiser==0.1.5"@],
{
    let mut r: Vec<String> = Vec::new();
    assert(text::texts(r@) =~= Seq::<Seq<char>>::empty());
    push_args(&mut r, &vec!["-m", "pip", "install", "--quiet", "denoiser==0.1.5"]);
    assert(text::texts(r@) =~= seq!["-m"@, "pip"@, "install"@, "--quiet"@, "denoiser==0.1.5"@]);
    r
}

/// The arguments that try the packages of the neural engine.
pub fn denoiser_import_args() -> (r: Vec<String>)
    ensures
        text::texts(r@) == seq!["-c"@, "import denoiser, julius, numpy"@],
{
    let mut r: Vec<String> = Vec::new();
    assert(text::texts(r@) =~= Seq::<Seq<char>>::empty());
    push_args(&mut r, &vec!["-c", "import denoiser, julius, numpy"]);
    assert(text::texts(r@) =~= seq!["-c"@, "import denoiser, julius, numpy"@]);
    r
}

// ---- a file that is denoised ----

/// What a run of the neural engine came to: it succeeded where the program says
/// so, its report holds `ok `, and the file is there.
pub fn judge_sidecar(success: bool, stdout: &str, stderr: &str, written: bool) -> (r: MediaResult<()>)
    ensures
        r is Ok <==> success && text::has_text(stdout@, "ok "@) && written,
        r is Err ==> r->Err_0@ == MediaErrV::Tool(
            "dns64"@,
            "denoiser sidecar failed: "@ + stdout@ + stderr@,
        ),
{
    if success && contains_text(stdout, "ok ") && written {
        Ok(())
    } else {
        let mut m: String = copy_text("denoiser sidecar failed: ");
        m.append(stdout);
        m.append(stderr);
        Err(MediaError::Tool(copy_text("dns64"), m))
    }
}

/// Makes the call of ffmpeg that denoises a file without the neural engine.
pub fn fallback_args(conform: &str, tmp: &str) -> (r: Vec<String>)
    ensures
        text::texts(r@) == seq![
            "-y"@,
            "-v"@,
            "error"@,
            "-i"@,
            conform@,
            "-af"@,
            DENOISE_FILTER@,
            "-ar"@,
            "48000"@,
            "-ac"@,
            "2"@,
            "-c:a"@,
            "pcm_s16le"@,
            tmp@,
        ],
{
    let mut r: Vec<String> = Vec::new();
    assert(text::texts(r@) =~= Seq::<Seq<char>>::empty());
    push_args(&mut r, &vec!["-y", "-v", "error", "-i"]);
    push_text(&mut r, copy_text(conform));
    push_text(&mut r, copy_text("-af"));
    push_text(&mut r, copy_text(DENOISE_FILTER));
    push_args(&mut r, &vec!["-ar", "48000", "-ac", "2", "-c:a", "pcm_s16le"]);
    push_text(&mut r, copy_text(tmp));
    assert(text::texts(r@) =~= seq![
        "-y"@,
        "-v"@,
        "error"@,
        "-i"@,
        conform@,
        "-af"@,
        DENOISE_FILTER@,
        "-ar"@,
        "48000"@,
        "-ac"@,
        "2"@,
        "-c:a"@,
        "pcm_s16le"@,
        tmp@,
    ]);
    r
}

/// What happened last while a file is denoised.
#[derive(Debug)]
pub enum DenoiseEvent {
    /// It was asked for; the denoised file is there already or not.
    Asked { there: bool },
    /// The environment was set up, or could not be.
    Provisioned(Option<String>),
    /// The neural engine has run.
    Neural { done: bool },
    /// ffmpeg has run; whether it succeeded, and whether the file is there.
    Plain { success: bool, written: bool },
}

/// What to do next for a file.
#[derive(Debug)]
pub enum DenoiseStep {
    /// The file is there.
    Ready,
    /// Set up the environment of the neural engine.
    Provision,
    /// Run the neural engine with an interpreter.
    Neural(String),
    /// Run ffmpeg; what the neural engine wrote is removed first where that is
    /// said.
    Plain { remove: bool },
    /// Give the file its name: it is done.
    Keep,
    /// Remove what was written, and give up.
    Fail,
}

/// Whether a step is the one that follows an event.
pub open spec fn denoise_follows(
    m: MachineV,
    provision: bool,
    e: DenoiseEvent,
    s: DenoiseStep,
) -> bool {
    match e {
        DenoiseEvent::Asked { there } => if there {
            s == DenoiseStep::Ready
        } else if m.python() is Some {
            s matches DenoiseStep::Neural(p) && p@ == m.python()->Some_0
        } else if provision && m.variable is None && m.env_dir is Some {
            s == DenoiseStep::Provision
        } else {
            s == (DenoiseStep::Plain { remove: false })
        },
        DenoiseEvent::Provisioned(o) => match o {
            Some(x) => s matches DenoiseStep::Neural(p) && p@ == x@,
            None => s == (DenoiseStep::Plain { remove: false }),
        },
        DenoiseEvent::Neural { done } => s == if done {
            DenoiseStep::Keep
        } else {
            DenoiseStep::Plain { remove: true }
        },
        DenoiseEvent::Plain { success, written } => s == if success && written {
            DenoiseStep::Keep
        } else {
            DenoiseStep::Fail
        },
    }
}

/// Decides what to do next for a file. The neural engine goes first, where it
/// can run or may be set up; where it fails, ffmpeg takes its place.
pub fn denoise_step(m: &Machine, provision: bool, e: DenoiseEvent) -> (s: DenoiseStep)
    ensures
        denoise_follows(m@, provision, e, s),
{
    match e {
        DenoiseEvent::Asked { there } => {
            if there {
                return DenoiseStep::Ready;
            }
            match denoiser_python(m) {
                Some(p) => DenoiseStep::Neural(p),
                None => if provision && m.variable.is_none() && m.env_dir.is_some() {
                    DenoiseStep::Provision
                } else {
                    DenoiseStep::Plain { remove: false }
                },
            }
        },
        DenoiseEvent::Provisioned(o) => match o {
            Some(x) => DenoiseStep::Neural(x),
            None => DenoiseStep::Plain { remove: false },
        },
        DenoiseEvent::Neural { done } => if done {
            DenoiseStep::Keep
        } else {
            DenoiseStep::Plain { remove: true }
        },
        DenoiseEvent::Plain { success, written } => if success && written {
            DenoiseStep::Keep
        } else {
            DenoiseStep::Fail
        },
    }
}

/// The error of a file that could not be denoised.
pub fn denoise_failed() -> (r: MediaError)
    ensures
        r@ == MediaErrV::Tool("ffmpeg"@, "denoise failed"@),
{
    MediaError::Tool(copy_text("ffmpeg"), copy_text("denoise failed"))
}

/// A variable that switches the neural engine off keeps it off: no file is ever
/// denoised by it, and no environment is set up.
pub proof fn law_off_is_off(m: MachineV, provision: bool, there: bool, s: DenoiseStep)
    requires
        m.variable is Some,
        off(m.variable->Some_0),
        denoise_follows(m, provision, DenoiseEvent::Asked { there }, s),
    ensures
        s == DenoiseStep::Ready || s == (DenoiseStep::Plain { remove: false }),
        !status(m, true).0,
{
}

} // verus!
