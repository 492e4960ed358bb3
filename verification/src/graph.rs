//! The ffmpeg command line of an export: inputs and filter graph.

use vstd::prelude::*;

use crate::decimal;
use crate::decimal::shortest;
use crate::edl;
use crate::edl::{can_flatten, clip_fills, cross_from, edl_duration, find_source, flatten, track_shows, Cross, CrossV, Drawn, DrawnV, Segment, SegmentV};
use crate::export;
use crate::export::{
    ExportErrV, ExportError, ExportFormat, ExportResult, ExportSettings, FfmpegPlan, FfmpegV,
    SettingsV,
};
use crate::float::Real;
use crate::fonts::{Fonts, FontsV};
use crate::ident::Id;
use crate::model;
use crate::model::{Clip, ClipPayload, ClipV, PayloadV, Project, ProjectV, Sequence, SequenceV, Track, TrackV};
use crate::ops;
use crate::ops::{clamp_time, divide_time};
use crate::overlays;
use crate::overlays::{text_clip_chain, text_is_styled_pub};
use crate::paths;
use crate::paths::{are_same_path, is_image_path, resolve_path_pub};
use crate::pieces;
use crate::pieces::restrict_to_ranges;
use crate::render;
use crate::render::{clip_vf_layer, merge_registries, secs, EffectDef, EffectDefV, Labels};
use crate::seqs;
use crate::seqs::{duplicate_all, Duplicate};
use crate::sound;
use crate::sound::{chain_seeked, collect_audio, file_heard, mix, AudioItem, AudioItemV};
use crate::text;
use crate::text::{blank, copy_text, join, nat_to_text, push_text};
use crate::time;
use crate::time::{max2, min2, minus, plus, TimeUs};
use crate::transitions;
use crate::transitions::{circle_mask, xfade_kind};

verus! {

// ---- what an export takes from outside ----

/// The picture of a title, drawn beforehand: its file, or why there is none.
#[derive(Debug)]
pub struct TitleImage {
    pub clip_id: Id,
    pub file: Result<String, String>,
}

/// The contents of a `TitleImage`.
#[verifier::ext_equal]
pub struct TitleV {
    pub clip_id: Id,
    pub file: Result<Seq<char>, Seq<char>>,
}

impl View for TitleImage {
    type V = TitleV;

    open spec fn view(&self) -> TitleV {
        TitleV {
            clip_id: self.clip_id,
            file: match self.file {
                Ok(s) => Ok(s@),
                Err(e) => Err(e@),
            },
        }
    }
}

/// The script of the subtitles, written beforehand.
#[derive(Debug)]
pub enum Script {
    /// There is nothing to show.
    Nothing,
    /// The file of the script, and the filter that burns it in.
    Written { path: String, filter: String },
    /// Why the script could not be written.
    Failed(String),
}

/// The contents of a `Script`.
#[verifier::ext_equal]
pub enum ScriptV {
    Nothing,
    Written { path: Seq<char>, filter: Seq<char> },
    Failed(Seq<char>),
}

impl View for Script {
    type V = ScriptV;

    open spec fn view(&self) -> ScriptV {
        match self {
            Script::Nothing => ScriptV::Nothing,
            Script::Written { path, filter } => ScriptV::Written { path: path@, filter: filter@ },
            Script::Failed(e) => ScriptV::Failed(e@),
        }
    }
}

/// What an export takes from outside: the core effects, what generators draw,
/// which denoised files are there, pictures of titles, the script of the
/// subtitles, the fonts, and whether paths are those of Windows.
pub struct Surroundings {
    pub core: Vec<EffectDef>,
    pub drawn: Vec<Drawn>,
    pub denoised: Vec<String>,
    pub titles: Vec<TitleImage>,
    pub script: Script,
    pub fonts: Fonts,
    pub windows: bool,
}

/// The contents of `Surroundings`.
#[verifier::ext_equal]
pub struct SurroundV {
    pub core: Seq<EffectDefV>,
    pub drawn: Seq<DrawnV>,
    pub denoised: Seq<Seq<char>>,
    pub titles: Seq<TitleV>,
    pub script: ScriptV,
    pub fonts: FontsV,
    pub windows: bool,
}

impl View for Surroundings {
    type V = SurroundV;

    open spec fn view(&self) -> SurroundV {
        SurroundV {
            core: seqs::views(self.core@),
            drawn: seqs::views(self.drawn@),
            denoised: text::texts(self.denoised@),
            titles: seqs::views(self.titles@),
            script: self.script@,
            fonts: self.fonts@,
            windows: self.windows,
        }
    }
}

/// The picture of a title.
pub open spec fn title_of(titles: Seq<TitleV>, clip_id: Id) -> Result<Seq<char>, Seq<char>>
    decreases titles.len(),
{
    if titles.len() == 0 {
        Err("it was not drawn"@)
    } else if titles[0].clip_id == clip_id {
        titles[0].file
    } else {
        title_of(titles.drop_first(), clip_id)
    }
}

/// Finds the picture of a title.
pub fn find_title(titles: &Vec<TitleImage>, clip_id: Id) -> (r: Result<String, String>)
    ensures
        match title_of(seqs::views(titles@), clip_id) {
            Ok(x) => r is Ok && r->Ok_0@ == x,
            Err(e) => r is Err && r->Err_0@ == e,
        },
{
    let ghost all = seqs::views(titles@);
    let mut i: usize = 0;
    assert(all.skip(0) =~= all);
    while i < titles.len()
        invariant
            i <= titles.len(),
            all == seqs::views(titles@),
            title_of(all, clip_id) == title_of(all.skip(i as int), clip_id),
        decreases titles.len() - i,
    {
        assert(all.skip(i as int)[0] == titles@[i as int]@);
        assert(all.skip(i as int).drop_first() =~= all.skip(i as int + 1));
        if titles[i].clip_id == clip_id {
            return match &titles[i].file {
                Ok(s) => Ok(s.clone()),
                Err(e) => Err(e.clone()),
            };
        }
        i = i + 1;
    }
    Err(copy_text("it was not drawn"))
}

// ---- inputs ----

/// An input of ffmpeg: a file from a time on; a still picture is looped.
#[derive(Debug)]
pub struct Input {
    pub path: String,
    pub seek: TimeUs,
    pub image: bool,
}

/// The contents of an `Input`.
#[verifier::ext_equal]
pub struct InputV {
    pub path: Seq<char>,
    pub seek: TimeUs,
    pub image: bool,
}

impl View for Input {
    type V = InputV;

    open spec fn view(&self) -> InputV {
        InputV { path: self.path@, seek: self.seek, image: self.image }
    }
}

/// The input for a file from a time on. A still picture has nothing to seek in.
pub open spec fn input_for(path: Seq<char>, seek: TimeUs, windows: bool) -> InputV {
    InputV {
        path,
        seek: if paths::is_image(path, windows) {
            0
        } else {
            time::max_time(seek, 0)
        },
        image: paths::is_image(path, windows),
    }
}

/// Where an input is in a list; the length where it is not. Paths are the same
/// where their parts are.
pub open spec fn input_pos(inputs: Seq<InputV>, x: InputV, windows: bool) -> nat
    decreases inputs.len(),
{
    if inputs.len() == 0 || (paths::same_path(inputs[0].path, x.path, windows)
        && inputs[0].seek == x.seek) {
        0
    } else {
        1 + input_pos(inputs.drop_first(), x, windows)
    }
}

/// A list of inputs with one in it.
pub open spec fn with_input(inputs: Seq<InputV>, x: InputV, windows: bool) -> Seq<InputV> {
    if input_pos(inputs, x, windows) < inputs.len() {
        inputs
    } else {
        inputs.push(x)
    }
}

fn find_input(inputs: &Vec<Input>, path: &str, seek: TimeUs, x: Ghost<InputV>, windows: bool) -> (i: usize)
    requires
        x@.path == path@,
        x@.seek == seek,
    ensures
        i == input_pos(seqs::views(inputs@), x@, windows),
        i <= inputs.len(),
{
    let ghost all = seqs::views(inputs@);
    let mut i: usize = 0;
    assert(all.skip(0) =~= all);
    while i < inputs.len()
        invariant
            i <= inputs.len(),
            all == seqs::views(inputs@),
            x@.path == path@,
            x@.seek == seek,
            input_pos(all, x@, windows) == i + input_pos(all.skip(i as int), x@, windows),
        decreases inputs.len() - i,
    {
        assert(all.skip(i as int)[0] == inputs@[i as int]@);
        assert(all.skip(i as int).drop_first() =~= all.skip(i as int + 1));
        if are_same_path(inputs[i].path.as_str(), path, windows) && inputs[i].seek == seek {
            return i;
        }
        i = i + 1;
    }
    i
}

fn use_input(inputs: &mut Vec<Input>, path: String, seek: TimeUs, windows: bool) -> (i: usize)
    ensures
        seqs::views(final(inputs)@) == with_input(
            seqs::views(old(inputs)@),
            input_for(path@, seek, windows),
            windows,
        ),
        i == input_pos(seqs::views(old(inputs)@), input_for(path@, seek, windows), windows),
{
    let ghost x = input_for(path@, seek, windows);
    let ghost before = seqs::views(inputs@);
    let image: bool = is_image_path(path.as_str(), windows);
    let at: TimeUs = if image {
        0
    } else {
        max2(seek, 0)
    };
    let i: usize = find_input(inputs, path.as_str(), at, Ghost(x), windows);
    assert(before.len() == inputs.len());
    if i == inputs.len() {
        inputs.push(Input { path, seek: at, image });
        assert(seqs::views(inputs@) =~= before.push(x));
    }
    i
}

// ---- the graph ----

/// A filter graph that is being written: inputs, chains, labels for effects and
/// the name of the picture so far.
struct Graph {
    inputs: Vec<Input>,
    fc: Vec<String>,
    labels: Labels,
    current: String,
    windows: bool,
}

/// The contents of a filter graph that is being written.
#[verifier::ext_equal]
pub struct GraphV {
    pub inputs: Seq<InputV>,
    pub fc: Seq<Seq<char>>,
    pub labels: Labels,
    pub current: Seq<char>,
    pub windows: bool,
}

impl View for Graph {
    type V = GraphV;

    closed spec fn view(&self) -> GraphV {
        GraphV {
            inputs: seqs::views(self.inputs@),
            fc: text::texts(self.fc@),
            labels: self.labels,
            current: self.current@,
            windows: self.windows,
        }
    }
}

impl GraphV {
    /// The graph with one more chain.
    pub open spec fn with(self, chain: Seq<char>) -> GraphV {
        GraphV { fc: self.fc.push(chain), ..self }
    }

    /// The graph with another picture so far.
    pub open spec fn now(self, current: Seq<char>) -> GraphV {
        GraphV { current, ..self }
    }

    /// The graph with an input in it.
    pub open spec fn taking(self, path: Seq<char>, seek: TimeUs) -> GraphV {
        GraphV { inputs: with_input(self.inputs, input_for(path, seek, self.windows), self.windows), ..self }
    }

    /// The number of an input.
    pub open spec fn number(self, path: Seq<char>, seek: TimeUs) -> nat {
        input_pos(self.inputs, input_for(path, seek, self.windows), self.windows)
    }
}

impl Graph {
    fn push(&mut self, chain: String)
        ensures
            final(self)@ == old(self)@.with(chain@),
    {
        push_text(&mut self.fc, chain);
    }

    fn set_current(&mut self, current: String)
        ensures
            final(self)@ == old(self)@.now(current@),
    {
        self.current = current;
    }

    fn take(&mut self, path: String, seek: TimeUs) -> (i: usize)
        ensures
            final(self)@ == old(self)@.taking(path@, seek),
            i == old(self)@.number(path@, seek),
    {
        use_input(&mut self.inputs, path, seek, self.windows)
    }
}

/// The frame of an export: its size and rate.
#[verifier::ext_equal]
pub struct FrameV {
    pub w: u32,
    pub h: u32,
    pub fps: Seq<char>,
}

struct Frame {
    w: u32,
    h: u32,
    fps: String,
}

impl View for Frame {
    type V = FrameV;

    closed spec fn view(&self) -> FrameV {
        FrameV { w: self.w, h: self.h, fps: self.fps@ }
    }
}

/// An even number not above another.
pub open spec fn even(n: int) -> int {
    n - n % 2
}

/// The frame of an export: that of the sequence, smaller where it is too high.
pub open spec fn frame_of(s: SequenceV, max_height: Option<u32>) -> FrameV {
    let fps = text::digits(s.fps.0 as nat) + "/"@ + text::digits(s.fps.1 as nat);
    let (w, h) = s.resolution;
    match max_height {
        Some(m) => if h > m {
            FrameV { w: even((w * m) / (h as int)) as u32, h: even(m as int) as u32, fps }
        } else {
            FrameV { w, h, fps }
        },
        None => FrameV { w, h, fps },
    }
}

fn make_frame(s: &Sequence, max_height: Option<u32>) -> (f: Frame)
    ensures
        f@ == frame_of(s@, max_height),
{
    let d1: String = nat_to_text((s.fps.0) as u128);
    let mut fps: String = copy_text(d1.as_str());
    fps.append("/");
    let d2: String = nat_to_text((s.fps.1) as u128);
    fps.append(d2.as_str());
    let (w, h): (u32, u32) = s.resolution;
    if let Some(m) = max_height {
        if h > m {
            proof {
                assert(w * m <= 0xffff_ffffu32 * 0xffff_ffffu32) by (nonlinear_arith)
                    requires
                        w <= 0xffff_ffff,
                        m <= 0xffff_ffff,
                ;
            }
            let scaled: u64 = (w as u64) * (m as u64) / (h as u64);
            proof {
                assert((w * m) / (h as int) <= w) by (nonlinear_arith)
                    requires
                        0 <= m < h,
                        0 <= w,
                ;
            }
            let x: u32 = scaled as u32;
            return Frame { w: x - x % 2, h: m - m % 2, fps };
        }
    }
    Frame { w, h, fps }
}

/// What brings a picture to the frame.
pub open spec fn norm_text(f: FrameV) -> Seq<char> {
    "fps="@ + f.fps + ",scale="@ + text::digits(f.w as nat) + ":"@ + text::digits(f.h as nat) + ":force_original_aspect_ratio=decrease,pad="@ + text::digits(f.w as nat) + ":"@ + text::digits(f.h as nat) + ":(ow-iw)/2:(oh-ih)/2,setsar=1,format=yuv420p"@
}

fn norm(f: &Frame) -> (r: String)
    ensures
        r@ == norm_text(f@),
{
    let mut r: String = copy_text("fps=");
    r.append(f.fps.as_str());
    r.append(",scale=");
    let d1: String = nat_to_text((f.w) as u128);
    r.append(d1.as_str());
    r.append(":");
    let d2: String = nat_to_text((f.h) as u128);
    r.append(d2.as_str());
    r.append(":force_original_aspect_ratio=decrease,pad=");
    let d3: String = nat_to_text((f.w) as u128);
    r.append(d3.as_str());
    r.append(":");
    let d4: String = nat_to_text((f.h) as u128);
    r.append(d4.as_str());
    r.append(":(ow-iw)/2:(oh-ih)/2,setsar=1,format=yuv420p");
    r
}

/// A chain to be followed by another.
pub open spec fn leading(vf: Option<Seq<char>>) -> Seq<char> {
    match vf {
        Some(c) => c + ","@,
        None => ""@,
    }
}

fn lead(vf: &Option<String>) -> (r: String)
    ensures
        r@ == leading(model::opt_text(*vf)),
{
    match vf {
        Some(c) => {
            let mut r: String = copy_text(c.as_str());
            r.append(",");
            r
        },
        None => copy_text(""),
    }
}

/// The file of an asset.
pub open spec fn asset_file(p: ProjectV, base: Seq<char>, id: Id, windows: bool) -> Seq<char> {
    match model::asset_of(p, id) {
        Some(a) => paths::path_in(base, a.path@, windows),
        None => ""@,
    }
}

fn file_of_asset(project: &Project, base: &str, id: Id, windows: bool) -> (r: String)
    ensures
        r@ == asset_file(project@, base@, id, windows),
{
    match project.asset(id) {
        Some(a) => resolve_path_pub(base, a.path.as_str(), windows),
        None => copy_text(""),
    }
}

/// Whether a speed changes the time.
pub open spec fn off_speed(speed: Real) -> bool {
    (Real { bits: sound::NEAR_BITS }).less(speed.minus(Real::of(1)).magn())
}

/// The graph with the chain of a segment.
#[verifier::opaque]
pub open spec fn segment_stage(
    g: GraphV,
    p: ProjectV,
    base: Seq<char>,
    f: FrameV,
    seg: SegmentV,
    k: nat,
) -> GraphV {
    let label = "v"@ + text::digits(k);
    match seg {
        SegmentV::Source { asset_id, src_in, src_out, speed, vf, .. } => {
            let file = asset_file(p, base, asset_id, g.windows);
            let setpts = if off_speed(speed) {
                "setpts=(PTS-STARTPTS)/"@ + decimal::short_text(speed)
            } else {
                "setpts=PTS-STARTPTS"@
            };
            g.taking(file, src_in).with(
                "["@ + text::digits(g.number(file, src_in)) + ":v]trim=start=0:end="@ + render::secs_text(time::sooner(src_out, src_in)) + ","@ + setpts + ","@ + leading(vf) + norm_text(f) + "["@ + label + "]"@,
            )
        },
        SegmentV::Gen { source, duration, vf } => g.with(
            source + ","@ + leading(vf) + norm_text(f) + "["@ + label + "]"@,
        ),
        SegmentV::Black { duration } => g.with(
            "color=black:size="@ + text::digits(f.w as nat) + "x"@ + text::digits(f.h as nat) + ":rate="@ + f.fps + ":duration="@ + render::secs_text(duration) + "["@ + label + "]"@,
        ),
    }
}

fn add_segment(g: &mut Graph, project: &Project, base: &str, f: &Frame, seg: &Segment, k: usize)
    ensures
        final(g)@ == segment_stage(old(g)@, project@, base@, f@, seg@, k as nat),
{
    reveal(segment_stage);
    let mut label: String = copy_text("v");
    let d1: String = nat_to_text((k) as u128);
    label.append(d1.as_str());
    let n: String = norm(f);
    match seg {
        Segment::Source { asset_id, src_in, src_out, speed, vf, .. } => {
            let file: String = file_of_asset(project, base, *asset_id, g.windows);
            let idx: usize = g.take(file, *src_in);
            let effects: String = lead(vf);
            let near: Real = Real { bits: sound::NEAR_BITS };
            let setpts: String = if near.lt(speed.sub(Real::from_int(1)).abs()) {
                let x: String = shortest(*speed);
                let mut s: String = copy_text("setpts=(PTS-STARTPTS)/");
                s.append(x.as_str());
                s
            } else {
                copy_text("setpts=PTS-STARTPTS")
            };
            let mut c: String = copy_text("[");
            let d2: String = nat_to_text((idx) as u128);
            c.append(d2.as_str());
            c.append(":v]trim=start=0:end=");
            let d3: String = secs(minus(*src_out, *src_in));
            c.append(d3.as_str());
            c.append(",");
            c.append(setpts.as_str());
            c.append(",");
            c.append(effects.as_str());
            c.append(n.as_str());
            c.append("[");
            c.append(label.as_str());
            c.append("]");
            g.push(c);
        },
        Segment::Gen { source, duration, vf } => {
            let effects: String = lead(vf);
            let mut c: String = copy_text(source.as_str());
            c.append(",");
            c.append(effects.as_str());
            c.append(n.as_str());
            c.append("[");
            c.append(label.as_str());
            c.append("]");
            g.push(c);
        },
        Segment::Black { duration } => {
            let mut c: String = copy_text("color=black:size=");
            let d4: String = nat_to_text((f.w) as u128);
            c.append(d4.as_str());
            c.append("x");
            let d5: String = nat_to_text((f.h) as u128);
            c.append(d5.as_str());
            c.append(":rate=");
            c.append(f.fps.as_str());
            c.append(":duration=");
            let d6: String = secs(*duration);
            c.append(d6.as_str());
            c.append("[");
            c.append(label.as_str());
            c.append("]");
            g.push(c);
        },
    }
}

/// The graph with the chains of the first segments.
pub open spec fn segment_stages(
    g: GraphV,
    p: ProjectV,
    base: Seq<char>,
    f: FrameV,
    list: Seq<SegmentV>,
    n: nat,
) -> GraphV
    decreases n,
{
    if n == 0 {
        g
    } else {
        segment_stage(
            segment_stages(g, p, base, f, list, (n - 1) as nat),
            p,
            base,
            f,
            list[n - 1],
            (n - 1) as nat,
        )
    }
}

/// A transition no longer than its clip and no shorter than a glimpse.
pub open spec fn held_cross(d: TimeUs, length: TimeUs) -> TimeUs {
    time::max_time(time::min_time(d, length), edl::MIN_TRANSITION)
}

/// The name of a segment behind its entrance.
pub open spec fn entered_name(s: SegmentV, k: nat) -> Seq<char> {
    if edl::cross_from_black(s) is Some {
        "v"@ + text::digits(k) + "f"@
    } else {
        "v"@ + text::digits(k)
    }
}

/// The transition of a segment to black.
pub open spec fn cross_to_black(s: SegmentV) -> Option<CrossV> {
    match s {
        SegmentV::Source { exit, .. } => exit,
        _ => None,
    }
}

/// The name of a segment behind its entrance and exit.
pub open spec fn segment_name(s: SegmentV, k: nat) -> Seq<char> {
    if cross_to_black(s) is Some {
        "v"@ + text::digits(k) + "g"@
    } else {
        entered_name(s, k)
    }
}

/// The graph with the entrance of a segment from black.
#[verifier::opaque]
pub open spec fn entrance_stage(g: GraphV, f: FrameV, s: SegmentV, k: nat) -> GraphV {
    match edl::cross_from_black(s) {
        Some(t) => {
            let d = held_cross(t.0, s.length());
            let n = text::digits(k);
            g.with(
                "color=black:size="@ + text::digits(f.w as nat) + "x"@ + text::digits(f.h as nat) + ":rate="@ + f.fps + ":duration="@ + render::secs_text(s.length()) + ",format=yuv420p,settb=AVTB[en"@ + n + "b];[v"@ + n + "]settb=AVTB[en"@ + n + "s];[en"@ + n + "b][en"@ + n + "s]xfade=transition="@ + transitions::kind_of(transitions::kinds(), t.1) + ":duration="@ + render::secs_text(d) + ":offset=0,format=yuv420p[v"@ + n + "f]"@,
            )
        },
        None => g,
    }
}

/// The graph with the exit of a segment to black.
#[verifier::opaque]
pub open spec fn exit_stage(g: GraphV, f: FrameV, s: SegmentV, k: nat) -> GraphV {
    match cross_to_black(s) {
        Some(t) => {
            let d = held_cross(t.0, s.length());
            let n = text::digits(k);
            g.with(
                "color=black:size="@ + text::digits(f.w as nat) + "x"@ + text::digits(f.h as nat) + ":rate="@ + f.fps + ":duration="@ + render::secs_text(d) + ",format=yuv420p,settb=AVTB[ex"@ + n + "b];["@ + entered_name(s, k) + "]settb=AVTB[ex"@ + n + "s];[ex"@ + n + "s][ex"@ + n + "b]xfade=transition="@ + transitions::kind_of(transitions::kinds(), t.1) + ":duration="@ + render::secs_text(d) + ":offset="@ + render::secs_text(time::sooner(s.length(), d)) + ",format=yuv420p[v"@ + n + "g]"@,
            )
        },
        None => g,
    }
}

/// The graph with the entrances of the first segments.
pub open spec fn entrance_stages(g: GraphV, f: FrameV, list: Seq<SegmentV>, n: nat) -> GraphV
    decreases n,
{
    if n == 0 {
        g
    } else {
        entrance_stage(
            entrance_stages(g, f, list, (n - 1) as nat),
            f,
            list[n - 1],
            (n - 1) as nat,
        )
    }
}

/// The graph with the exits of the first segments.
pub open spec fn exit_stages(g: GraphV, f: FrameV, list: Seq<SegmentV>, n: nat) -> GraphV
    decreases n,
{
    if n == 0 {
        g
    } else {
        exit_stage(exit_stages(g, f, list, (n - 1) as nat), f, list[n - 1], (n - 1) as nat)
    }
}

fn entered(s: &Segment, k: usize) -> (r: String)
    ensures
        r@ == entered_name(s@, k as nat),
{
    let black: bool = match s {
        Segment::Source { entrance: Some(t), .. } => true,
        _ => false,
    };
    if black {
        let mut r: String = copy_text("v");
        let d1: String = nat_to_text((k) as u128);
        r.append(d1.as_str());
        r.append("f");
        r
    } else {
        let mut r: String = copy_text("v");
        let d2: String = nat_to_text((k) as u128);
        r.append(d2.as_str());
        r
    }
}

fn name_segment(s: &Segment, k: usize) -> (r: String)
    ensures
        r@ == segment_name(s@, k as nat),
{
    let black: bool = match s {
        Segment::Source { exit: Some(t), .. } => true,
        _ => false,
    };
    if black {
        let mut r: String = copy_text("v");
        let d1: String = nat_to_text((k) as u128);
        r.append(d1.as_str());
        r.append("g");
        r
    } else {
        entered(s, k)
    }
}

fn add_entrance(g: &mut Graph, f: &Frame, s: &Segment, k: usize)
    ensures
        final(g)@ == entrance_stage(old(g)@, f@, s@, k as nat),
{
    reveal(entrance_stage);
    if let Segment::Source { entrance: Some(t), .. } = s {
        let length: TimeUs = s.duration();
        let d: TimeUs = max2(min2(t.0, length), edl::MIN_TRANSITION);
        let n: String = nat_to_text(k as u128);
        let kind: &str = xfade_kind(t.1.as_str());
        let mut c: String = copy_text("color=black:size=");
        let d1: String = nat_to_text((f.w) as u128);
        c.append(d1.as_str());
        c.append("x");
        let d2: String = nat_to_text((f.h) as u128);
        c.append(d2.as_str());
        c.append(":rate=");
        c.append(f.fps.as_str());
        c.append(":duration=");
        let d3: String = secs(length);
        c.append(d3.as_str());
        c.append(",format=yuv420p,settb=AVTB[en");
        c.append(n.as_str());
        c.append("b];[v");
        c.append(n.as_str());
        c.append("]settb=AVTB[en");
        c.append(n.as_str());
        c.append("s];[en");
        c.append(n.as_str());
        c.append("b][en");
        c.append(n.as_str());
        c.append("s]xfade=transition=");
        c.append(kind);
        c.append(":duration=");
        let d4: String = secs(d);
        c.append(d4.as_str());
        c.append(":offset=0,format=yuv420p[v");
        c.append(n.as_str());
        c.append("f]");
        g.push(c);
    }
}

fn add_exit(g: &mut Graph, f: &Frame, s: &Segment, k: usize)
    ensures
        final(g)@ == exit_stage(old(g)@, f@, s@, k as nat),
{
    reveal(exit_stage);
    if let Segment::Source { exit: Some(t), .. } = s {
        let length: TimeUs = s.duration();
        let d: TimeUs = max2(min2(t.0, length), edl::MIN_TRANSITION);
        let n: String = nat_to_text(k as u128);
        let from: String = entered(s, k);
        let kind: &str = xfade_kind(t.1.as_str());
        let mut c: String = copy_text("color=black:size=");
        let d1: String = nat_to_text((f.w) as u128);
        c.append(d1.as_str());
        c.append("x");
        let d2: String = nat_to_text((f.h) as u128);
        c.append(d2.as_str());
        c.append(":rate=");
        c.append(f.fps.as_str());
        c.append(":duration=");
        let d3: String = secs(d);
        c.append(d3.as_str());
        c.append(",format=yuv420p,settb=AVTB[ex");
        c.append(n.as_str());
        c.append("b];[");
        c.append(from.as_str());
        c.append("]settb=AVTB[ex");
        c.append(n.as_str());
        c.append("s];[ex");
        c.append(n.as_str());
        c.append("s][ex");
        c.append(n.as_str());
        c.append("b]xfade=transition=");
        c.append(kind);
        c.append(":duration=");
        let d4: String = secs(d);
        c.append(d4.as_str());
        c.append(":offset=");
        let d5: String = secs(minus(length, d));
        c.append(d5.as_str());
        c.append(",format=yuv420p[v");
        c.append(n.as_str());
        c.append("g]");
        g.push(c);
    }
}

/// The graph with a segment joined to what is before it.
#[verifier::opaque]
pub open spec fn join_stage(g: GraphV, s: SegmentV, k: nat, so_far: TimeUs) -> GraphV {
    let n = text::digits(k);
    let name = segment_name(s, k);
    match edl::cross_in(s) {
        Some(t) => g.with(
            "["@ + g.current + "]settb=AVTB[xa"@ + n + "];["@ + name + "]settb=AVTB[xb"@ + n + "];[xa"@ + n + "][xb"@ + n + "]xfade=transition="@ + transitions::kind_of(transitions::kinds(), t.1) + ":duration="@ + render::secs_text(t.0) + ":offset="@ + render::secs_text(time::sooner(so_far, t.0)) + "[m"@ + n + "]"@,
        ).now("m"@ + n),
        None => g.with("["@ + g.current + "]["@ + name + "]concat=n=2:v=1:a=0[m"@ + n + "]"@).now(
            "m"@ + n,
        ),
    }
}

/// The time that is reached with one more segment.
pub open spec fn reached(so_far: TimeUs, s: SegmentV) -> TimeUs {
    match edl::cross_in(s) {
        Some(t) => time::later(so_far, time::sooner(s.length(), t.0)),
        None => time::later(so_far, s.length()),
    }
}

/// The time that the first segments reach.
pub open spec fn reached_by(list: Seq<SegmentV>, n: nat) -> TimeUs
    decreases n,
{
    if n <= 1 {
        list[0].length()
    } else {
        reached(reached_by(list, (n - 1) as nat), list[n - 1])
    }
}

/// The graph with the first segments joined: by a cut or a transition.
pub open spec fn join_stages(g: GraphV, list: Seq<SegmentV>, n: nat) -> GraphV
    decreases n,
{
    if n <= 1 {
        g.now(segment_name(list[0], 0))
    } else {
        join_stage(
            join_stages(g, list, (n - 1) as nat),
            list[n - 1],
            (n - 1) as nat,
            reached_by(list, (n - 1) as nat),
        )
    }
}

fn add_join(g: &mut Graph, s: &Segment, k: usize, so_far: TimeUs)
    ensures
        final(g)@ == join_stage(old(g)@, s@, k as nat, so_far),
{
    reveal(join_stage);
    let n: String = nat_to_text(k as u128);
    let name: String = name_segment(s, k);
    match s {
        Segment::Source { transition_in: Some(t), .. } => {
            let kind: &str = xfade_kind(t.1.as_str());
            let mut c: String = copy_text("[");
            c.append(g.current.as_str());
            c.append("]settb=AVTB[xa");
            c.append(n.as_str());
            c.append("];[");
            c.append(name.as_str());
            c.append("]settb=AVTB[xb");
            c.append(n.as_str());
            c.append("];[xa");
            c.append(n.as_str());
            c.append("][xb");
            c.append(n.as_str());
            c.append("]xfade=transition=");
            c.append(kind);
            c.append(":duration=");
            let d1: String = secs(t.0);
            c.append(d1.as_str());
            c.append(":offset=");
            let d2: String = secs(minus(so_far, t.0));
            c.append(d2.as_str());
            c.append("[m");
            c.append(n.as_str());
            c.append("]");
            g.push(c);
        },
        _ => {
            let mut c: String = copy_text("[");
            c.append(g.current.as_str());
            c.append("][");
            c.append(name.as_str());
            c.append("]concat=n=2:v=1:a=0[m");
            c.append(n.as_str());
            c.append("]");
            g.push(c);
        },
    }
    let mut next: String = copy_text("m");
    next.append(n.as_str());
    g.set_current(next);
}

/// The graph with all segments of a picture, joined.
pub open spec fn picture_stage(
    g: GraphV,
    p: ProjectV,
    base: Seq<char>,
    f: FrameV,
    list: Seq<SegmentV>,
) -> GraphV {
    let a = segment_stages(g, p, base, f, list, list.len());
    let b = entrance_stages(a, f, list, list.len());
    let c = exit_stages(b, f, list, list.len());
    join_stages(c, list, list.len())
}

fn add_picture(g: &mut Graph, project: &Project, base: &str, f: &Frame, list: &Vec<Segment>)
    requires
        list.len() > 0,
    ensures
        final(g)@ == picture_stage(old(g)@, project@, base@, f@, seqs::views(list@)),
{
    let ghost all = seqs::views(list@);
    let ghost g0 = g@;
    let mut i: usize = 0;
    while i < list.len()
        invariant
            i <= list.len(),
            all == seqs::views(list@),
            g@ == segment_stages(g0, project@, base@, f@, all, i as nat),
        decreases list.len() - i,
    {
        assert(all[i as int] == list@[i as int]@);
        add_segment(g, project, base, f, &list[i], i);
        i = i + 1;
    }
    let ghost g1 = g@;
    i = 0;
    while i < list.len()
        invariant
            i <= list.len(),
            all == seqs::views(list@),
            g@ == entrance_stages(g1, f@, all, i as nat),
        decreases list.len() - i,
    {
        assert(all[i as int] == list@[i as int]@);
        add_entrance(g, f, &list[i], i);
        i = i + 1;
    }
    let ghost g2 = g@;
    i = 0;
    while i < list.len()
        invariant
            i <= list.len(),
            all == seqs::views(list@),
            g@ == exit_stages(g2, f@, all, i as nat),
        decreases list.len() - i,
    {
        assert(all[i as int] == list@[i as int]@);
        add_exit(g, f, &list[i], i);
        i = i + 1;
    }
    let ghost g3 = g@;
    assert(all[0] == list@[0]@);
    let first: String = name_segment(&list[0], 0);
    g.set_current(first);
    let mut so_far: TimeUs = list[0].duration();
    i = 1;
    while i < list.len()
        invariant
            1 <= i <= list.len(),
            all == seqs::views(list@),
            so_far == reached_by(all, i as nat),
            g@ == join_stages(g3, all, i as nat),
        decreases list.len() - i,
    {
        assert(all[i as int] == list@[i as int]@);
        add_join(g, &list[i], i, so_far);
        so_far = match &list[i] {
            Segment::Source { transition_in: Some(t), .. } => plus(
                so_far,
                minus(list[i].duration(), t.0),
            ),
            _ => plus(so_far, list[i].duration()),
        };
        i = i + 1;
    }
}

// ---- layers ----

/// Where the picture of a layer comes from.
#[derive(Debug)]
enum LayerSource {
    Media { asset_id: Id, src_in: TimeUs, src_out: TimeUs, speed: Real },
    Gen { source: String },
}

/// The contents of the source of a layer.
#[verifier::ext_equal]
pub enum LayerSourceV {
    Media { asset_id: Id, src_in: TimeUs, src_out: TimeUs, speed: Real },
    Gen { source: Seq<char> },
}

/// A clip over the base.
struct Layer {
    source: LayerSource,
    start: TimeUs,
    length: TimeUs,
    vf: Option<String>,
    entrance: Option<Cross>,
    exit: Option<Cross>,
}

/// The contents of a clip over the base.
#[verifier::ext_equal]
pub struct LayerV {
    pub source: LayerSourceV,
    pub start: TimeUs,
    pub length: TimeUs,
    pub vf: Option<Seq<char>>,
    pub entrance: Option<CrossV>,
    pub exit: Option<CrossV>,
}

impl View for Layer {
    type V = LayerV;

    closed spec fn view(&self) -> LayerV {
        LayerV {
            source: match self.source {
                LayerSource::Media { asset_id, src_in, src_out, speed } => LayerSourceV::Media {
                    asset_id,
                    src_in,
                    src_out,
                    speed,
                },
                LayerSource::Gen { source } => LayerSourceV::Gen { source: source@ },
            },
            start: self.start,
            length: self.length,
            vf: model::opt_text(self.vf),
            entrance: edl::cross_view(self.entrance),
            exit: edl::cross_view(self.exit),
        }
    }
}

/// Whether a track has something that fills the picture.
pub open spec fn has_content(t: TrackV) -> bool {
    exists|i: int| 0 <= i < t.clips.len() && edl::fills(#[trigger] t.clips[i])
}

fn track_has_content(t: &Track) -> (b: bool)
    ensures
        b == has_content(t@),
{
    let mut i: usize = 0;
    while i < t.clips.len()
        invariant
            i <= t.clips.len(),
            forall|k: int| 0 <= k < i ==> !edl::fills(#[trigger] t@.clips[k]),
        decreases t.clips.len() - i,
    {
        assert(t@.clips[i as int] == t.clips@[i as int]@);
        if clip_fills(&t.clips[i]) {
            return true;
        }
        i = i + 1;
    }
    false
}

/// The base: the lowest track that shows and has content; the number of tracks
/// where there is none.
pub open spec fn base_track(tracks: Seq<TrackV>) -> nat
    decreases tracks.len(),
{
    if tracks.len() == 0 || (edl::shows(tracks[0]) && has_content(tracks[0])) {
        0
    } else {
        1 + base_track(tracks.drop_first())
    }
}

/// Finds the base of a sequence.
pub fn find_base(s: &Sequence) -> (b: usize)
    ensures
        b == base_track(s@.tracks),
        b <= s.tracks.len(),
{
    let ghost all = s@.tracks;
    let mut i: usize = 0;
    assert(all.skip(0) =~= all);
    while i < s.tracks.len()
        invariant
            i <= s.tracks.len(),
            all == s@.tracks,
            base_track(all) == i + base_track(all.skip(i as int)),
        decreases s.tracks.len() - i,
    {
        assert(all.skip(i as int)[0] == s.tracks@[i as int]@);
        assert(all.skip(i as int).drop_first() =~= all.skip(i as int + 1));
        if track_shows(&s.tracks[i]) && track_has_content(&s.tracks[i]) {
            return i;
        }
        i = i + 1;
    }
    i
}

/// The time of a clip over the base, from its own start.
pub open spec fn clip_time(start: TimeUs) -> Seq<char> {
    "(t-"@ + render::secs_text(start) + ")"@
}

/// Layers that were found, and the labels after them.
pub type Found = Result<(Seq<LayerV>, Labels), ExportErrV>;

/// The layers with one more clip.
#[verifier::opaque]
pub open spec fn layer_step(
    x: (Seq<LayerV>, Labels),
    p: ProjectV,
    s: SequenceV,
    registry: Seq<EffectDefV>,
    drawn: Seq<DrawnV>,
    c: ClipV,
) -> Found {
    let vf = render::clip_chain(
        registry,
        c.effects,
        0,
        c.transform,
        Some(s.resolution),
        true,
        clip_time(c.start),
        false,
        x.1,
    );
    let labels = render::clip_labels(
        registry,
        c.effects,
        0,
        c.transform,
        Some(s.resolution),
        x.1,
    );
    match c.payload {
        PayloadV::Media { asset_id, src_in, src_out } => if model::asset_of(p, asset_id) is None {
            Err(ExportErrV::MissingAsset(asset_id))
        } else {
            Ok(
                (
                    x.0.push(
                        LayerV {
                            source: LayerSourceV::Media { asset_id, src_in, src_out, speed: c.speed },
                            start: c.start,
                            length: ops::divided_time(time::sooner(src_out, src_in), c.speed),
                            vf,
                            entrance: edl::cross_of(c.transition_in),
                            exit: edl::cross_of(c.transition_out),
                        },
                    ),
                    labels,
                ),
            )
        },
        PayloadV::Generator { .. } => match edl::source_for(drawn, c.id, c.duration) {
            Some(source) => Ok(
                (
                    x.0.push(
                        LayerV {
                            source: LayerSourceV::Gen { source },
                            start: c.start,
                            length: c.duration,
                            vf,
                            entrance: edl::cross_of(c.transition_in),
                            exit: edl::cross_of(c.transition_out),
                        },
                    ),
                    labels,
                ),
            ),
            None => Ok(x),
        },
        _ => Ok(x),
    }
}

/// The layers with clips.
pub open spec fn layer_clips(
    x: (Seq<LayerV>, Labels),
    p: ProjectV,
    s: SequenceV,
    registry: Seq<EffectDefV>,
    drawn: Seq<DrawnV>,
    clips: Seq<ClipV>,
) -> Found
    decreases clips.len(),
{
    if clips.len() == 0 {
        Ok(x)
    } else {
        match layer_step(x, p, s, registry, drawn, clips[0]) {
            Err(e) => Err(e),
            Ok(y) => layer_clips(y, p, s, registry, drawn, clips.drop_first()),
        }
    }
}

/// The layers on tracks.
pub open spec fn layer_tracks(
    x: (Seq<LayerV>, Labels),
    p: ProjectV,
    s: SequenceV,
    registry: Seq<EffectDefV>,
    drawn: Seq<DrawnV>,
    tracks: Seq<TrackV>,
) -> Found
    decreases tracks.len(),
{
    if tracks.len() == 0 {
        Ok(x)
    } else if edl::shows(tracks[0]) {
        match layer_clips(x, p, s, registry, drawn, tracks[0].clips) {
            Err(e) => Err(e),
            Ok(y) => layer_tracks(y, p, s, registry, drawn, tracks.drop_first()),
        }
    } else {
        layer_tracks(x, p, s, registry, drawn, tracks.drop_first())
    }
}

/// The tracks over the base.
pub open spec fn over_base(tracks: Seq<TrackV>) -> Seq<TrackV> {
    if base_track(tracks) < tracks.len() {
        tracks.skip(base_track(tracks) as int + 1)
    } else {
        Seq::<TrackV>::empty()
    }
}

/// Whether a collection of layers came out as it should.
pub open spec fn found_as(r: ExportResult<()>, layers: Seq<LayerV>, labels: Labels, s: Found) -> bool {
    match s {
        Err(e) => r is Err && r->Err_0@ == e,
        Ok(x) => r is Ok && layers == x.0 && labels == x.1,
    }
}

fn add_layer(
    layers: &mut Vec<Layer>,
    labels: &mut Labels,
    project: &Project,
    seq: &Sequence,
    registry: &Vec<EffectDef>,
    drawn: &Vec<Drawn>,
    c: &Clip,
) -> (r: ExportResult<()>)
    requires
        render::fitting(seqs::views(registry@), c@.effects),
    ensures
        found_as(
            r,
            seqs::views(final(layers)@),
            *final(labels),
            layer_step(
                (seqs::views(old(layers)@), *old(labels)),
                project@,
                seq@,
                seqs::views(registry@),
                seqs::views(drawn@),
                c@,
            ),
        ),
{
    reveal(layer_step);
    let ghost before = seqs::views(layers@);
    let mut tvar: String = copy_text("(t-");
    let d1: String = secs(c.start);
    tvar.append(d1.as_str());
    tvar.append(")");
    match &c.payload {
        ClipPayload::Media { asset_id, src_in, src_out } => {
            if project.asset(*asset_id).is_none() {
                return Err(ExportError::MissingAsset(*asset_id));
            }
            let vf: Option<String> = clip_vf_layer(
                registry,
                &c.effects,
                &c.transform,
                Some(seq.resolution),
                tvar.as_str(),
                labels,
            );
            let l: Layer = Layer {
                source: LayerSource::Media {
                    asset_id: *asset_id,
                    src_in: *src_in,
                    src_out: *src_out,
                    speed: c.speed,
                },
                start: c.start,
                length: divide_time(minus(*src_out, *src_in), c.speed),
                vf,
                entrance: cross_from(&c.transition_in),
                exit: cross_from(&c.transition_out),
            };
            let ghost lv = l@;
            layers.push(l);
            assert(seqs::views(layers@) =~= before.push(lv));
        },
        ClipPayload::Generator { .. } => {
            if let Some(source) = find_source(drawn, c.id, c.duration) {
                let vf: Option<String> = clip_vf_layer(
                    registry,
                    &c.effects,
                    &c.transform,
                    Some(seq.resolution),
                    tvar.as_str(),
                    labels,
                );
                let l: Layer = Layer {
                    source: LayerSource::Gen { source },
                    start: c.start,
                    length: c.duration,
                    vf,
                    entrance: cross_from(&c.transition_in),
                    exit: cross_from(&c.transition_out),
                };
                let ghost lv = l@;
                layers.push(l);
                assert(seqs::views(layers@) =~= before.push(lv));
            }
        },
        _ => {},
    }
    Ok(())
}

fn add_layer_clips(
    layers: &mut Vec<Layer>,
    labels: &mut Labels,
    project: &Project,
    seq: &Sequence,
    registry: &Vec<EffectDef>,
    drawn: &Vec<Drawn>,
    clips: &Vec<Clip>,
) -> (r: ExportResult<()>)
    requires
        edl::drawable_clips(seqs::views(registry@), seqs::views(clips@)),
    ensures
        found_as(
            r,
            seqs::views(final(layers)@),
            *final(labels),
            layer_clips(
                (seqs::views(old(layers)@), *old(labels)),
                project@,
                seq@,
                seqs::views(registry@),
                seqs::views(drawn@),
                seqs::views(clips@),
            ),
        ),
{
    let ghost all = seqs::views(clips@);
    let ghost reg = seqs::views(registry@);
    let ghost dr = seqs::views(drawn@);
    let ghost x0 = (seqs::views(layers@), *labels);
    let mut i: usize = 0;
    assert(all.skip(0) =~= all);
    while i < clips.len()
        invariant
            i <= clips.len(),
            all == seqs::views(clips@),
            reg == seqs::views(registry@),
            dr == seqs::views(drawn@),
            x0 == (seqs::views(old(layers)@), *old(labels)),
            edl::drawable_clips(reg, all),
            layer_clips(x0, project@, seq@, reg, dr, all) == layer_clips(
                (seqs::views(layers@), *labels),
                project@,
                seq@,
                reg,
                dr,
                all.skip(i as int),
            ),
        decreases clips.len() - i,
    {
        assert(all.skip(i as int)[0] == clips@[i as int]@);
        assert(all.skip(i as int).drop_first() =~= all.skip(i as int + 1));
        if let Err(e) = add_layer(layers, labels, project, seq, registry, drawn, &clips[i]) {
            return Err(e);
        }
        i = i + 1;
    }
    assert(all.skip(i as int) =~= Seq::<ClipV>::empty());
    Ok(())
}

fn find_layers(
    labels: &mut Labels,
    project: &Project,
    seq: &Sequence,
    base: usize,
    registry: &Vec<EffectDef>,
    drawn: &Vec<Drawn>,
) -> (r: ExportResult<Vec<Layer>>)
    requires
        edl::drawable(seqs::views(registry@), seq@.tracks),
        base == base_track(seq@.tracks),
        base <= seq.tracks.len(),
    ensures
        match layer_tracks(
            (Seq::<LayerV>::empty(), *old(labels)),
            project@,
            seq@,
            seqs::views(registry@),
            seqs::views(drawn@),
            over_base(seq@.tracks),
        ) {
            Err(e) => r is Err && r->Err_0@ == e,
            Ok(x) => r is Ok && seqs::views(r->Ok_0@) == x.0 && *final(labels) == x.1,
        },
{
    let mut layers: Vec<Layer> = Vec::new();
    let ghost all = seq@.tracks;
    let ghost reg = seqs::views(registry@);
    let ghost dr = seqs::views(drawn@);
    let ghost x0 = (Seq::<LayerV>::empty(), *labels);
    assert(seqs::views(layers@) =~= Seq::<LayerV>::empty());
    assert(all.len() == seq.tracks.len());
    if base >= seq.tracks.len() {
        return Ok(layers);
    }
    let mut i: usize = base + 1;
    while i < seq.tracks.len()
        invariant
            base < i <= seq.tracks.len(),
            all == seq@.tracks,
            base == base_track(all),
            reg == seqs::views(registry@),
            dr == seqs::views(drawn@),
            x0 == (Seq::<LayerV>::empty(), *old(labels)),
            edl::drawable(reg, all),
            layer_tracks(x0, project@, seq@, reg, dr, over_base(all)) == layer_tracks(
                (seqs::views(layers@), *labels),
                project@,
                seq@,
                reg,
                dr,
                all.skip(i as int),
            ),
        decreases seq.tracks.len() - i,
    {
        assert(all.skip(i as int)[0] == seq.tracks@[i as int]@);
        assert(all.skip(i as int).drop_first() =~= all.skip(i as int + 1));
        if track_shows(&seq.tracks[i]) {
            assert(all[i as int] == seq.tracks@[i as int]@);
            if let Err(e) = add_layer_clips(
                &mut layers,
                labels,
                project,
                seq,
                registry,
                drawn,
                &seq.tracks[i].clips,
            ) {
                return Err(e);
            }
        }
        i = i + 1;
    }
    assert(all.skip(i as int) =~= Seq::<TrackV>::empty());
    Ok(layers)
}

/// The end of the layer that ends last; zero for no layers.
pub open spec fn layers_end(layers: Seq<LayerV>) -> TimeUs
    decreases layers.len(),
{
    if layers.len() == 0 {
        0
    } else {
        let end = time::later(layers.last().start, layers.last().length);
        if layers.len() == 1 {
            end
        } else {
            time::max_time(layers_end(layers.drop_last()), end)
        }
    }
}

fn find_layers_end(layers: &Vec<Layer>) -> (t: TimeUs)
    ensures
        t == layers_end(seqs::views(layers@)),
{
    let ghost all = seqs::views(layers@);
    let mut t: TimeUs = 0;
    let mut i: usize = 0;
    assert(all.take(0) =~= Seq::<LayerV>::empty());
    while i < layers.len()
        invariant
            i <= layers.len(),
            all == seqs::views(layers@),
            t == layers_end(all.take(i as int)),
        decreases layers.len() - i,
    {
        proof {
            assert(all.take(i as int + 1).drop_last() =~= all.take(i as int));
            assert(all.take(i as int + 1).last() == layers@[i as int]@);
        }
        let end: TimeUs = plus(layers[i].start, layers[i].length);
        t = if i == 0 {
            end
        } else {
            max2(t, end)
        };
        i = i + 1;
    }
    assert(all.take(i as int) =~= all);
    t
}

/// The graph with the entrance of a layer from nothing.
pub open spec fn layer_entrance(g: GraphV, l: LayerV, k: nat, cur: Seq<char>) -> GraphV {
    let n = text::digits(k);
    match l.entrance {
        Some(t) => {
            let d = held_cross(t.0, l.length);
            let kind = transitions::kind_of(transitions::kinds(), t.1);
            match transitions::mask_of(kind, "clip(T/"@ + render::secs_text(d) + ",0,1)"@, false) {
                Some(mask) => g.with("["@ + cur + "]"@ + mask + "[ly"@ + n + "e]"@),
                None => g.with(
                    "["@ + cur + "]split=2[ly"@ + n + "ea][ly"@ + n + "eb];[ly"@ + n + "ea]colorchannelmixer=aa=0,settb=AVTB[ly"@ + n + "et];[ly"@ + n + "eb]settb=AVTB[ly"@ + n + "es];[ly"@ + n + "et][ly"@ + n + "es]xfade=transition="@ + kind + ":duration="@ + render::secs_text(d) + ":offset=0,format=rgba[ly"@ + n + "e]"@,
                ),
            }
        },
        None => g,
    }
}

/// The graph with the exit of a layer to nothing.
pub open spec fn layer_exit(g: GraphV, l: LayerV, k: nat, cur: Seq<char>) -> GraphV {
    let n = text::digits(k);
    match l.exit {
        Some(t) => {
            let d = held_cross(t.0, l.length);
            let t0 = time::max_time(time::sooner(l.length, d), 0);
            let kind = transitions::kind_of(transitions::kinds(), t.1);
            match transitions::mask_of(kind, "clip((T-"@ + render::secs_text(t0) + ")/"@ + render::secs_text(d) + ",0,1)"@, true) {
                Some(mask) => g.with("["@ + cur + "]"@ + mask + "[ly"@ + n + "x]"@),
                None => g.with(
                    "["@ + cur + "]split=2[ly"@ + n + "xa][ly"@ + n + "xb];[ly"@ + n + "xb]colorchannelmixer=aa=0,settb=AVTB[ly"@ + n + "xt];[ly"@ + n + "xa]settb=AVTB[ly"@ + n + "xs];[ly"@ + n + "xs][ly"@ + n + "xt]xfade=transition="@ + kind + ":duration="@ + render::secs_text(d) + ":offset="@ + render::secs_text(t0) + ",format=rgba[ly"@ + n + "x]"@,
                ),
            }
        },
        None => g,
    }
}

/// The name of a layer behind its entrance.
pub open spec fn layer_entered(l: LayerV, k: nat) -> Seq<char> {
    if l.entrance is Some {
        "ly"@ + text::digits(k) + "e"@
    } else {
        "ly"@ + text::digits(k) + "p"@
    }
}

/// The name of a layer behind its entrance and exit.
pub open spec fn layer_left(l: LayerV, k: nat) -> Seq<char> {
    if l.exit is Some {
        "ly"@ + text::digits(k) + "x"@
    } else {
        layer_entered(l, k)
    }
}

/// The graph with the material of a layer.
pub open spec fn layer_source(g: GraphV, p: ProjectV, base: Seq<char>, f: FrameV, l: LayerV, k: nat) -> GraphV {
    let n = text::digits(k);
    match l.source {
        LayerSourceV::Media { asset_id, src_in, src_out, speed } => {
            let file = asset_file(p, base, asset_id, g.windows);
            g.taking(file, src_in).with(
                "["@ + text::digits(g.number(file, src_in)) + ":v]trim=start=0:end="@ + render::secs_text(time::sooner(src_out, src_in)) + ",setpts=(PTS-STARTPTS)/"@ + decimal::short_text(speed) + ",format=rgba,fps="@ + f.fps + "[ly"@ + n + "p]"@,
            )
        },
        LayerSourceV::Gen { source } => g.with(
            source + ",setpts=PTS-STARTPTS,format=rgba,fps="@ + f.fps + "[ly"@ + n + "p]"@,
        ),
    }
}

/// The graph with a layer over the picture.
#[verifier::opaque]
pub open spec fn layer_stage(g: GraphV, p: ProjectV, base: Seq<char>, f: FrameV, l: LayerV, k: nat) -> GraphV {
    let n = text::digits(k);
    let a = layer_source(g, p, base, f, l, k);
    let moves = l.entrance is Some || l.exit is Some;
    let b = if moves {
        layer_exit(
            layer_entrance(a, l, k, "ly"@ + n + "p"@),
            l,
            k,
            layer_entered(l, k),
        ).with("["@ + layer_left(l, k) + "]copy[ly"@ + n + "q]"@)
    } else {
        a
    };
    let tail = if moves {
        "ly"@ + n + "q"@
    } else {
        "ly"@ + n + "p"@
    };
    b.with(
        "["@ + tail + "]setpts=PTS+"@ + render::secs_text(l.start) + "/TB,"@ + leading(l.vf) + "scale='min("@ + text::digits(f.w as nat) + ",iw)':'min("@ + text::digits(f.h as nat) + ",ih)':force_original_aspect_ratio=decrease,format=rgba,copy[ly"@ + n + "]"@,
    ).with(
        "["@ + g.current + "][ly"@ + n + "]overlay=x=(W-w)/2:y=(H-h)/2:eof_action=pass:enable='between(t,"@ + render::secs_text(l.start) + ","@ + render::secs_text(time::later(l.start, l.length)) + ")'[lc"@ + n + "]"@,
    ).now("lc"@ + n)
}

fn add_layer_entrance(g: &mut Graph, l: &Layer, k: usize, cur: &str)
    ensures
        final(g)@ == layer_entrance(old(g)@, l@, k as nat, cur@),
{
    if let Some(t) = &l.entrance {
        let n: String = nat_to_text(k as u128);
        let d: TimeUs = max2(min2(t.0, l.length), edl::MIN_TRANSITION);
        let kind: &str = xfade_kind(t.1.as_str());
        let mut progress: String = copy_text("clip(T/");
        let d1: String = secs(d);
        progress.append(d1.as_str());
        progress.append(",0,1)");
        match circle_mask(kind, progress.as_str(), false) {
            Some(mask) => {
                let mut c: String = copy_text("[");
                c.append(cur);
                c.append("]");
                c.append(mask.as_str());
                c.append("[ly");
                c.append(n.as_str());
                c.append("e]");
                g.push(c);
            },
            None => {
                let mut c: String = copy_text("[");
                c.append(cur);
                c.append("]split=2[ly");
                c.append(n.as_str());
                c.append("ea][ly");
                c.append(n.as_str());
                c.append("eb];[ly");
                c.append(n.as_str());
                c.append("ea]colorchannelmixer=aa=0,settb=AVTB[ly");
                c.append(n.as_str());
                c.append("et];[ly");
                c.append(n.as_str());
                c.append("eb]settb=AVTB[ly");
                c.append(n.as_str());
                c.append("es];[ly");
                c.append(n.as_str());
                c.append("et][ly");
                c.append(n.as_str());
                c.append("es]xfade=transition=");
                c.append(kind);
                c.append(":duration=");
                let d2: String = secs(d);
                c.append(d2.as_str());
                c.append(":offset=0,format=rgba[ly");
                c.append(n.as_str());
                c.append("e]");
                g.push(c);
            },
        }
    }
}

fn add_layer_exit(g: &mut Graph, l: &Layer, k: usize, cur: &str)
    ensures
        final(g)@ == layer_exit(old(g)@, l@, k as nat, cur@),
{
    if let Some(t) = &l.exit {
        let n: String = nat_to_text(k as u128);
        let d: TimeUs = max2(min2(t.0, l.length), edl::MIN_TRANSITION);
        let t0: TimeUs = max2(minus(l.length, d), 0);
        let kind: &str = xfade_kind(t.1.as_str());
        let mut progress: String = copy_text("clip((T-");
        let d1: String = secs(t0);
        progress.append(d1.as_str());
        progress.append(")/");
        let d2: String = secs(d);
        progress.append(d2.as_str());
        progress.append(",0,1)");
        match circle_mask(kind, progress.as_str(), true) {
            Some(mask) => {
                let mut c: String = copy_text("[");
                c.append(cur);
                c.append("]");
                c.append(mask.as_str());
                c.append("[ly");
                c.append(n.as_str());
                c.append("x]");
                g.push(c);
            },
            None => {
                let mut c: String = copy_text("[");
                c.append(cur);
                c.append("]split=2[ly");
                c.append(n.as_str());
                c.append("xa][ly");
                c.append(n.as_str());
                c.append("xb];[ly");
                c.append(n.as_str());
                c.append("xb]colorchannelmixer=aa=0,settb=AVTB[ly");
                c.append(n.as_str());
                c.append("xt];[ly");
                c.append(n.as_str());
                c.append("xa]settb=AVTB[ly");
                c.append(n.as_str());
                c.append("xs];[ly");
                c.append(n.as_str());
                c.append("xs][ly");
                c.append(n.as_str());
                c.append("xt]xfade=transition=");
                c.append(kind);
                c.append(":duration=");
                let d3: String = secs(d);
                c.append(d3.as_str());
                c.append(":offset=");
                let d4: String = secs(t0);
                c.append(d4.as_str());
                c.append(",format=rgba[ly");
                c.append(n.as_str());
                c.append("x]");
                g.push(c);
            },
        }
    }
}

fn add_layer_source(g: &mut Graph, project: &Project, base: &str, f: &Frame, l: &Layer, k: usize)
    ensures
        final(g)@ == layer_source(old(g)@, project@, base@, f@, l@, k as nat),
{
    let n: String = nat_to_text(k as u128);
    match &l.source {
        LayerSource::Media { asset_id, src_in, src_out, speed } => {
            let file: String = file_of_asset(project, base, *asset_id, g.windows);
            let idx: usize = g.take(file, *src_in);
            let x: String = shortest(*speed);
            let mut c: String = copy_text("[");
            let d1: String = nat_to_text((idx) as u128);
            c.append(d1.as_str());
            c.append(":v]trim=start=0:end=");
            let d2: String = secs(minus(*src_out, *src_in));
            c.append(d2.as_str());
            c.append(",setpts=(PTS-STARTPTS)/");
            c.append(x.as_str());
            c.append(",format=rgba,fps=");
            c.append(f.fps.as_str());
            c.append("[ly");
            c.append(n.as_str());
            c.append("p]");
            g.push(c);
        },
        LayerSource::Gen { source } => {
            let mut c: String = copy_text(source.as_str());
            c.append(",setpts=PTS-STARTPTS,format=rgba,fps=");
            c.append(f.fps.as_str());
            c.append("[ly");
            c.append(n.as_str());
            c.append("p]");
            g.push(c);
        },
    }
}

fn add_layer_stage(g: &mut Graph, project: &Project, base: &str, f: &Frame, l: &Layer, k: usize)
    ensures
        final(g)@ == layer_stage(old(g)@, project@, base@, f@, l@, k as nat),
{
    reveal(layer_stage);
    let n: String = nat_to_text(k as u128);
    let under: String = g.current.clone();
    add_layer_source(g, project, base, f, l, k);
    let moves: bool = l.entrance.is_some() || l.exit.is_some();
    let mut first: String = copy_text("ly");
    first.append(n.as_str());
    first.append("p");
    let tail: String = if moves {
        add_layer_entrance(g, l, k, first.as_str());
        let inside: String = if l.entrance.is_some() {
            let mut a: String = copy_text("ly");
            a.append(n.as_str());
            a.append("e");
            a
        } else {
            let mut b: String = copy_text("ly");
            b.append(n.as_str());
            b.append("p");
            b
        };
        add_layer_exit(g, l, k, inside.as_str());
        let left: String = if l.exit.is_some() {
            let mut a: String = copy_text("ly");
            a.append(n.as_str());
            a.append("x");
            a
        } else {
            inside
        };
        let mut c: String = copy_text("[");
        c.append(left.as_str());
        c.append("]copy[ly");
        c.append(n.as_str());
        c.append("q]");
        g.push(c);
        let mut q: String = copy_text("ly");
        q.append(n.as_str());
        q.append("q");
        q
    } else {
        first
    };
    let effects: String = lead(&l.vf);
    let mut c: String = copy_text("[");
    c.append(tail.as_str());
    c.append("]setpts=PTS+");
    let d1: String = secs(l.start);
    c.append(d1.as_str());
    c.append("/TB,");
    c.append(effects.as_str());
    c.append("scale='min(");
    let d2: String = nat_to_text((f.w) as u128);
    c.append(d2.as_str());
    c.append(",iw)':'min(");
    let d3: String = nat_to_text((f.h) as u128);
    c.append(d3.as_str());
    c.append(",ih)':force_original_aspect_ratio=decrease,format=rgba,copy[ly");
    c.append(n.as_str());
    c.append("]");
    g.push(c);
    let mut o: String = copy_text("[");
    o.append(under.as_str());
    o.append("][ly");
    o.append(n.as_str());
    o.append("]overlay=x=(W-w)/2:y=(H-h)/2:eof_action=pass:enable='between(t,");
    let d4: String = secs(l.start);
    o.append(d4.as_str());
    o.append(",");
    let d5: String = secs(plus(l.start, l.length));
    o.append(d5.as_str());
    o.append(")'[lc");
    o.append(n.as_str());
    o.append("]");
    g.push(o);
    let mut next: String = copy_text("lc");
    next.append(n.as_str());
    g.set_current(next);
}

/// The graph with the first layers over the picture.
pub open spec fn layer_stages(
    g: GraphV,
    p: ProjectV,
    base: Seq<char>,
    f: FrameV,
    layers: Seq<LayerV>,
    n: nat,
) -> GraphV
    decreases n,
{
    if n == 0 {
        g
    } else {
        layer_stage(
            layer_stages(g, p, base, f, layers, (n - 1) as nat),
            p,
            base,
            f,
            layers[n - 1],
            (n - 1) as nat,
        )
    }
}

/// The graph with all layers: the base is prolonged with black where they last
/// longer.
pub open spec fn over_stage(
    g: GraphV,
    p: ProjectV,
    base: Seq<char>,
    f: FrameV,
    layers: Seq<LayerV>,
    base_length: TimeUs,
) -> GraphV {
    if layers.len() == 0 {
        g
    } else {
        let a = if layers_end(layers) > base_length {
            g.with(
                "color=black:size="@ + text::digits(f.w as nat) + "x"@ + text::digits(f.h as nat) + ":rate="@ + f.fps + ":duration="@ + render::secs_text(time::sooner(layers_end(layers), base_length)) + "[basetail]"@,
            ).with("["@ + g.current + "][basetail]concat=n=2:v=1:a=0[basefull]"@).now("basefull"@)
        } else {
            g
        };
        let b = layer_stages(a, p, base, f, layers, layers.len());
        b.with("["@ + b.current + "]format=yuv420p[flat]"@).now("flat"@)
    }
}

fn add_over(
    g: &mut Graph,
    project: &Project,
    base: &str,
    f: &Frame,
    layers: &Vec<Layer>,
    base_length: TimeUs,
)
    ensures
        final(g)@ == over_stage(
            old(g)@,
            project@,
            base@,
            f@,
            seqs::views(layers@),
            base_length,
        ),
{
    let ghost all = seqs::views(layers@);
    assert(all.len() == layers.len());
    if layers.len() == 0 {
        return;
    }
    let end: TimeUs = find_layers_end(layers);
    if end > base_length {
        let mut c: String = copy_text("color=black:size=");
        let d1: String = nat_to_text((f.w) as u128);
        c.append(d1.as_str());
        c.append("x");
        let d2: String = nat_to_text((f.h) as u128);
        c.append(d2.as_str());
        c.append(":rate=");
        c.append(f.fps.as_str());
        c.append(":duration=");
        let d3: String = secs(minus(end, base_length));
        c.append(d3.as_str());
        c.append("[basetail]");
        g.push(c);
        let mut b: String = copy_text("[");
        b.append(g.current.as_str());
        b.append("][basetail]concat=n=2:v=1:a=0[basefull]");
        g.push(b);
        g.set_current(copy_text("basefull"));
    }
    let ghost a = g@;
    let mut i: usize = 0;
    while i < layers.len()
        invariant
            i <= layers.len(),
            all == seqs::views(layers@),
            g@ == layer_stages(a, project@, base@, f@, all, i as nat),
        decreases layers.len() - i,
    {
        assert(all[i as int] == layers@[i as int]@);
        add_layer_stage(g, project, base, f, &layers[i], i);
        i = i + 1;
    }
    let mut c: String = copy_text("[");
    c.append(g.current.as_str());
    c.append("]format=yuv420p[flat]");
    g.push(c);
    g.set_current(copy_text("flat"));
}

// ---- texts ----

/// A graph with texts over it: how many, and the files of their pictures.
#[verifier::ext_equal]
pub struct TextsV {
    pub graph: GraphV,
    pub count: nat,
    pub files: Seq<Seq<char>>,
}

/// What texts are drawn with.
#[verifier::ext_equal]
pub struct PenV {
    pub registry: Seq<EffectDefV>,
    pub titles: Seq<TitleV>,
    pub fonts: FontsV,
    pub frame: FrameV,
}

struct Pen<'a> {
    registry: &'a Vec<EffectDef>,
    titles: &'a Vec<TitleImage>,
    fonts: &'a Fonts,
    frame: &'a Frame,
}

impl<'a> Pen<'a> {
    spec fn shown(self) -> PenV {
        PenV {
            registry: seqs::views(self.registry@),
            titles: seqs::views(self.titles@),
            fonts: self.fonts@,
            frame: self.frame@,
        }
    }
}

/// The chain of a text as a layer.
pub open spec fn text_chain(pen: PenV, c: ClipV, labels: Labels) -> Option<Seq<char>> {
    render::clip_chain(
        pen.registry,
        c.effects,
        0,
        c.transform,
        Some((pen.frame.w, pen.frame.h)),
        true,
        clip_time(c.start),
        false,
        labels,
    )
}

/// The labels after the chain of a text.
pub open spec fn text_labels(pen: PenV, c: ClipV, labels: Labels) -> Labels {
    render::clip_labels(
        pen.registry,
        c.effects,
        0,
        c.transform,
        Some((pen.frame.w, pen.frame.h)),
        labels,
    )
}

/// Texts with a title: its picture laid over the rest while its clip lasts.
#[verifier::opaque]
pub open spec fn title_stage(x: TextsV, pen: PenV, c: ClipV) -> Result<TextsV, ExportErrV> {
    match c.payload {
        PayloadV::Text { content, style } => if text::is_blank(content) {
            Ok(x)
        } else {
            match title_of(pen.titles, c.id) {
                Err(e) => Err(ExportErrV::Ffmpeg("could not render the title: "@ + e)),
                Ok(file) => {
                    let g = x.graph.taking(file, 0);
                    let n = text::digits(x.count);
                    let vf = leading(text_chain(pen, c, g.labels));
                    let after = GraphV { labels: text_labels(pen, c, g.labels), ..g };
                    Ok(
                        TextsV {
                            graph: after.with(
                                "["@ + text::digits(x.graph.number(file, 0)) + ":v]setpts=PTS-STARTPTS+"@ + render::secs_text(c.start) + "/TB,"@ + vf + "format=rgba,fps="@ + pen.frame.fps + "[tl"@ + n + "]"@,
                            ).with(
                                "["@ + g.current + "][tl"@ + n + "]overlay=x=(W-w)/2:y=(H-h)/2:eof_action=pass:enable='between(t,"@ + render::secs_text(c.start) + ","@ + render::secs_text(c.finish()) + ")'[tc"@ + n + "]"@,
                            ).now("tc"@ + n),
                            count: x.count + 1,
                            files: x.files.push(file),
                        },
                    )
                },
            }
        },
        _ => Ok(x),
    }
}

/// Texts with subtitles that have effects or a transform: drawn on a canvas of
/// their own and laid over the rest.
#[verifier::opaque]
pub open spec fn subtitle_stage(
    x: TextsV,
    pen: PenV,
    p: ProjectV,
    s: SequenceV,
    windows: Seq<(TimeUs, TimeUs)>,
    c: ClipV,
) -> TextsV {
    let drawn = overlays::overlay_chain(
        p,
        s,
        pen.fonts,
        pen.frame.h,
        pen.frame.w,
        None,
        windows,
        Some(c.id),
        false,
    );
    if c.payload is Subtitles && overlays::is_styled(c) && drawn is Some {
        let g = x.graph;
        let n = text::digits(x.count);
        let f = pen.frame;
        let vf = leading(text_chain(pen, c, g.labels));
        let after = GraphV { labels: text_labels(pen, c, g.labels), ..g };
        TextsV {
            graph: after.with(
                "color=c=black@0:s="@ + text::digits(f.w as nat) + "x"@ + text::digits(f.h as nat) + ":r="@ + f.fps + ":d="@ + render::secs_text(c.duration) + ",setpts=PTS-STARTPTS+"@ + render::secs_text(c.start) + "/TB,format=rgba,"@ + drawn->Some_0 + ","@ + vf + "format=rgba[tl"@ + n + "]"@,
            ).with(
                "["@ + g.current + "][tl"@ + n + "]overlay=x=(W-w)/2:y=(H-h)/2:eof_action=pass:                 enable='between(t,"@ + render::secs_text(c.start) + ","@ + render::secs_text(c.finish()) + ")'[tc"@ + n + "]"@,
            ).now("tc"@ + n),
            count: x.count + 1,
            files: x.files,
        }
    } else {
        x
    }
}

/// Texts with the titles of clips.
pub open spec fn title_clips(x: TextsV, pen: PenV, clips: Seq<ClipV>) -> Result<TextsV, ExportErrV>
    decreases clips.len(),
{
    if clips.len() == 0 {
        Ok(x)
    } else {
        match title_stage(x, pen, clips[0]) {
            Err(e) => Err(e),
            Ok(y) => title_clips(y, pen, clips.drop_first()),
        }
    }
}

/// Texts with the titles of tracks.
pub open spec fn title_tracks(x: TextsV, pen: PenV, tracks: Seq<TrackV>) -> Result<TextsV, ExportErrV>
    decreases tracks.len(),
{
    if tracks.len() == 0 {
        Ok(x)
    } else if edl::shows(tracks[0]) {
        match title_clips(x, pen, tracks[0].clips) {
            Err(e) => Err(e),
            Ok(y) => title_tracks(y, pen, tracks.drop_first()),
        }
    } else {
        title_tracks(x, pen, tracks.drop_first())
    }
}

/// Texts with the subtitles of clips.
pub open spec fn subtitle_clips(
    x: TextsV,
    pen: PenV,
    p: ProjectV,
    s: SequenceV,
    windows: Seq<(TimeUs, TimeUs)>,
    clips: Seq<ClipV>,
) -> TextsV
    decreases clips.len(),
{
    if clips.len() == 0 {
        x
    } else {
        subtitle_clips(
            subtitle_stage(x, pen, p, s, windows, clips[0]),
            pen,
            p,
            s,
            windows,
            clips.drop_first(),
        )
    }
}

/// Texts with the subtitles of tracks.
pub open spec fn subtitle_tracks(
    x: TextsV,
    pen: PenV,
    p: ProjectV,
    s: SequenceV,
    windows: Seq<(TimeUs, TimeUs)>,
    tracks: Seq<TrackV>,
) -> TextsV
    decreases tracks.len(),
{
    if tracks.len() == 0 {
        x
    } else if edl::shows(tracks[0]) {
        subtitle_tracks(
            subtitle_clips(x, pen, p, s, windows, tracks[0].clips),
            pen,
            p,
            s,
            windows,
            tracks.drop_first(),
        )
    } else {
        subtitle_tracks(x, pen, p, s, windows, tracks.drop_first())
    }
}

/// A graph that is being written, with texts over it.
struct Texts {
    graph: Graph,
    count: usize,
    files: Vec<String>,
}

impl View for Texts {
    type V = TextsV;

    closed spec fn view(&self) -> TextsV {
        TextsV {
            graph: self.graph@,
            count: self.count as nat,
            files: text::texts(self.files@),
        }
    }
}

impl Texts {
    /// Every text has two chains in the graph.
    spec fn counted(self) -> bool {
        2 * self.count <= self.graph@.fc.len()
    }
}

fn add_title(x: &mut Texts, pen: &Pen, c: &Clip) -> (r: ExportResult<()>)
    requires
        render::fitting(seqs::views(pen.registry@), c@.effects),
        old(x).counted(),
    ensures
        match title_stage(old(x)@, pen.shown(), c@) {
            Ok(y) => r is Ok && final(x)@ == y,
            Err(e) => r is Err && r->Err_0@ == e,
        },
        final(x).counted(),
{
    reveal(title_stage);
    assert(x.graph.fc.len() <= usize::MAX);
    if let ClipPayload::Text { content, style } = &c.payload {
        if blank(content.as_str()) {
            return Ok(());
        }
        let file: String = match find_title(pen.titles, c.id) {
            Ok(f) => f,
            Err(e) => {
                let mut m: String = copy_text("could not render the title: ");
                m.append(e.as_str());
                return Err(ExportError::Ffmpeg(m));
            },
        };
        let idx: usize = x.graph.take(file.clone(), 0);
        let mut tvar: String = copy_text("(t-");
        let d1: String = secs(c.start);
        tvar.append(d1.as_str());
        tvar.append(")");
        let vf: Option<String> = clip_vf_layer(
            pen.registry,
            &c.effects,
            &c.transform,
            Some((pen.frame.w, pen.frame.h)),
            tvar.as_str(),
            &mut x.graph.labels,
        );
        let chain: String = lead(&vf);
        let n: String = nat_to_text(x.count as u128);
        let mut a: String = copy_text("[");
        let d2: String = nat_to_text((idx) as u128);
        a.append(d2.as_str());
        a.append(":v]setpts=PTS-STARTPTS+");
        let d3: String = secs(c.start);
        a.append(d3.as_str());
        a.append("/TB,");
        a.append(chain.as_str());
        a.append("format=rgba,fps=");
        a.append(pen.frame.fps.as_str());
        a.append("[tl");
        a.append(n.as_str());
        a.append("]");
        x.graph.push(a);
        let mut o: String = copy_text("[");
        o.append(x.graph.current.as_str());
        o.append("][tl");
        o.append(n.as_str());
        o.append("]overlay=x=(W-w)/2:y=(H-h)/2:eof_action=pass:enable='between(t,");
        let d4: String = secs(c.start);
        o.append(d4.as_str());
        o.append(",");
        let d5: String = secs(c.end());
        o.append(d5.as_str());
        o.append(")'[tc");
        o.append(n.as_str());
        o.append("]");
        x.graph.push(o);
        let mut next: String = copy_text("tc");
        next.append(n.as_str());
        x.graph.set_current(next);
        x.count = x.count + 1;
        push_text(&mut x.files, file);
    }
    Ok(())
}

fn add_subtitles(
    x: &mut Texts,
    pen: &Pen,
    project: &Project,
    seq: &Sequence,
    windows: &Vec<(TimeUs, TimeUs)>,
    c: &Clip,
)
    requires
        render::fitting(seqs::views(pen.registry@), c@.effects),
        old(x).counted(),
    ensures
        final(x)@ == subtitle_stage(old(x)@, pen.shown(), project@, seq@, windows@, c@),
        final(x).counted(),
{
    reveal(subtitle_stage);
    assert(x.graph.fc.len() <= usize::MAX);
    let fits: bool = match &c.payload {
        ClipPayload::Subtitles { .. } => true,
        _ => false,
    };
    if !fits || !text_is_styled_pub(c) {
        return;
    }
    let f: &Frame = pen.frame;
    if let Some(drawn) = text_clip_chain(project, seq, pen.fonts, c.id, f.h, f.w, None, windows) {
        let mut tvar: String = copy_text("(t-");
        let d1: String = secs(c.start);
        tvar.append(d1.as_str());
        tvar.append(")");
        let vf: Option<String> = clip_vf_layer(
            pen.registry,
            &c.effects,
            &c.transform,
            Some((f.w, f.h)),
            tvar.as_str(),
            &mut x.graph.labels,
        );
        let chain: String = lead(&vf);
        let n: String = nat_to_text(x.count as u128);
        let mut a: String = copy_text("color=c=black@0:s=");
        let d2: String = nat_to_text((f.w) as u128);
        a.append(d2.as_str());
        a.append("x");
        let d3: String = nat_to_text((f.h) as u128);
        a.append(d3.as_str());
        a.append(":r=");
        a.append(f.fps.as_str());
        a.append(":d=");
        let d4: String = secs(c.duration);
        a.append(d4.as_str());
        a.append(",setpts=PTS-STARTPTS+");
        let d5: String = secs(c.start);
        a.append(d5.as_str());
        a.append("/TB,format=rgba,");
        a.append(drawn.as_str());
        a.append(",");
        a.append(chain.as_str());
        a.append("format=rgba[tl");
        a.append(n.as_str());
        a.append("]");
        x.graph.push(a);
        let mut o: String = copy_text("[");
        o.append(x.graph.current.as_str());
        o.append("][tl");
        o.append(n.as_str());
        o.append("]overlay=x=(W-w)/2:y=(H-h)/2:eof_action=pass:                 enable='between(t,");
        let d6: String = secs(c.start);
        o.append(d6.as_str());
        o.append(",");
        let d7: String = secs(c.end());
        o.append(d7.as_str());
        o.append(")'[tc");
        o.append(n.as_str());
        o.append("]");
        x.graph.push(o);
        let mut next: String = copy_text("tc");
        next.append(n.as_str());
        x.graph.set_current(next);
        x.count = x.count + 1;
    }
}


fn add_title_clips(x: &mut Texts, pen: &Pen, clips: &Vec<Clip>) -> (r: ExportResult<()>)
    requires
        edl::drawable_clips(seqs::views(pen.registry@), seqs::views(clips@)),
        old(x).counted(),
    ensures
        match title_clips(old(x)@, pen.shown(), seqs::views(clips@)) {
            Ok(y) => r is Ok && final(x)@ == y,
            Err(e) => r is Err && r->Err_0@ == e,
        },
        final(x).counted(),
{
    let ghost all = seqs::views(clips@);
    let ghost x0 = x@;
    let mut i: usize = 0;
    assert(all.skip(0) =~= all);
    while i < clips.len()
        invariant
            i <= clips.len(),
            all == seqs::views(clips@),
            edl::drawable_clips(seqs::views(pen.registry@), all),
            x.counted(),
            x0 == old(x)@,
            title_clips(x0, pen.shown(), all) == title_clips(x@, pen.shown(), all.skip(i as int)),
        decreases clips.len() - i,
    {
        assert(all.skip(i as int)[0] == clips@[i as int]@);
        assert(all.skip(i as int).drop_first() =~= all.skip(i as int + 1));
        if let Err(e) = add_title(x, pen, &clips[i]) {
            return Err(e);
        }
        i = i + 1;
    }
    assert(all.skip(i as int) =~= Seq::<ClipV>::empty());
    Ok(())
}

fn add_titles(x: &mut Texts, pen: &Pen, seq: &Sequence) -> (r: ExportResult<()>)
    requires
        edl::drawable(seqs::views(pen.registry@), seq@.tracks),
        old(x).counted(),
    ensures
        match title_tracks(old(x)@, pen.shown(), seq@.tracks) {
            Ok(y) => r is Ok && final(x)@ == y,
            Err(e) => r is Err && r->Err_0@ == e,
        },
        final(x).counted(),
{
    let ghost all = seq@.tracks;
    let ghost x0 = x@;
    let mut i: usize = 0;
    assert(all.skip(0) =~= all);
    while i < seq.tracks.len()
        invariant
            i <= seq.tracks.len(),
            all == seq@.tracks,
            edl::drawable(seqs::views(pen.registry@), seq@.tracks),
            x.counted(),
            x0 == old(x)@,
            title_tracks(x0, pen.shown(), all) == title_tracks(x@, pen.shown(), all.skip(i as int)),
        decreases seq.tracks.len() - i,
    {
        assert(all.skip(i as int)[0] == seq.tracks@[i as int]@);
        assert(all.skip(i as int).drop_first() =~= all.skip(i as int + 1));
        if track_shows(&seq.tracks[i]) {
            assert(all[i as int] == seq.tracks@[i as int]@);
            if let Err(e) = add_title_clips(x, pen, &seq.tracks[i].clips) {
                return Err(e);
            }
        }
        i = i + 1;
    }
    assert(all.skip(i as int) =~= Seq::<TrackV>::empty());
    Ok(())
}

fn add_subtitle_clips(
    x: &mut Texts,
    pen: &Pen,
    project: &Project,
    seq: &Sequence,
    windows: &Vec<(TimeUs, TimeUs)>,
    clips: &Vec<Clip>,
)
    requires
        edl::drawable_clips(seqs::views(pen.registry@), seqs::views(clips@)),
        old(x).counted(),
    ensures
        final(x)@ == subtitle_clips(
            old(x)@,
            pen.shown(),
            project@,
            seq@,
            windows@,
            seqs::views(clips@),
        ),
        final(x).counted(),
{
    let ghost all = seqs::views(clips@);
    let ghost x0 = x@;
    let mut i: usize = 0;
    assert(all.skip(0) =~= all);
    while i < clips.len()
        invariant
            i <= clips.len(),
            all == seqs::views(clips@),
            edl::drawable_clips(seqs::views(pen.registry@), all),
            x.counted(),
            subtitle_clips(x0, pen.shown(), project@, seq@, windows@, all) == subtitle_clips(
                x@,
                pen.shown(),
                project@,
                seq@,
                windows@,
                all.skip(i as int),
            ),
        decreases clips.len() - i,
    {
        assert(all.skip(i as int)[0] == clips@[i as int]@);
        assert(all.skip(i as int).drop_first() =~= all.skip(i as int + 1));
        add_subtitles(x, pen, project, seq, windows, &clips[i]);
        i = i + 1;
    }
    assert(all.skip(i as int) =~= Seq::<ClipV>::empty());
}

fn add_all_subtitles(
    x: &mut Texts,
    pen: &Pen,
    project: &Project,
    seq: &Sequence,
    windows: &Vec<(TimeUs, TimeUs)>,
)
    requires
        edl::drawable(seqs::views(pen.registry@), seq@.tracks),
        old(x).counted(),
    ensures
        final(x)@ == subtitle_tracks(
            old(x)@,
            pen.shown(),
            project@,
            seq@,
            windows@,
            seq@.tracks,
        ),
        final(x).counted(),
{
    let ghost all = seq@.tracks;
    let ghost x0 = x@;
    let mut i: usize = 0;
    assert(all.skip(0) =~= all);
    while i < seq.tracks.len()
        invariant
            i <= seq.tracks.len(),
            all == seq@.tracks,
            edl::drawable(seqs::views(pen.registry@), seq@.tracks),
            x.counted(),
            subtitle_tracks(x0, pen.shown(), project@, seq@, windows@, all) == subtitle_tracks(
                x@,
                pen.shown(),
                project@,
                seq@,
                windows@,
                all.skip(i as int),
            ),
        decreases seq.tracks.len() - i,
    {
        assert(all.skip(i as int)[0] == seq.tracks@[i as int]@);
        assert(all.skip(i as int).drop_first() =~= all.skip(i as int + 1));
        if track_shows(&seq.tracks[i]) {
            assert(all[i as int] == seq.tracks@[i as int]@);
            add_subtitle_clips(x, pen, project, seq, windows, &seq.tracks[i].clips);
        }
        i = i + 1;
    }
    assert(all.skip(i as int) =~= Seq::<TrackV>::empty());
}

/// The graph with all texts that are layers, flattened.
pub open spec fn text_stage(
    g: GraphV,
    pen: PenV,
    p: ProjectV,
    s: SequenceV,
    windows: Seq<(TimeUs, TimeUs)>,
) -> Result<(GraphV, Seq<Seq<char>>), ExportErrV> {
    let x0 = TextsV { graph: g, count: 0, files: Seq::<Seq<char>>::empty() };
    match title_tracks(x0, pen, s.tracks) {
        Err(e) => Err(e),
        Ok(x) => {
            let y = subtitle_tracks(x, pen, p, s, windows, s.tracks);
            if y.count > 0 {
                Ok(
                    (
                        y.graph.with("["@ + y.graph.current + "]format=yuv420p[tflat]"@).now("tflat"@),
                        y.files,
                    ),
                )
            } else {
                Ok((y.graph, y.files))
            }
        },
    }
}

fn add_texts(
    g: Graph,
    pen: &Pen,
    project: &Project,
    seq: &Sequence,
    windows: &Vec<(TimeUs, TimeUs)>,
) -> (r: ExportResult<(Graph, Vec<String>)>)
    requires
        edl::drawable(seqs::views(pen.registry@), seq@.tracks),
    ensures
        match text_stage(g@, pen.shown(), project@, seq@, windows@) {
            Ok(y) => r is Ok && r->Ok_0.0@ == y.0 && text::texts(r->Ok_0.1@) == y.1,
            Err(e) => r is Err && r->Err_0@ == e,
        },
{
    let mut x: Texts = Texts { graph: g, count: 0, files: Vec::new() };
    assert(text::texts(x.files@) =~= Seq::<Seq<char>>::empty());
    if let Err(e) = add_titles(&mut x, pen, seq) {
        return Err(e);
    }
    add_all_subtitles(&mut x, pen, project, seq, windows);
    let Texts { graph, count, files } = x;
    let mut graph: Graph = graph;
    if count > 0 {
        let mut c: String = copy_text("[");
        c.append(graph.current.as_str());
        c.append("]format=yuv420p[tflat]");
        graph.push(c);
        graph.set_current(copy_text("tflat"));
    }
    Ok((graph, files))
}

/// The graph with the subtitles burned in; its picture is then `vout`.
pub open spec fn script_stage(g: GraphV, script: ScriptV) -> Result<
    (GraphV, Option<Seq<char>>),
    ExportErrV,
> {
    match script {
        ScriptV::Written { path, filter } => Ok(
            (g.with("["@ + g.current + "]"@ + filter + "[vout]"@), Some(path)),
        ),
        ScriptV::Nothing => Ok((g.with("["@ + g.current + "]null[vout]"@), None)),
        ScriptV::Failed(e) => Err(ExportErrV::Ffmpeg("could not write the subtitles: "@ + e)),
    }
}

fn add_script(g: &mut Graph, script: &Script) -> (r: ExportResult<Option<String>>)
    ensures
        match script_stage(old(g)@, script@) {
            Ok(y) => r is Ok && final(g)@ == y.0 && model::opt_text(r->Ok_0) == y.1,
            Err(e) => r is Err && r->Err_0@ == e,
        },
{
    match script {
        Script::Written { path, filter } => {
            let mut c: String = copy_text("[");
            c.append(g.current.as_str());
            c.append("]");
            c.append(filter.as_str());
            c.append("[vout]");
            g.push(c);
            Ok(Some(path.clone()))
        },
        Script::Nothing => {
            let mut c: String = copy_text("[");
            c.append(g.current.as_str());
            c.append("]null[vout]");
            g.push(c);
            Ok(None)
        },
        Script::Failed(e) => {
            let mut m: String = copy_text("could not write the subtitles: ");
            m.append(e.as_str());
            Err(ExportError::Ffmpeg(m))
        },
    }
}

// ---- sound ----

/// The graph with the first sounds.
pub open spec fn sound_stages(
    g: GraphV,
    p: ProjectV,
    base: Seq<char>,
    items: Seq<AudioItemV>,
    n: nat,
) -> GraphV
    decreases n,
{
    if n == 0 {
        g
    } else {
        let before = sound_stages(g, p, base, items, (n - 1) as nat);
        let x = items[n - 1];
        let file = sound::heard_file(p, base, x, g.windows);
        before.taking(file, x.src_in).with(
            sound::seeked_chain(
                before.number(file, x.src_in),
                x,
                "a"@ + text::digits((n - 1) as nat),
            ),
        )
    }
}

/// The names of sounds.
pub open spec fn sound_names(n: nat) -> Seq<Seq<char>>
    decreases n,
{
    if n == 0 {
        Seq::<Seq<char>>::empty()
    } else {
        sound_names((n - 1) as nat).push("[a"@ + text::digits((n - 1) as nat) + "]"@)
    }
}

/// The graph with all sounds, mixed.
pub open spec fn sound_stage(
    g: GraphV,
    p: ProjectV,
    base: Seq<char>,
    items: Seq<AudioItemV>,
    total: TimeUs,
    loudnorm: bool,
) -> GraphV {
    let a = sound_stages(g, p, base, items, items.len());
    if items.len() > 0 {
        a.with(sound::mix_text(sound_names(items.len()), total, loudnorm))
    } else {
        a
    }
}

fn add_sound(
    g: &mut Graph,
    project: &Project,
    base: &str,
    items: &Vec<AudioItem>,
    total: TimeUs,
    loudnorm: bool,
)
    ensures
        final(g)@ == sound_stage(
            old(g)@,
            project@,
            base@,
            seqs::views(items@),
            total,
            loudnorm,
        ),
{
    let ghost all = seqs::views(items@);
    let ghost g0 = g@;
    let mut names: Vec<String> = Vec::new();
    let mut i: usize = 0;
    assert(text::texts(names@) =~= Seq::<Seq<char>>::empty());
    assert(all.len() == items.len());
    while i < items.len()
        invariant
            i <= items.len(),
            all == seqs::views(items@),
            g@ == sound_stages(g0, project@, base@, all, i as nat),
            g.windows == g0.windows,
            text::texts(names@) == sound_names(i as nat),
        decreases items.len() - i,
    {
        let x: &AudioItem = &items[i];
        assert(all[i as int] == x@);
        let file: String = file_heard(project, base, x, g.windows);
        let idx: usize = g.take(file, x.src_in);
        let mut label: String = copy_text("a");
        let d1: String = nat_to_text((i) as u128);
        label.append(d1.as_str());
        let c: String = chain_seeked(idx, x, label.as_str());
        g.push(c);
        let mut s2: String = copy_text("[a");
        let d3: String = nat_to_text((i) as u128);
        s2.append(d3.as_str());
        s2.append("]");
        push_text(&mut names, s2);
        i = i + 1;
    }
    if items.len() > 0 {
        let m: String = mix(&names, total, loudnorm);
        g.push(m);
    }
}

// ---- the command line ----

/// A list with more texts.
fn push_all(v: &mut Vec<String>, s: &str)
    ensures
        text::texts(final(v)@) == text::texts(old(v)@).push(s@),
{
    push_text(v, copy_text(s));
}

/// Arguments with an input.
pub open spec fn input_args(args: Seq<Seq<char>>, x: InputV) -> Seq<Seq<char>> {
    let a = if x.image {
        args.push("-loop"@).push("1"@)
    } else {
        args
    };
    let b = if x.seek > 0 {
        a.push("-ss"@).push(render::secs_text(x.seek))
    } else {
        a
    };
    b.push("-i"@).push(x.path)
}

/// Arguments with the first inputs.
pub open spec fn inputs_args(args: Seq<Seq<char>>, inputs: Seq<InputV>, n: nat) -> Seq<Seq<char>>
    decreases n,
{
    if n == 0 {
        args
    } else {
        input_args(inputs_args(args, inputs, (n - 1) as nat), inputs[n - 1])
    }
}

/// The arguments that every call starts with.
pub open spec fn first_args() -> Seq<Seq<char>> {
    Seq::<Seq<char>>::empty().push("-y"@).push("-v"@).push("error"@)
}

/// The arguments that say how to write the picture and the sound.
pub open spec fn output_args(args: Seq<Seq<char>>, s: SettingsV, audible: bool) -> Seq<Seq<char>> {
    if s.format == ExportFormat::Gif {
        args.push("-an"@).push("-loop"@).push("0"@)
    } else {
        let a = if audible {
            args.push("-map"@).push("[aout]"@).push("-c:a"@).push("aac"@).push("-b:a"@).push(
                text::digits(s.audio_bitrate_k as nat) + "k"@,
            )
        } else {
            args.push("-an"@)
        };
        a.push("-c:v"@).push("libx264"@).push("-preset"@).push(s.preset).push("-crf"@).push(
            text::digits(s.crf as nat),
        ).push("-movflags"@).push("+faststart"@)
    }
}

/// The graph with the palette of a moving picture.
pub open spec fn gif_stage(g: GraphV, gif: bool) -> GraphV {
    if gif {
        g.with(
            "[vout]fps=12,scale='min(480,iw)':-2:flags=lanczos,split[gifa][gifb];[gifa]palettegen=stats_mode=diff[pal];[gifb][pal]paletteuse=dither=bayer:bayer_scale=4[gifout]"@,
        )
    } else {
        g
    }
}

/// The command line of a graph.
pub open spec fn graph_args(g: GraphV, s: SettingsV, audible: bool, output: Seq<char>) -> Seq<Seq<char>> {
    let a = inputs_args(first_args(), g.inputs, g.inputs.len());
    let b = a.push("-filter_complex"@).push(text::joined(g.fc, ";"@)).push("-map"@).push(
        if s.format == ExportFormat::Gif {
            "[gifout]"@
        } else {
            "[vout]"@
        },
    );
    output_args(b, s, audible).push(output)
}

fn write_args(g: &Graph, settings: &ExportSettings, audible: bool, output: &str) -> (r: Vec<String>)
    ensures
        text::texts(r@) == graph_args(g@, settings@, audible, output@),
{
    let ghost inputs = g@.inputs;
    let mut args: Vec<String> = Vec::new();
    assert(text::texts(args@) =~= Seq::<Seq<char>>::empty());
    push_all(&mut args, "-y");
    push_all(&mut args, "-v");
    push_all(&mut args, "error");
    let mut i: usize = 0;
    assert(inputs.len() == g.inputs.len());
    while i < g.inputs.len()
        invariant
            i <= g.inputs.len(),
            inputs == g@.inputs,
            text::texts(args@) == inputs_args(first_args(), inputs, i as nat),
        decreases g.inputs.len() - i,
    {
        let x: &Input = &g.inputs[i];
        assert(inputs[i as int] == x@);
        if x.image {
            push_all(&mut args, "-loop");
            push_all(&mut args, "1");
        }
        if x.seek > 0 {
            push_all(&mut args, "-ss");
            push_text(&mut args, secs(x.seek));
        }
        push_all(&mut args, "-i");
        push_all(&mut args, x.path.as_str());
        i = i + 1;
    }
    push_all(&mut args, "-filter_complex");
    push_text(&mut args, join(&g.fc, ";"));
    push_all(&mut args, "-map");
    let gif: bool = settings.format == ExportFormat::Gif;
    if gif {
        push_all(&mut args, "[gifout]");
        push_all(&mut args, "-an");
        push_all(&mut args, "-loop");
        push_all(&mut args, "0");
    } else {
        push_all(&mut args, "[vout]");
        if audible {
            push_all(&mut args, "-map");
            push_all(&mut args, "[aout]");
            push_all(&mut args, "-c:a");
            push_all(&mut args, "aac");
            push_all(&mut args, "-b:a");
            let d2: String = nat_to_text((settings.audio_bitrate_k) as u128);
            let mut s1: String = copy_text(d2.as_str());
            s1.append("k");
            push_text(&mut args, s1);
        } else {
            push_all(&mut args, "-an");
        }
        push_all(&mut args, "-c:v");
        push_all(&mut args, "libx264");
        push_all(&mut args, "-preset");
        push_all(&mut args, settings.preset.as_str());
        push_all(&mut args, "-crf");
        push_text(&mut args, nat_to_text(settings.crf as u128));
        push_all(&mut args, "-movflags");
        push_all(&mut args, "+faststart");
    }
    push_all(&mut args, output);
    args
}

// ---- the base alone ----

/// Tracks with all that show but one muted.
pub open spec fn muted_but(tracks: Seq<TrackV>, keep: int) -> Seq<TrackV> {
    Seq::new(
        tracks.len(),
        |i: int|
            if edl::shows(tracks[i]) && i != keep {
                TrackV { muted: true, ..tracks[i] }
            } else {
                tracks[i]
            },
    )
}

/// The project with only the base of a sequence to be seen.
pub open spec fn base_alone(p: ProjectV, sequence_id: Id) -> ProjectV {
    let i = seqs::pos(p.sequences, sequence_id) as int;
    let s = p.sequences[i];
    ProjectV {
        sequences: p.sequences.update(
            i,
            SequenceV { tracks: muted_but(s.tracks, base_track(s.tracks) as int), ..s },
        ),
        ..p
    }
}

fn mute_tracks(tracks: &mut Vec<Track>, keep: usize)
    ensures
        seqs::views(final(tracks)@) == muted_but(seqs::views(old(tracks)@), keep as int),
{
    let ghost all = seqs::views(tracks@);
    let ghost want = muted_but(all, keep as int);
    let mut i: usize = 0;
    while i < tracks.len()
        invariant
            i <= tracks.len(),
            tracks.len() == all.len(),
            all == seqs::views(old(tracks)@),
            want == muted_but(all, keep as int),
            forall|k: int| 0 <= k < i ==> (#[trigger] tracks@[k])@ == want[k],
            forall|k: int| i <= k < tracks.len() ==> (#[trigger] tracks@[k])@ == all[k],
        decreases tracks.len() - i,
    {
        if i != keep && track_shows(&tracks[i]) {
            tracks[i].muted = true;
        }
        i = i + 1;
    }
    assert(seqs::views(tracks@) =~= want);
}

fn show_base(project: &Project, sequence_id: Id, base: usize) -> (r: Project)
    requires
        seqs::holds(project@.sequences, sequence_id),
        base == base_track(
            project@.sequences[seqs::pos(project@.sequences, sequence_id) as int].tracks,
        ),
    ensures
        r@ == base_alone(project@, sequence_id),
{
    let mut p: Project = project.duplicate();
    let ghost before = p@;
    if let Some(i) = seqs::find(&p.sequences, sequence_id) {
        let ghost s0 = p.sequences@[i as int]@;
        mute_tracks(&mut p.sequences[i].tracks, base);
        proof {
            assert(p@.sequences =~= before.sequences.update(
                i as int,
                SequenceV { tracks: muted_but(s0.tracks, base as int), ..s0 },
            ));
        }
    }
    p
}

proof fn lemma_base_flattens(p: ProjectV, sequence_id: Id, registry: Seq<EffectDefV>)
    requires
        seqs::holds(p.sequences, sequence_id),
        edl::flattens(p, sequence_id, registry),
    ensures
        edl::flattens(base_alone(p, sequence_id), sequence_id, registry),
{
    let i = seqs::pos(p.sequences, sequence_id);
    let s = p.sequences[i as int];
    let alone = base_alone(p, sequence_id);
    seqs::lemma_pos(p.sequences, sequence_id);
    let t = alone.sequences[i as int].tracks;
    seqs::lemma_pos_at(alone.sequences, sequence_id, i);
    assert forall|k: int| 0 <= k < t.len() && edl::shows(#[trigger] t[k]) implies edl::drawable_clips(
        registry,
        t[k].clips,
    ) by {
        assert(t[k] == s.tracks[k]);
    }
}

// ---- texts over black ----

/// The end of the text that ends last among clips; none for no texts.
pub open spec fn texts_end(clips: Seq<ClipV>, t: Option<TimeUs>) -> Option<TimeUs>
    decreases clips.len(),
{
    if clips.len() == 0 {
        t
    } else {
        let r = texts_end(clips.drop_last(), t);
        let c = clips.last();
        if c.payload is Text || c.payload is Subtitles {
            match r {
                Some(x) => Some(time::max_time(x, c.finish())),
                None => Some(c.finish()),
            }
        } else {
            r
        }
    }
}

/// The end of the text that ends last on tracks that show.
pub open spec fn all_texts_end(tracks: Seq<TrackV>) -> Option<TimeUs>
    decreases tracks.len(),
{
    if tracks.len() == 0 {
        None
    } else if edl::shows(tracks.last()) {
        texts_end(tracks.last().clips, all_texts_end(tracks.drop_last()))
    } else {
        all_texts_end(tracks.drop_last())
    }
}

fn find_texts_end(clips: &Vec<Clip>, t: Option<TimeUs>) -> (r: Option<TimeUs>)
    ensures
        r == texts_end(seqs::views(clips@), t),
{
    let ghost all = seqs::views(clips@);
    let mut r: Option<TimeUs> = t;
    let mut i: usize = 0;
    assert(all.take(0) =~= Seq::<ClipV>::empty());
    while i < clips.len()
        invariant
            i <= clips.len(),
            all == seqs::views(clips@),
            r == texts_end(all.take(i as int), t),
        decreases clips.len() - i,
    {
        let c: &Clip = &clips[i];
        proof {
            assert(all.take(i as int + 1).drop_last() =~= all.take(i as int));
            assert(all.take(i as int + 1).last() == c@);
        }
        let written: bool = match &c.payload {
            ClipPayload::Text { .. } => true,
            ClipPayload::Subtitles { .. } => true,
            _ => false,
        };
        if written {
            r = match r {
                Some(x) => Some(max2(x, c.end())),
                None => Some(c.end()),
            };
        }
        i = i + 1;
    }
    assert(all.take(i as int) =~= all);
    r
}

fn find_all_texts_end(s: &Sequence) -> (r: Option<TimeUs>)
    ensures
        r == all_texts_end(s@.tracks),
{
    let ghost all = s@.tracks;
    let mut r: Option<TimeUs> = None;
    let mut i: usize = 0;
    assert(all.take(0) =~= Seq::<TrackV>::empty());
    while i < s.tracks.len()
        invariant
            i <= s.tracks.len(),
            all == s@.tracks,
            r == all_texts_end(all.take(i as int)),
        decreases s.tracks.len() - i,
    {
        proof {
            assert(all.take(i as int + 1).drop_last() =~= all.take(i as int));
            assert(all.take(i as int + 1).last() == s.tracks@[i as int]@);
        }
        if track_shows(&s.tracks[i]) {
            r = find_texts_end(&s.tracks[i].clips, r);
        }
        i = i + 1;
    }
    assert(all.take(i as int) =~= all);
    r
}

/// The segments of an export, and the labels after them: with layers only those
/// of the base. Where there is no picture at all, texts are shown over black.
pub open spec fn export_edl(
    p: ProjectV,
    sequence_id: Id,
    registry: Seq<EffectDefV>,
    drawn: Seq<DrawnV>,
    layered: bool,
    labels: Labels,
) -> Result<(Seq<SegmentV>, Labels), ExportErrV> {
    let s = p.sequences[seqs::pos(p.sequences, sequence_id) as int];
    let shown = if layered {
        base_alone(p, sequence_id)
    } else {
        p
    };
    match edl::edl_spec(shown, sequence_id, registry, drawn, labels) {
        Ok(x) => Ok(x),
        Err(ExportErrV::EmptyTimeline) => match all_texts_end(s.tracks) {
            Some(t) => if t <= 0 {
                Err(ExportErrV::EmptyTimeline)
            } else {
                Ok((seq![SegmentV::Black { duration: t }], labels))
            },
            None => Err(ExportErrV::EmptyTimeline),
        },
        Err(e) => Err(e),
    }
}

fn make_edl(
    project: &Project,
    sequence_id: Id,
    seq: &Sequence,
    base: usize,
    registry: &Vec<EffectDef>,
    drawn: &Vec<Drawn>,
    layered: bool,
    labels: &mut Labels,
) -> (r: ExportResult<Vec<Segment>>)
    requires
        edl::drawable(seqs::views(registry@), seq@.tracks),
        seqs::holds(project@.sequences, sequence_id),
        seq@ == project@.sequences[seqs::pos(project@.sequences, sequence_id) as int],
        base == base_track(seq@.tracks),
    ensures
        match export_edl(
            project@,
            sequence_id,
            seqs::views(registry@),
            seqs::views(drawn@),
            layered,
            *old(labels),
        ) {
            Ok(x) => r is Ok && seqs::views(r->Ok_0@) == x.0 && *final(labels) == x.1
                && x.0.len() > 0,
            Err(e) => r is Err && r->Err_0@ == e,
        },
{
    let saved: Labels = *labels;
    let made: ExportResult<Vec<Segment>> = if layered {
        let alone: Project = show_base(project, sequence_id, base);
        proof {
            lemma_base_flattens(project@, sequence_id, seqs::views(registry@));
            if edl::edl_spec(
                alone@,
                sequence_id,
                seqs::views(registry@),
                seqs::views(drawn@),
                saved,
            ) is Ok {
                edl::law_edl_ends_with_content(
                    alone@,
                    sequence_id,
                    seqs::views(registry@),
                    seqs::views(drawn@),
                    saved,
                );
            }
        }
        flatten(&alone, sequence_id, registry, drawn, labels)
    } else {
        proof {
            if edl::edl_spec(
                project@,
                sequence_id,
                seqs::views(registry@),
                seqs::views(drawn@),
                saved,
            ) is Ok {
                edl::law_edl_ends_with_content(
                    project@,
                    sequence_id,
                    seqs::views(registry@),
                    seqs::views(drawn@),
                    saved,
                );
            }
        }
        flatten(project, sequence_id, registry, drawn, labels)
    };
    match made {
        Ok(list) => Ok(list),
        Err(ExportError::EmptyTimeline) => {
            *labels = saved;
            match find_all_texts_end(seq) {
                Some(t) => {
                    if t <= 0 {
                        return Err(ExportError::EmptyTimeline);
                    }
                    let mut list: Vec<Segment> = Vec::new();
                    list.push(Segment::Black { duration: t });
                    assert(seqs::views(list@) =~= seq![SegmentV::Black { duration: t }]);
                    Ok(list)
                },
                None => Err(ExportError::EmptyTimeline),
            }
        },
        Err(e) => Err(e),
    }
}

// ---- sound alone ----

/// Where a file is in a list; the length where it is not. Paths are the same
/// where their parts are.
pub open spec fn file_pos(files: Seq<Seq<char>>, x: Seq<char>, windows: bool) -> nat
    decreases files.len(),
{
    if files.len() == 0 || paths::same_path(files[0], x, windows) {
        0
    } else {
        1 + file_pos(files.drop_first(), x, windows)
    }
}

/// A list of files with one in it.
pub open spec fn with_file(files: Seq<Seq<char>>, x: Seq<char>, windows: bool) -> Seq<Seq<char>> {
    if file_pos(files, x, windows) < files.len() {
        files
    } else {
        files.push(x)
    }
}

fn use_file(files: &mut Vec<String>, x: String, windows: bool) -> (i: usize)
    ensures
        text::texts(final(files)@) == with_file(text::texts(old(files)@), x@, windows),
        i == file_pos(text::texts(old(files)@), x@, windows),
{
    let ghost all = text::texts(files@);
    let mut i: usize = 0;
    assert(all.skip(0) =~= all);
    while i < files.len()
        invariant
            i <= files.len(),
            all == text::texts(files@),
            all == text::texts(old(files)@),
            file_pos(all, x@, windows) == i + file_pos(all.skip(i as int), x@, windows),
        decreases files.len() - i,
    {
        assert(all.skip(i as int)[0] == files@[i as int]@);
        assert(all.skip(i as int).drop_first() =~= all.skip(i as int + 1));
        if are_same_path(files[i].as_str(), x.as_str(), windows) {
            return i;
        }
        i = i + 1;
    }
    push_text(files, x);
    i
}

/// The end of the sound that ends last; zero for none.
pub open spec fn sounds_end(items: Seq<AudioItemV>) -> TimeUs
    decreases items.len(),
{
    if items.len() == 0 {
        0
    } else {
        let end = time::later(items.last().start, sound::heard_length(items.last()));
        if items.len() == 1 {
            end
        } else {
            time::max_time(sounds_end(items.drop_last()), end)
        }
    }
}

fn find_sounds_end(items: &Vec<AudioItem>) -> (t: TimeUs)
    ensures
        t == sounds_end(seqs::views(items@)),
{
    let ghost all = seqs::views(items@);
    let mut t: TimeUs = 0;
    let mut i: usize = 0;
    assert(all.take(0) =~= Seq::<AudioItemV>::empty());
    while i < items.len()
        invariant
            i <= items.len(),
            all == seqs::views(items@),
            t == sounds_end(all.take(i as int)),
        decreases items.len() - i,
    {
        proof {
            assert(all.take(i as int + 1).drop_last() =~= all.take(i as int));
            assert(all.take(i as int + 1).last() == items@[i as int]@);
        }
        let x: &AudioItem = &items[i];
        let end: TimeUs = plus(x.start, divide_time(minus(x.src_out, x.src_in), x.speed));
        t = if i == 0 {
            end
        } else {
            max2(t, end)
        };
        i = i + 1;
    }
    assert(all.take(i as int) =~= all);
    t
}

/// The files and chains of the first sounds.
pub open spec fn alone_stages(
    p: ProjectV,
    base: Seq<char>,
    items: Seq<AudioItemV>,
    n: nat,
    windows: bool,
) -> (
    Seq<Seq<char>>,
    Seq<Seq<char>>,
)
    decreases n,
{
    if n == 0 {
        (Seq::<Seq<char>>::empty(), Seq::<Seq<char>>::empty())
    } else {
        let r = alone_stages(p, base, items, (n - 1) as nat, windows);
        let x = items[n - 1];
        let file = sound::heard_file(p, base, x, windows);
        (
            with_file(r.0, file, windows),
            r.1.push(
                sound::trimmed_chain(
                    file_pos(r.0, file, windows),
                    x,
                    "a"@ + text::digits((n - 1) as nat),
                ),
            ),
        )
    }
}

/// The range of a sound export inside the whole; none where it is empty.
pub open spec fn sound_range(range: Option<(TimeUs, TimeUs)>, total: TimeUs) -> Option<(TimeUs, TimeUs)> {
    match range {
        Some(r) => {
            let a = ops::clamped(r.0, 0, total);
            let b = ops::clamped(r.1, a, total);
            if b > a {
                Some((a, b))
            } else {
                None
            }
        },
        None => None,
    }
}

/// Arguments with files as inputs.
pub open spec fn file_args(args: Seq<Seq<char>>, files: Seq<Seq<char>>, n: nat) -> Seq<Seq<char>>
    decreases n,
{
    if n == 0 {
        args
    } else {
        file_args(args, files, (n - 1) as nat).push("-i"@).push(files[n - 1])
    }
}

/// The call that writes the sound of a sequence alone.
#[verifier::opaque]
pub open spec fn audio_only(
    p: ProjectV,
    sequence_id: Id,
    base: Seq<char>,
    output: Seq<char>,
    s: SettingsV,
    denoised: Seq<Seq<char>>,
    windows: bool,
) -> Result<FfmpegV, ExportErrV> {
    let items = sound::audio_of(p, sequence_id, denoised, windows);
    if items.len() == 0 {
        Err(ExportErrV::EmptyTimeline)
    } else {
        let total = sounds_end(items);
        let a = alone_stages(p, base, items, items.len(), windows);
        let fc = a.1.push(sound::mix_text(sound_names(items.len()), total, s.loudnorm));
        let part = sound_range(s.range, total);
        let all = match part {
            Some(r) => fc.push(
                "[aout]atrim=start="@ + render::secs_text(r.0) + ":end="@ + render::secs_text(r.1) + ",asetpts=PTS-STARTPTS[aoutr]"@,
            ),
            None => fc,
        };
        let args = file_args(first_args(), a.0, a.0.len()).push("-filter_complex"@).push(
            text::joined(all, ";"@),
        ).push("-map"@).push(
            if part is Some {
                "[aoutr]"@
            } else {
                "[aout]"@
            },
        ).push("-vn"@).push("-c:a"@).push("aac"@).push("-b:a"@).push(
            text::digits(s.audio_bitrate_k as nat) + "k"@,
        ).push("-movflags"@).push("+faststart"@).push(output);
        Ok(
            FfmpegV {
                args,
                duration_us: match part {
                    Some(r) => time::sooner(r.1, r.0),
                    None => total,
                },
                subs_file: None,
                temp_files: Seq::<Seq<char>>::empty(),
            },
        )
    }
}

fn list_sounds(project: &Project, base: &str, items: &Vec<AudioItem>, windows: bool) -> (r: (
    Vec<String>,
    Vec<String>,
    Vec<String>,
))
    ensures
        (text::texts(r.0@), text::texts(r.1@)) == alone_stages(
            project@,
            base@,
            seqs::views(items@),
            items@.len(),
            windows,
        ),
        text::texts(r.2@) == sound_names(items@.len()),
{
    let ghost all = seqs::views(items@);
    let mut files: Vec<String> = Vec::new();
    let mut fc: Vec<String> = Vec::new();
    let mut names: Vec<String> = Vec::new();
    let mut i: usize = 0;
    assert(text::texts(files@) =~= Seq::<Seq<char>>::empty());
    assert(text::texts(fc@) =~= Seq::<Seq<char>>::empty());
    assert(text::texts(names@) =~= Seq::<Seq<char>>::empty());
    while i < items.len()
        invariant
            i <= items.len(),
            all == seqs::views(items@),
            (text::texts(files@), text::texts(fc@)) == alone_stages(
                project@,
                base@,
                all,
                i as nat,
                windows,
            ),
            text::texts(names@) == sound_names(i as nat),
        decreases items.len() - i,
    {
        let x: &AudioItem = &items[i];
        assert(all[i as int] == x@);
        let file: String = file_heard(project, base, x, windows);
        let idx: usize = use_file(&mut files, file, windows);
        let mut label: String = copy_text("a");
        let d1: String = nat_to_text((i) as u128);
        label.append(d1.as_str());
        let c: String = sound::chain_trimmed(idx, x, label.as_str());
        push_text(&mut fc, c);
        let mut s2: String = copy_text("[a");
        let d3: String = nat_to_text((i) as u128);
        s2.append(d3.as_str());
        s2.append("]");
        push_text(&mut names, s2);
        i = i + 1;
    }
    (files, fc, names)
}

/// Plans the call that writes the sound of a sequence alone. `denoised` names
/// the denoised files that are there, and `windows` tells whether paths are
/// those of Windows.
pub fn build_audio_only_args(
    project: &Project,
    sequence_id: Id,
    base: &str,
    output: &str,
    settings: &ExportSettings,
    denoised: &Vec<String>,
    windows: bool,
) -> (r: ExportResult<FfmpegPlan>)
    ensures
        export::planned_as(
            r,
            audio_only(
                project@,
                sequence_id,
                base@,
                output@,
                settings@,
                text::texts(denoised@),
                windows,
            ),
        ),
{
    reveal(audio_only);
    let items: Vec<AudioItem> = collect_audio(project, sequence_id, denoised, windows);
    let ghost all = seqs::views(items@);
    assert(all.len() == items.len());
    if items.len() == 0 {
        return Err(ExportError::EmptyTimeline);
    }
    let total: TimeUs = find_sounds_end(&items);
    let (files, chains, names): (Vec<String>, Vec<String>, Vec<String>) = list_sounds(
        project,
        base,
        &items,
        windows,
    );
    let mut fc: Vec<String> = chains;
    let m: String = mix(&names, total, settings.loudnorm);
    push_text(&mut fc, m);
    let mut label: String = copy_text("[aout]");
    let mut duration_us: TimeUs = total;
    if let Some(range) = settings.range {
        let a: TimeUs = clamp_time(range.0, 0, total);
        let b: TimeUs = clamp_time(range.1, a, total);
        if b > a {
            let mut s1: String = copy_text("[aout]atrim=start=");
            let d2: String = secs(a);
            s1.append(d2.as_str());
            s1.append(":end=");
            let d3: String = secs(b);
            s1.append(d3.as_str());
            s1.append(",asetpts=PTS-STARTPTS[aoutr]");
            push_text(&mut fc, s1);
            label = copy_text("[aoutr]");
            duration_us = minus(b, a);
        }
    }
    let ghost fv = text::texts(files@);
    let mut args: Vec<String> = Vec::new();
    assert(text::texts(args@) =~= Seq::<Seq<char>>::empty());
    push_all(&mut args, "-y");
    push_all(&mut args, "-v");
    push_all(&mut args, "error");
    let mut i: usize = 0;
    assert(fv.len() == files.len());
    while i < files.len()
        invariant
            i <= files.len(),
            fv == text::texts(files@),
            text::texts(args@) == file_args(first_args(), fv, i as nat),
        decreases files.len() - i,
    {
        assert(fv[i as int] == files@[i as int]@);
        push_all(&mut args, "-i");
        push_all(&mut args, files[i].as_str());
        i = i + 1;
    }
    push_all(&mut args, "-filter_complex");
    push_text(&mut args, join(&fc, ";"));
    push_all(&mut args, "-map");
    push_text(&mut args, label);
    push_all(&mut args, "-vn");
    push_all(&mut args, "-c:a");
    push_all(&mut args, "aac");
    push_all(&mut args, "-b:a");
    let d5: String = nat_to_text((settings.audio_bitrate_k) as u128);
    let mut s4: String = copy_text(d5.as_str());
    s4.append("k");
    push_text(&mut args, s4);
    push_all(&mut args, "-movflags");
    push_all(&mut args, "+faststart");
    push_all(&mut args, output);
    let temp_files: Vec<String> = Vec::new();
    assert(text::texts(temp_files@) =~= Seq::<Seq<char>>::empty());
    Ok(FfmpegPlan { args, duration_us, subs_file: None, temp_files })
}

// ---- the whole ----

/// The graph of a picture with sound, from its segments and layers.
#[verifier::opaque]
pub open spec fn whole_graph(
    p: ProjectV,
    sequence_id: Id,
    s: SequenceV,
    base: Seq<char>,
    settings: SettingsV,
    env: SurroundV,
    registry: Seq<EffectDefV>,
    list: Seq<SegmentV>,
    layers: Seq<LayerV>,
    labels: Labels,
) -> Result<(GraphV, Option<Seq<char>>, Seq<Seq<char>>), ExportErrV> {
    let f = frame_of(s, settings.max_height);
    let gif = settings.format == ExportFormat::Gif;
    let g0 = GraphV {
        inputs: Seq::<InputV>::empty(),
        fc: Seq::<Seq<char>>::empty(),
        labels,
        current: ""@,
        windows: env.windows,
    };
    let length = edl::edl_length(list);
    let g1 = picture_stage(g0, p, base, f, list);
    let g2 = over_stage(g1, p, base, f, layers, length);
    let pen = PenV { registry, titles: env.titles, fonts: env.fonts, frame: f };
    match text_stage(g2, pen, p, s, Seq::<(TimeUs, TimeUs)>::empty()) {
        Err(e) => Err(e),
        Ok(x) => match script_stage(x.0, env.script) {
            Err(e) => Err(e),
            Ok(y) => {
                let g3 = if gif {
                    y.0
                } else {
                    sound_stage(
                        y.0,
                        p,
                        base,
                        sound::audio_of(p, sequence_id, env.denoised, env.windows),
                        time::max_time(length, layers_end(layers)),
                        settings.loudnorm,
                    )
                };
                Ok((gif_stage(g3, gif), y.1, x.1))
            },
        },
    }
}

/// The call that exports a sequence, and the labels after it.
pub open spec fn export_spec(
    p: ProjectV,
    sequence_id: Id,
    base: Seq<char>,
    output: Seq<char>,
    settings: SettingsV,
    env: SurroundV,
    labels: Labels,
) -> Result<FfmpegV, ExportErrV> {
    if !seqs::holds(p.sequences, sequence_id) {
        Err(ExportErrV::NoSequence(sequence_id))
    } else if settings.format == ExportFormat::M4a {
        audio_only(p, sequence_id, base, output, settings.whole(), env.denoised, env.windows)
    } else {
        let s = p.sequences[seqs::pos(p.sequences, sequence_id) as int];
        let registry = render::merged(env.core, settings.extra_packs);
        match layer_tracks(
            (Seq::<LayerV>::empty(), labels),
            p,
            s,
            registry,
            env.drawn,
            over_base(s.tracks),
        ) {
            Err(e) => Err(e),
            Ok(x) => match export_edl(
                p,
                sequence_id,
                registry,
                env.drawn,
                x.0.len() > 0,
                x.1,
            ) {
                Err(e) => Err(e),
                Ok(y) => match whole_graph(
                    p,
                    sequence_id,
                    s,
                    base,
                    settings,
                    env,
                    registry,
                    y.0,
                    x.0,
                    y.1,
                ) {
                    Err(e) => Err(e),
                    Ok(z) => Ok(
                        FfmpegV {
                            args: graph_args(
                                z.0,
                                settings,
                                sound::audio_of(p, sequence_id, env.denoised, env.windows).len() > 0,
                                output,
                            ),
                            duration_us: time::max_time(
                                edl::edl_length(y.0),
                                layers_end(x.0),
                            ),
                            subs_file: z.1,
                            temp_files: z.2,
                        },
                    ),
                },
            },
        }
    }
}

fn write_graph(
    project: &Project,
    sequence_id: Id,
    seq: &Sequence,
    base: &str,
    settings: &ExportSettings,
    env: &Surroundings,
    registry: &Vec<EffectDef>,
    list: &Vec<Segment>,
    layers: &Vec<Layer>,
    items: &Vec<AudioItem>,
    labels: Labels,
) -> (r: ExportResult<(Graph, Option<String>, Vec<String>)>)
    requires
        edl::drawable(seqs::views(registry@), seq@.tracks),
        list.len() > 0,
        seqs::views(items@) == sound::audio_of(project@, sequence_id, env@.denoised, env@.windows),
    ensures
        match whole_graph(
            project@,
            sequence_id,
            seq@,
            base@,
            settings@,
            env@,
            seqs::views(registry@),
            seqs::views(list@),
            seqs::views(layers@),
            labels,
        ) {
            Ok(x) => r is Ok && r->Ok_0.0@ == x.0 && model::opt_text(r->Ok_0.1) == x.1
                && text::texts(r->Ok_0.2@) == x.2,
            Err(e) => r is Err && r->Err_0@ == e,
        },
{
    reveal(whole_graph);
    let f: Frame = make_frame(seq, settings.max_height);
    let gif: bool = settings.format == ExportFormat::Gif;
    let mut g: Graph = Graph {
        inputs: Vec::new(),
        fc: Vec::new(),
        labels,
        current: copy_text(""),
        windows: env.windows,
    };
    proof {
        assert(seqs::views(g.inputs@) =~= Seq::<InputV>::empty());
        assert(text::texts(g.fc@) =~= Seq::<Seq<char>>::empty());
    }
    let length: TimeUs = edl_duration(list);
    let total: TimeUs = max2(length, find_layers_end(layers));
    add_picture(&mut g, project, base, &f, list);
    add_over(&mut g, project, base, &f, layers, length);
    let pen: Pen = Pen { registry, titles: &env.titles, fonts: &env.fonts, frame: &f };
    let none: Vec<(TimeUs, TimeUs)> = Vec::new();
    assert(none@ =~= Seq::<(TimeUs, TimeUs)>::empty());
    let (mut h, files): (Graph, Vec<String>) = match add_texts(g, &pen, project, seq, &none) {
        Ok(x) => x,
        Err(e) => {
            return Err(e);
        },
    };
    let script: Option<String> = match add_script(&mut h, &env.script) {
        Ok(x) => x,
        Err(e) => {
            return Err(e);
        },
    };
    if gif {
        h.push(
            copy_text(
                "[vout]fps=12,scale='min(480,iw)':-2:flags=lanczos,split[gifa][gifb];[gifa]palettegen=stats_mode=diff[pal];[gifb][pal]paletteuse=dither=bayer:bayer_scale=4[gifout]",
            ),
        );
    } else {
        add_sound(&mut h, project, base, items, total, settings.loudnorm);
    }
    Ok((h, script, files))
}

/// Whether the chains of all clips can be written that an export shows.
pub open spec fn exportable(p: ProjectV, sequence_id: Id, settings: SettingsV, env: SurroundV) -> bool {
    settings.format != ExportFormat::M4a ==> edl::flattens(
        p,
        sequence_id,
        render::merged(env.core, settings.extra_packs),
    )
}

fn is_exportable(project: &Project, sequence_id: Id, settings: &ExportSettings, env: &Surroundings) -> (b:
    bool)
    ensures
        b == exportable(project@, sequence_id, settings@, env@),
{
    if settings.format == ExportFormat::M4a {
        return true;
    }
    let registry: Vec<EffectDef> = merge_registries(
        duplicate_all(&env.core),
        duplicate_all(&settings.extra_packs),
    );
    can_flatten(project, sequence_id, &registry)
}

/// Plans the call of ffmpeg that exports a whole sequence.
fn plan_export(
    project: &Project,
    sequence_id: Id,
    base_dir: &str,
    output: &str,
    settings: &ExportSettings,
    env: &Surroundings,
    labels: Labels,
) -> (r: ExportResult<FfmpegPlan>)
    requires
        exportable(project@, sequence_id, settings@, env@),
    ensures
        export::planned_as(
            r,
            export_spec(
                project@,
                sequence_id,
                base_dir@,
                output@,
                settings@,
                env@,
                labels,
            ),
        ),
{
    let seq: &Sequence = match project.sequence(sequence_id) {
        Some(s) => s,
        None => {
            return Err(ExportError::NoSequence(sequence_id));
        },
    };
    if settings.format == ExportFormat::M4a {
        return build_audio_only_args(
            project,
            sequence_id,
            base_dir,
            output,
            &settings.whole(),
            &env.denoised,
            env.windows,
        );
    }
    let registry: Vec<EffectDef> = merge_registries(
        duplicate_all(&env.core),
        duplicate_all(&settings.extra_packs),
    );
    let mut marks: Labels = labels;
    let base: usize = find_base(seq);
    let layers: Vec<Layer> = match find_layers(
        &mut marks,
        project,
        seq,
        base,
        &registry,
        &env.drawn,
    ) {
        Ok(l) => l,
        Err(e) => {
            return Err(e);
        },
    };
    assert(seqs::views(layers@).len() == layers.len());
    let list: Vec<Segment> = match make_edl(
        project,
        sequence_id,
        seq,
        base,
        &registry,
        &env.drawn,
        layers.len() > 0,
        &mut marks,
    ) {
        Ok(l) => l,
        Err(e) => {
            return Err(e);
        },
    };
    assert(seqs::views(list@).len() == list.len());
    let items: Vec<AudioItem> = collect_audio(project, sequence_id, &env.denoised, env.windows);
    assert(seqs::views(items@).len() == items.len());
    let (g, subs_file, temp_files): (Graph, Option<String>, Vec<String>) = match write_graph(
        project,
        sequence_id,
        seq,
        base_dir,
        settings,
        env,
        &registry,
        &list,
        &layers,
        &items,
        marks,
    ) {
        Ok(x) => x,
        Err(e) => {
            return Err(e);
        },
    };
    let args: Vec<String> = write_args(&g, settings, items.len() > 0, output);
    let duration_us: TimeUs = max2(edl_duration(&list), find_layers_end(&layers));
    Ok(FfmpegPlan { args, duration_us, subs_file, temp_files })
}

/// The call that exports a sequence: all of it, or the ranges of the settings one
/// behind the other.
pub open spec fn ranged_spec(
    p: ProjectV,
    sequence_id: Id,
    base: Seq<char>,
    output: Seq<char>,
    settings: SettingsV,
    env: SurroundV,
    labels: Labels,
) -> Result<FfmpegV, ExportErrV> {
    if settings.pieces().len() == 0 {
        export_spec(p, sequence_id, base, output, settings, env, labels)
    } else {
        export_spec(
            pieces::restricted(p, sequence_id, settings.pieces()),
            sequence_id,
            base,
            output,
            settings.whole(),
            env,
            labels,
        )
    }
}

/// Whether the chains of all clips can be written that an export shows: of all of
/// a sequence, or of the ranges of the settings.
pub open spec fn range_exportable(
    p: ProjectV,
    sequence_id: Id,
    settings: SettingsV,
    env: SurroundV,
) -> bool {
    if settings.pieces().len() == 0 {
        exportable(p, sequence_id, settings, env)
    } else {
        exportable(
            pieces::restricted(p, sequence_id, settings.pieces()),
            sequence_id,
            settings.whole(),
            env,
        )
    }
}

/// Tells whether an export can be planned: a value can be made of every parameter
/// of the effects that it shows.
pub fn can_export(project: &Project, sequence_id: Id, settings: &ExportSettings, env: &Surroundings) -> (b:
    bool)
    ensures
        b == range_exportable(project@, sequence_id, settings@, env@),
{
    let list: Vec<(TimeUs, TimeUs)> = settings.pieces();
    if list.len() == 0 {
        return is_exportable(project, sequence_id, settings, env);
    }
    let cut: Project = restrict_to_ranges(project, sequence_id, &list);
    is_exportable(&cut, sequence_id, &settings.whole(), env)
}

/// Plans the call of ffmpeg that exports a sequence. The project is first cut
/// down to the ranges of the settings, where there are some, so that nothing is
/// rendered only to be thrown away; what comes from outside is made for the
/// project that `restrict_to_ranges` gives.
pub fn build_ffmpeg_args(
    project: &Project,
    sequence_id: Id,
    base_dir: &str,
    output: &str,
    settings: &ExportSettings,
    env: &Surroundings,
    labels: Labels,
) -> (r: ExportResult<FfmpegPlan>)
    requires
        range_exportable(project@, sequence_id, settings@, env@),
    ensures
        export::planned_as(
            r,
            ranged_spec(
                project@,
                sequence_id,
                base_dir@,
                output@,
                settings@,
                env@,
                labels,
            ),
        ),
{
    let list: Vec<(TimeUs, TimeUs)> = settings.pieces();
    if list.len() == 0 {
        return plan_export(project, sequence_id, base_dir, output, settings, env, labels);
    }
    let cut: Project = restrict_to_ranges(project, sequence_id, &list);
    plan_export(&cut, sequence_id, base_dir, output, &settings.whole(), env, labels)
}

/// One range in the list is exported as the range alone is.
pub proof fn law_one_range_is_the_range(
    p: ProjectV,
    sequence_id: Id,
    base: Seq<char>,
    output: Seq<char>,
    settings: SettingsV,
    env: SurroundV,
    labels: Labels,
    range: (TimeUs, TimeUs),
)
    ensures
        ranged_spec(
            p,
            sequence_id,
            base,
            output,
            SettingsV { ranges: seq![range], ..settings },
            env,
            labels,
        ) == ranged_spec(
            p,
            sequence_id,
            base,
            output,
            SettingsV { range: Some(range), ranges: Seq::empty(), ..settings },
            env,
            labels,
        ),
{
    let a = SettingsV { ranges: seq![range], ..settings };
    let b = SettingsV { range: Some(range), ranges: Seq::empty(), ..settings };
    assert(a.pieces() =~= b.pieces());
    assert(a.whole() =~= b.whole());
}

} // verus!
