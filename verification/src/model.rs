//! The data model of a project.
//!
//! Times are in microseconds; speeds, gains and sizes are real numbers. Each
//! type that holds lists has a mathematical view, and copies keep the view.

use vstd::prelude::*;

use crate::error::{UeError, UeResult};
use crate::float::Real;
use crate::ident::Id;
use crate::keyframe::{Param, ParamV};
use crate::seqs;
use crate::seqs::{duplicate_all, duplicate_text, find, Duplicate, Ident, Keyed};
use crate::strmap;
use crate::strmap::StrMap;
use crate::text::copy_text;
use crate::time;
use crate::time::{plus, TimeUs};

verus! {

/// The newest project file version that is understood.
pub const SCHEMA_VERSION: u32 = 1;

/// An optional text by its characters.
pub open spec fn opt_text(o: Option<String>) -> Option<Seq<char>> {
    match o {
        Some(s) => Some(s@),
        None => None,
    }
}

/// Settings that belong to a project.
#[derive(Debug, PartialEq)]
pub struct ProjectSettings {
    pub whisper_language: String,
    pub whisper_model: String,
    pub autosave_secs: u32,
}

impl View for ProjectSettings {
    type V = ProjectSettings;

    open spec fn view(&self) -> ProjectSettings {
        *self
    }
}

impl Duplicate for ProjectSettings {
    fn duplicate(&self) -> (r: ProjectSettings) {
        ProjectSettings {
            whisper_language: self.whisper_language.clone(),
            whisper_model: self.whisper_model.clone(),
            autosave_secs: self.autosave_secs,
        }
    }
}

impl Clone for ProjectSettings {
    fn clone(&self) -> (r: ProjectSettings)
        ensures
            r == *self,
    {
        self.duplicate()
    }
}

/// The settings of a new project.
pub open spec fn is_default_settings(s: ProjectSettings) -> bool {
    s.whisper_language@ == "auto"@ && s.whisper_model@ == "base"@ && s.autosave_secs == 60
}

impl Default for ProjectSettings {
    fn default() -> (r: ProjectSettings)
        ensures
            is_default_settings(r),
    {
        ProjectSettings {
            whisper_language: copy_text("auto"),
            whisper_model: copy_text("base"),
            autosave_secs: 60,
        }
    }
}

/// The kind of a media file.
#[derive(Clone, Copy, PartialEq, Eq, Structural, Debug)]
pub enum MediaKind {
    Video,
    Audio,
    Image,
}

/// What is known of a media file.
#[derive(Debug, PartialEq)]
pub struct ProbeInfo {
    pub duration_us: TimeUs,
    pub fps: Option<(u32, u32)>,
    pub width: u32,
    pub height: u32,
    pub rotation: i32,
    pub vcodec: Option<String>,
    pub acodec: Option<String>,
    pub audio_channels: u32,
    pub vfr: bool,
}

impl View for ProbeInfo {
    type V = ProbeInfo;

    open spec fn view(&self) -> ProbeInfo {
        *self
    }
}

impl Duplicate for ProbeInfo {
    fn duplicate(&self) -> (r: ProbeInfo) {
        ProbeInfo {
            duration_us: self.duration_us,
            fps: self.fps,
            width: self.width,
            height: self.height,
            rotation: self.rotation,
            vcodec: duplicate_text(&self.vcodec),
            acodec: duplicate_text(&self.acodec),
            audio_channels: self.audio_channels,
            vfr: self.vfr,
        }
    }
}

impl Clone for ProbeInfo {
    fn clone(&self) -> (r: ProbeInfo)
        ensures
            r == *self,
    {
        self.duplicate()
    }
}

/// A media file of the project.
#[derive(Debug, PartialEq)]
pub struct MediaAsset {
    pub id: Id,
    pub kind: MediaKind,
    /// Relative to the project file, or absolute until it is saved.
    pub path: String,
    pub content_hash: String,
    pub probe: ProbeInfo,
    pub proxy: Option<String>,
    pub audio_conform: Option<String>,
    pub peaks: Option<String>,
    pub thumbnails: Option<String>,
    pub transcript: Option<Id>,
    pub offline: bool,
}

impl View for MediaAsset {
    type V = MediaAsset;

    open spec fn view(&self) -> MediaAsset {
        *self
    }
}

impl Duplicate for MediaAsset {
    fn duplicate(&self) -> (r: MediaAsset) {
        MediaAsset {
            id: self.id,
            kind: self.kind,
            path: self.path.clone(),
            content_hash: self.content_hash.clone(),
            probe: self.probe.duplicate(),
            proxy: duplicate_text(&self.proxy),
            audio_conform: duplicate_text(&self.audio_conform),
            peaks: duplicate_text(&self.peaks),
            thumbnails: duplicate_text(&self.thumbnails),
            transcript: self.transcript,
            offline: self.offline,
        }
    }
}

impl Clone for MediaAsset {
    fn clone(&self) -> (r: MediaAsset)
        ensures
            r == *self,
    {
        self.duplicate()
    }
}

impl Ident for MediaAsset {
    open spec fn ident(self) -> Id {
        self.id
    }
}

impl Keyed for MediaAsset {
    fn key(&self) -> (id: Id) {
        self.id
    }
}

/// A named time of a sequence.
#[derive(Debug, PartialEq)]
pub struct Marker {
    pub id: Id,
    pub t: TimeUs,
    pub name: String,
    pub color: Option<String>,
}

impl View for Marker {
    type V = Marker;

    open spec fn view(&self) -> Marker {
        *self
    }
}

impl Duplicate for Marker {
    fn duplicate(&self) -> (r: Marker) {
        Marker {
            id: self.id,
            t: self.t,
            name: self.name.clone(),
            color: duplicate_text(&self.color),
        }
    }
}

impl Clone for Marker {
    fn clone(&self) -> (r: Marker)
        ensures
            r == *self,
    {
        self.duplicate()
    }
}

/// The kind of a track.
#[derive(Clone, Copy, PartialEq, Eq, Structural, Debug)]
pub enum TrackKind {
    Video,
    Audio,
}

/// How subtitles show their words.
#[derive(Clone, Copy, PartialEq, Eq, Structural, Debug)]
pub enum SubtitleMode {
    Phrase,
    Word,
    Karaoke,
}

/// Where a line of text stands.
#[derive(Clone, Copy, PartialEq, Eq, Structural, Debug)]
pub enum TextAlign {
    Left,
    Center,
    Right,
}

impl Default for TextAlign {
    fn default() -> (r: TextAlign)
        ensures
            r == TextAlign::Center,
    {
        TextAlign::Center
    }
}

/// How text is drawn.
#[derive(Debug, PartialEq)]
pub struct TextStyle {
    pub font: String,
    pub size: Real,
    pub color: String,
    pub bg: Option<String>,
    pub stroke_color: Option<String>,
    pub stroke_width: Real,
    pub highlight_color: Option<String>,
    pub x_offset: Real,
    pub y_offset: Real,
    pub align: TextAlign,
    /// The distance of two lines, as a multiple of the size.
    pub line_height: Real,
}

impl View for TextStyle {
    type V = TextStyle;

    open spec fn view(&self) -> TextStyle {
        *self
    }
}

impl Duplicate for TextStyle {
    fn duplicate(&self) -> (r: TextStyle) {
        TextStyle {
            font: self.font.clone(),
            size: self.size,
            color: self.color.clone(),
            bg: duplicate_text(&self.bg),
            stroke_color: duplicate_text(&self.stroke_color),
            stroke_width: self.stroke_width,
            highlight_color: duplicate_text(&self.highlight_color),
            x_offset: self.x_offset,
            y_offset: self.y_offset,
            align: self.align,
            line_height: self.line_height,
        }
    }
}

impl Clone for TextStyle {
    fn clone(&self) -> (r: TextStyle)
        ensures
            r == *self,
    {
        self.duplicate()
    }
}

/// The style of new text.
pub open spec fn is_default_style(s: TextStyle) -> bool {
    &&& s.font@ == "sans-serif"@
    &&& s.size == Real::of(60)
    &&& s.color@ == "#ffffff"@
    &&& s.bg is None
    &&& s.stroke_color is None
    &&& s.stroke_width == Real::of(0)
    &&& s.highlight_color is None
    &&& s.x_offset == Real::of(0)
    &&& s.y_offset == Real::of(0)
    &&& s.align == TextAlign::Center
    &&& s.line_height == (Real { bits: LINE_HEIGHT_BITS })
}

/// The bit pattern of 1.2 in single precision: the usual line height.
pub const LINE_HEIGHT_BITS: u64 = 0x3FF3_3333_4000_0000;

impl Default for TextStyle {
    fn default() -> (r: TextStyle)
        ensures
            is_default_style(r),
    {
        TextStyle {
            font: copy_text("sans-serif"),
            size: Real::from_int(60),
            color: copy_text("#ffffff"),
            bg: None,
            stroke_color: None,
            stroke_width: Real::from_int(0),
            highlight_color: None,
            x_offset: Real::from_int(0),
            y_offset: Real::from_int(0),
            align: TextAlign::Center,
            line_height: Real { bits: LINE_HEIGHT_BITS },
        }
    }
}

/// Where and how a picture is placed in the frame.
#[derive(Debug, PartialEq)]
pub struct Transform2D {
    pub position: (Param, Param),
    pub scale: (Param, Param),
    /// In degrees.
    pub rotation: Param,
    /// Left, top, right and bottom, as fractions from 0 to 1.
    pub crop: (Param, Param, Param, Param),
    pub opacity: Param,
    pub flip_h: bool,
    pub flip_v: bool,
}

/// The contents of a `Transform2D`.
#[verifier::ext_equal]
pub struct TransformV {
    pub position: (ParamV, ParamV),
    pub scale: (ParamV, ParamV),
    pub rotation: ParamV,
    pub crop: (ParamV, ParamV, ParamV, ParamV),
    pub opacity: ParamV,
    pub flip_h: bool,
    pub flip_v: bool,
}

impl View for Transform2D {
    type V = TransformV;

    open spec fn view(&self) -> TransformV {
        TransformV {
            position: (self.position.0@, self.position.1@),
            scale: (self.scale.0@, self.scale.1@),
            rotation: self.rotation@,
            crop: (self.crop.0@, self.crop.1@, self.crop.2@, self.crop.3@),
            opacity: self.opacity@,
            flip_h: self.flip_h,
            flip_v: self.flip_v,
        }
    }
}

impl Duplicate for Transform2D {
    fn duplicate(&self) -> (r: Transform2D) {
        Transform2D {
            position: (self.position.0.duplicate(), self.position.1.duplicate()),
            scale: (self.scale.0.duplicate(), self.scale.1.duplicate()),
            rotation: self.rotation.duplicate(),
            crop: (
                self.crop.0.duplicate(),
                self.crop.1.duplicate(),
                self.crop.2.duplicate(),
                self.crop.3.duplicate(),
            ),
            opacity: self.opacity.duplicate(),
            flip_h: self.flip_h,
            flip_v: self.flip_v,
        }
    }
}

impl Clone for Transform2D {
    fn clone(&self) -> (r: Transform2D)
        ensures
            r@ == self@,
    {
        self.duplicate()
    }
}

impl TransformV {
    /// As it is at first.
    pub open spec fn plain() -> TransformV {
        let zero = ParamV::Const(Real::of(0));
        let one = ParamV::Const(Real::of(1));
        TransformV {
            position: (zero, zero),
            scale: (one, one),
            rotation: zero,
            crop: (zero, zero, zero, zero),
            opacity: one,
            flip_h: false,
            flip_v: false,
        }
    }

    /// Whether all curves are in order.
    pub open spec fn tidy(self) -> bool {
        &&& self.position.0.tidy()
        &&& self.position.1.tidy()
        &&& self.scale.0.tidy()
        &&& self.scale.1.tidy()
        &&& self.rotation.tidy()
        &&& self.crop.0.tidy()
        &&& self.crop.1.tidy()
        &&& self.crop.2.tidy()
        &&& self.crop.3.tidy()
        &&& self.opacity.tidy()
    }

    /// Each parameter changed in the same way.
    pub open spec fn map_params(self, f: spec_fn(ParamV) -> ParamV) -> TransformV {
        TransformV {
            position: (f(self.position.0), f(self.position.1)),
            scale: (f(self.scale.0), f(self.scale.1)),
            rotation: f(self.rotation),
            crop: (f(self.crop.0), f(self.crop.1), f(self.crop.2), f(self.crop.3)),
            opacity: f(self.opacity),
            flip_h: self.flip_h,
            flip_v: self.flip_v,
        }
    }

    /// The same with all curves in order.
    pub open spec fn sanitized(self) -> TransformV {
        self.map_params(|p: ParamV| p.sanitized())
    }

    /// As it is at one time.
    pub open spec fn sampled(self, t: TimeUs) -> TransformV {
        self.map_params(|p: ParamV| ParamV::Const(p.at(t)))
    }

    /// What is before a cut.
    pub open spec fn split_left(self, offset: TimeUs) -> TransformV {
        self.map_params(|p: ParamV| p.split_left(offset))
    }

    /// What is behind a cut, in its own time.
    pub open spec fn split_right(self, offset: TimeUs) -> TransformV {
        self.map_params(|p: ParamV| p.split_right(offset))
    }
}

fn zero_param() -> (p: Param)
    ensures
        p@ == ParamV::Const(Real::of(0)),
{
    Param::Const(Real::from_int(0))
}

fn one_param() -> (p: Param)
    ensures
        p@ == ParamV::Const(Real::of(1)),
{
    Param::Const(Real::from_int(1))
}

impl Default for Transform2D {
    fn default() -> (r: Transform2D)
        ensures
            r@ == TransformV::plain(),
    {
        Transform2D {
            position: (zero_param(), zero_param()),
            scale: (one_param(), one_param()),
            rotation: zero_param(),
            crop: (zero_param(), zero_param(), zero_param(), zero_param()),
            opacity: one_param(),
            flip_h: false,
            flip_v: false,
        }
    }
}

impl Transform2D {
    /// The transform with the keys of its curves in order of time.
    pub fn sanitized(&self) -> (r: Transform2D)
        ensures
            r@ == self@.sanitized(),
    {
        Transform2D {
            position: (self.position.0.sanitized(), self.position.1.sanitized()),
            scale: (self.scale.0.sanitized(), self.scale.1.sanitized()),
            rotation: self.rotation.sanitized(),
            crop: (
                self.crop.0.sanitized(),
                self.crop.1.sanitized(),
                self.crop.2.sanitized(),
                self.crop.3.sanitized(),
            ),
            opacity: self.opacity.sanitized(),
            flip_h: self.flip_h,
            flip_v: self.flip_v,
        }
    }

    /// The transform as it is at one time, with no animation left.
    pub fn sampled(&self, t: TimeUs) -> (r: Transform2D)
        ensures
            r@ == self@.sampled(t),
    {
        Transform2D {
            position: (Param::Const(self.position.0.eval(t)), Param::Const(self.position.1.eval(t))),
            scale: (Param::Const(self.scale.0.eval(t)), Param::Const(self.scale.1.eval(t))),
            rotation: Param::Const(self.rotation.eval(t)),
            crop: (
                Param::Const(self.crop.0.eval(t)),
                Param::Const(self.crop.1.eval(t)),
                Param::Const(self.crop.2.eval(t)),
                Param::Const(self.crop.3.eval(t)),
            ),
            opacity: Param::Const(self.opacity.eval(t)),
            flip_h: self.flip_h,
            flip_v: self.flip_v,
        }
    }
}

/// The sound of a clip.
#[derive(Debug, PartialEq)]
pub struct AudioProps {
    pub gain_db: Param,
    pub pan: Param,
    pub fade_in_us: TimeUs,
    pub fade_out_us: TimeUs,
    pub muted: bool,
    pub denoise: bool,
}

/// The contents of a `AudioProps`.
#[verifier::ext_equal]
pub struct AudioV {
    pub gain_db: ParamV,
    pub pan: ParamV,
    pub fade_in_us: TimeUs,
    pub fade_out_us: TimeUs,
    pub muted: bool,
    pub denoise: bool,
}

impl View for AudioProps {
    type V = AudioV;

    open spec fn view(&self) -> AudioV {
        AudioV {
            gain_db: self.gain_db@,
            pan: self.pan@,
            fade_in_us: self.fade_in_us,
            fade_out_us: self.fade_out_us,
            muted: self.muted,
            denoise: self.denoise,
        }
    }
}

impl Duplicate for AudioProps {
    fn duplicate(&self) -> (r: AudioProps) {
        AudioProps {
            gain_db: self.gain_db.duplicate(),
            pan: self.pan.duplicate(),
            fade_in_us: self.fade_in_us,
            fade_out_us: self.fade_out_us,
            muted: self.muted,
            denoise: self.denoise,
        }
    }
}

impl Clone for AudioProps {
    fn clone(&self) -> (r: AudioProps)
        ensures
            r@ == self@,
    {
        self.duplicate()
    }
}

impl AudioV {
    /// As it is at first.
    pub open spec fn plain() -> AudioV {
        AudioV {
            gain_db: ParamV::Const(Real::of(0)),
            pan: ParamV::Const(Real::of(0)),
            fade_in_us: 0,
            fade_out_us: 0,
            muted: false,
            denoise: false,
        }
    }

    /// Whether all curves are in order.
    pub open spec fn tidy(self) -> bool {
        self.gain_db.tidy() && self.pan.tidy()
    }

    /// The same with all curves in order.
    pub open spec fn sanitized(self) -> AudioV {
        AudioV { gain_db: self.gain_db.sanitized(), pan: self.pan.sanitized(), ..self }
    }
}

impl Default for AudioProps {
    fn default() -> (r: AudioProps)
        ensures
            r@ == AudioV::plain(),
    {
        AudioProps {
            gain_db: zero_param(),
            pan: zero_param(),
            fade_in_us: 0,
            fade_out_us: 0,
            muted: false,
            denoise: false,
        }
    }
}

impl AudioProps {
    /// The sound with the keys of its curves in order of time.
    pub fn sanitized(&self) -> (r: AudioProps)
        ensures
            r@ == self@.sanitized(),
    {
        AudioProps {
            gain_db: self.gain_db.sanitized(),
            pan: self.pan.sanitized(),
            fade_in_us: self.fade_in_us,
            fade_out_us: self.fade_out_us,
            muted: self.muted,
            denoise: self.denoise,
        }
    }
}

/// An effect put on a clip.
#[derive(Debug, PartialEq)]
pub struct EffectInstance {
    pub effect_id: String,
    pub enabled: bool,
    pub params: StrMap<Param>,
    /// Colours as "#rrggbb", apart from the numbers and curves.
    pub color_params: StrMap<String>,
}

/// The contents of a `EffectInstance`.
#[verifier::ext_equal]
pub struct EffectV {
    pub effect_id: Seq<char>,
    pub enabled: bool,
    pub params: Seq<(Seq<char>, ParamV)>,
    pub color_params: Seq<(Seq<char>, Seq<char>)>,
}

impl View for EffectInstance {
    type V = EffectV;

    open spec fn view(&self) -> EffectV {
        EffectV {
            effect_id: self.effect_id@,
            enabled: self.enabled,
            params: self.params@,
            color_params: self.color_params@,
        }
    }
}

impl Duplicate for EffectInstance {
    fn duplicate(&self) -> (r: EffectInstance) {
        EffectInstance {
            effect_id: self.effect_id.clone(),
            enabled: self.enabled,
            params: self.params.duplicate(),
            color_params: self.color_params.duplicate(),
        }
    }
}

impl Clone for EffectInstance {
    fn clone(&self) -> (r: EffectInstance)
        ensures
            r@ == self@,
    {
        self.duplicate()
    }
}

impl EffectV {
    /// The same with all curves in order.
    pub open spec fn sanitized(self) -> EffectV {
        EffectV { params: strmap::sanitized_params(self.params), ..self }
    }
}

/// A transition at an edge of a clip.
#[derive(Debug, PartialEq)]
pub struct TransitionRef {
    pub effect_id: String,
    pub duration: TimeUs,
    pub params: StrMap<Param>,
}

/// The contents of a `TransitionRef`.
#[verifier::ext_equal]
pub struct TransitionV {
    pub effect_id: Seq<char>,
    pub duration: TimeUs,
    pub params: Seq<(Seq<char>, ParamV)>,
}

impl View for TransitionRef {
    type V = TransitionV;

    open spec fn view(&self) -> TransitionV {
        TransitionV {
            effect_id: self.effect_id@,
            duration: self.duration,
            params: self.params@,
        }
    }
}

impl Duplicate for TransitionRef {
    fn duplicate(&self) -> (r: TransitionRef) {
        TransitionRef {
            effect_id: self.effect_id.clone(),
            duration: self.duration,
            params: self.params.duplicate(),
        }
    }
}

impl Clone for TransitionRef {
    fn clone(&self) -> (r: TransitionRef)
        ensures
            r@ == self@,
    {
        self.duplicate()
    }
}

/// What a clip shows.
#[derive(Debug, PartialEq)]
pub enum ClipPayload {
    /// A range of a media file.
    Media { asset_id: Id, src_in: TimeUs, src_out: TimeUs },
    Text { content: String, style: TextStyle },
    Subtitles {
        transcript_id: Id,
        style: TextStyle,
        mode: SubtitleMode,
        /// Words per caption; none fits captions to the frame width.
        max_words: Option<u32>,
    },
    Solid { color: (Real, Real, Real, Real) },
    Generator { generator_id: String, params: StrMap<Param>, color_params: StrMap<String> },
    /// Looping pictures chosen by the emotion of the transcript of an asset.
    Avatar {
        driver_asset: Id,
        /// Emotion and path of its picture; the first is the usual one.
        avatars: StrMap<String>,
        shake_factor: Real,
        /// The size relative to the width of the sequence.
        scale: Real,
    },
}

/// The contents of a `ClipPayload`.
#[verifier::ext_equal]
pub enum PayloadV {
    Media { asset_id: Id, src_in: TimeUs, src_out: TimeUs },
    Text { content: Seq<char>, style: TextStyle },
    Subtitles {
        transcript_id: Id,
        style: TextStyle,
        mode: SubtitleMode,
        max_words: Option<u32>,
    },
    Solid { color: (Real, Real, Real, Real) },
    Generator {
        generator_id: Seq<char>,
        params: Seq<(Seq<char>, ParamV)>,
        color_params: Seq<(Seq<char>, Seq<char>)>,
    },
    Avatar {
        driver_asset: Id,
        avatars: Seq<(Seq<char>, Seq<char>)>,
        shake_factor: Real,
        scale: Real,
    },
}

impl View for ClipPayload {
    type V = PayloadV;

    open spec fn view(&self) -> PayloadV {
        match *self {
            ClipPayload::Media { asset_id, src_in, src_out } => PayloadV::Media {
                asset_id,
                src_in,
                src_out,
            },
            ClipPayload::Text { content, style } => PayloadV::Text { content: content@, style },
            ClipPayload::Subtitles { transcript_id, style, mode, max_words } => PayloadV::Subtitles {
                transcript_id,
                style,
                mode,
                max_words,
            },
            ClipPayload::Solid { color } => PayloadV::Solid { color },
            ClipPayload::Generator { generator_id, params, color_params } => PayloadV::Generator {
                generator_id: generator_id@,
                params: params@,
                color_params: color_params@,
            },
            ClipPayload::Avatar { driver_asset, avatars, shake_factor, scale } => PayloadV::Avatar {
                driver_asset,
                avatars: avatars@,
                shake_factor,
                scale,
            },
        }
    }
}

impl Duplicate for ClipPayload {
    fn duplicate(&self) -> (r: ClipPayload) {
        match self {
            ClipPayload::Media { asset_id, src_in, src_out } => ClipPayload::Media {
                asset_id: *asset_id,
                src_in: *src_in,
                src_out: *src_out,
            },
            ClipPayload::Text { content, style } => ClipPayload::Text {
                content: content.clone(),
                style: style.duplicate(),
            },
            ClipPayload::Subtitles { transcript_id, style, mode, max_words } => {
                ClipPayload::Subtitles {
                    transcript_id: *transcript_id,
                    style: style.duplicate(),
                    mode: *mode,
                    max_words: *max_words,
                }
            },
            ClipPayload::Solid { color } => ClipPayload::Solid { color: *color },
            ClipPayload::Generator { generator_id, params, color_params } => {
                ClipPayload::Generator {
                    generator_id: generator_id.clone(),
                    params: params.duplicate(),
                    color_params: color_params.duplicate(),
                }
            },
            ClipPayload::Avatar { driver_asset, avatars, shake_factor, scale } => {
                ClipPayload::Avatar {
                    driver_asset: *driver_asset,
                    avatars: avatars.duplicate(),
                    shake_factor: *shake_factor,
                    scale: *scale,
                }
            },
        }
    }
}

impl Clone for ClipPayload {
    fn clone(&self) -> (r: ClipPayload)
        ensures
            r@ == self@,
    {
        self.duplicate()
    }
}

/// A piece of a track.
#[derive(Debug, PartialEq)]
pub struct Clip {
    pub id: Id,
    pub payload: ClipPayload,
    pub start: TimeUs,
    pub duration: TimeUs,
    pub speed: Real,
    pub effects: Vec<EffectInstance>,
    pub transform: Transform2D,
    pub audio: AudioProps,
    pub transition_in: Option<TransitionRef>,
    pub transition_out: Option<TransitionRef>,
    pub label_color: Option<String>,
    /// Linked clips share a group: what is done to one is done to all.
    pub group: Option<Id>,
    /// A name for people; none derives one.
    pub name: Option<String>,
}

/// The contents of a `Clip`.
#[verifier::ext_equal]
pub struct ClipV {
    pub id: Id,
    pub payload: PayloadV,
    pub start: TimeUs,
    pub duration: TimeUs,
    pub speed: Real,
    pub effects: Seq<EffectV>,
    pub transform: TransformV,
    pub audio: AudioV,
    pub transition_in: Option<TransitionV>,
    pub transition_out: Option<TransitionV>,
    pub label_color: Option<Seq<char>>,
    pub group: Option<Id>,
    pub name: Option<Seq<char>>,
}

impl View for Clip {
    type V = ClipV;

    open spec fn view(&self) -> ClipV {
        ClipV {
            id: self.id,
            payload: self.payload@,
            start: self.start,
            duration: self.duration,
            speed: self.speed,
            effects: seqs::views(self.effects@),
            transform: self.transform@,
            audio: self.audio@,
            transition_in: match self.transition_in {
                Some(x) => Some(x@),
                None => None,
            },
            transition_out: match self.transition_out {
                Some(x) => Some(x@),
                None => None,
            },
            label_color: opt_text(self.label_color),
            group: self.group,
            name: opt_text(self.name),
        }
    }
}

impl Duplicate for Clip {
    fn duplicate(&self) -> (r: Clip) {
        Clip {
            id: self.id,
            payload: self.payload.duplicate(),
            start: self.start,
            duration: self.duration,
            speed: self.speed,
            effects: duplicate_all(&self.effects),
            transform: self.transform.duplicate(),
            audio: self.audio.duplicate(),
            transition_in: match &self.transition_in {
                Some(x) => Some(x.duplicate()),
                None => None,
            },
            transition_out: match &self.transition_out {
                Some(x) => Some(x.duplicate()),
                None => None,
            },
            label_color: duplicate_text(&self.label_color),
            group: self.group,
            name: duplicate_text(&self.name),
        }
    }
}

impl Clone for Clip {
    fn clone(&self) -> (r: Clip)
        ensures
            r@ == self@,
    {
        self.duplicate()
    }
}

impl Ident for ClipV {
    open spec fn ident(self) -> Id {
        self.id
    }
}

impl Keyed for Clip {
    fn key(&self) -> (id: Id) {
        self.id
    }
}

/// A track of a sequence.
#[derive(Debug, PartialEq)]
pub struct Track {
    pub id: Id,
    pub kind: TrackKind,
    pub name: String,
    pub muted: bool,
    pub solo: bool,
    pub locked: bool,
    pub volume_db: Real,
    /// In order of start, and no two at once.
    pub clips: Vec<Clip>,
}

/// The contents of a `Track`.
#[verifier::ext_equal]
pub struct TrackV {
    pub id: Id,
    pub kind: TrackKind,
    pub name: Seq<char>,
    pub muted: bool,
    pub solo: bool,
    pub locked: bool,
    pub volume_db: Real,
    pub clips: Seq<ClipV>,
}

impl View for Track {
    type V = TrackV;

    open spec fn view(&self) -> TrackV {
        TrackV {
            id: self.id,
            kind: self.kind,
            name: self.name@,
            muted: self.muted,
            solo: self.solo,
            locked: self.locked,
            volume_db: self.volume_db,
            clips: seqs::views(self.clips@),
        }
    }
}

impl Duplicate for Track {
    fn duplicate(&self) -> (r: Track) {
        Track {
            id: self.id,
            kind: self.kind,
            name: self.name.clone(),
            muted: self.muted,
            solo: self.solo,
            locked: self.locked,
            volume_db: self.volume_db,
            clips: duplicate_all(&self.clips),
        }
    }
}

impl Clone for Track {
    fn clone(&self) -> (r: Track)
        ensures
            r@ == self@,
    {
        self.duplicate()
    }
}

impl Ident for TrackV {
    open spec fn ident(self) -> Id {
        self.id
    }
}

impl Keyed for Track {
    fn key(&self) -> (id: Id) {
        self.id
    }
}

/// A timeline.
#[derive(Debug, PartialEq)]
pub struct Sequence {
    pub id: Id,
    pub name: String,
    pub resolution: (u32, u32),
    pub fps: (u32, u32),
    pub sample_rate: u32,
    pub tracks: Vec<Track>,
    pub markers: Vec<Marker>,
}

/// The contents of a `Sequence`.
#[verifier::ext_equal]
pub struct SequenceV {
    pub id: Id,
    pub name: Seq<char>,
    pub resolution: (u32, u32),
    pub fps: (u32, u32),
    pub sample_rate: u32,
    pub tracks: Seq<TrackV>,
    pub markers: Seq<Marker>,
}

impl View for Sequence {
    type V = SequenceV;

    open spec fn view(&self) -> SequenceV {
        SequenceV {
            id: self.id,
            name: self.name@,
            resolution: self.resolution,
            fps: self.fps,
            sample_rate: self.sample_rate,
            tracks: seqs::views(self.tracks@),
            markers: seqs::views(self.markers@),
        }
    }
}

impl Duplicate for Sequence {
    fn duplicate(&self) -> (r: Sequence) {
        Sequence {
            id: self.id,
            name: self.name.clone(),
            resolution: self.resolution,
            fps: self.fps,
            sample_rate: self.sample_rate,
            tracks: duplicate_all(&self.tracks),
            markers: duplicate_all(&self.markers),
        }
    }
}

impl Clone for Sequence {
    fn clone(&self) -> (r: Sequence)
        ensures
            r@ == self@,
    {
        self.duplicate()
    }
}

impl Ident for SequenceV {
    open spec fn ident(self) -> Id {
        self.id
    }
}

impl Keyed for Sequence {
    fn key(&self) -> (id: Id) {
        self.id
    }
}

/// A spoken word.
#[derive(Debug, PartialEq)]
pub struct Word {
    pub text: String,
    pub start_us: TimeUs,
    pub end_us: TimeUs,
    pub confidence: Real,
    pub rejected: bool,
    /// A correction of the text; none shows the text itself.
    pub display: Option<String>,
}

/// The contents of a `Word`.
#[verifier::ext_equal]
pub struct WordV {
    pub text: Seq<char>,
    pub start_us: TimeUs,
    pub end_us: TimeUs,
    pub confidence: Real,
    pub rejected: bool,
    pub display: Option<Seq<char>>,
}

impl View for Word {
    type V = WordV;

    open spec fn view(&self) -> WordV {
        WordV {
            text: self.text@,
            start_us: self.start_us,
            end_us: self.end_us,
            confidence: self.confidence,
            rejected: self.rejected,
            display: opt_text(self.display),
        }
    }
}

impl Duplicate for Word {
    fn duplicate(&self) -> (r: Word) {
        Word {
            text: self.text.clone(),
            start_us: self.start_us,
            end_us: self.end_us,
            confidence: self.confidence,
            rejected: self.rejected,
            display: duplicate_text(&self.display),
        }
    }
}

impl Clone for Word {
    fn clone(&self) -> (r: Word)
        ensures
            r@ == self@,
    {
        self.duplicate()
    }
}

/// A spoken phrase.
#[derive(Debug, PartialEq)]
pub struct Segment {
    pub text: String,
    pub start_us: TimeUs,
    pub end_us: TimeUs,
    /// The words of the phrase, from the first up to the second index.
    pub word_range: (usize, usize),
    pub emotion: Option<String>,
    pub volume_rms: Real,
}

/// The contents of a `Segment`.
#[verifier::ext_equal]
pub struct SegmentV {
    pub text: Seq<char>,
    pub start_us: TimeUs,
    pub end_us: TimeUs,
    pub word_range: (usize, usize),
    pub emotion: Option<Seq<char>>,
    pub volume_rms: Real,
}

impl View for Segment {
    type V = SegmentV;

    open spec fn view(&self) -> SegmentV {
        SegmentV {
            text: self.text@,
            start_us: self.start_us,
            end_us: self.end_us,
            word_range: self.word_range,
            emotion: opt_text(self.emotion),
            volume_rms: self.volume_rms,
        }
    }
}

impl Duplicate for Segment {
    fn duplicate(&self) -> (r: Segment) {
        Segment {
            text: self.text.clone(),
            start_us: self.start_us,
            end_us: self.end_us,
            word_range: self.word_range,
            emotion: duplicate_text(&self.emotion),
            volume_rms: self.volume_rms,
        }
    }
}

impl Clone for Segment {
    fn clone(&self) -> (r: Segment)
        ensures
            r@ == self@,
    {
        self.duplicate()
    }
}

/// What is said in an asset, word by word.
#[derive(Debug, PartialEq)]
pub struct TranscriptDoc {
    pub id: Id,
    pub asset_id: Id,
    pub language: String,
    pub model: String,
    pub words: Vec<Word>,
    pub segments: Vec<Segment>,
    pub global_avg_volume: Real,
}

/// The contents of a `TranscriptDoc`.
#[verifier::ext_equal]
pub struct TranscriptV {
    pub id: Id,
    pub asset_id: Id,
    pub language: Seq<char>,
    pub model: Seq<char>,
    pub words: Seq<WordV>,
    pub segments: Seq<SegmentV>,
    pub global_avg_volume: Real,
}

impl View for TranscriptDoc {
    type V = TranscriptV;

    open spec fn view(&self) -> TranscriptV {
        TranscriptV {
            id: self.id,
            asset_id: self.asset_id,
            language: self.language@,
            model: self.model@,
            words: seqs::views(self.words@),
            segments: seqs::views(self.segments@),
            global_avg_volume: self.global_avg_volume,
        }
    }
}

impl Duplicate for TranscriptDoc {
    fn duplicate(&self) -> (r: TranscriptDoc) {
        TranscriptDoc {
            id: self.id,
            asset_id: self.asset_id,
            language: self.language.clone(),
            model: self.model.clone(),
            words: duplicate_all(&self.words),
            segments: duplicate_all(&self.segments),
            global_avg_volume: self.global_avg_volume,
        }
    }
}

impl Clone for TranscriptDoc {
    fn clone(&self) -> (r: TranscriptDoc)
        ensures
            r@ == self@,
    {
        self.duplicate()
    }
}

impl Ident for TranscriptV {
    open spec fn ident(self) -> Id {
        self.id
    }
}

impl Keyed for TranscriptDoc {
    fn key(&self) -> (id: Id) {
        self.id
    }
}

/// A picture for an emotion.
#[derive(Debug, PartialEq)]
pub struct AvatarExpression {
    pub name: String,
    pub path: String,
}

impl View for AvatarExpression {
    type V = AvatarExpression;

    open spec fn view(&self) -> AvatarExpression {
        *self
    }
}

impl Duplicate for AvatarExpression {
    fn duplicate(&self) -> (r: AvatarExpression) {
        AvatarExpression {
            name: self.name.clone(),
            path: self.path.clone(),
        }
    }
}

impl Clone for AvatarExpression {
    fn clone(&self) -> (r: AvatarExpression)
        ensures
            r == *self,
    {
        self.duplicate()
    }
}

/// A set of pictures for an avatar.
#[derive(Debug, PartialEq)]
pub struct AvatarConfig {
    pub id: Id,
    pub name: String,
    pub expressions: Vec<AvatarExpression>,
    pub shake_factor: Real,
    pub scale: Real,
}

/// The contents of a `AvatarConfig`.
#[verifier::ext_equal]
pub struct AvatarV {
    pub id: Id,
    pub name: Seq<char>,
    pub expressions: Seq<AvatarExpression>,
    pub shake_factor: Real,
    pub scale: Real,
}

impl View for AvatarConfig {
    type V = AvatarV;

    open spec fn view(&self) -> AvatarV {
        AvatarV {
            id: self.id,
            name: self.name@,
            expressions: seqs::views(self.expressions@),
            shake_factor: self.shake_factor,
            scale: self.scale,
        }
    }
}

impl Duplicate for AvatarConfig {
    fn duplicate(&self) -> (r: AvatarConfig) {
        AvatarConfig {
            id: self.id,
            name: self.name.clone(),
            expressions: duplicate_all(&self.expressions),
            shake_factor: self.shake_factor,
            scale: self.scale,
        }
    }
}

impl Clone for AvatarConfig {
    fn clone(&self) -> (r: AvatarConfig)
        ensures
            r@ == self@,
    {
        self.duplicate()
    }
}

impl Ident for AvatarV {
    open spec fn ident(self) -> Id {
        self.id
    }
}

impl Keyed for AvatarConfig {
    fn key(&self) -> (id: Id) {
        self.id
    }
}

/// A project.
#[derive(Debug, PartialEq)]
pub struct Project {
    pub schema_version: u32,
    pub id: Id,
    pub name: String,
    pub created_at: String,
    pub settings: ProjectSettings,
    pub assets: Vec<MediaAsset>,
    pub transcripts: Vec<TranscriptDoc>,
    pub sequences: Vec<Sequence>,
    pub active_sequence: Id,
    pub avatars: Vec<AvatarConfig>,
}

/// The contents of a `Project`.
#[verifier::ext_equal]
pub struct ProjectV {
    pub schema_version: u32,
    pub id: Id,
    pub name: Seq<char>,
    pub created_at: Seq<char>,
    pub settings: ProjectSettings,
    pub assets: Seq<MediaAsset>,
    pub transcripts: Seq<TranscriptV>,
    pub sequences: Seq<SequenceV>,
    pub active_sequence: Id,
    pub avatars: Seq<AvatarV>,
}

impl View for Project {
    type V = ProjectV;

    open spec fn view(&self) -> ProjectV {
        ProjectV {
            schema_version: self.schema_version,
            id: self.id,
            name: self.name@,
            created_at: self.created_at@,
            settings: self.settings@,
            assets: seqs::views(self.assets@),
            transcripts: seqs::views(self.transcripts@),
            sequences: seqs::views(self.sequences@),
            active_sequence: self.active_sequence,
            avatars: seqs::views(self.avatars@),
        }
    }
}

impl Duplicate for Project {
    fn duplicate(&self) -> (r: Project) {
        Project {
            schema_version: self.schema_version,
            id: self.id,
            name: self.name.clone(),
            created_at: self.created_at.clone(),
            settings: self.settings.duplicate(),
            assets: duplicate_all(&self.assets),
            transcripts: duplicate_all(&self.transcripts),
            sequences: duplicate_all(&self.sequences),
            active_sequence: self.active_sequence,
            avatars: duplicate_all(&self.avatars),
        }
    }
}

impl Clone for Project {
    fn clone(&self) -> (r: Project)
        ensures
            r@ == self@,
    {
        self.duplicate()
    }
}

impl WordV {
    /// The text to show: the correction where there is one.
    pub open spec fn label(self) -> Seq<char> {
        match self.display {
            Some(d) => d,
            None => self.text,
        }
    }
}

impl Word {
    /// The text to show: the correction where there is one.
    pub fn label(&self) -> (s: &str)
        ensures
            s@ == self@.label(),
    {
        match &self.display {
            Some(d) => d.as_str(),
            None => self.text.as_str(),
        }
    }
}

impl AvatarConfig {
    /// An avatar without pictures.
    pub fn new(name: &str) -> (a: AvatarConfig)
        ensures
            a.name@ == name@,
            a.expressions.len() == 0,
            a.shake_factor == Real::of(1),
            a.scale == Real::of(1),
    {
        AvatarConfig {
            id: Id::new(),
            name: copy_text(name),
            expressions: Vec::new(),
            shake_factor: Real::from_int(1),
            scale: Real::from_int(1),
        }
    }
}

impl ClipV {
    /// The end of the clip on the timeline.
    pub open spec fn finish(self) -> TimeUs {
        time::later(self.start, self.duration)
    }

    /// A clip as it is made: at normal speed and with nothing added.
    pub open spec fn fresh(id: Id, payload: PayloadV, start: TimeUs, duration: TimeUs) -> ClipV {
        ClipV {
            id,
            payload,
            start,
            duration,
            speed: Real::of(1),
            effects: Seq::<EffectV>::empty(),
            transform: TransformV::plain(),
            audio: AudioV::plain(),
            transition_in: None,
            transition_out: None,
            label_color: None,
            group: None,
            name: None,
        }
    }
}

impl Clip {
    fn plain(payload: ClipPayload, start: TimeUs, duration: TimeUs) -> (c: Clip)
        ensures
            c@ == ClipV::fresh(c.id, payload@, start, duration),
    {
        let c: Clip = Clip {
            id: Id::new(),
            payload,
            start,
            duration,
            speed: Real::from_int(1),
            effects: Vec::new(),
            transform: Transform2D::default(),
            audio: AudioProps::default(),
            transition_in: None,
            transition_out: None,
            label_color: None,
            group: None,
            name: None,
        };
        assert(c@.effects == Seq::<EffectV>::empty());
        c
    }

    /// A clip of a range of a media file, at normal speed.
    pub fn new_media(asset_id: Id, src_in: TimeUs, src_out: TimeUs, start: TimeUs) -> (c: Clip)
        ensures
            c@ == ClipV::fresh(
                c.id,
                (PayloadV::Media { asset_id, src_in, src_out }),
                start,
                crate::time::sooner(src_out, src_in),
            ),
    {
        Clip::plain(
            ClipPayload::Media { asset_id, src_in, src_out },
            start,
            crate::time::minus(src_out, src_in),
        )
    }

    /// A clip that shows a text in the usual style.
    pub fn new_text(content: &str, start: TimeUs, duration: TimeUs) -> (c: Clip)
        ensures
            c@.payload is Text,
            is_default_style(c@.payload->Text_style),
            c@.payload->content == content@,
            c@ == ClipV::fresh(c.id, c@.payload, start, duration),
    {
        Clip::plain(
            ClipPayload::Text { content: copy_text(content), style: TextStyle::default() },
            start,
            duration,
        )
    }

    /// The end of the clip on the timeline.
    pub fn end(&self) -> (t: TimeUs)
        ensures
            t == self@.finish(),
    {
        plus(self.start, self.duration)
    }
}

/// Whether two time ranges share an instant.
pub open spec fn overlap(c: ClipV, start: TimeUs, end: TimeUs) -> bool {
    c.start < end && start < c.finish()
}

/// The first clip that does not start before a time, or the count of clips.
pub open spec fn place(clips: Seq<ClipV>, start: TimeUs) -> nat
    decreases clips.len(),
{
    if clips.len() == 0 || clips[0].start >= start {
        0
    } else {
        1 + place(clips.drop_first(), start)
    }
}

/// What `place` finds: all clips before it start earlier, and the one there
/// does not.
pub broadcast proof fn lemma_place(clips: Seq<ClipV>, start: TimeUs)
    ensures
        #![trigger place(clips, start)]
        place(clips, start) <= clips.len(),
        forall|j: int| 0 <= j < place(clips, start) ==> (#[trigger] clips[j]).start < start,
        place(clips, start) < clips.len() ==> clips[place(clips, start) as int].start >= start,
    decreases clips.len(),
{
    if clips.len() > 0 && clips[0].start < start {
        let r = clips.drop_first();
        lemma_place(r, start);
        assert forall|j: int| 0 <= j < place(clips, start) implies (#[trigger] clips[j]).start
            < start by {
            if j > 0 {
                assert(clips[j] == r[j - 1]);
            }
        }
    }
}

/// The first index from which no clip starts earlier is what `place` finds.
pub proof fn lemma_place_at(clips: Seq<ClipV>, start: TimeUs, i: nat)
    requires
        i <= clips.len(),
        forall|j: int| 0 <= j < i ==> (#[trigger] clips[j]).start < start,
        i < clips.len() ==> clips[i as int].start >= start,
    ensures
        place(clips, start) == i,
{
    lemma_place(clips, start);
    let p = place(clips, start);
    if p < i {
        assert(clips[p as int].start < start);
    } else if i < p {
        assert(clips[i as int].start < start);
    }
}

impl TrackV {
    /// A track as it is made: audible, visible, unlocked and without clips.
    pub open spec fn fresh(id: Id, kind: TrackKind, name: Seq<char>) -> TrackV {
        TrackV {
            id,
            kind,
            name,
            muted: false,
            solo: false,
            locked: false,
            volume_db: Real::of(0),
            clips: Seq::<ClipV>::empty(),
        }
    }

    /// Whether some clip, other than the one left out, shares an instant with
    /// the range.
    pub open spec fn hit(self, start: TimeUs, duration: TimeUs, exclude: Option<Id>) -> bool {
        exists|i: int|
            0 <= i < self.clips.len() && Some((#[trigger] self.clips[i]).id) != exclude && overlap(
                self.clips[i],
                start,
                time::later(start, duration),
            )
    }
}

impl Track {
    /// An empty track.
    pub fn new(kind: TrackKind, name: &str) -> (t: Track)
        ensures
            t@ == TrackV::fresh(t.id, kind, name@),
    {
        let t: Track = Track {
            id: Id::new(),
            kind,
            name: copy_text(name),
            muted: false,
            solo: false,
            locked: false,
            volume_db: Real::from_int(0),
            clips: Vec::new(),
        };
        assert(t@.clips == Seq::<ClipV>::empty());
        t
    }

    /// The index of a clip.
    pub fn clip_index(&self, id: Id) -> (r: Option<usize>)
        ensures
            match r {
                Some(i) => i < self.clips.len() && i == seqs::pos(self@.clips, id),
                None => !seqs::holds(self@.clips, id),
            },
    {
        find(&self.clips, id)
    }

    /// Where a clip goes to keep the track in order of start.
    pub fn insertion_index(&self, start: TimeUs) -> (i: usize)
        ensures
            i == place(self@.clips, start),
            i <= self.clips.len(),
    {
        let mut i: usize = 0;
        while i < self.clips.len() && self.clips[i].start < start
            invariant
                i <= self.clips.len(),
                forall|j: int| 0 <= j < i ==> (#[trigger] self@.clips[j]).start < start,
            decreases self.clips.len() - i,
        {
            assert(self@.clips[i as int] == self.clips@[i as int]@);
            i = i + 1;
        }
        proof {
            if i < self.clips.len() {
                assert(self@.clips[i as int] == self.clips@[i as int]@);
            }
            lemma_place_at(self@.clips, start, i as nat);
        }
        i
    }

    /// Whether a clip at `start` would share an instant with another one than
    /// `exclude`.
    pub fn collides(&self, start: TimeUs, duration: TimeUs, exclude: Option<Id>) -> (r: bool)
        ensures
            r == self@.hit(start, duration, exclude),
    {
        let end: TimeUs = plus(start, duration);
        let mut i: usize = 0;
        while i < self.clips.len()
            invariant
                i <= self.clips.len(),
                end == time::later(start, duration),
                forall|j: int|
                    0 <= j < i ==> Some((#[trigger] self@.clips[j]).id) == exclude || !overlap(
                        self@.clips[j],
                        start,
                        end,
                    ),
            decreases self.clips.len() - i,
        {
            let c: &Clip = &self.clips[i];
            assert(self@.clips[i as int] == c@);
            let skipped: bool = match exclude {
                Some(x) => x == c.id,
                None => false,
            };
            if !skipped && c.start < end && start < c.end() {
                assert(Some(self@.clips[i as int].id) != exclude);
                return true;
            }
            i = i + 1;
        }
        false
    }
}

/// The end of the last clip of a track, no less than `least`.
pub open spec fn last_end(clips: Seq<ClipV>, least: Option<TimeUs>) -> Option<TimeUs>
    decreases clips.len(),
{
    if clips.len() == 0 {
        least
    } else {
        let e = clips[0].finish();
        let m = match least {
            Some(l) => if l < e {
                e
            } else {
                l
            },
            None => e,
        };
        last_end(clips.drop_first(), Some(m))
    }
}

/// The end of the last clip of all tracks, no less than `least`.
pub open spec fn last_end_of_tracks(tracks: Seq<TrackV>, least: Option<TimeUs>) -> Option<TimeUs>
    decreases tracks.len(),
{
    if tracks.len() == 0 {
        least
    } else {
        last_end_of_tracks(tracks.drop_first(), last_end(tracks[0].clips, least))
    }
}

impl SequenceV {
    /// How long the sequence is: up to the end of its last clip.
    pub open spec fn length(self) -> TimeUs {
        match last_end_of_tracks(self.tracks, None) {
            Some(t) => t,
            None => 0,
        }
    }
}

impl Sequence {
    /// A sequence with one audio and one video track.
    pub fn new(name: &str, resolution: (u32, u32), fps: (u32, u32)) -> (s: Sequence)
        ensures
            s.name@ == name@,
            s.resolution == resolution,
            s.fps == fps,
            s.sample_rate == 48000,
            s@.tracks == seq![
                TrackV::fresh(s@.tracks[0].id, TrackKind::Audio, "A1"@),
                TrackV::fresh(s@.tracks[1].id, TrackKind::Video, "V1"@),
            ],
            s@.markers == Seq::<Marker>::empty(),
    {
        let mut tracks: Vec<Track> = Vec::new();
        tracks.push(Track::new(TrackKind::Audio, "A1"));
        tracks.push(Track::new(TrackKind::Video, "V1"));
        let s: Sequence = Sequence {
            id: Id::new(),
            name: copy_text(name),
            resolution,
            fps,
            sample_rate: 48000,
            tracks,
            markers: Vec::new(),
        };
        assert(s@.tracks =~= seq![
            TrackV::fresh(s@.tracks[0].id, TrackKind::Audio, "A1"@),
            TrackV::fresh(s@.tracks[1].id, TrackKind::Video, "V1"@),
        ]);
        assert(s@.markers =~= Seq::<Marker>::empty());
        s
    }

    /// How long the sequence is: up to the end of its last clip.
    pub fn duration_us(&self) -> (d: TimeUs)
        ensures
            d == self@.length(),
    {
        let mut most: Option<TimeUs> = None;
        let mut i: usize = 0;
        assert(self@.tracks.skip(0) == self@.tracks);
        while i < self.tracks.len()
            invariant
                i <= self.tracks.len(),
                last_end_of_tracks(self@.tracks, None) == last_end_of_tracks(
                    self@.tracks.skip(i as int),
                    most,
                ),
            decreases self.tracks.len() - i,
        {
            let t: &Track = &self.tracks[i];
            let ghost before = most;
            let mut j: usize = 0;
            assert(t@.clips.skip(0) == t@.clips);
            while j < t.clips.len()
                invariant
                    j <= t.clips.len(),
                    last_end(t@.clips, before) == last_end(t@.clips.skip(j as int), most),
                decreases t.clips.len() - j,
            {
                let e: TimeUs = t.clips[j].end();
                proof {
                    assert(t@.clips.skip(j as int)[0] == t.clips@[j as int]@);
                    assert(t@.clips.skip(j as int).drop_first() == t@.clips.skip(j as int + 1));
                }
                most = match most {
                    Some(l) => if l < e {
                        Some(e)
                    } else {
                        Some(l)
                    },
                    None => Some(e),
                };
                j = j + 1;
            }
            proof {
                assert(t@.clips.skip(t@.clips.len() as int) == Seq::<ClipV>::empty());
                assert(self@.tracks.skip(i as int)[0] == t@);
                assert(self@.tracks.skip(i as int).drop_first() == self@.tracks.skip(i as int + 1));
            }
            i = i + 1;
        }
        assert(self@.tracks.skip(self@.tracks.len() as int) == Seq::<TrackV>::empty());
        match most {
            Some(t) => t,
            None => 0,
        }
    }
}

/// The first sequence that holds a track, or the count of sequences.
pub open spec fn seq_with_track(seqs: Seq<SequenceV>, id: Id) -> nat
    decreases seqs.len(),
{
    if seqs.len() == 0 || seqs::holds(seqs[0].tracks, id) {
        0
    } else {
        1 + seq_with_track(seqs.drop_first(), id)
    }
}

/// The first track that holds a clip, or the count of tracks.
pub open spec fn track_with_clip(tracks: Seq<TrackV>, id: Id) -> nat
    decreases tracks.len(),
{
    if tracks.len() == 0 || seqs::holds(tracks[0].clips, id) {
        0
    } else {
        1 + track_with_clip(tracks.drop_first(), id)
    }
}

/// The first sequence with a track that holds a clip, or the count of
/// sequences.
pub open spec fn seq_with_clip(seqs: Seq<SequenceV>, id: Id) -> nat
    decreases seqs.len(),
{
    if seqs.len() == 0 || track_with_clip(seqs[0].tracks, id) < seqs[0].tracks.len() {
        0
    } else {
        1 + seq_with_clip(seqs.drop_first(), id)
    }
}

pub broadcast proof fn lemma_seq_with_track(seqs: Seq<SequenceV>, id: Id)
    ensures
        #![trigger seq_with_track(seqs, id)]
        seq_with_track(seqs, id) <= seqs.len(),
        forall|j: int|
            0 <= j < seq_with_track(seqs, id) ==> !seqs::holds((#[trigger] seqs[j]).tracks, id),
        seq_with_track(seqs, id) < seqs.len() ==> seqs::holds(
            seqs[seq_with_track(seqs, id) as int].tracks,
            id,
        ),
    decreases seqs.len(),
{
    if seqs.len() > 0 && !seqs::holds(seqs[0].tracks, id) {
        let r = seqs.drop_first();
        lemma_seq_with_track(r, id);
        assert forall|j: int| 0 <= j < seq_with_track(seqs, id) implies !seqs::holds(
            (#[trigger] seqs[j]).tracks,
            id,
        ) by {
            if j > 0 {
                assert(seqs[j] == r[j - 1]);
            }
        }
    }
}

pub broadcast proof fn lemma_track_with_clip(tracks: Seq<TrackV>, id: Id)
    ensures
        #![trigger track_with_clip(tracks, id)]
        track_with_clip(tracks, id) <= tracks.len(),
        forall|j: int|
            0 <= j < track_with_clip(tracks, id) ==> !seqs::holds((#[trigger] tracks[j]).clips, id),
        track_with_clip(tracks, id) < tracks.len() ==> seqs::holds(
            tracks[track_with_clip(tracks, id) as int].clips,
            id,
        ),
    decreases tracks.len(),
{
    if tracks.len() > 0 && !seqs::holds(tracks[0].clips, id) {
        let r = tracks.drop_first();
        lemma_track_with_clip(r, id);
        assert forall|j: int| 0 <= j < track_with_clip(tracks, id) implies !seqs::holds(
            (#[trigger] tracks[j]).clips,
            id,
        ) by {
            if j > 0 {
                assert(tracks[j] == r[j - 1]);
            }
        }
    }
}

pub broadcast proof fn lemma_seq_with_clip(seqs: Seq<SequenceV>, id: Id)
    ensures
        #![trigger seq_with_clip(seqs, id)]
        seq_with_clip(seqs, id) <= seqs.len(),
        forall|j: int|
            0 <= j < seq_with_clip(seqs, id) ==> track_with_clip((#[trigger] seqs[j]).tracks, id)
                >= seqs[j].tracks.len(),
        seq_with_clip(seqs, id) < seqs.len() ==> track_with_clip(
            seqs[seq_with_clip(seqs, id) as int].tracks,
            id,
        ) < seqs[seq_with_clip(seqs, id) as int].tracks.len(),
    decreases seqs.len(),
{
    if seqs.len() > 0 && track_with_clip(seqs[0].tracks, id) >= seqs[0].tracks.len() {
        let r = seqs.drop_first();
        lemma_seq_with_clip(r, id);
        assert forall|j: int| 0 <= j < seq_with_clip(seqs, id) implies track_with_clip(
            (#[trigger] seqs[j]).tracks,
            id,
        ) >= seqs[j].tracks.len() by {
            if j > 0 {
                assert(seqs[j] == r[j - 1]);
            }
        }
    }
}

/// The indices of a track: its sequence and its place there.
pub open spec fn track_place(p: ProjectV, id: Id) -> Option<(int, int)> {
    let si = seq_with_track(p.sequences, id) as int;
    if si < p.sequences.len() {
        Some((si, seqs::pos(p.sequences[si].tracks, id) as int))
    } else {
        None
    }
}

/// The indices of a clip: its sequence, its track and its place there.
pub open spec fn clip_place(p: ProjectV, id: Id) -> Option<(int, int, int)> {
    let si = seq_with_clip(p.sequences, id) as int;
    if si < p.sequences.len() {
        let ti = track_with_clip(p.sequences[si].tracks, id) as int;
        Some((si, ti, seqs::pos(p.sequences[si].tracks[ti].clips, id) as int))
    } else {
        None
    }
}

/// The clip at the given indices.
pub open spec fn clip_at(p: ProjectV, at: (int, int, int)) -> ClipV {
    p.sequences[at.0].tracks[at.1].clips[at.2]
}

/// The track at the given indices.
pub open spec fn track_at(p: ProjectV, at: (int, int)) -> TrackV {
    p.sequences[at.0].tracks[at.1]
}

/// The asset with an identifier.
pub open spec fn asset_of(p: ProjectV, id: Id) -> Option<MediaAsset> {
    if seqs::holds(p.assets, id) {
        Some(p.assets[seqs::pos(p.assets, id) as int])
    } else {
        None
    }
}

/// The project with another track in a place.
pub open spec fn with_track(p: ProjectV, at: (int, int), t: TrackV) -> ProjectV {
    let s = p.sequences[at.0];
    ProjectV {
        sequences: p.sequences.update(
            at.0,
            SequenceV { tracks: s.tracks.update(at.1, t), ..s },
        ),
        ..p
    }
}

/// The project with other clips on a track.
pub open spec fn with_clips(p: ProjectV, at: (int, int), clips: Seq<ClipV>) -> ProjectV {
    with_track(p, at, TrackV { clips, ..track_at(p, at) })
}

/// The project with another clip in a place.
pub open spec fn with_clip(p: ProjectV, at: (int, int, int), c: ClipV) -> ProjectV {
    with_clips(p, (at.0, at.1), track_at(p, (at.0, at.1)).clips.update(at.2, c))
}

impl Project {
    /// A new project with a sequence of 1920 by 1080 at 30 frames per second,
    /// with an audio and a video track.
    pub fn new(name: &str) -> (p: Project)
        ensures
            p.schema_version == SCHEMA_VERSION,
            p.name@ == name@,
            p.created_at@ == Seq::<char>::empty(),
            is_default_settings(p.settings),
            p@.assets == Seq::<MediaAsset>::empty(),
            p@.transcripts == Seq::<TranscriptV>::empty(),
            p@.avatars == Seq::<AvatarV>::empty(),
            p@.sequences.len() == 1,
            p.active_sequence == p@.sequences[0].id,
            p@.sequences[0].name == "Principal"@,
            p@.sequences[0].resolution == (1920u32, 1080u32),
            p@.sequences[0].fps == (30u32, 1u32),
            p@.sequences[0].sample_rate == 48000,
            p@.sequences[0].markers == Seq::<Marker>::empty(),
            p@.sequences[0].tracks == seq![
                TrackV::fresh(p@.sequences[0].tracks[0].id, TrackKind::Audio, "A1"@),
                TrackV::fresh(p@.sequences[0].tracks[1].id, TrackKind::Video, "V1"@),
            ],
    {
        let seq: Sequence = Sequence::new("Principal", (1920, 1080), (30, 1));
        let active: Id = seq.id;
        let mut sequences: Vec<Sequence> = Vec::new();
        sequences.push(seq);
        let p: Project = Project {
            schema_version: SCHEMA_VERSION,
            id: Id::new(),
            name: copy_text(name),
            created_at: String::new(),
            settings: ProjectSettings::default(),
            assets: Vec::new(),
            transcripts: Vec::new(),
            sequences,
            active_sequence: active,
            avatars: Vec::new(),
        };
        assert(p@.assets =~= Seq::<MediaAsset>::empty());
        assert(p@.transcripts =~= Seq::<TranscriptV>::empty());
        assert(p@.avatars =~= Seq::<AvatarV>::empty());
        assert(p@.sequences[0] == p.sequences@[0]@);
        p
    }

    /// The sequence with an identifier.
    pub fn sequence(&self, id: Id) -> (r: Option<&Sequence>)
        ensures
            match r {
                Some(s) => seqs::holds(self@.sequences, id) && s@ == self@.sequences[seqs::pos(
                    self@.sequences,
                    id,
                ) as int],
                None => !seqs::holds(self@.sequences, id),
            },
    {
        match find(&self.sequences, id) {
            Some(i) => Some(&self.sequences[i]),
            None => None,
        }
    }

    /// The sequence with an identifier, to be changed.
    pub fn sequence_mut(&mut self, id: Id) -> (r: Option<&mut Sequence>)
        ensures
            match r {
                Some(s) => {
                    &&& seqs::holds(old(self)@.sequences, id)
                    &&& s@ == old(self)@.sequences[seqs::pos(old(self)@.sequences, id) as int]
                    &&& final(self)@ == (ProjectV {
                        sequences: old(self)@.sequences.update(
                            seqs::pos(old(self)@.sequences, id) as int,
                            final(s)@,
                        ),
                        ..old(self)@
                    })
                },
                None => !seqs::holds(old(self)@.sequences, id) && *final(self) == *old(self),
            },
    {
        match find(&self.sequences, id) {
            Some(i) => {
                let s: &mut Sequence = &mut self.sequences[i];
                assert(seqs::views(old(self).sequences@.update(i as int, *final(s)))
                    =~= seqs::views(old(self).sequences@).update(i as int, final(s)@));
                Some(s)
            },
            None => None,
        }
    }

    /// The asset with an identifier.
    pub fn asset(&self, id: Id) -> (r: Option<&MediaAsset>)
        ensures
            match r {
                Some(a) => asset_of(self@, id) == Some(*a),
                None => asset_of(self@, id) is None,
            },
    {
        match find(&self.assets, id) {
            Some(i) => Some(&self.assets[i]),
            None => None,
        }
    }

    /// The indices of the sequence, the track and the clip.
    pub fn locate_clip(&self, id: Id) -> (r: Option<(usize, usize, usize)>)
        ensures
            match r {
                Some(at) => {
                    &&& clip_place(self@, id) == Some((at.0 as int, at.1 as int, at.2 as int))
                    &&& at.0 < self.sequences.len()
                    &&& at.1 < self.sequences@[at.0 as int].tracks.len()
                    &&& at.2 < self.sequences@[at.0 as int].tracks@[at.1 as int].clips.len()
                    &&& clip_at(self@, (at.0 as int, at.1 as int, at.2 as int)).id == id
                },
                None => clip_place(self@, id) is None,
            },
    {
        broadcast use {seqs::lemma_pos, lemma_track_with_clip, lemma_seq_with_clip};

        let mut si: usize = 0;
        while si < self.sequences.len()
            invariant
                si <= self.sequences.len(),
                forall|j: int|
                    0 <= j < si ==> track_with_clip((#[trigger] self@.sequences[j]).tracks, id)
                        >= self@.sequences[j].tracks.len(),
            decreases self.sequences.len() - si,
        {
            let s: &Sequence = &self.sequences[si];
            assert(self@.sequences[si as int] == s@);
            let mut ti: usize = 0;
            while ti < s.tracks.len()
                invariant
                    ti <= s.tracks.len(),
                    si < self.sequences.len(),
                    *s == self.sequences@[si as int],
                    self@.sequences[si as int] == s@,
                    forall|j: int|
                        0 <= j < si ==> track_with_clip((#[trigger] self@.sequences[j]).tracks, id)
                            >= self@.sequences[j].tracks.len(),
                    forall|j: int| 0 <= j < ti ==> !seqs::holds((#[trigger] s@.tracks[j]).clips, id),
                decreases s.tracks.len() - ti,
            {
                assert(s@.tracks[ti as int] == s.tracks@[ti as int]@);
                if let Some(ci) = s.tracks[ti].clip_index(id) {
                    proof {
                        lemma_track_found(s@.tracks, id, ti as nat);
                        lemma_seq_found(self@.sequences, id, si as nat);
                        let t = self@.sequences[si as int].tracks[ti as int];
                        assert(t == s.tracks@[ti as int]@);
                        seqs::lemma_pos(t.clips, id);
                        assert(t.clips[ci as int].ident() == id);
                    }
                    return Some((si, ti, ci));
                }
                ti = ti + 1;
            }
            proof {
                lemma_track_found(s@.tracks, id, ti as nat);
            }
            si = si + 1;
        }
        proof {
            lemma_seq_found(self@.sequences, id, si as nat);
        }
        None
    }

    /// The clip with an identifier.
    pub fn clip(&self, id: Id) -> (r: Option<&Clip>)
        ensures
            match r {
                Some(c) => clip_place(self@, id) is Some && c@ == clip_at(
                    self@,
                    clip_place(self@, id)->0,
                ),
                None => clip_place(self@, id) is None,
            },
    {
        match self.locate_clip(id) {
            Some((si, ti, ci)) => Some(&self.sequences[si].tracks[ti].clips[ci]),
            None => None,
        }
    }

    /// The indices of the sequence and the track.
    pub fn locate_track(&self, id: Id) -> (r: Option<(usize, usize)>)
        ensures
            match r {
                Some(at) => {
                    &&& track_place(self@, id) == Some((at.0 as int, at.1 as int))
                    &&& at.0 < self.sequences.len()
                    &&& at.1 < self.sequences@[at.0 as int].tracks.len()
                    &&& track_at(self@, (at.0 as int, at.1 as int)).id == id
                },
                None => track_place(self@, id) is None,
            },
    {
        broadcast use {seqs::lemma_pos, lemma_seq_with_track};

        let mut si: usize = 0;
        while si < self.sequences.len()
            invariant
                si <= self.sequences.len(),
                forall|j: int| 0 <= j < si ==> !seqs::holds((#[trigger] self@.sequences[j]).tracks, id),
            decreases self.sequences.len() - si,
        {
            assert(self@.sequences[si as int] == self.sequences@[si as int]@);
            if let Some(ti) = find(&self.sequences[si].tracks, id) {
                proof {
                    lemma_seq_of_track_found(self@.sequences, id, si as nat);
                    let ts = self@.sequences[si as int].tracks;
                    seqs::lemma_pos(ts, id);
                    assert(ts[ti as int].ident() == id);
                }
                return Some((si, ti));
            }
            si = si + 1;
        }
        proof {
            lemma_seq_of_track_found(self@.sequences, id, si as nat);
        }
        None
    }

    /// The track with an identifier.
    pub fn track(&self, id: Id) -> (r: Option<&Track>)
        ensures
            match r {
                Some(t) => track_place(self@, id) is Some && t@ == track_at(
                    self@,
                    track_place(self@, id)->0,
                ),
                None => track_place(self@, id) is None,
            },
    {
        match self.locate_track(id) {
            Some((si, ti)) => Some(&self.sequences[si].tracks[ti]),
            None => None,
        }
    }

    /// The track with an identifier, to be changed.
    pub fn track_mut(&mut self, id: Id) -> (r: Option<&mut Track>)
        ensures
            match r {
                Some(t) => {
                    &&& track_place(old(self)@, id) is Some
                    &&& t@ == track_at(old(self)@, track_place(old(self)@, id)->0)
                    &&& final(self)@ == with_track(
                        old(self)@,
                        track_place(old(self)@, id)->0,
                        final(t)@,
                    )
                },
                None => track_place(old(self)@, id) is None && *final(self) == *old(self),
            },
    {
        match self.locate_track(id) {
            Some((si, ti)) => {
                let ghost before = *self;
                let t: &mut Track = &mut self.sequences[si].tracks[ti];
                proof {
                    lemma_project_with_track(before, si as int, ti as int, *final(t));
                }
                Some(t)
            },
            None => None,
        }
    }

    /// The sequence that holds a track.
    pub fn sequence_of_track(&self, track_id: Id) -> (r: Option<&Sequence>)
        ensures
            match r {
                Some(s) => track_place(self@, track_id) is Some && s@ == self@.sequences[(
                track_place(self@, track_id)->0).0],
                None => track_place(self@, track_id) is None,
            },
    {
        match self.locate_track(track_id) {
            Some((si, ti)) => Some(&self.sequences[si]),
            None => None,
        }
    }
}

/// The view of a project in which one track was changed in place.
pub proof fn lemma_project_with_track(p: Project, si: int, ti: int, t: Track)
    requires
        0 <= si < p.sequences.len(),
        0 <= ti < p.sequences@[si].tracks.len(),
    ensures
        forall|q: Project|
            {
                &&& q.schema_version == p.schema_version
                &&& q.id == p.id
                &&& q.name == p.name
                &&& q.created_at == p.created_at
                &&& q.settings == p.settings
                &&& q.assets == p.assets
                &&& q.transcripts == p.transcripts
                &&& q.active_sequence == p.active_sequence
                &&& q.avatars == p.avatars
                &&& q.sequences@ == p.sequences@.update(si, #[trigger] q.sequences@[si])
                &&& q.sequences@[si].id == p.sequences@[si].id
                &&& q.sequences@[si].name == p.sequences@[si].name
                &&& q.sequences@[si].resolution == p.sequences@[si].resolution
                &&& q.sequences@[si].fps == p.sequences@[si].fps
                &&& q.sequences@[si].sample_rate == p.sequences@[si].sample_rate
                &&& q.sequences@[si].markers == p.sequences@[si].markers
                &&& q.sequences@[si].tracks@ == p.sequences@[si].tracks@.update(ti, t)
            } ==> q@ == with_track(p@, (si, ti), t@),
{
    assert forall|q: Project|
        {
            &&& q.schema_version == p.schema_version
            &&& q.id == p.id
            &&& q.name == p.name
            &&& q.created_at == p.created_at
            &&& q.settings == p.settings
            &&& q.assets == p.assets
            &&& q.transcripts == p.transcripts
            &&& q.active_sequence == p.active_sequence
            &&& q.avatars == p.avatars
            &&& q.sequences@ == p.sequences@.update(si, #[trigger] q.sequences@[si])
            &&& q.sequences@[si].id == p.sequences@[si].id
            &&& q.sequences@[si].name == p.sequences@[si].name
            &&& q.sequences@[si].resolution == p.sequences@[si].resolution
            &&& q.sequences@[si].fps == p.sequences@[si].fps
            &&& q.sequences@[si].sample_rate == p.sequences@[si].sample_rate
            &&& q.sequences@[si].markers == p.sequences@[si].markers
            &&& q.sequences@[si].tracks@ == p.sequences@[si].tracks@.update(ti, t)
        } implies q@ == with_track(p@, (si, ti), t@) by {
        assert(seqs::views(q.sequences@[si].tracks@) =~= seqs::views(p.sequences@[si].tracks@).update(ti, t@));
        assert(seqs::views(q.sequences@) =~= seqs::views(p.sequences@).update(si, q.sequences@[si]@));
    }
}

proof fn lemma_track_found(tracks: Seq<TrackV>, id: Id, i: nat)
    requires
        i <= tracks.len(),
        forall|j: int| 0 <= j < i ==> !seqs::holds((#[trigger] tracks[j]).clips, id),
        i < tracks.len() ==> seqs::holds(tracks[i as int].clips, id),
    ensures
        track_with_clip(tracks, id) == i,
{
    lemma_track_with_clip(tracks, id);
    let p = track_with_clip(tracks, id);
    if p < i {
        assert(!seqs::holds(tracks[p as int].clips, id));
    } else if i < p {
        assert(!seqs::holds(tracks[i as int].clips, id));
    }
}

proof fn lemma_seq_found(seqs: Seq<SequenceV>, id: Id, i: nat)
    requires
        i <= seqs.len(),
        forall|j: int|
            0 <= j < i ==> track_with_clip((#[trigger] seqs[j]).tracks, id)
                >= seqs[j].tracks.len(),
        i < seqs.len() ==> track_with_clip(seqs[i as int].tracks, id) < seqs[i as int].tracks.len(),
    ensures
        seq_with_clip(seqs, id) == i,
{
    lemma_seq_with_clip(seqs, id);
    let p = seq_with_clip(seqs, id);
    if p < i {
        assert(track_with_clip(seqs[p as int].tracks, id) >= seqs[p as int].tracks.len());
    } else if i < p {
        assert(track_with_clip(seqs[i as int].tracks, id) >= seqs[i as int].tracks.len());
    }
}

proof fn lemma_seq_of_track_found(seqs: Seq<SequenceV>, id: Id, i: nat)
    requires
        i <= seqs.len(),
        forall|j: int| 0 <= j < i ==> !seqs::holds((#[trigger] seqs[j]).tracks, id),
        i < seqs.len() ==> seqs::holds(seqs[i as int].tracks, id),
    ensures
        seq_with_track(seqs, id) == i,
{
    lemma_seq_with_track(seqs, id);
    let p = seq_with_track(seqs, id);
    if p < i {
        assert(!seqs::holds(seqs[p as int].tracks, id));
    } else if i < p {
        assert(!seqs::holds(seqs[i as int].tracks, id));
    }
}

/// Whether a project file of a version can be read: none newer than
/// `SCHEMA_VERSION` can.
pub fn check_schema(version: u32) -> (r: UeResult<()>)
    ensures
        match r {
            Ok(u) => version <= SCHEMA_VERSION,
            Err(e) => version > SCHEMA_VERSION && e@ == crate::error::ErrV::SchemaVersion(
                version,
                SCHEMA_VERSION,
            ),
        },
{
    if version > SCHEMA_VERSION {
        Err(UeError::SchemaVersion(version, SCHEMA_VERSION))
    } else {
        Ok(())
    }
}

} // verus!
