//! Settings, errors and results of an export.

use vstd::prelude::*;

use crate::ident::Id;
use crate::render::{EffectDef, EffectDefV};
use crate::seqs;
use crate::seqs::duplicate_all;
use crate::text;
use crate::text::copy_text;
use crate::time::TimeUs;

verus! {

/// Why an export failed.
#[derive(Debug)]
pub enum ExportError {
    NoSequence(Id),
    EmptyTimeline,
    MissingAsset(Id),
    Spawn(String),
    Ffmpeg(String),
    Cancelled,
}

/// What an export comes to.
pub type ExportResult<T> = Result<T, ExportError>;

/// The contents of an `ExportError`.
pub enum ExportErrV {
    NoSequence(Id),
    EmptyTimeline,
    MissingAsset(Id),
    Spawn(Seq<char>),
    Ffmpeg(Seq<char>),
    Cancelled,
}

impl View for ExportError {
    type V = ExportErrV;

    open spec fn view(&self) -> ExportErrV {
        match self {
            ExportError::NoSequence(id) => ExportErrV::NoSequence(*id),
            ExportError::EmptyTimeline => ExportErrV::EmptyTimeline,
            ExportError::MissingAsset(id) => ExportErrV::MissingAsset(*id),
            ExportError::Spawn(s) => ExportErrV::Spawn(s@),
            ExportError::Ffmpeg(s) => ExportErrV::Ffmpeg(s@),
            ExportError::Cancelled => ExportErrV::Cancelled,
        }
    }
}

impl ExportErrV {
    /// The error in words.
    pub open spec fn message(self) -> Seq<char> {
        match self {
            ExportErrV::NoSequence(id) => "sequence "@ + id.text() + " does not exist"@,
            ExportErrV::EmptyTimeline => "nothing to export (empty timeline)"@,
            ExportErrV::MissingAsset(id) => "asset "@ + id.text() + " does not exist in the pool"@,
            ExportErrV::Spawn(s) => "could not run ffmpeg: "@ + s,
            ExportErrV::Ffmpeg(s) => "ffmpeg failed:\n"@ + s,
            ExportErrV::Cancelled => "export cancelled"@,
        }
    }
}

impl ExportError {
    /// The error in words.
    pub fn to_text(&self) -> (r: String)
        ensures
            r@ == self@.message(),
    {
        match self {
            ExportError::NoSequence(id) => {
                let name: String = id.to_text();
                let mut r: String = copy_text("sequence ");
                r.append(name.as_str());
                r.append(" does not exist");
                r
            },
            ExportError::EmptyTimeline => copy_text("nothing to export (empty timeline)"),
            ExportError::MissingAsset(id) => {
                let name: String = id.to_text();
                let mut r: String = copy_text("asset ");
                r.append(name.as_str());
                r.append(" does not exist in the pool");
                r
            },
            ExportError::Spawn(s) => {
                let mut r: String = copy_text("could not run ffmpeg: ");
                r.append(s.as_str());
                r
            },
            ExportError::Ffmpeg(s) => {
                let mut r: String = copy_text("ffmpeg failed:\n");
                r.append(s.as_str());
                r
            },
            ExportError::Cancelled => copy_text("export cancelled"),
        }
    }
}

/// What an export writes.
#[derive(Clone, Copy, PartialEq, Eq, Structural, Debug)]
pub enum ExportFormat {
    Mp4,
    /// Sound alone.
    M4a,
    /// A moving picture without sound.
    Gif,
}

impl Default for ExportFormat {
    fn default() -> (f: ExportFormat)
        ensures
            f == ExportFormat::Mp4,
    {
        ExportFormat::Mp4
    }
}

/// How an export is made.
#[derive(Debug)]
pub struct ExportSettings {
    pub format: ExportFormat,
    /// The highest output; none keeps that of the sequence.
    pub max_height: Option<u32>,
    pub crf: u8,
    pub preset: String,
    pub audio_bitrate_k: u32,
    /// Loudness normalisation of the whole.
    pub loudnorm: bool,
    /// Only this range of the timeline.
    pub range: Option<(TimeUs, TimeUs)>,
    /// Several ranges one after the other; they go before `range`.
    pub ranges: Vec<(TimeUs, TimeUs)>,
    /// Effects of the user over the core ones.
    pub extra_packs: Vec<EffectDef>,
}

/// The contents of `ExportSettings`.
#[verifier::ext_equal]
pub struct SettingsV {
    pub format: ExportFormat,
    pub max_height: Option<u32>,
    pub crf: u8,
    pub preset: Seq<char>,
    pub audio_bitrate_k: u32,
    pub loudnorm: bool,
    pub range: Option<(TimeUs, TimeUs)>,
    pub ranges: Seq<(TimeUs, TimeUs)>,
    pub extra_packs: Seq<EffectDefV>,
}

impl View for ExportSettings {
    type V = SettingsV;

    open spec fn view(&self) -> SettingsV {
        SettingsV {
            format: self.format,
            max_height: self.max_height,
            crf: self.crf,
            preset: self.preset@,
            audio_bitrate_k: self.audio_bitrate_k,
            loudnorm: self.loudnorm,
            range: self.range,
            ranges: self.ranges@,
            extra_packs: seqs::views(self.extra_packs@),
        }
    }
}

impl Default for ExportSettings {
    fn default() -> (s: ExportSettings)
        ensures
            s@ == (SettingsV {
                format: ExportFormat::Mp4,
                max_height: None,
                crf: 18,
                preset: "veryfast"@,
                audio_bitrate_k: 256,
                loudnorm: false,
                range: None,
                ranges: Seq::<(TimeUs, TimeUs)>::empty(),
                extra_packs: Seq::<EffectDefV>::empty(),
            }),
    {
        let s: ExportSettings = ExportSettings {
            format: ExportFormat::Mp4,
            max_height: None,
            crf: 18,
            preset: copy_text("veryfast"),
            audio_bitrate_k: 256,
            loudnorm: false,
            range: None,
            ranges: Vec::new(),
            extra_packs: Vec::new(),
        };
        assert(seqs::views(s.extra_packs@) =~= Seq::<EffectDefV>::empty());
        s
    }
}

impl SettingsV {
    /// The ranges of the timeline to export; none for all of it.
    pub open spec fn pieces(self) -> Seq<(TimeUs, TimeUs)> {
        if self.ranges.len() > 0 {
            self.ranges
        } else {
            match self.range {
                Some(r) => seq![r],
                None => Seq::<(TimeUs, TimeUs)>::empty(),
            }
        }
    }

    /// The settings for a timeline that is already cut down to the ranges.
    pub open spec fn whole(self) -> SettingsV {
        SettingsV { range: None, ranges: Seq::<(TimeUs, TimeUs)>::empty(), ..self }
    }
}

impl ExportSettings {
    /// The settings for a timeline that is already cut down to the ranges.
    pub fn whole(&self) -> (s: ExportSettings)
        ensures
            s@ == self@.whole(),
    {
        ExportSettings {
            format: self.format,
            max_height: self.max_height,
            crf: self.crf,
            preset: self.preset.clone(),
            audio_bitrate_k: self.audio_bitrate_k,
            loudnorm: self.loudnorm,
            range: None,
            ranges: Vec::new(),
            extra_packs: duplicate_all(&self.extra_packs),
        }
    }

    /// The ranges of the timeline to export; none for all of it.
    pub fn pieces(&self) -> (r: Vec<(TimeUs, TimeUs)>)
        ensures
            r@ == self@.pieces(),
    {
        let mut r: Vec<(TimeUs, TimeUs)> = Vec::new();
        if self.ranges.len() > 0 {
            let mut i: usize = 0;
            while i < self.ranges.len()
                invariant
                    i <= self.ranges.len(),
                    r@ == self.ranges@.take(i as int),
                decreases self.ranges.len() - i,
            {
                r.push(self.ranges[i]);
                assert(r@ =~= self.ranges@.take(i as int + 1));
                i = i + 1;
            }
            assert(r@ =~= self.ranges@);
            return r;
        }
        if let Some(x) = self.range {
            r.push(x);
        }
        assert(r@ =~= self@.pieces());
        r
    }
}

/// A call of ffmpeg.
#[derive(Debug)]
pub struct FfmpegPlan {
    pub args: Vec<String>,
    pub duration_us: TimeUs,
    /// The subtitle script of this run, to be deleted behind it.
    pub subs_file: Option<String>,
    /// Pictures of titles of this run, to be deleted behind it.
    pub temp_files: Vec<String>,
}

/// The contents of an `FfmpegPlan`.
#[verifier::ext_equal]
pub struct FfmpegV {
    pub args: Seq<Seq<char>>,
    pub duration_us: TimeUs,
    pub subs_file: Option<Seq<char>>,
    pub temp_files: Seq<Seq<char>>,
}

impl View for FfmpegPlan {
    type V = FfmpegV;

    open spec fn view(&self) -> FfmpegV {
        FfmpegV {
            args: text::texts(self.args@),
            duration_us: self.duration_us,
            subs_file: crate::model::opt_text(self.subs_file),
            temp_files: text::texts(self.temp_files@),
        }
    }
}

/// Whether a plan came out as it should.
pub open spec fn planned_as(r: ExportResult<FfmpegPlan>, s: Result<FfmpegV, ExportErrV>) -> bool {
    match s {
        Ok(x) => r is Ok && r->Ok_0@ == x,
        Err(e) => r is Err && r->Err_0@ == e,
    }
}

} // verus!
