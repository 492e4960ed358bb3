//! Frames of the topmost clip: which file and time they come from, and the
//! calls of ffmpeg that decode them, one at a time or as a stream.

use vstd::prelude::*;

use crate::edl;
use crate::edl::track_shows;
use crate::float::Real;
use crate::ident::Id;
use crate::media;
use crate::media::{extract_jpeg, push_args, MediaErrV, MediaError, MediaResult};
use crate::model;
use crate::model::{
    Clip, ClipPayload, ClipV, EffectInstance, EffectV, MediaAsset, MediaKind, PayloadV, Project,
    ProjectV, Track, TrackV, Transform2D, TransformV,
};
use crate::ops;
use crate::ops::scale_time;
use crate::paths;
use crate::paths::{is_image_path, resolve_path_pub};
use crate::render;
use crate::render::secs;
use crate::seqs;
use crate::seqs::{duplicate_all, Duplicate};
use crate::sound::holds_text;
use crate::text;
use crate::text::{chars_of, copy_text, nat_to_text, push_text, trim};
use crate::time;
use crate::time::{hold, minus, plus, TimeUs};

verus! {

/// Where the frame of a time comes from.
#[derive(Debug)]
pub struct ResolvedFrame {
    pub asset_path: String,
    pub src_t_us: TimeUs,
    /// From the start of the clip.
    pub clip_rel_us: TimeUs,
    pub speed: Real,
    pub effects: Vec<EffectInstance>,
    pub transform: Transform2D,
}

/// The contents of a `ResolvedFrame`.
#[verifier::ext_equal]
pub struct ResolvedV {
    pub asset_path: Seq<char>,
    pub src_t_us: TimeUs,
    pub clip_rel_us: TimeUs,
    pub speed: Real,
    pub effects: Seq<EffectV>,
    pub transform: TransformV,
}

impl View for ResolvedFrame {
    type V = ResolvedV;

    open spec fn view(&self) -> ResolvedV {
        ResolvedV {
            asset_path: self.asset_path@,
            src_t_us: self.src_t_us,
            clip_rel_us: self.clip_rel_us,
            speed: self.speed,
            effects: seqs::views(self.effects@),
            transform: self.transform@,
        }
    }
}

/// The first media clip that is there at a time.
pub open spec fn media_at(clips: Seq<ClipV>, t: TimeUs) -> Option<ClipV>
    decreases clips.len(),
{
    if clips.len() == 0 {
        None
    } else if clips[0].start <= t < clips[0].finish() && clips[0].payload is Media {
        Some(clips[0])
    } else {
        media_at(clips.drop_first(), t)
    }
}

/// The media clip of the topmost track that shows one.
pub open spec fn top_media(tracks: Seq<TrackV>, t: TimeUs) -> Option<ClipV>
    decreases tracks.len(),
{
    if tracks.len() == 0 {
        None
    } else if edl::shows(tracks.last()) && media_at(tracks.last().clips, t) is Some {
        media_at(tracks.last().clips, t)
    } else {
        top_media(tracks.drop_last(), t)
    }
}

/// The file that an asset is decoded from: its proxy where that is there.
pub open spec fn played_file(a: MediaAsset, present: Seq<Seq<char>>) -> Seq<char> {
    match a.proxy {
        Some(p) => if present.contains(p@) {
            p@
        } else {
            a.path@
        },
        None => a.path@,
    }
}

/// Where the frame of a clip comes from. A still picture is the same at all
/// times.
pub open spec fn resolved(p: ProjectV, c: ClipV, t: TimeUs, present: Seq<Seq<char>>) -> Option<ResolvedV> {
    let rel = time::sooner(t, c.start);
    match c.payload {
        PayloadV::Media { asset_id, src_in, src_out } => match model::asset_of(p, asset_id) {
            None => None,
            Some(a) => Some(
                ResolvedV {
                    asset_path: played_file(a, present),
                    src_t_us: if a.kind == MediaKind::Image {
                        0
                    } else {
                        time::later(src_in, ops::scaled_time(rel, c.speed))
                    },
                    clip_rel_us: rel,
                    speed: c.speed,
                    effects: c.effects,
                    transform: c.transform,
                },
            ),
        },
        _ => None,
    }
}

/// Where the frame of a sequence comes from.
pub open spec fn top_frame(p: ProjectV, sequence_id: Id, t: TimeUs, present: Seq<Seq<char>>) -> Option<
    ResolvedV,
> {
    if seqs::holds(p.sequences, sequence_id) {
        match top_media(p.sequences[seqs::pos(p.sequences, sequence_id) as int].tracks, t) {
            Some(c) => resolved(p, c, t, present),
            None => None,
        }
    } else {
        None
    }
}

fn find_media<'a>(clips: &'a Vec<Clip>, t: TimeUs) -> (r: Option<&'a Clip>)
    ensures
        match media_at(seqs::views(clips@), t) {
            Some(c) => r is Some && r->Some_0@ == c,
            None => r is None,
        },
{
    let ghost all = seqs::views(clips@);
    let mut i: usize = 0;
    assert(all.skip(0) =~= all);
    while i < clips.len()
        invariant
            i <= clips.len(),
            all == seqs::views(clips@),
            media_at(all, t) == media_at(all.skip(i as int), t),
        decreases clips.len() - i,
    {
        assert(all.skip(i as int)[0] == clips@[i as int]@);
        assert(all.skip(i as int).drop_first() =~= all.skip(i + 1));
        let c: &Clip = &clips[i];
        if let ClipPayload::Media { .. } = &c.payload {
            if c.start <= t && t < c.end() {
                return Some(c);
            }
        }
        i = i + 1;
    }
    None
}

fn find_top<'a>(tracks: &'a Vec<Track>, t: TimeUs) -> (r: Option<&'a Clip>)
    ensures
        match top_media(seqs::views(tracks@), t) {
            Some(c) => r is Some && r->Some_0@ == c,
            None => r is None,
        },
{
    let ghost all = seqs::views(tracks@);
    let mut n: usize = tracks.len();
    assert(all.take(n as int) =~= all);
    while n > 0
        invariant
            n <= tracks.len(),
            all == seqs::views(tracks@),
            top_media(all, t) == top_media(all.take(n as int), t),
        decreases n,
    {
        assert(all.take(n as int).last() == tracks@[n - 1]@);
        assert(all.take(n as int).drop_last() =~= all.take(n - 1));
        if track_shows(&tracks[n - 1]) {
            if let Some(c) = find_media(&tracks[n - 1].clips, t) {
                return Some(c);
            }
        }
        n = n - 1;
    }
    None
}

/// Finds where the frame of a sequence comes from: the media clip of the topmost
/// track that shows one at the time. Of the proxies, those in the list are there.
pub fn resolve_top_video(
    project: &Project,
    sequence_id: Id,
    t_us: TimeUs,
    present: &Vec<String>,
) -> (r: Option<ResolvedFrame>)
    ensures
        match top_frame(project@, sequence_id, t_us, text::texts(present@)) {
            Some(x) => r is Some && r->Some_0@ == x,
            None => r is None,
        },
{
    let c: &Clip = match project.sequence(sequence_id) {
        None => {
            return None;
        },
        Some(seq) => match find_top(&seq.tracks, t_us) {
            None => {
                return None;
            },
            Some(c) => c,
        },
    };
    let rel: TimeUs = minus(t_us, c.start);
    if let ClipPayload::Media { asset_id, src_in, .. } = &c.payload {
        let asset: &MediaAsset = match project.asset(*asset_id) {
            Some(a) => a,
            None => {
                return None;
            },
        };
        let src_t_us: TimeUs = if asset.kind == MediaKind::Image {
            0
        } else {
            plus(*src_in, scale_time(rel, c.speed))
        };
        let asset_path: String = match &asset.proxy {
            Some(p) => if holds_text(present, p.as_str()) {
                p.clone()
            } else {
                asset.path.clone()
            },
            None => asset.path.clone(),
        };
        return Some(
            ResolvedFrame {
                asset_path,
                src_t_us,
                clip_rel_us: rel,
                speed: c.speed,
                effects: duplicate_all(&c.effects),
                transform: c.transform.duplicate(),
            },
        );
    }
    None
}

/// A chain that goes before another; an empty one does not.
pub open spec fn chained(extra: Option<Seq<char>>, last: Seq<char>) -> Seq<char> {
    match extra {
        Some(c) => if c.len() > 0 {
            c + ","@ + last
        } else {
            last
        },
        None => last,
    }
}

fn chain(extra: Option<&str>, last: String) -> (r: String)
    ensures
        r@ == chained(
            match extra {
                Some(c) => Some(c@),
                None => None,
            },
            last@,
        ),
{
    match extra {
        Some(c) => {
            let v: Vec<char> = chars_of(c);
            if v.len() > 0 {
                let mut r: String = copy_text(c);
                r.append(",");
                r.append(last.as_str());
                r
            } else {
                last
            }
        },
        None => last,
    }
}

/// The chain of a frame: the effects of its clip, and a scale.
pub open spec fn frame_chain(max_width: u32, extra: Option<Seq<char>>) -> Seq<char> {
    chained(extra, "scale='min("@ + text::digits(max_width as nat) + ",iw)':-2"@)
}

/// Makes the call of ffmpeg that decodes one frame as a JPEG.
pub fn frame_args(
    frame: &ResolvedFrame,
    max_width: u32,
    base_dir: &str,
    extra_vf: Option<&str>,
    windows: bool,
) -> (r: Vec<String>)
    ensures
        text::texts(r@) == seq![
            "-v"@,
            "error"@,
            "-ss"@,
            render::secs_text(frame@.src_t_us),
            "-i"@,
            paths::path_in(base_dir@, frame@.asset_path, windows),
            "-frames:v"@,
            "1"@,
            "-vf"@,
            frame_chain(
                max_width,
                match extra_vf {
                    Some(c) => Some(c@),
                    None => None,
                },
            ),
            "-f"@,
            "image2"@,
            "-c:v"@,
            "mjpeg"@,
            "-q:v"@,
            "4"@,
            "pipe:1"@,
        ],
{
    let mut scale: String = copy_text("scale='min(");
    let d1: String = nat_to_text((max_width) as u128);
    scale.append(d1.as_str());
    scale.append(",iw)':-2");
    let vf: String = chain(extra_vf, scale);
    let ghost vf_text = vf@;
    let mut r: Vec<String> = Vec::new();
    assert(text::texts(r@) =~= Seq::<Seq<char>>::empty());
    push_args(&mut r, &vec!["-v", "error", "-ss"]);
    push_text(&mut r, secs(frame.src_t_us));
    push_text(&mut r, copy_text("-i"));
    push_text(&mut r, resolve_path_pub(base_dir, frame.asset_path.as_str(), windows));
    push_args(&mut r, &vec!["-frames:v", "1", "-vf"]);
    push_text(&mut r, vf);
    push_args(&mut r, &vec!["-f", "image2", "-c:v", "mjpeg", "-q:v", "4", "pipe:1"]);
    assert(text::texts(r@) =~= seq![
        "-v"@,
        "error"@,
        "-ss"@,
        render::secs_text(frame@.src_t_us),
        "-i"@,
        paths::path_in(base_dir@, frame@.asset_path, windows),
        "-frames:v"@,
        "1"@,
        "-vf"@,
        vf_text,
        "-f"@,
        "image2"@,
        "-c:v"@,
        "mjpeg"@,
        "-q:v"@,
        "4"@,
        "pipe:1"@,
    ]);
    r
}

/// What became of a frame: its bytes, nothing where ffmpeg gave none, or what
/// ffmpeg said against it.
pub fn judge_frame(success: bool, stdout: Vec<u8>, stderr: &str) -> (r: MediaResult<Option<Vec<u8>>>)
    ensures
        !success ==> r is Err && r->Err_0@ == MediaErrV::Tool("ffmpeg"@, text::trimmed(stderr@)),
        success ==> r is Ok && (match r->Ok_0 {
            Some(x) => x@ == stdout@ && stdout@.len() > 0,
            None => stdout@.len() == 0,
        }),
{
    if !success {
        Err(MediaError::Tool(copy_text("ffmpeg"), trim(stderr)))
    } else if stdout.len() == 0 {
        Ok(None)
    } else {
        Ok(Some(stdout))
    }
}

// ---- a stream of frames ----

/// A stream of pictures that ffmpeg decodes: what was read of it and not yet
/// handed out, and how many pictures were.
#[derive(Debug)]
pub struct MjpegSession {
    pub buf: Vec<u8>,
    pub asset_path: String,
    pub start_src_us: i64,
    pub fps: u32,
    pub frames_read: i64,
}

/// The chain of a stream: the effects of its clip, a frame rate and a scale.
pub open spec fn stream_chain(fps: u32, max_width: u32, extra: Option<Seq<char>>) -> Seq<char> {
    chained(extra, "fps="@ + text::digits(fps as nat) + ",scale='min("@ + text::digits(max_width as nat) + ",iw)':-2"@)
}

/// The call of ffmpeg that decodes a stream. A still picture is repeated, and
/// never sought in.
pub open spec fn stream_call(
    path: Seq<char>,
    start: TimeUs,
    max_width: u32,
    fps: u32,
    extra: Option<Seq<char>>,
    windows: bool,
) -> Seq<Seq<char>> {
    let image = paths::is_image(path, windows);
    let head = if image {
        seq!["-v"@, "error"@, "-loop"@, "1"@, "-framerate"@, text::digits(fps as nat)]
    } else {
        seq!["-v"@, "error"@]
    };
    head + seq![
        "-ss"@,
        if image {
            "0"@
        } else {
            render::secs_text(start)
        },
        "-i"@,
        path,
        "-an"@,
        "-vf"@,
        stream_chain(fps, max_width, extra),
        "-f"@,
        "mjpeg"@,
        "-q:v"@,
        "6"@,
        "pipe:1"@,
    ]
}

/// Makes the call of ffmpeg that decodes a stream.
pub fn stream_args(
    path: &str,
    start_src_us: i64,
    max_width: u32,
    fps: u32,
    extra_vf: Option<&str>,
    windows: bool,
) -> (r: Vec<String>)
    ensures
        text::texts(r@) == stream_call(
            path@,
            start_src_us,
            max_width,
            fps,
            match extra_vf {
                Some(c) => Some(c@),
                None => None,
            },
            windows,
        ),
{
    let mut base: String = copy_text("fps=");
    let d1: String = nat_to_text((fps) as u128);
    base.append(d1.as_str());
    base.append(",scale='min(");
    let d2: String = nat_to_text((max_width) as u128);
    base.append(d2.as_str());
    base.append(",iw)':-2");
    let vf: String = chain(extra_vf, base);
    let ghost vf_text = vf@;
    let image: bool = is_image_path(path, windows);
    let mut r: Vec<String> = Vec::new();
    assert(text::texts(r@) =~= Seq::<Seq<char>>::empty());
    push_args(&mut r, &vec!["-v", "error"]);
    if image {
        push_args(&mut r, &vec!["-loop", "1", "-framerate"]);
        push_text(&mut r, nat_to_text(fps as u128));
    }
    let ghost head = if image {
        seq!["-v"@, "error"@, "-loop"@, "1"@, "-framerate"@, text::digits(fps as nat)]
    } else {
        seq!["-v"@, "error"@]
    };
    assert(text::texts(r@) =~= head);
    push_text(&mut r, copy_text("-ss"));
    let ss: String = if image {
        copy_text("0")
    } else {
        secs(start_src_us)
    };
    let ghost ss_text = ss@;
    push_text(&mut r, ss);
    push_text(&mut r, copy_text("-i"));
    push_text(&mut r, copy_text(path));
    push_args(&mut r, &vec!["-an", "-vf"]);
    push_text(&mut r, vf);
    push_args(&mut r, &vec!["-f", "mjpeg", "-q:v", "6", "pipe:1"]);
    assert(text::texts(r@) =~= head + seq![
        "-ss"@,
        ss_text,
        "-i"@,
        path@,
        "-an"@,
        "-vf"@,
        vf_text,
        "-f"@,
        "mjpeg"@,
        "-q:v"@,
        "6"@,
        "pipe:1"@,
    ]);
    r
}

/// How long a number of frames lasts at a frame rate, rounded towards zero.
pub open spec fn frames_time(n: int, fps: u32) -> int {
    if n < 0 {
        -((-n) * 1_000_000 / fps as int)
    } else {
        n * 1_000_000 / fps as int
    }
}

impl MjpegSession {
    /// Starts a stream before anything of it is read.
    pub fn open(path: &str, start_src_us: i64, fps: u32) -> (s: MjpegSession)
        ensures
            s.buf@.len() == 0,
            s.asset_path@ == path@,
            s.start_src_us == start_src_us,
            s.fps == fps,
            s.frames_read == 0,
    {
        MjpegSession {
            buf: Vec::new(),
            asset_path: copy_text(path),
            start_src_us,
            fps,
            frames_read: 0,
        }
    }

    /// The time in the source of the next picture: that of the start, and the
    /// frames since then at the frame rate, rounded towards zero.
    pub fn next_src_us(&self) -> (t: i64)
        requires
            self.fps > 0,
        ensures
            t == time::held(self.start_src_us + frames_time(self.frames_read as int, self.fps)),
    {
        let back: bool = self.frames_read < 0;
        let count: u128 = if back {
            (-(self.frames_read as i128)) as u128
        } else {
            self.frames_read as u128
        };
        let gone: u128 = count * 1_000_000 / self.fps as u128;
        let ghost all = count as int * 1_000_000;
        assert(all / (self.fps as int) <= all) by (nonlinear_arith)
            requires
                all >= 0,
                self.fps > 0,
        ;
        if back {
            hold(self.start_src_us as i128 - gone as i128)
        } else {
            hold(self.start_src_us as i128 + gone as i128)
        }
    }

    /// Takes in what was read of the stream.
    pub fn feed(&mut self, chunk: &Vec<u8>)
        ensures
            final(self).buf@ == old(self).buf@ + chunk@,
            final(self).asset_path == old(self).asset_path,
            final(self).start_src_us == old(self).start_src_us,
            final(self).fps == old(self).fps,
            final(self).frames_read == old(self).frames_read,
    {
        media::push_bytes(&mut self.buf, chunk);
    }

    /// Hands out the next picture and counts it; none where more has to be read
    /// first.
    pub fn take_frame(&mut self) -> (r: Option<Vec<u8>>)
        requires
            old(self).frames_read < i64::MAX,
        ensures
            final(self).asset_path == old(self).asset_path,
            final(self).start_src_us == old(self).start_src_us,
            final(self).fps == old(self).fps,
            match media::picture_span(old(self).buf@) {
                Some(span) => {
                    &&& r is Some
                    &&& r->Some_0@ == old(self).buf@.subrange(span.0, span.1)
                    &&& final(self).buf@ == old(self).buf@.skip(span.1)
                    &&& final(self).frames_read == old(self).frames_read + 1
                },
                None => {
                    &&& r is None
                    &&& final(self).buf@ == old(self).buf@
                    &&& final(self).frames_read == old(self).frames_read
                },
            },
    {
        match extract_jpeg(&mut self.buf) {
            Some(frame) => {
                self.frames_read = self.frames_read + 1;
                Some(frame)
            },
            None => None,
        }
    }
}

} // verus!
