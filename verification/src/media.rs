//! Media files: what a probe says of them, the frames and sounds that are taken
//! from them, and how they come into a project.

use vstd::prelude::*;

use xxhash_rust::xxh3::Xxh3;

use crate::float::Real;
use crate::ident::Id;
use crate::model;
use crate::model::{MediaAsset, MediaKind, ProbeInfo};
use crate::reading;
use crate::reading::{parse_u32, split};
use crate::seqs::duplicate_text;
use crate::text;
use crate::text::{chars_of, copy_text, push_text, same_text, text_between, trim};
use crate::time::TimeUs;

verus! {

// ---- errors ----

/// Why a media file could not be used.
#[derive(Debug)]
pub enum MediaError {
    Spawn(String, String),
    Tool(String, String),
    Parse(String),
    Unsupported(String),
    Io(String),
}

/// What comes of work with a media file.
pub type MediaResult<T> = Result<T, MediaError>;

/// The contents of a `MediaError`.
pub enum MediaErrV {
    Spawn(Seq<char>, Seq<char>),
    Tool(Seq<char>, Seq<char>),
    Parse(Seq<char>),
    Unsupported(Seq<char>),
    Io(Seq<char>),
}

impl View for MediaError {
    type V = MediaErrV;

    open spec fn view(&self) -> MediaErrV {
        match self {
            MediaError::Spawn(a, b) => MediaErrV::Spawn(a@, b@),
            MediaError::Tool(a, b) => MediaErrV::Tool(a@, b@),
            MediaError::Parse(a) => MediaErrV::Parse(a@),
            MediaError::Unsupported(a) => MediaErrV::Unsupported(a@),
            MediaError::Io(a) => MediaErrV::Io(a@),
        }
    }
}

impl MediaErrV {
    /// The error in words.
    pub open spec fn message(self) -> Seq<char> {
        match self {
            MediaErrV::Spawn(a, b) => "could not run "@ + a + ": "@ + b,
            MediaErrV::Tool(a, b) => a + " failed: "@ + b,
            MediaErrV::Parse(a) => "could not parse ffprobe output: "@ + a,
            MediaErrV::Unsupported(a) => "unsupported file or no streams: "@ + a,
            MediaErrV::Io(a) => "io: "@ + a,
        }
    }
}

impl MediaError {
    /// Puts the error into words.
    pub fn to_text(&self) -> (r: String)
        ensures
            r@ == self@.message(),
    {
        match self {
            MediaError::Spawn(a, b) => {
                let mut r: String = copy_text("could not run ");
                r.append(a.as_str());
                r.append(": ");
                r.append(b.as_str());
                r
            },
            MediaError::Tool(a, b) => {
                let mut r: String = copy_text(a.as_str());
                r.append(" failed: ");
                r.append(b.as_str());
                r
            },
            MediaError::Parse(a) => {
                let mut r: String = copy_text("could not parse ffprobe output: ");
                r.append(a.as_str());
                r
            },
            MediaError::Unsupported(a) => {
                let mut r: String = copy_text("unsupported file or no streams: ");
                r.append(a.as_str());
                r
            },
            MediaError::Io(a) => {
                let mut r: String = copy_text("io: ");
                r.append(a.as_str());
                r
            },
        }
    }
}

// ---- pictures in a stream of bytes ----

/// Whether a marker of a picture stands at a place.
pub open spec fn marker_at(s: Seq<u8>, i: int, b: u8) -> bool {
    0 <= i && i + 1 < s.len() && s[i] == 0xFF && s[i + 1] == b
}

/// The first place of a marker from one on.
pub open spec fn marker_from(s: Seq<u8>, b: u8, from: int) -> Option<int>
    decreases s.len() - from,
{
    if from + 1 >= s.len() {
        None
    } else if marker_at(s, from, b) {
        Some(from)
    } else {
        marker_from(s, b, from + 1)
    }
}

/// Where the first whole picture of a stream starts and ends.
pub open spec fn picture_span(s: Seq<u8>) -> Option<(int, int)> {
    match marker_from(s, 0xD8, 0) {
        None => None,
        Some(a) => match marker_from(s, 0xD9, a) {
            None => None,
            Some(e) => Some((a, e + 2)),
        },
    }
}

fn find_marker(v: &Vec<u8>, b: u8, from: usize) -> (r: Option<usize>)
    ensures
        match marker_from(v@, b, from as int) {
            Some(i) => r is Some && r->Some_0 == i && from <= i && i + 1 < v.len(),
            None => r is None,
        },
{
    let mut i: usize = from;
    while i < v.len() && i + 1 < v.len()
        invariant
            from <= i,
            i <= v.len() || i == from,
            marker_from(v@, b, from as int) == marker_from(v@, b, i as int),
        decreases v.len() - i,
    {
        if v[i] == 0xFF && v[i + 1] == b {
            return Some(i);
        }
        i = i + 1;
    }
    None
}

/// Some of the bytes of a list.
fn bytes_between(v: &Vec<u8>, from: usize, to: usize) -> (r: Vec<u8>)
    requires
        from <= to <= v.len(),
    ensures
        r@ == v@.subrange(from as int, to as int),
{
    let mut r: Vec<u8> = Vec::new();
    let mut i: usize = from;
    while i < to
        invariant
            from <= i <= to <= v.len(),
            r@ == v@.subrange(from as int, i as int),
        decreases to - i,
    {
        r.push(v[i]);
        assert(v@.subrange(from as int, i + 1) =~= v@.subrange(from as int, i as int).push(
            v@[i as int],
        ));
        i = i + 1;
    }
    r
}

/// Takes the first whole JPEG out of what was read of a stream, with all that
/// stands before it. Where there is none yet, nothing changes.
pub fn extract_jpeg(buf: &mut Vec<u8>) -> (r: Option<Vec<u8>>)
    ensures
        match picture_span(old(buf)@) {
            Some(span) => r is Some && r->Some_0@ == old(buf)@.subrange(span.0, span.1)
                && final(buf)@ == old(buf)@.skip(span.1),
            None => r is None && final(buf)@ == old(buf)@,
        },
{
    let start: usize = match find_marker(buf, 0xD8, 0) {
        Some(i) => i,
        None => {
            return None;
        },
    };
    let end: usize = match find_marker(buf, 0xD9, start) {
        Some(i) => i + 2,
        None => {
            return None;
        },
    };
    let frame: Vec<u8> = bytes_between(buf, start, end);
    let rest: Vec<u8> = bytes_between(buf, end, buf.len());
    assert(buf@.subrange(end as int, buf@.len() as int) =~= buf@.skip(end as int));
    *buf = rest;
    Some(frame)
}

/// Whether bytes are one whole picture: they start and end with its markers, and
/// neither stands in them before its place.
pub open spec fn one_picture(f: Seq<u8>) -> bool {
    &&& f.len() >= 4
    &&& marker_at(f, 0, 0xD8)
    &&& marker_at(f, f.len() - 2, 0xD9)
    &&& forall|i: int| 0 <= i < f.len() - 2 ==> !#[trigger] marker_at(f, i, 0xD9)
}

proof fn lemma_marker_from(s: Seq<u8>, b: u8, from: int, at: int)
    requires
        0 <= from <= at,
        marker_at(s, at, b),
        forall|i: int| from <= i < at ==> !#[trigger] marker_at(s, i, b),
    ensures
        marker_from(s, b, from) == Some(at),
    decreases at - from,
{
    if from < at {
        assert(!marker_at(s, from, b));
        lemma_marker_from(s, b, from + 1, at);
    }
}

proof fn lemma_marker_found(s: Seq<u8>, b: u8, from: int)
    requires
        0 <= from,
    ensures
        match marker_from(s, b, from) {
            Some(at) => from <= at && marker_at(s, at, b) && forall|i: int|
                from <= i < at ==> !#[trigger] marker_at(s, i, b),
            None => forall|i: int| from <= i ==> !#[trigger] marker_at(s, i, b),
        },
    decreases s.len() - from,
{
    if from + 1 < s.len() && !marker_at(s, from, b) {
        lemma_marker_found(s, b, from + 1);
    }
}

/// What is taken out of a stream is one whole picture; what stands before it
/// goes with it, and what stands behind it stays.
pub proof fn law_picture_is_whole(s: Seq<u8>)
    ensures
        match picture_span(s) {
            Some(span) => {
                &&& 0 <= span.0 <= span.1 <= s.len()
                &&& one_picture(s.subrange(span.0, span.1))
                &&& s == s.take(span.0) + s.subrange(span.0, span.1) + s.skip(span.1)
            },
            None => true,
        },
{
    lemma_marker_found(s, 0xD8, 0);
    if let Some(a) = marker_from(s, 0xD8, 0) {
        lemma_marker_found(s, 0xD9, a);
        if let Some(e) = marker_from(s, 0xD9, a) {
            let f = s.subrange(a, e + 2);
            assert(marker_at(f, 0, 0xD8));
            assert(e != a);
            assert(e != a + 1) by {
                assert(s[a + 1] == 0xD8);
            }
            assert(marker_at(f, f.len() - 2, 0xD9));
            assert forall|i: int| 0 <= i < f.len() - 2 implies !#[trigger] marker_at(f, i, 0xD9) by {
                assert(!marker_at(s, a + i, 0xD9));
            }
            assert(s =~= s.take(a) + f + s.skip(e + 2));
        }
    }
}

/// A picture is found again in a stream, whatever follows it, if no picture
/// starts in what stands before it.
pub proof fn law_picture_is_found(junk: Seq<u8>, f: Seq<u8>, rest: Seq<u8>)
    requires
        one_picture(f),
        forall|i: int| 0 <= i < junk.len() ==> !#[trigger] marker_at(junk + f, i, 0xD8),
    ensures
        picture_span(junk + f + rest) == Some((junk.len() as int, (junk.len() + f.len()) as int)),
        (junk + f + rest).subrange(junk.len() as int, (junk.len() + f.len()) as int) == f,
        (junk + f + rest).skip((junk.len() + f.len()) as int) == rest,
{
    let s = junk + f + rest;
    let a = junk.len() as int;
    assert forall|i: int| 0 <= i < a implies !#[trigger] marker_at(s, i, 0xD8) by {
        assert(!marker_at(junk + f, i, 0xD8));
        assert(s[i] == (junk + f)[i]);
        assert(s[i + 1] == (junk + f)[i + 1]);
    }
    assert(s[a] == f[0]);
    assert(s[a + 1] == f[1]);
    lemma_marker_from(s, 0xD8, 0, a);
    let e = a + f.len() - 2;
    assert(s[e] == f[f.len() - 2]);
    assert(s[e + 1] == f[f.len() - 1]);
    assert forall|i: int| a <= i < e implies !#[trigger] marker_at(s, i, 0xD9) by {
        assert(!marker_at(f, i - a, 0xD9));
        assert(s[i] == f[i - a]);
        assert(s[i + 1] == f[i - a + 1]);
    }
    lemma_marker_from(s, 0xD9, a, e);
    assert(s.subrange(a, a + f.len()) =~= f);
    assert(s.skip(a + f.len()) =~= rest);
}

// ---- what a probe says ----

/// A container, as a probe describes it.
#[derive(Debug)]
pub struct ProbeFormat {
    pub format_name: String,
    /// In seconds.
    pub duration: Option<Real>,
}

/// A stream of a container, as a probe describes it.
#[derive(Debug)]
pub struct ProbeStream {
    pub codec_type: String,
    pub codec_name: Option<String>,
    pub width: Option<u32>,
    pub height: Option<u32>,
    pub avg_frame_rate: Option<String>,
    pub r_frame_rate: Option<String>,
    pub channels: Option<u32>,
    /// In seconds.
    pub duration: Option<Real>,
    /// The rotations that the side data hold, in degrees.
    pub rotations: Vec<Real>,
}

/// A frame rate as a probe writes it: two numbers with a slash between, neither
/// of them zero.
pub open spec fn rate_of(s: Seq<char>) -> Option<(u32, u32)> {
    match split_at(s, '/') {
        None => None,
        Some(p) => match (reading::unsigned(p.0), reading::unsigned(p.1)) {
            (Some(n), Some(d)) => if 0 < n <= u32::MAX && 0 < d <= u32::MAX {
                Some((n as u32, d as u32))
            } else {
                None
            },
            _ => None,
        },
    }
}

/// A text before and after the first place of a character.
pub open spec fn split_at(s: Seq<char>, c: char) -> Option<(Seq<char>, Seq<char>)>
    decreases s.len(),
{
    if s.len() == 0 {
        None
    } else if s[0] == c {
        Some((Seq::<char>::empty(), s.drop_first()))
    } else {
        match split_at(s.drop_first(), c) {
            Some(p) => Some((seq![s[0]] + p.0, p.1)),
            None => None,
        }
    }
}

fn split_once(s: &str, c: char) -> (r: Option<(String, String)>)
    ensures
        match split_at(s@, c) {
            Some(p) => r is Some && r->Some_0.0@ == p.0 && r->Some_0.1@ == p.1,
            None => r is None,
        },
{
    let v: Vec<char> = chars_of(s);
    let mut i: usize = 0;
    assert(v@.skip(0) =~= v@);
    while i < v.len()
        invariant
            i <= v.len(),
            v@ == s@,
            match split_at(v@.skip(i as int), c) {
                Some(p) => split_at(v@, c) == Some((v@.take(i as int) + p.0, p.1)),
                None => split_at(v@, c) is None,
            },
        decreases v.len() - i,
    {
        let ghost rest = v@.skip(i as int);
        assert(rest[0] == v@[i as int]);
        assert(rest.drop_first() =~= v@.skip(i + 1));
        if v[i] == c {
            assert(v@.take(i as int) + Seq::<char>::empty() =~= v@.subrange(0, i as int));
            assert(v@.subrange(i + 1, v@.len() as int) =~= v@.skip(i + 1));
            return Some((text_between(&v, 0, i), text_between(&v, i + 1, v.len())));
        }
        proof {
            if let Some(p) = split_at(rest.drop_first(), c) {
                assert(v@.take(i as int) + (seq![rest[0]] + p.0) =~= v@.take(i + 1) + p.0);
            }
        }
        i = i + 1;
    }
    None
}

/// Reads a frame rate.
pub fn parse_rate(s: &str) -> (r: Option<(u32, u32)>)
    ensures
        r == rate_of(s@),
{
    match split_once(s, '/') {
        None => None,
        Some(p) => {
            let n: u32 = match parse_u32(p.0.as_str()) {
                Some(n) => n,
                None => {
                    return None;
                },
            };
            let d: u32 = match parse_u32(p.1.as_str()) {
                Some(d) => d,
                None => {
                    return None;
                },
            };
            if n == 0 || d == 0 {
                None
            } else {
                Some((n, d))
            }
        },
    }
}

/// The bits of a million.
pub const MILLION_BITS: u64 = 0x412E_8480_0000_0000;

/// Seconds as microseconds, rounded.
pub open spec fn in_micros(x: Real) -> TimeUs {
    x.times(Real { bits: MILLION_BITS }).to_nearest_int() as i64
}

fn to_micros(x: Real) -> (r: TimeUs)
    ensures
        r == in_micros(x),
{
    x.mul(Real { bits: MILLION_BITS }).round_to_int()
}

/// The first stream of a kind.
pub open spec fn stream_of(list: Seq<ProbeStream>, kind: Seq<char>) -> Option<ProbeStream>
    decreases list.len(),
{
    if list.len() == 0 {
        None
    } else if list[0].codec_type@ == kind {
        Some(list[0])
    } else {
        stream_of(list.drop_first(), kind)
    }
}

fn find_stream<'a>(list: &'a Vec<ProbeStream>, kind: &str) -> (r: Option<&'a ProbeStream>)
    ensures
        match stream_of(list@, kind@) {
            Some(s) => r is Some && *r->Some_0 == s,
            None => r is None,
        },
{
    let mut i: usize = 0;
    assert(list@.skip(0) =~= list@);
    while i < list.len()
        invariant
            i <= list.len(),
            stream_of(list@, kind@) == stream_of(list@.skip(i as int), kind@),
        decreases list.len() - i,
    {
        assert(list@.skip(i as int)[0] == list@[i as int]);
        assert(list@.skip(i as int).drop_first() =~= list@.skip(i + 1));
        if same_text(list[i].codec_type.as_str(), kind) {
            return Some(&list[i]);
        }
        i = i + 1;
    }
    None
}

/// Whether a format is one of still pictures.
pub open spec fn still_format(f: Seq<char>) -> bool {
    f == "image2"@ || f == "png_pipe"@ || f == "webp_pipe"@ || f == "bmp_pipe"@ || f == "tiff_pipe"@
        || f == "jpeg_pipe"@ || f == "gif_pipe"@
}

/// Whether one of the names of a format is that of still pictures.
pub open spec fn names_stills(format_name: Seq<char>) -> bool {
    exists|i: int|
        0 <= i < reading::pieces(format_name, ',').len() && still_format(
            #[trigger] reading::pieces(format_name, ',')[i],
        )
}

fn is_still_format(s: &str) -> (b: bool)
    ensures
        b == still_format(s@),
{
    same_text(s, "image2") || same_text(s, "png_pipe") || same_text(s, "webp_pipe") || same_text(
        s,
        "bmp_pipe",
    ) || same_text(s, "tiff_pipe") || same_text(s, "jpeg_pipe") || same_text(s, "gif_pipe")
}

fn holds_stills(format_name: &str) -> (b: bool)
    ensures
        b == names_stills(format_name@),
{
    let parts: Vec<String> = split(format_name, ',');
    let ghost p = reading::pieces(format_name@, ',');
    let mut i: usize = 0;
    while i < parts.len()
        invariant
            i <= parts.len(),
            p == reading::pieces(format_name@, ','),
            text::texts(parts@) == p,
            forall|k: int| 0 <= k < i ==> !still_format(#[trigger] p[k]),
        decreases parts.len() - i,
    {
        assert(p[i as int] == parts@[i as int]@);
        if is_still_format(parts[i].as_str()) {
            return true;
        }
        i = i + 1;
    }
    false
}

/// What a probe found: a container and its streams.
#[derive(Debug)]
pub struct Probed {
    pub format: Option<ProbeFormat>,
    pub streams: Vec<ProbeStream>,
}

impl Probed {
    /// The first stream of pictures.
    pub open spec fn video(self) -> Option<ProbeStream> {
        stream_of(self.streams@, "video"@)
    }

    /// The first stream of sound.
    pub open spec fn audio(self) -> Option<ProbeStream> {
        stream_of(self.streams@, "audio"@)
    }

    /// The kind of a file: none where it has neither picture nor sound.
    pub open spec fn kind(self) -> Option<MediaKind> {
        if self.video() is Some && names_stills(
            match self.format {
                Some(f) => f.format_name@,
                None => ""@,
            },
        ) {
            Some(MediaKind::Image)
        } else if self.video() is Some {
            Some(MediaKind::Video)
        } else if self.audio() is Some {
            Some(MediaKind::Audio)
        } else {
            None
        }
    }

    /// How long a file is: as its container says, or its picture, or its sound.
    pub open spec fn length(self) -> TimeUs {
        match (self.format, self.video(), self.audio()) {
            (Some(f), _, _) if f.duration is Some => in_micros(f.duration->Some_0),
            (_, Some(s), _) if s.duration is Some => in_micros(s.duration->Some_0),
            (_, _, Some(s)) if s.duration is Some => in_micros(s.duration->Some_0),
            _ => 0,
        }
    }

    /// The rotation of the picture in whole degrees.
    pub open spec fn turned(self) -> i32 {
        match self.video() {
            Some(s) => if s.rotations@.len() > 0 {
                to_i32(s.rotations@[0])
            } else {
                0
            },
            None => 0,
        }
    }

    /// The average frame rate of the picture.
    pub open spec fn average(self) -> Option<(u32, u32)> {
        match self.video() {
            Some(s) => match s.avg_frame_rate {
                Some(r) => rate_of(r@),
                None => None,
            },
            None => None,
        }
    }

    /// The base frame rate of the picture.
    pub open spec fn steady(self) -> Option<(u32, u32)> {
        match self.video() {
            Some(s) => match s.r_frame_rate {
                Some(r) => rate_of(r@),
                None => None,
            },
            None => None,
        }
    }

    /// Whether the frame rate varies: the two rates are not the same number.
    pub open spec fn varies(self) -> bool {
        match (self.average(), self.steady()) {
            (Some(a), Some(r)) => (a.0 as int) * (r.1 as int) != (r.0 as int) * (a.1 as int),
            _ => false,
        }
    }
}

/// A number cut to a whole one of 32 bits.
pub open spec fn to_i32(x: Real) -> i32 {
    let w = x.to_whole_int();
    if w < i32::MIN {
        i32::MIN
    } else if w > i32::MAX {
        i32::MAX
    } else {
        w as i32
    }
}

fn cut_to_i32(x: Real) -> (r: i32)
    ensures
        r == to_i32(x),
{
    let w: i64 = x.to_int();
    if w < -0x8000_0000 {
        -0x8000_0000
    } else if w > 0x7FFF_FFFF {
        0x7FFF_FFFF
    } else {
        w as i32
    }
}

/// Whether probe information is what a probe found.
pub open spec fn told_by(info: ProbeInfo, kind: MediaKind, p: Probed) -> bool {
    &&& info.duration_us == p.length()
    &&& info.fps == if kind == MediaKind::Video {
        p.average()
    } else {
        None
    }
    &&& info.width == match p.video() {
        Some(s) => match s.width {
            Some(w) => w,
            None => 0,
        },
        None => 0,
    }
    &&& info.height == match p.video() {
        Some(s) => match s.height {
            Some(h) => h,
            None => 0,
        },
        None => 0,
    }
    &&& info.rotation == p.turned()
    &&& model::opt_text(info.vcodec) == match p.video() {
        Some(s) => model::opt_text(s.codec_name),
        None => None,
    }
    &&& model::opt_text(info.acodec) == match p.audio() {
        Some(s) => model::opt_text(s.codec_name),
        None => None,
    }
    &&& info.audio_channels == match p.audio() {
        Some(s) => match s.channels {
            Some(c) => c,
            None => 0,
        },
        None => 0,
    }
    &&& info.vfr == p.varies()
}

fn find_length(p: &Probed, video: Option<&ProbeStream>, audio: Option<&ProbeStream>) -> (t: TimeUs)
    requires
        match p.video() {
            Some(s) => video is Some && *video->Some_0 == s,
            None => video is None,
        },
        match p.audio() {
            Some(s) => audio is Some && *audio->Some_0 == s,
            None => audio is None,
        },
    ensures
        t == p.length(),
{
    if let Some(f) = &p.format {
        if let Some(x) = f.duration {
            return to_micros(x);
        }
    }
    if let Some(s) = video {
        if let Some(x) = s.duration {
            return to_micros(x);
        }
    }
    if let Some(s) = audio {
        if let Some(x) = s.duration {
            return to_micros(x);
        }
    }
    0
}

fn read_rate(r: &Option<String>) -> (x: Option<(u32, u32)>)
    ensures
        x == match *r {
            Some(s) => rate_of(s@),
            None => None,
        },
{
    match r {
        Some(s) => parse_rate(s.as_str()),
        None => None,
    }
}

/// Reads what a probe found of a file. A file with neither picture nor sound is
/// not supported.
pub fn read_probe(p: &Probed, path: &str) -> (r: MediaResult<(MediaKind, ProbeInfo)>)
    ensures
        match p.kind() {
            Some(k) => r is Ok && r->Ok_0.0 == k && told_by(r->Ok_0.1, k, *p),
            None => r is Err && r->Err_0@ == MediaErrV::Unsupported(path@),
        },
{
    let video: Option<&ProbeStream> = find_stream(&p.streams, "video");
    let audio: Option<&ProbeStream> = find_stream(&p.streams, "audio");
    let stills: bool = match &p.format {
        Some(f) => holds_stills(f.format_name.as_str()),
        None => holds_stills(""),
    };
    let kind: MediaKind = if video.is_some() && stills {
        MediaKind::Image
    } else if video.is_some() {
        MediaKind::Video
    } else if audio.is_some() {
        MediaKind::Audio
    } else {
        return Err(MediaError::Unsupported(copy_text(path)));
    };
    let duration_us: TimeUs = find_length(p, video, audio);
    let (fps, steady): (Option<(u32, u32)>, Option<(u32, u32)>) = match video {
        Some(s) => (read_rate(&s.avg_frame_rate), read_rate(&s.r_frame_rate)),
        None => (None, None),
    };
    let vfr: bool = match (fps, steady) {
        (Some(a), Some(r)) => {
            proof {
                assert((a.0 as int) * (r.1 as int) < 0x1_0000_0000 * 0x1_0000_0000) by (nonlinear_arith)
                    requires
                        0 <= a.0 < 0x1_0000_0000,
                        0 <= r.1 < 0x1_0000_0000,
                ;
                assert((r.0 as int) * (a.1 as int) < 0x1_0000_0000 * 0x1_0000_0000) by (nonlinear_arith)
                    requires
                        0 <= r.0 < 0x1_0000_0000,
                        0 <= a.1 < 0x1_0000_0000,
                ;
            }
            (a.0 as u128) * (r.1 as u128) != (r.0 as u128) * (a.1 as u128)
        },
        _ => false,
    };
    let rotation: i32 = match video {
        Some(s) => if s.rotations.len() > 0 {
            cut_to_i32(s.rotations[0])
        } else {
            0
        },
        None => 0,
    };
    let (width, height): (u32, u32) = match video {
        Some(s) => (s.width.unwrap_or(0), s.height.unwrap_or(0)),
        None => (0, 0),
    };
    let vcodec: Option<String> = match video {
        Some(s) => duplicate_text(&s.codec_name),
        None => None,
    };
    let (acodec, audio_channels): (Option<String>, u32) = match audio {
        Some(s) => (duplicate_text(&s.codec_name), s.channels.unwrap_or(0)),
        None => (None, 0),
    };
    let info: ProbeInfo = ProbeInfo {
        duration_us,
        fps: if kind == MediaKind::Video {
            fps
        } else {
            None
        },
        width,
        height,
        rotation,
        vcodec,
        acodec,
        audio_channels,
        vfr,
    };
    Ok((kind, info))
}

/// What a run of a tool came to: nothing where it succeeded, else its words.
pub fn judge_tool(tool: &str, success: bool, stderr: &str) -> (r: MediaResult<()>)
    ensures
        success <==> r is Ok,
        !success ==> r->Err_0@ == MediaErrV::Tool(tool@, text::trimmed(stderr@)),
{
    if success {
        Ok(())
    } else {
        Err(MediaError::Tool(copy_text(tool), trim(stderr)))
    }
}

// ---- files that come into a project ----

/// The size of the first and the last part of a file that its hash covers.
pub const CHUNK: u64 = 0x40_0000;

/// The lowest bytes of a number, the lowest first.
pub open spec fn low_bytes(n: nat, width: nat) -> Seq<u8>
    decreases width,
{
    if width == 0 {
        Seq::<u8>::empty()
    } else {
        seq![(n % 256) as u8] + low_bytes(n / 256, (width - 1) as nat)
    }
}

/// What the hash of a file covers: its size, its first part and, where there is
/// more, its last part.
pub open spec fn covered(size: u64, head: Seq<u8>, tail: Seq<u8>) -> Seq<u8> {
    let start = low_bytes(size as nat, 8) + head;
    if size > CHUNK {
        start + tail
    } else {
        start
    }
}

/// The digit of a number below sixteen.
pub open spec fn hex_digit(d: nat) -> char {
    "0123456789abcdef"@[d as int]
}

/// The lowest digits of a number in base sixteen.
pub open spec fn hex(n: nat, width: nat) -> Seq<char>
    decreases width,
{
    if width == 0 {
        Seq::<char>::empty()
    } else {
        hex(n / 16, (width - 1) as nat).push(hex_digit(n % 16))
    }
}

/// What `Xxh3::digest` of the crate `xxhash_rust` gives for some bytes.
pub uninterp spec fn xxh3_of(bytes: Seq<u8>) -> u64;

/// `Xxh3::new`, `update` and `digest` of the crate `xxhash_rust`, with the default
/// seed and secret: the digest is a function of the bytes alone.
#[verifier::external_body]
fn xxh3(bytes: &Vec<u8>) -> (h: u64)
    ensures
        h == xxh3_of(bytes@),
{
    let mut hasher = Xxh3::new();
    hasher.update(bytes);
    hasher.digest()
}

fn push_low_bytes(v: &mut Vec<u8>, n: u64, width: u32)
    ensures
        final(v)@ == old(v)@ + low_bytes(n as nat, width as nat),
    decreases width,
{
    if width == 0 {
        assert(v@ =~= old(v)@ + low_bytes(n as nat, 0));
        return;
    }
    let ghost before = v@;
    v.push((n % 256) as u8);
    push_low_bytes(v, n / 256, width - 1);
    assert(before.push((n % 256) as u8) + low_bytes(n as nat / 256, (width - 1) as nat)
        =~= before + low_bytes(n as nat, width as nat));
}

/// Adds bytes at the end.
pub fn push_bytes(v: &mut Vec<u8>, more: &Vec<u8>)
    ensures
        final(v)@ == old(v)@ + more@,
{
    let ghost before = v@;
    let mut i: usize = 0;
    assert(before + more@.take(0) =~= before);
    while i < more.len()
        invariant
            i <= more.len(),
            v@ == before + more@.take(i as int),
        decreases more.len() - i,
    {
        v.push(more[i]);
        assert(before + more@.take(i + 1) =~= (before + more@.take(i as int)).push(
            more@[i as int],
        ));
        i = i + 1;
    }
    assert(more@.take(i as int) =~= more@);
}

fn hex_char(d: u8) -> (c: char)
    requires
        d < 16,
    ensures
        c == hex_digit(d as nat),
{
    proof {
        reveal_strlit("0123456789abcdef");
    }
    let v: Vec<char> = chars_of("0123456789abcdef");
    v[d as usize]
}

fn to_hex(n: u64, width: u32) -> (s: String)
    ensures
        s@ == hex(n as nat, width as nat),
    decreases width,
{
    if width == 0 {
        String::new()
    } else {
        let mut s: String = to_hex(n / 16, width - 1);
        s.push(hex_char((n % 16) as u8));
        s
    }
}

/// Writes the hash of a file as text.
pub fn hash_text(h: u64) -> (r: String)
    ensures
        r@ == "xxh3:"@ + hex(h as nat, 16),
{
    let digits: String = to_hex(h, 16);
    let mut r: String = copy_text("xxh3:");
    r.append(digits.as_str());
    r
}

/// Hashes a file by its size, its first part and its last part.
pub fn content_hash(size: u64, head: &Vec<u8>, tail: &Vec<u8>) -> (r: String)
    ensures
        r@ == "xxh3:"@ + hex(xxh3_of(covered(size, head@, tail@)) as nat, 16),
{
    let mut all: Vec<u8> = Vec::new();
    push_low_bytes(&mut all, size, 8);
    assert(Seq::<u8>::empty() + low_bytes(size as nat, 8) =~= low_bytes(size as nat, 8));
    push_bytes(&mut all, head);
    if size > CHUNK {
        push_bytes(&mut all, tail);
    }
    hash_text(xxh3(&all))
}

/// Makes an asset of a file that was probed and hashed, under a new identifier.
pub fn new_asset(kind: MediaKind, path: &str, content_hash: String, probe: ProbeInfo) -> (a: MediaAsset)
    ensures
        a.kind == kind,
        a.path@ == path@,
        a.content_hash == content_hash,
        a.probe == probe,
        a.proxy is None,
        a.audio_conform is None,
        a.peaks is None,
        a.thumbnails is None,
        a.transcript is None,
        !a.offline,
{
    MediaAsset {
        id: Id::new(),
        kind,
        path: copy_text(path),
        content_hash,
        probe,
        proxy: None,
        audio_conform: None,
        peaks: None,
        thumbnails: None,
        transcript: None,
        offline: false,
    }
}

/// How long the clip of a still picture is at first.
pub const IMAGE_CLIP_DURATION_US: i64 = 5_000_000;

/// Tells how long the clip of an asset is at first.
pub fn default_clip_duration(asset: &MediaAsset) -> (t: i64)
    ensures
        t == if asset.kind == MediaKind::Image {
            IMAGE_CLIP_DURATION_US
        } else {
            asset.probe.duration_us
        },
{
    match asset.kind {
        MediaKind::Image => IMAGE_CLIP_DURATION_US,
        _ => asset.probe.duration_us,
    }
}

/// A list with more texts.
pub fn push_args(v: &mut Vec<String>, more: &Vec<&'static str>)
    ensures
        text::texts(final(v)@) == text::texts(old(v)@) + more@.map_values(|s: &'static str| s@),
{
    let ghost before = text::texts(v@);
    let ghost all = more@.map_values(|s: &'static str| s@);
    let mut i: usize = 0;
    assert(before + all.take(0) =~= before);
    while i < more.len()
        invariant
            i <= more.len(),
            all == more@.map_values(|s: &'static str| s@),
            text::texts(v@) == before + all.take(i as int),
        decreases more.len() - i,
    {
        assert(before + all.take(i + 1) =~= (before + all.take(i as int)).push(all[i as int]));
        push_text(v, copy_text(more[i]));
        i = i + 1;
    }
    assert(all.take(i as int) =~= all);
}

/// Makes the call of ffmpeg that conforms the sound of a file to 48 kHz stereo.
pub fn conform_args(src: &str, tmp: &str) -> (r: Vec<String>)
    ensures
        text::texts(r@) == seq![
            "-y"@,
            "-v"@,
            "error"@,
            "-i"@,
            src@,
            "-vn"@,
            "-ac"@,
            "2"@,
            "-ar"@,
            "48000"@,
            "-c:a"@,
            "pcm_s16le"@,
            "-f"@,
            "wav"@,
            tmp@,
        ],
{
    let mut r: Vec<String> = Vec::new();
    assert(text::texts(r@) =~= Seq::<Seq<char>>::empty());
    push_args(&mut r, &vec!["-y", "-v", "error", "-i"]);
    push_text(&mut r, copy_text(src));
    push_args(
        &mut r,
        &vec!["-vn", "-ac", "2", "-ar", "48000", "-c:a", "pcm_s16le", "-f", "wav"],
    );
    push_text(&mut r, copy_text(tmp));
    assert(text::texts(r@) =~= seq![
        "-y"@,
        "-v"@,
        "error"@,
        "-i"@,
        src@,
        "-vn"@,
        "-ac"@,
        "2"@,
        "-ar"@,
        "48000"@,
        "-c:a"@,
        "pcm_s16le"@,
        "-f"@,
        "wav"@,
        tmp@,
    ]);
    r
}

} // verus!
