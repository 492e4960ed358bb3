//! Playing a sound faster or slower without changing its pitch.
//!
//! Windows of fixed length are laid down one after the other at the output rate,
//! while the place in the source moves on at the speed. Each window is moved a
//! little, to the place that best continues the one before.

use std::collections::VecDeque;

use vstd::prelude::*;

use crate::float::Real;
use crate::time;
use crate::time::{hold, plus};
use crate::wave;
use crate::wave::{add_single, mul_single, silent_frame, to_mono, Frame, Wave};

verus! {

/// The length of a window in frames.
pub const WIN: usize = 1024;

/// How far the next window is: half a window.
pub const HOP: usize = 512;

/// How far a window may be moved, in frames.
pub const SEARCH: i64 = 288;

/// The distance between two places that are tried, and between two frames that
/// are compared.
pub const STRIDE: i64 = 4;

/// How many frames are compared.
pub const TAPS: usize = 64;

/// How far the output may skip before the stretcher starts anew.
pub const LONGEST_SKIP: i64 = 4096;

/// The bits of 0.05.
pub const SLOWEST_BITS: u64 = 0x3FA9_9999_9999_999A;

/// The bits of 20.
pub const FASTEST_BITS: u64 = 0x4034_0000_0000_0000;

/// The bits of a millionth.
pub const MILLIONTH_BITS: u64 = 0x3EB0_C6F7_A0B5_ED8D;

/// The bits of the least number of single precision.
pub const LEAST_SINGLE_BITS: u64 = 0xC7EF_FFFF_E000_0000;

/// Where a stretcher is in its output and its source.
#[derive(Debug, Clone, Copy)]
pub struct Stretcher {
    pub speed: Real,
    /// The frame of the output that comes next.
    pub next_out: i64,
    /// Where the next window would be taken from.
    pub nominal: Real,
    /// Where the last window was taken from.
    pub prev_src: i64,
}

/// A stretcher that starts at a frame of the output.
pub open spec fn started(speed: Real, out_frame: i64) -> Stretcher {
    let nominal = Real::of(out_frame as int).times(speed);
    Stretcher {
        speed,
        next_out: out_frame,
        nominal,
        prev_src: time::held(nominal.to_whole_int() - HOP),
    }
}

/// What to do for a frame of the output.
#[derive(Debug, Clone, Copy, PartialEq, Eq, Structural)]
pub enum Pull {
    /// Give the last sample again.
    Repeat,
    /// Leave out so many samples, and give the next.
    Skip(i64),
    /// Forget what is laid down already, and give the next sample.
    Restart,
}

/// What to do for a frame: one that was just given is given again, a short skip
/// is made good, and anything else is a jump.
pub open spec fn pull_for(next_out: i64, rel: i64) -> Pull {
    let ahead = rel - next_out;
    if ahead == -1 {
        Pull::Repeat
    } else if 0 <= ahead <= LONGEST_SKIP {
        Pull::Skip(ahead as i64)
    } else {
        Pull::Restart
    }
}

/// The stretcher after a frame was asked for.
pub open spec fn asked(s: Stretcher, rel: i64) -> Stretcher {
    match pull_for(s.next_out, rel) {
        Pull::Repeat => s,
        Pull::Skip(_) => Stretcher { next_out: time::held(rel + 1), ..s },
        Pull::Restart => Stretcher { next_out: time::held(rel + 1), ..started(s.speed, rel) },
    }
}

/// The best of the first places: the one with the greatest likeness, and the
/// first of equals.
pub open spec fn best_place(scores: Seq<Real>, n: nat) -> (Option<nat>, Real)
    decreases n,
{
    if n == 0 {
        (None, Real { bits: LEAST_SINGLE_BITS })
    } else {
        let before = best_place(scores, (n - 1) as nat);
        if before.1.less(scores[n - 1]) {
            (Some((n - 1) as nat), scores[n - 1])
        } else {
            before
        }
    }
}

/// How far a window is moved, given the likeness at each place that was tried.
pub open spec fn moved_by(scores: Seq<Real>) -> int {
    match best_place(scores, scores.len()).0 {
        Some(i) => STRIDE * i - SEARCH,
        None => 0,
    }
}

/// Whether the next window has to be moved: at the speed of the source none is.
pub open spec fn seeks(s: Stretcher) -> bool {
    !s.speed.minus(Real::of(1)).magn().less(Real { bits: MILLIONTH_BITS })
}

/// The stretcher after the next window was taken, moved so far.
pub open spec fn advanced(s: Stretcher, d: int) -> Stretcher {
    Stretcher {
        nominal: s.nominal.plus(Real::of(HOP as int).times(s.speed)),
        prev_src: time::held(s.nominal.to_whole_int() + d),
        ..s
    }
}

impl Stretcher {
    /// Starts a stretcher; the speed is kept in bounds.
    pub fn new(speed: Real) -> (s: Stretcher)
        ensures
            s == started(
                speed.within(Real { bits: SLOWEST_BITS }, Real { bits: FASTEST_BITS }),
                0,
            ),
    {
        start(speed.clamp(Real { bits: SLOWEST_BITS }, Real { bits: FASTEST_BITS }), 0)
    }

    /// Decides what to do for a frame of the output, and moves there.
    pub fn ask(&mut self, rel: i64) -> (p: Pull)
        ensures
            p == pull_for(old(self).next_out, rel),
            *final(self) == asked(*old(self), rel),
    {
        let ahead: i128 = rel as i128 - self.next_out as i128;
        if ahead == -1 {
            return Pull::Repeat;
        }
        if 0 <= ahead && ahead <= LONGEST_SKIP as i128 {
            self.next_out = plus(rel, 1);
            return Pull::Skip(ahead as i64);
        }
        let fresh: Stretcher = start(self.speed, rel);
        *self = Stretcher { next_out: plus(rel, 1), ..fresh };
        Pull::Restart
    }

    /// Tells whether the next window has to be moved.
    pub fn searches(&self) -> (b: bool)
        ensures
            b == seeks(*self),
    {
        !self.speed.sub(Real::from_int(1)).abs().lt(Real { bits: MILLIONTH_BITS })
    }

    /// Takes the next window, moved so far, and tells where it starts.
    pub fn advance(&mut self, d: i64) -> (s: i64)
        ensures
            s == final(self).prev_src,
            *final(self) == advanced(*old(self), d as int),
    {
        let s: i64 = plus(self.nominal.to_int(), d);
        self.prev_src = s;
        self.nominal = self.nominal.add(Real::from_int(HOP as i64).mul(self.speed));
        s
    }
}

fn start(speed: Real, out_frame: i64) -> (s: Stretcher)
    ensures
        s == started(speed, out_frame),
{
    let nominal: Real = Real::from_int(out_frame).mul(speed);
    Stretcher {
        speed,
        next_out: out_frame,
        nominal,
        prev_src: hold(nominal.to_int() as i128 - HOP as i128),
    }
}

/// How many places are tried: one at each stride from the first to the last.
pub const PLACES: usize = 145;

/// Picks the place that continues the last window best, given the likeness at
/// each place that was tried.
pub fn best_offset(scores: &Vec<Real>) -> (d: i64)
    requires
        scores.len() <= PLACES,
    ensures
        d == moved_by(scores@),
{
    let mut best: Option<usize> = None;
    let mut score: Real = Real { bits: LEAST_SINGLE_BITS };
    let mut i: usize = 0;
    while i < scores.len()
        invariant
            i <= scores.len(),
            scores.len() <= PLACES,
            score == best_place(scores@, i as nat).1,
            match best {
                Some(k) => best_place(scores@, i as nat).0 == Some(k as nat) && k < i,
                None => best_place(scores@, i as nat).0 is None,
            },
        decreases scores.len() - i,
    {
        if score.lt(scores[i]) {
            score = scores[i];
            best = Some(i);
        }
        i = i + 1;
    }
    match best {
        Some(k) => STRIDE * (k as i64) - SEARCH,
        None => 0,
    }
}

/// A window is never moved further than the search goes.
pub proof fn law_move_is_bounded(scores: Seq<Real>)
    requires
        scores.len() <= PLACES,
    ensures
        -SEARCH <= moved_by(scores) <= SEARCH,
{
    lemma_best_place(scores, scores.len());
}

proof fn lemma_best_place(scores: Seq<Real>, n: nat)
    ensures
        best_place(scores, n).0 matches Some(i) ==> i < n,
    decreases n,
{
    if n > 0 {
        lemma_best_place(scores, (n - 1) as nat);
    }
}

/// A frame that was just given can be asked for again, and skips of a device
/// with another rate do not start the stretcher anew: its source goes on from
/// where it was.
pub proof fn law_small_steps_go_on(s: Stretcher, rel: i64)
    requires
        -1 <= rel - s.next_out <= LONGEST_SKIP,
    ensures
        pull_for(s.next_out, rel) !is Restart,
        asked(s, rel).nominal == s.nominal,
        asked(s, rel).prev_src == s.prev_src,
{
}

/// Whatever was asked for, the frame behind it comes next.
pub proof fn law_asked_frame_is_given(s: Stretcher, rel: i64)
    requires
        rel < i64::MAX,
    ensures
        asked(s, rel).next_out == rel + 1,
        pull_for(asked(s, rel).next_out, rel) == Pull::Repeat,
{
}

// ---- the sound ----

/// How many frames the places reach over: as many as there are places, and what
/// is compared from the last of them.
pub const REACH: usize = 208;

/// Frames at each stride from a place, both channels together.
pub open spec fn taps(frames: Seq<(i16, i16)>, at: int, n: nat) -> Seq<Real> {
    Seq::new(n, |k: int| wave::mono(wave::frame_of(frames, at + STRIDE * k)))
}

/// How alike some frames are to those from a place on.
pub open spec fn likeness(a: Seq<Real>, b: Seq<Real>, place: int, n: nat) -> Real
    decreases n,
{
    if n == 0 {
        Real::of(0)
    } else {
        wave::sum(
            likeness(a, b, place, (n - 1) as nat),
            wave::product(a[n - 1], b[place + n - 1]),
        )
    }
}

/// How alike each place is to what the last window goes on with.
pub open spec fn likenesses(frames: Seq<(i16, i16)>, src_in: int, s: Stretcher) -> Seq<Real> {
    let a = taps(frames, src_in + s.prev_src + HOP, TAPS as nat);
    let b = taps(frames, src_in + s.nominal.to_whole_int() - SEARCH, REACH as nat);
    Seq::new(PLACES as nat, |i: int| likeness(a, b, i, TAPS as nat))
}

/// How far the next window is moved.
pub open spec fn shift(frames: Seq<(i16, i16)>, src_in: int, s: Stretcher) -> int {
    if seeks(s) {
        moved_by(likenesses(frames, src_in, s))
    } else {
        0
    }
}

/// A frame as loud as a window makes it.
pub open spec fn weighed(f: Frame, w: Real) -> Frame {
    (wave::product(f.0, w), wave::product(f.1, w))
}

/// Two frames over each other.
pub open spec fn both(a: Frame, b: Frame) -> Frame {
    (wave::sum(a.0, b.0), wave::sum(a.1, b.1))
}

/// A stretcher with the sound that it has laid down.
#[derive(Debug)]
pub struct Wsola {
    pub stretcher: Stretcher,
    /// The second half of the last window, which the next one is laid over.
    pub tail: Vec<Frame>,
    /// What is finished and not given yet.
    pub ready: VecDeque<Frame>,
    /// How loud each frame of a window is.
    pub window: Vec<Real>,
    /// The frame that was given last.
    pub last: Frame,
}

/// The contents of a `Wsola`.
#[verifier::ext_equal]
pub struct WsolaV {
    pub stretcher: Stretcher,
    pub tail: Seq<Frame>,
    pub ready: Seq<Frame>,
    pub window: Seq<Real>,
    pub last: Frame,
}

impl View for Wsola {
    type V = WsolaV;

    open spec fn view(&self) -> WsolaV {
        WsolaV {
            stretcher: self.stretcher,
            tail: self.tail@,
            ready: self.ready@,
            window: self.window@,
            last: self.last,
        }
    }
}

/// Half a window of silence.
pub open spec fn quiet() -> Seq<Frame> {
    Seq::new(HOP as nat, |k: int| wave::silence())
}

/// A stretcher that has laid down the next window as well.
pub open spec fn laid(w: WsolaV, frames: Seq<(i16, i16)>, src_in: int) -> WsolaV {
    let s = advanced(w.stretcher, shift(frames, src_in, w.stretcher));
    let at = src_in + s.prev_src;
    WsolaV {
        stretcher: s,
        ready: w.ready + Seq::new(
            HOP as nat,
            |k: int| both(w.tail[k], weighed(wave::frame_of(frames, at + k), w.window[k])),
        ),
        tail: Seq::new(
            HOP as nat,
            |k: int| weighed(wave::frame_of(frames, at + HOP + k), w.window[HOP + k]),
        ),
        ..w
    }
}

/// The next frame, and the stretcher without it.
pub open spec fn pulled(w: WsolaV, frames: Seq<(i16, i16)>, src_in: int) -> (Frame, WsolaV) {
    let x = if w.ready.len() == 0 {
        laid(w, frames, src_in)
    } else {
        w
    };
    (x.ready[0], WsolaV { ready: x.ready.drop_first(), ..x })
}

/// A stretcher without the next frames.
pub open spec fn skipped(w: WsolaV, frames: Seq<(i16, i16)>, src_in: int, n: nat) -> WsolaV
    decreases n,
{
    if n == 0 {
        w
    } else {
        pulled(skipped(w, frames, src_in, (n - 1) as nat), frames, src_in).1
    }
}

/// A stretcher that has given its next frame.
pub open spec fn given(w: WsolaV, frames: Seq<(i16, i16)>, src_in: int) -> WsolaV {
    let p = pulled(w, frames, src_in);
    WsolaV { last: p.0, ..p.1 }
}

/// A stretcher that has given a frame of the output.
pub open spec fn gave(w: WsolaV, frames: Seq<(i16, i16)>, src_in: int, rel: i64) -> WsolaV {
    let s = asked(w.stretcher, rel);
    match pull_for(w.stretcher.next_out, rel) {
        Pull::Repeat => w,
        Pull::Skip(n) => given(
            skipped(WsolaV { stretcher: s, ..w }, frames, src_in, n as nat),
            frames,
            src_in,
        ),
        Pull::Restart => given(
            WsolaV { stretcher: s, tail: quiet(), ready: Seq::empty(), ..w },
            frames,
            src_in,
        ),
    }
}

fn read_taps(w: &Wave, at: i128, n: usize) -> (r: Vec<Real>)
    requires
        -0x1_0000_0000_0000_0000_0000 <= at <= 0x1_0000_0000_0000_0000_0000,
        n <= REACH,
    ensures
        r@ == taps(w.frames@, at as int, n as nat),
{
    let mut r: Vec<Real> = Vec::new();
    let mut k: usize = 0;
    while k < n
        invariant
            -0x1_0000_0000_0000_0000_0000 <= at <= 0x1_0000_0000_0000_0000_0000,
            k <= n <= REACH,
            r@ == taps(w.frames@, at as int, k as nat),
        decreases n - k,
    {
        r.push(to_mono(w.read(at + STRIDE as i128 * k as i128)));
        k = k + 1;
        assert(r@ =~= taps(w.frames@, at as int, k as nat));
    }
    r
}

fn find_likeness(a: &Vec<Real>, b: &Vec<Real>, place: usize) -> (r: Real)
    requires
        a.len() == TAPS,
        b.len() == REACH,
        place < PLACES,
    ensures
        r == likeness(a@, b@, place as int, TAPS as nat),
{
    let mut r: Real = Real::from_int(0);
    let mut k: usize = 0;
    while k < TAPS
        invariant
            a.len() == TAPS,
            b.len() == REACH,
            place < PLACES,
            k <= TAPS,
            r == likeness(a@, b@, place as int, k as nat),
        decreases TAPS - k,
    {
        r = add_single(r, mul_single(a[k], b[place + k]));
        k = k + 1;
    }
    r
}

fn find_likenesses(w: &Wave, src_in: i64, s: &Stretcher) -> (r: Vec<Real>)
    ensures
        r@ == likenesses(w.frames@, src_in as int, *s),
{
    let nominal: i64 = s.nominal.to_int();
    let a: Vec<Real> = read_taps(w, src_in as i128 + s.prev_src as i128 + HOP as i128, TAPS);
    let b: Vec<Real> = read_taps(w, src_in as i128 + nominal as i128 - SEARCH as i128, REACH);
    let ghost all = likenesses(w.frames@, src_in as int, *s);
    let mut r: Vec<Real> = Vec::new();
    let mut i: usize = 0;
    while i < PLACES
        invariant
            a@ == taps(w.frames@, src_in + s.prev_src + HOP, TAPS as nat),
            b@ == taps(w.frames@, src_in + s.nominal.to_whole_int() - SEARCH, REACH as nat),
            all == likenesses(w.frames@, src_in as int, *s),
            i <= PLACES,
            r@ == all.take(i as int),
        decreases PLACES - i,
    {
        r.push(find_likeness(&a, &b, i));
        i = i + 1;
        assert(r@ =~= all.take(i as int));
    }
    assert(all.take(PLACES as int) =~= all);
    r
}

fn weigh(f: Frame, w: Real) -> (r: Frame)
    ensures
        r == weighed(f, w),
{
    (mul_single(f.0, w), mul_single(f.1, w))
}

fn lay_over(a: Frame, b: Frame) -> (r: Frame)
    ensures
        r == both(a, b),
{
    (add_single(a.0, b.0), add_single(a.1, b.1))
}

fn make_quiet() -> (r: Vec<Frame>)
    ensures
        r@ == quiet(),
{
    let mut r: Vec<Frame> = Vec::new();
    while r.len() < HOP
        invariant
            r.len() <= HOP,
            r@ == quiet().take(r@.len() as int),
        decreases HOP - r.len(),
    {
        r.push(silent_frame());
        assert(r@ =~= quiet().take(r@.len() as int));
    }
    assert(quiet().take(HOP as int) =~= quiet());
    r
}

impl Wsola {
    /// Whether the parts have the length that they should.
    pub open spec fn wf(self) -> bool {
        self.tail.len() == HOP && self.window.len() == WIN
    }

    /// Starts a stretcher; the speed is kept in bounds. Windows are as loud as
    /// is said for each of their frames.
    pub fn new(speed: Real, window: Vec<Real>) -> (w: Wsola)
        requires
            window.len() == WIN,
        ensures
            w.wf(),
            w@ == (WsolaV {
                stretcher: started(
                    speed.within(Real { bits: SLOWEST_BITS }, Real { bits: FASTEST_BITS }),
                    0,
                ),
                tail: quiet(),
                ready: Seq::empty(),
                window: window@,
                last: wave::silence(),
            }),
    {
        Wsola {
            stretcher: Stretcher::new(speed),
            tail: make_quiet(),
            ready: VecDeque::new(),
            window,
            last: silent_frame(),
        }
    }

    /// Lays down the next window.
    fn generate(&mut self, w: &Wave, src_in: i64)
        requires
            old(self).wf(),
        ensures
            final(self).wf(),
            final(self)@ == laid(old(self)@, w.frames@, src_in as int),
    {
        let ghost before = self@;
        let ghost after = laid(before, w.frames@, src_in as int);
        let d: i64 = if self.stretcher.searches() {
            let scores: Vec<Real> = find_likenesses(w, src_in, &self.stretcher);
            best_offset(&scores)
        } else {
            0
        };
        let s: i64 = self.stretcher.advance(d);
        let at: i128 = src_in as i128 + s as i128;
        let mut tail: Vec<Frame> = Vec::new();
        let mut k: usize = 0;
        assert(self.ready@ =~= after.ready.take(before.ready.len() as int));
        while k < HOP
            invariant
                self.wf(),
                before.tail == self.tail@,
                before.window == self.window@,
                before.last == self.last,
                after == laid(before, w.frames@, src_in as int),
                self.stretcher == after.stretcher,
                at == src_in + after.stretcher.prev_src,
                k <= HOP,
                self.ready@ == after.ready.take(before.ready.len() + k),
                tail@ == after.tail.take(k as int),
            decreases HOP - k,
        {
            let f: Frame = weigh(w.read(at + k as i128), self.window[k]);
            self.ready.push_back(lay_over(self.tail[k], f));
            tail.push(weigh(w.read(at + HOP as i128 + k as i128), self.window[HOP + k]));
            k = k + 1;
            assert(self.ready@ =~= after.ready.take(before.ready.len() + k));
            assert(tail@ =~= after.tail.take(k as int));
        }
        assert(after.ready.take(before.ready.len() + HOP) =~= after.ready);
        assert(after.tail.take(HOP as int) =~= after.tail);
        self.tail = tail;
    }

    /// Takes the next frame.
    fn pull(&mut self, w: &Wave, src_in: i64) -> (f: Frame)
        requires
            old(self).wf(),
        ensures
            final(self).wf(),
            (f, final(self)@) == pulled(old(self)@, w.frames@, src_in as int),
    {
        if self.ready.len() == 0 {
            self.generate(w, src_in);
        }
        let ghost x = self.ready@;
        assert(x.len() > 0);
        match self.ready.pop_front() {
            Some(f) => {
                assert(self.ready@ =~= x.drop_first());
                f
            },
            None => silent_frame(),
        }
    }

    /// Gives a frame of the output, relative to the clip, whose sound starts at
    /// `src_in`. The frame that was just given is given again, and a short skip
    /// is made good; only a jump starts anew.
    pub fn frame_at(&mut self, w: &Wave, src_in: i64, rel: i64) -> (f: Frame)
        requires
            old(self).wf(),
        ensures
            final(self).wf(),
            final(self)@ == gave(old(self)@, w.frames@, src_in as int, rel),
            f == final(self)@.last,
    {
        match self.stretcher.ask(rel) {
            Pull::Repeat => {
                return self.last;
            },
            Pull::Skip(n) => {
                let ghost here = self@;
                let mut i: i64 = 0;
                while i < n
                    invariant
                        0 <= i <= n,
                        self.wf(),
                        self@ == skipped(here, w.frames@, src_in as int, i as nat),
                    decreases n - i,
                {
                    let _skipped: Frame = self.pull(w, src_in);
                    i = i + 1;
                }
            },
            Pull::Restart => {
                self.tail = make_quiet();
                self.ready = VecDeque::new();
            },
        }
        let f: Frame = self.pull(w, src_in);
        self.last = f;
        f
    }
}

/// The frame that was just given is given again, and nothing moves on.
pub proof fn law_repeat_gives_the_same(w: WsolaV, frames: Seq<(i16, i16)>, src_in: int, rel: i64)
    requires
        rel < i64::MAX,
    ensures
        gave(gave(w, frames, src_in, rel), frames, src_in, rel) == gave(w, frames, src_in, rel),
{
    let s = asked(w.stretcher, rel);
    match pull_for(w.stretcher.next_out, rel) {
        Pull::Repeat => {},
        Pull::Skip(n) => {
            let a = WsolaV { stretcher: s, ..w };
            lemma_skipped(a, frames, src_in, n as nat, s.next_out, a.last);
            lemma_pulled(
                skipped(a, frames, src_in, n as nat),
                frames,
                src_in,
                s.next_out,
                a.last,
            );
        },
        Pull::Restart => {},
    }
}

/// A short skip is as good as asking for the frames one by one: what comes after
/// it is the same.
pub proof fn law_skip_is_steps(w: WsolaV, frames: Seq<(i16, i16)>, src_in: int, rel: i64)
    requires
        1 <= rel - w.stretcher.next_out <= LONGEST_SKIP,
        rel < i64::MAX,
    ensures
        gave(gave(w, frames, src_in, (rel - 1) as i64), frames, src_in, rel) == gave(
            w,
            frames,
            src_in,
            rel,
        ),
{
    let n: nat = (rel - w.stretcher.next_out) as nat;
    let a = WsolaV { stretcher: asked(w.stretcher, (rel - 1) as i64), ..w };
    let b = WsolaV { stretcher: asked(w.stretcher, rel), ..w };
    let m: nat = (n - 1) as nat;
    let before = skipped(a, frames, src_in, m);
    let near = given(before, frames, src_in);
    let nx = b.stretcher.next_out;
    assert(b == marked(a, nx, a.last));
    lemma_skipped(a, frames, src_in, m, nx, a.last);
    lemma_skipped(a, frames, src_in, m, a.stretcher.next_out, a.last);
    lemma_pulled(before, frames, src_in, nx, a.last);
    lemma_pulled(before, frames, src_in, a.stretcher.next_out, a.last);
    let behind = pulled(before, frames, src_in).1;
    assert(gave(w, frames, src_in, (rel - 1) as i64) == near);
    assert(near.stretcher.next_out == rel);
    assert(WsolaV { stretcher: asked(near.stretcher, rel), ..near } == marked(behind, nx, near.last));
    lemma_pulled(behind, frames, src_in, nx, near.last);
    lemma_pulled(behind, frames, src_in, nx, a.last);
    assert(skipped(b, frames, src_in, n) == marked(behind, nx, a.last));
    assert(skipped(marked(behind, nx, near.last), frames, src_in, 0) == marked(behind, nx, near.last));
}

/// A stretcher with another number for the next frame and another last frame.
spec fn marked(w: WsolaV, next_out: i64, last: Frame) -> WsolaV {
    WsolaV { stretcher: Stretcher { next_out, ..w.stretcher }, last, ..w }
}

proof fn lemma_pulled(w: WsolaV, frames: Seq<(i16, i16)>, src_in: int, next_out: i64, last: Frame)
    ensures
        pulled(marked(w, next_out, last), frames, src_in).0 == pulled(w, frames, src_in).0,
        pulled(marked(w, next_out, last), frames, src_in).1 == marked(
            pulled(w, frames, src_in).1,
            next_out,
            last,
        ),
        pulled(w, frames, src_in).1.stretcher.next_out == w.stretcher.next_out,
        pulled(w, frames, src_in).1.last == w.last,
{
    let x = marked(w, next_out, last);
    assert(likenesses(frames, src_in, x.stretcher) =~= likenesses(frames, src_in, w.stretcher));
    let a = laid(x, frames, src_in);
    let b = laid(w, frames, src_in);
    assert(a.ready =~= b.ready);
    assert(a.tail =~= b.tail);
    assert(a == marked(b, next_out, last));
}

proof fn lemma_skipped(
    w: WsolaV,
    frames: Seq<(i16, i16)>,
    src_in: int,
    n: nat,
    next_out: i64,
    last: Frame,
)
    ensures
        skipped(marked(w, next_out, last), frames, src_in, n) == marked(
            skipped(w, frames, src_in, n),
            next_out,
            last,
        ),
        skipped(w, frames, src_in, n).stretcher.next_out == w.stretcher.next_out,
        skipped(w, frames, src_in, n).last == w.last,
    decreases n,
{
    if n > 0 {
        let m: nat = (n - 1) as nat;
        lemma_skipped(w, frames, src_in, m, next_out, last);
        lemma_pulled(skipped(w, frames, src_in, m), frames, src_in, next_out, last);
    }
}

} // verus!
