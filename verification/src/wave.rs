//! Sound in memory: stereo frames of sixteen bits, read as numbers of single
//! precision.

use vstd::prelude::*;

use crate::float::Real;

verus! {

/// What the left and the right channel hold at one moment, from minus one to
/// one.
pub type Frame = (Real, Real);

/// A sound, frame by frame.
#[derive(Debug)]
pub struct Wave {
    pub sample_rate: u32,
    pub frames: Vec<(i16, i16)>,
}

/// A sample of sixteen bits as a number.
pub open spec fn sample(v: i16) -> Real {
    Real::of(v as int).over(Real::of(32768))
}

/// The frame at a place; silence outside of the sound.
pub open spec fn frame_of(frames: Seq<(i16, i16)>, at: int) -> Frame {
    if 0 <= at < frames.len() {
        (sample(frames[at].0), sample(frames[at].1))
    } else {
        silence()
    }
}

/// A frame without sound.
pub open spec fn silence() -> Frame {
    (Real::of(0), Real::of(0))
}

/// Makes a frame without sound.
pub fn silent_frame() -> (f: Frame)
    ensures
        f == silence(),
{
    (Real::from_int(0), Real::from_int(0))
}

fn read_sample(v: i16) -> (x: Real)
    ensures
        x == sample(v),
{
    Real::from_int(v as i64).div(Real::from_int(32768))
}

impl Wave {
    /// Reads the frame at a place; silence outside of the sound.
    pub fn frame(&self, at: i64) -> (f: Frame)
        ensures
            f == frame_of(self.frames@, at as int),
    {
        self.read(at as i128)
    }

    /// Reads the frame at a place that may be far away.
    pub fn read(&self, at: i128) -> (f: Frame)
        ensures
            f == frame_of(self.frames@, at as int),
    {
        if 0 <= at && at < self.frames.len() as i128 {
            let x: (i16, i16) = self.frames[at as usize];
            (read_sample(x.0), read_sample(x.1))
        } else {
            silent_frame()
        }
    }
}

/// The sum of two numbers in single precision.
pub open spec fn sum(a: Real, b: Real) -> Real {
    a.plus(b).single()
}

/// Adds two numbers in single precision.
pub fn add_single(a: Real, b: Real) -> (r: Real)
    ensures
        r == sum(a, b),
{
    a.add(b).to_single()
}

/// The product of two numbers in single precision.
pub open spec fn product(a: Real, b: Real) -> Real {
    a.times(b).single()
}

/// Multiplies two numbers in single precision.
pub fn mul_single(a: Real, b: Real) -> (r: Real)
    ensures
        r == product(a, b),
{
    a.mul(b).to_single()
}

/// Both channels of a frame together.
pub open spec fn mono(f: Frame) -> Real {
    sum(f.0, f.1)
}

/// Adds both channels of a frame.
pub fn to_mono(f: Frame) -> (r: Real)
    ensures
        r == mono(f),
{
    add_single(f.0, f.1)
}

} // verus!
