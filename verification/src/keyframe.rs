//! Parameters that are constant or follow a curve of keyframes.

use vstd::prelude::*;

use crate::float::Real;
use crate::time;
use crate::time::{minus, TimeUs};

verus! {

/// How the value runs from a key to the next.
#[derive(Clone, Copy, PartialEq, Eq, Structural, Debug)]
pub enum Interp {
    Hold,
    Linear,
    Smooth,
}

/// A value at a time, and how it goes on from there.
#[derive(Clone, Copy, PartialEq, Eq, Structural, Debug)]
pub struct Keyframe {
    pub t: TimeUs,
    pub value: Real,
    pub interp: Interp,
}

/// A value that changes over time.
#[derive(Debug, PartialEq)]
pub struct KeyframeCurve {
    pub keys: Vec<Keyframe>,
}

/// A value, constant or animated. Times are relative to the start of the clip.
#[derive(Debug, PartialEq)]
pub enum Param {
    Const(Real),
    Curve(KeyframeCurve),
}

/// The contents of a parameter.
#[verifier::ext_equal]
pub enum ParamV {
    Const(Real),
    Curve(Seq<Keyframe>),
}

impl View for Param {
    type V = ParamV;

    open spec fn view(&self) -> ParamV {
        match self {
            Param::Const(v) => ParamV::Const(*v),
            Param::Curve(c) => ParamV::Curve(c.keys@),
        }
    }
}

/// Whether the keys follow each other in time.
pub open spec fn increasing(keys: Seq<Keyframe>) -> bool {
    forall|i: int, j: int| 0 <= i < j < keys.len() ==> keys[i].t < keys[j].t
}

/// The first key that lies after `t`, or the count of keys.
pub open spec fn first_after(keys: Seq<Keyframe>, t: TimeUs) -> nat
    decreases keys.len(),
{
    if keys.len() == 0 || keys[0].t > t {
        0
    } else {
        1 + first_after(keys.drop_first(), t)
    }
}

/// The first key that lies at or after `t`, or the count of keys.
pub open spec fn first_from(keys: Seq<Keyframe>, t: TimeUs) -> nat
    decreases keys.len(),
{
    if keys.len() == 0 || keys[0].t >= t {
        0
    } else {
        1 + first_from(keys.drop_first(), t)
    }
}

proof fn lemma_first_after(keys: Seq<Keyframe>, t: TimeUs, i: nat)
    requires
        i <= keys.len(),
        forall|j: int| 0 <= j < i ==> keys[j].t <= t,
        i < keys.len() ==> keys[i as int].t > t,
    ensures
        first_after(keys, t) == i,
    decreases keys.len(),
{
    if i > 0 {
        let r = keys.drop_first();
        assert forall|j: int| 0 <= j < i - 1 implies r[j].t <= t by {
            assert(r[j] == keys[j + 1]);
        }
        lemma_first_after(r, t, (i - 1) as nat);
    }
}

proof fn lemma_first_from(keys: Seq<Keyframe>, t: TimeUs, i: nat)
    requires
        i <= keys.len(),
        forall|j: int| 0 <= j < i ==> keys[j].t < t,
        i < keys.len() ==> keys[i as int].t >= t,
    ensures
        first_from(keys, t) == i,
    decreases keys.len(),
{
    if i > 0 {
        let r = keys.drop_first();
        assert forall|j: int| 0 <= j < i - 1 implies r[j].t < t by {
            assert(r[j] == keys[j + 1]);
        }
        lemma_first_from(r, t, (i - 1) as nat);
    }
}

/// The first key at or after a time is that.
pub proof fn lemma_first_from_is(keys: Seq<Keyframe>, t: TimeUs)
    ensures
        first_from(keys, t) <= keys.len(),
        forall|j: int| 0 <= j < first_from(keys, t) ==> keys[j].t < t,
        first_from(keys, t) < keys.len() ==> keys[first_from(keys, t) as int].t >= t,
    decreases keys.len(),
{
    if keys.len() > 0 && keys[0].t < t {
        let r = keys.drop_first();
        lemma_first_from_is(r, t);
        assert forall|j: int| 0 <= j < first_from(keys, t) implies keys[j].t < t by {
            if j > 0 {
                assert(keys[j] == r[j - 1]);
            }
        }
    }
}

/// The first key after a time is that.
pub proof fn lemma_first_after_is(keys: Seq<Keyframe>, t: TimeUs)
    ensures
        first_after(keys, t) <= keys.len(),
        forall|j: int| 0 <= j < first_after(keys, t) ==> keys[j].t <= t,
        first_after(keys, t) < keys.len() ==> keys[first_after(keys, t) as int].t > t,
    decreases keys.len(),
{
    if keys.len() > 0 && keys[0].t <= t {
        let r = keys.drop_first();
        lemma_first_after_is(r, t);
        assert forall|j: int| 0 <= j < first_after(keys, t) implies keys[j].t <= t by {
            if j > 0 {
                assert(keys[j] == r[j - 1]);
            }
        }
    }
}

/// The value between two keys at a time between them.
pub open spec fn between(a: Keyframe, b: Keyframe, t: TimeUs) -> Real {
    let f = Real::of(time::sooner(t, a.t) as int).over(Real::of(time::sooner(b.t, a.t) as int));
    match a.interp {
        Interp::Hold => a.value,
        Interp::Linear => a.value.plus(b.value.minus(a.value).times(f)),
        Interp::Smooth => {
            let s = f.times(f).times(Real::of(3).minus(Real::of(2).times(f)));
            a.value.plus(b.value.minus(a.value).times(s))
        },
    }
}

/// The value of a curve at a time: before the first key its value, after the
/// last key that one's, and between two keys what the first of them says. A
/// curve without keys is zero.
pub open spec fn curve_at(keys: Seq<Keyframe>, t: TimeUs) -> Real {
    let j = first_after(keys, t) as int;
    if keys.len() == 0 {
        Real::of(0)
    } else if j == 0 {
        keys[0].value
    } else if j == keys.len() {
        keys[j - 1].value
    } else {
        between(keys[j - 1], keys[j], t)
    }
}

impl ParamV {
    /// The value at a time.
    pub open spec fn at(self, t: TimeUs) -> Real {
        match self {
            ParamV::Const(v) => v,
            ParamV::Curve(keys) => curve_at(keys, t),
        }
    }

    /// Whether every curve has its keys in order of time, no two at once.
    pub open spec fn tidy(self) -> bool {
        match self {
            ParamV::Const(v) => true,
            ParamV::Curve(keys) => increasing(keys),
        }
    }

    /// The value with its keys in order.
    pub open spec fn sanitized(self) -> ParamV {
        match self {
            ParamV::Const(v) => ParamV::Const(v),
            ParamV::Curve(keys) => ParamV::Curve(tidied(keys)),
        }
    }

    /// What is before a cut.
    pub open spec fn split_left(self, offset: TimeUs) -> ParamV {
        match self {
            ParamV::Const(v) => ParamV::Const(v),
            ParamV::Curve(keys) => ParamV::Curve(left_keys(keys, offset)),
        }
    }

    /// What is behind a cut, in its own time.
    pub open spec fn split_right(self, offset: TimeUs) -> ParamV {
        match self {
            ParamV::Const(v) => ParamV::Const(v),
            ParamV::Curve(keys) => ParamV::Curve(right_keys(keys, offset)),
        }
    }
}

/// Keys in order with one more put in its place; one at the same time gives
/// way.
pub open spec fn with_key(keys: Seq<Keyframe>, k: Keyframe) -> Seq<Keyframe> {
    let i = first_from(keys, k.t) as int;
    if i < keys.len() && keys[i].t == k.t {
        keys.update(i, k)
    } else {
        keys.insert(i, k)
    }
}

/// The keys in order of time; of those at one time the last one written.
pub open spec fn tidied(keys: Seq<Keyframe>) -> Seq<Keyframe>
    decreases keys.len(),
{
    if keys.len() == 0 {
        keys
    } else {
        with_key(tidied(keys.drop_last()), keys.last())
    }
}

/// Putting a key in keeps the order.
pub proof fn lemma_with_key_increasing(keys: Seq<Keyframe>, k: Keyframe)
    requires
        increasing(keys),
    ensures
        increasing(with_key(keys, k)),
        with_key(keys, k).len() > 0,
{
    lemma_first_from_is(keys, k.t);
    let i = first_from(keys, k.t) as int;
    let r = with_key(keys, k);
    assert forall|a: int, b: int| 0 <= a < b < r.len() implies r[a].t < r[b].t by {
        if i < keys.len() && keys[i].t == k.t {
        } else {
            let aa = if a < i {
                a
            } else {
                a - 1
            };
            let bb = if b < i {
                b
            } else {
                b - 1
            };
            if a != i {
                assert(r[a] == keys[aa]);
            }
            if b != i {
                assert(r[b] == keys[bb]);
            }
        }
    }
}

/// Tidied keys follow each other in time.
pub proof fn lemma_tidied_increasing(keys: Seq<Keyframe>)
    ensures
        increasing(tidied(keys)),
        keys.len() > 0 ==> tidied(keys).len() > 0,
    decreases keys.len(),
{
    if keys.len() > 0 {
        lemma_tidied_increasing(keys.drop_last());
        lemma_with_key_increasing(tidied(keys.drop_last()), keys.last());
    }
}

/// Keys that are in order already stay as they are.
pub proof fn lemma_tidied_same(keys: Seq<Keyframe>)
    requires
        increasing(keys),
    ensures
        tidied(keys) == keys,
    decreases keys.len(),
{
    if keys.len() > 0 {
        let r = keys.drop_last();
        assert forall|i: int, j: int| 0 <= i < j < r.len() implies r[i].t < r[j].t by {
            assert(r[i] == keys[i] && r[j] == keys[j]);
        }
        lemma_tidied_same(r);
        assert forall|j: int| 0 <= j < r.len() implies r[j].t < keys.last().t by {
            assert(r[j] == keys[j]);
        }
        lemma_first_from(r, keys.last().t, r.len());
        assert(with_key(r, keys.last()) == keys);
    }
}

/// The key that both halves get at the place of a cut.
pub open spec fn boundary_key(keys: Seq<Keyframe>, at: TimeUs, t: TimeUs) -> Keyframe {
    let j = first_after(keys, at) as int;
    Keyframe {
        t,
        value: curve_at(keys, at),
        interp: if j == 0 {
            keys[0].interp
        } else {
            keys[j - 1].interp
        },
    }
}

/// The keys before a cut, and one at the cut.
pub open spec fn left_keys(keys: Seq<Keyframe>, offset: TimeUs) -> Seq<Keyframe> {
    if keys.len() == 0 {
        keys
    } else {
        keys.take(first_from(keys, offset) as int).push(boundary_key(keys, offset, offset))
    }
}

/// A key at another origin of time.
pub open spec fn shifted_key(k: Keyframe, offset: TimeUs) -> Keyframe {
    Keyframe { t: time::sooner(k.t, offset), ..k }
}

/// One key at the cut, and the keys after it, in the time of the right half.
pub open spec fn right_keys(keys: Seq<Keyframe>, offset: TimeUs) -> Seq<Keyframe> {
    if keys.len() == 0 {
        keys
    } else {
        seq![boundary_key(keys, offset, 0)] + keys.skip(first_after(keys, offset) as int).map_values(
            |k: Keyframe| shifted_key(k, offset),
        )
    }
}

fn find_after(keys: &Vec<Keyframe>, t: TimeUs) -> (i: usize)
    ensures
        i == first_after(keys@, t),
        i <= keys.len(),
{
    let mut i: usize = 0;
    while i < keys.len() && keys[i].t <= t
        invariant
            i <= keys.len(),
            forall|j: int| 0 <= j < i ==> keys@[j].t <= t,
        decreases keys.len() - i,
    {
        i = i + 1;
    }
    proof {
        lemma_first_after(keys@, t, i as nat);
    }
    i
}

fn find_from(keys: &Vec<Keyframe>, t: TimeUs) -> (i: usize)
    ensures
        i == first_from(keys@, t),
        i <= keys.len(),
{
    let mut i: usize = 0;
    while i < keys.len() && keys[i].t < t
        invariant
            i <= keys.len(),
            forall|j: int| 0 <= j < i ==> keys@[j].t < t,
        decreases keys.len() - i,
    {
        i = i + 1;
    }
    proof {
        lemma_first_from(keys@, t, i as nat);
    }
    i
}

fn value_between(a: Keyframe, b: Keyframe, t: TimeUs) -> (v: Real)
    ensures
        v == between(a, b, t),
{
    let f: Real = Real::from_int(minus(t, a.t)).div(Real::from_int(minus(b.t, a.t)));
    match a.interp {
        Interp::Hold => a.value,
        Interp::Linear => a.value.add(b.value.sub(a.value).mul(f)),
        Interp::Smooth => {
            let s: Real = f.mul(f).mul(Real::from_int(3).sub(Real::from_int(2).mul(f)));
            a.value.add(b.value.sub(a.value).mul(s))
        },
    }
}

impl KeyframeCurve {
    /// A curve with the given keys.
    pub fn new(keys: Vec<Keyframe>) -> (c: KeyframeCurve)
        ensures
            c.keys@ == keys@,
    {
        KeyframeCurve { keys }
    }

    /// The value of the curve at a time.
    pub fn eval(&self, t: TimeUs) -> (v: Real)
        ensures
            v == curve_at(self.keys@, t),
    {
        if self.keys.len() == 0 {
            return Real::from_int(0);
        }
        let j: usize = find_after(&self.keys, t);
        if j == 0 {
            self.keys[0].value
        } else if j == self.keys.len() {
            self.keys[j - 1].value
        } else {
            value_between(self.keys[j - 1], self.keys[j], t)
        }
    }

    fn boundary(&self, at: TimeUs, t: TimeUs) -> (k: Keyframe)
        requires
            self.keys.len() > 0,
        ensures
            k == boundary_key(self.keys@, at, t),
    {
        let j: usize = find_after(&self.keys, at);
        let interp: Interp = if j == 0 { self.keys[0].interp } else { self.keys[j - 1].interp };
        Keyframe { t, value: self.eval(at), interp }
    }
}

impl Clone for KeyframeCurve {
    fn clone(&self) -> (r: Self)
        ensures
            r.keys@ == self.keys@,
    {
        let keys: Vec<Keyframe> = self.keys.clone();
        assert(keys@ == self.keys@);
        KeyframeCurve { keys }
    }
}

impl Clone for Param {
    fn clone(&self) -> (r: Self)
        ensures
            r@ == self@,
    {
        match self {
            Param::Const(v) => Param::Const(*v),
            Param::Curve(c) => Param::Curve(c.clone()),
        }
    }
}

impl Param {
    /// A parameter with one value for all times.
    pub fn constant(v: Real) -> (p: Param)
        ensures
            p@ == ParamV::Const(v),
    {
        Param::Const(v)
    }

    /// The value at a time.
    pub fn eval(&self, t: TimeUs) -> (v: Real)
        ensures
            v == self@.at(t),
    {
        match self {
            Param::Const(v) => *v,
            Param::Curve(c) => c.eval(t),
        }
    }

    /// The parameter with the keys of its curve sorted by time; of keys at one
    /// time the last one written stays.
    pub fn sanitized(&self) -> (p: Param)
        ensures
            p@ == self@.sanitized(),
    {
        match self {
            Param::Const(v) => Param::Const(*v),
            Param::Curve(c) => {
                let mut keys: Vec<Keyframe> = Vec::new();
                let mut i: usize = 0;
                while i < c.keys.len()
                    invariant
                        i <= c.keys.len(),
                        keys@ == tidied(c.keys@.take(i as int)),
                    decreases c.keys.len() - i,
                {
                    let k: Keyframe = c.keys[i];
                    proof {
                        let t = c.keys@.take(i as int + 1);
                        assert(t.drop_last() == c.keys@.take(i as int));
                        assert(t.last() == k);
                    }
                    let at: usize = find_from(&keys, k.t);
                    if at < keys.len() && keys[at].t == k.t {
                        keys[at] = k;
                    } else {
                        keys.insert(at, k);
                    }
                    i = i + 1;
                }
                assert(c.keys@.take(c.keys@.len() as int) == c.keys@);
                Param::Curve(KeyframeCurve { keys })
            },
        }
    }

    /// The parameter before and after a cut at `offset`. Both halves have at
    /// the cut the value that the whole had there.
    pub fn split(&self, offset: TimeUs) -> (r: (Param, Param))
        ensures
            r.0@ == self@.split_left(offset),
            r.1@ == self@.split_right(offset),
    {
        match self {
            Param::Const(v) => (Param::Const(*v), Param::Const(*v)),
            Param::Curve(c) => {
                if c.keys.len() == 0 {
                    return (Param::Curve(c.clone()), Param::Curve(c.clone()));
                }
                let from: usize = find_from(&c.keys, offset);
                let after: usize = find_after(&c.keys, offset);
                let mut left: Vec<Keyframe> = Vec::new();
                let mut i: usize = 0;
                while i < from
                    invariant
                        i <= from <= c.keys.len(),
                        left@ == c.keys@.take(i as int),
                    decreases from - i,
                {
                    left.push(c.keys[i]);
                    assert(left@ == c.keys@.take(i as int + 1));
                    i = i + 1;
                }
                left.push(c.boundary(offset, offset));
                let mut right: Vec<Keyframe> = Vec::new();
                right.push(c.boundary(offset, 0));
                let ghost head = seq![boundary_key(c.keys@, offset, 0)];
                let ghost tail = c.keys@.skip(after as int).map_values(
                    |k: Keyframe| shifted_key(k, offset),
                );
                let mut j: usize = after;
                assert(right@ == head + tail.take(0));
                while j < c.keys.len()
                    invariant
                        after <= j <= c.keys.len(),
                        tail == c.keys@.skip(after as int).map_values(
                            |k: Keyframe| shifted_key(k, offset),
                        ),
                        right@ == head + tail.take(j - after),
                    decreases c.keys.len() - j,
                {
                    let k: Keyframe = c.keys[j];
                    right.push(Keyframe { t: minus(k.t, offset), value: k.value, interp: k.interp });
                    assert(tail[j - after] == shifted_key(k, offset));
                    assert(right@ == head + tail.take(j - after + 1));
                    j = j + 1;
                }
                assert(tail.take(tail.len() as int) == tail);
                (
                    Param::Curve(KeyframeCurve { keys: left }),
                    Param::Curve(KeyframeCurve { keys: right }),
                )
            },
        }
    }
}

/// The halves of a curve that is cut: each keeps its keys in order, the left
/// one ends with the value of the curve at the cut, and the right one starts
/// with a key of that value.
pub proof fn law_halves_meet(keys: Seq<Keyframe>, offset: TimeUs)
    requires
        keys.len() > 0,
        increasing(keys),
        offset >= 0,
    ensures
        increasing(left_keys(keys, offset)),
        increasing(right_keys(keys, offset)),
        left_keys(keys, offset).last().t == offset,
        curve_at(left_keys(keys, offset), offset) == curve_at(keys, offset),
        right_keys(keys, offset)[0].t == 0,
        right_keys(keys, offset)[0].value == curve_at(keys, offset),
{
    lemma_first_from_is(keys, offset);
    lemma_first_after_is(keys, offset);
    let l = left_keys(keys, offset);
    let r = right_keys(keys, offset);
    let f = first_from(keys, offset) as int;
    let a = first_after(keys, offset) as int;
    assert forall|i: int, j: int| 0 <= i < j < l.len() implies l[i].t < l[j].t by {
        assert(l[i] == keys[i]);
        if j < f {
            assert(l[j] == keys[j]);
        }
    }
    assert forall|j: int| 0 <= j < l.len() implies l[j].t <= offset by {
        if j < f {
            assert(l[j] == keys[j]);
        }
    }
    lemma_first_after(l, offset, l.len());
    assert forall|i: int| 0 < i < r.len() implies #[trigger] r[i] == shifted_key(
        keys[a + i - 1],
        offset,
    ) && keys[a + i - 1].t > offset by {
        assert(keys[a].t <= keys[a + i - 1].t);
    }
    assert forall|i: int, j: int| 0 <= i < j < r.len() implies r[i].t < r[j].t by {
        assert(r[j] == shifted_key(keys[a + j - 1], offset));
        if i > 0 {
            assert(r[i] == shifted_key(keys[a + i - 1], offset));
            assert(keys[a + i - 1].t < keys[a + j - 1].t);
        }
    }
}

} // verus!
