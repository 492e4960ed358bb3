//! Maps from names to values, kept in order of name.

use vstd::prelude::*;

use crate::keyframe::{Param, ParamV};
use crate::seqs::Duplicate;
use crate::text::{chars_of, same_text};

verus! {

/// Whether a text comes before another: by the first character that differs,
/// and a text before those that it starts.
pub open spec fn text_before(a: Seq<char>, b: Seq<char>) -> bool
    decreases a.len(),
{
    if b.len() == 0 {
        false
    } else if a.len() == 0 {
        true
    } else if a[0] != b[0] {
        (a[0] as u32) < (b[0] as u32)
    } else {
        text_before(a.drop_first(), b.drop_first())
    }
}

fn before_from(a: &Vec<char>, b: &Vec<char>, i: usize) -> (r: bool)
    requires
        i <= a.len(),
        i <= b.len(),
    ensures
        r == text_before(a@.skip(i as int), b@.skip(i as int)),
    decreases a.len() - i,
{
    if i == b.len() {
        return false;
    }
    if i == a.len() {
        return true;
    }
    assert(a@.skip(i as int)[0] == a@[i as int] && b@.skip(i as int)[0] == b@[i as int]);
    if a[i] != b[i] {
        return (a[i] as u32) < (b[i] as u32);
    }
    assert(a@.skip(i as int).drop_first() == a@.skip(i as int + 1));
    assert(b@.skip(i as int).drop_first() == b@.skip(i as int + 1));
    before_from(a, b, i + 1)
}

/// Whether a text comes before another.
pub fn comes_before(a: &str, b: &str) -> (r: bool)
    ensures
        r == text_before(a@, b@),
{
    let x: Vec<char> = chars_of(a);
    let y: Vec<char> = chars_of(b);
    assert(x@.skip(0) == x@ && y@.skip(0) == y@);
    before_from(&x, &y, 0)
}

/// A map from names to values. `insert` keeps the entries in order of name.
#[derive(Debug, PartialEq)]
pub struct StrMap<T> {
    pub entries: Vec<(String, T)>,
}

impl<T: View> View for StrMap<T> {
    type V = Seq<(Seq<char>, T::V)>;

    open spec fn view(&self) -> Seq<(Seq<char>, T::V)> {
        self.entries@.map_values(|e: (String, T)| (e.0@, e.1@))
    }
}

/// The first entry with a name, or the count of entries.
pub open spec fn entry_pos<V>(m: Seq<(Seq<char>, V)>, name: Seq<char>) -> nat
    decreases m.len(),
{
    if m.len() == 0 || m[0].0 == name {
        0
    } else {
        1 + entry_pos(m.drop_first(), name)
    }
}

/// The value under a name.
pub open spec fn lookup<V>(m: Seq<(Seq<char>, V)>, name: Seq<char>) -> Option<V> {
    if entry_pos(m, name) < m.len() {
        Some(m[entry_pos(m, name) as int].1)
    } else {
        None
    }
}

/// The first entry whose name does not come before the given one, or the count
/// of entries.
pub open spec fn entry_place<V>(m: Seq<(Seq<char>, V)>, name: Seq<char>) -> nat
    decreases m.len(),
{
    if m.len() == 0 || !text_before(m[0].0, name) {
        0
    } else {
        1 + entry_place(m.drop_first(), name)
    }
}

/// The map with a value put under a name.
pub open spec fn with_entry<V>(m: Seq<(Seq<char>, V)>, name: Seq<char>, value: V) -> Seq<
    (Seq<char>, V),
> {
    let i = entry_place(m, name) as int;
    if i < m.len() && m[i].0 == name {
        m.update(i, (name, value))
    } else {
        m.insert(i, (name, value))
    }
}

proof fn lemma_entry_pos<V>(m: Seq<(Seq<char>, V)>, name: Seq<char>, i: nat)
    requires
        i <= m.len(),
        forall|j: int| 0 <= j < i ==> (#[trigger] m[j]).0 != name,
        i < m.len() ==> m[i as int].0 == name,
    ensures
        entry_pos(m, name) == i,
    decreases m.len(),
{
    if i > 0 {
        let r = m.drop_first();
        assert(m[0].0 != name);
        assert forall|j: int| 0 <= j < i - 1 implies (#[trigger] r[j]).0 != name by {
            assert(r[j] == m[j + 1]);
        }
        lemma_entry_pos(r, name, (i - 1) as nat);
    }
}

proof fn lemma_entry_place<V>(m: Seq<(Seq<char>, V)>, name: Seq<char>, i: nat)
    requires
        i <= m.len(),
        forall|j: int| 0 <= j < i ==> text_before((#[trigger] m[j]).0, name),
        i < m.len() ==> !text_before(m[i as int].0, name),
    ensures
        entry_place(m, name) == i,
    decreases m.len(),
{
    if i > 0 {
        let r = m.drop_first();
        assert(text_before(m[0].0, name));
        assert forall|j: int| 0 <= j < i - 1 implies text_before((#[trigger] r[j]).0, name) by {
            assert(r[j] == m[j + 1]);
        }
        lemma_entry_place(r, name, (i - 1) as nat);
    }
}

impl<T: View> StrMap<T> {
    /// A map without entries.
    pub fn new() -> (m: StrMap<T>)
        ensures
            m@ == Seq::<(Seq<char>, T::V)>::empty(),
    {
        let m: StrMap<T> = StrMap { entries: Vec::new() };
        assert(m@ == Seq::<(Seq<char>, T::V)>::empty());
        m
    }

    /// The value under a name.
    pub fn get(&self, name: &str) -> (r: Option<&T>)
        ensures
            match r {
                Some(v) => lookup(self@, name@) == Some(v@),
                None => lookup(self@, name@) is None,
            },
    {
        let mut i: usize = 0;
        while i < self.entries.len()
            invariant
                i <= self.entries.len(),
                forall|j: int| 0 <= j < i ==> (#[trigger] self@[j]).0 != name@,
            decreases self.entries.len() - i,
        {
            assert(self@[i as int] == (self.entries@[i as int].0@, self.entries@[i as int].1@));
            if same_text(self.entries[i].0.as_str(), name) {
                proof {
                    lemma_entry_pos(self@, name@, i as nat);
                }
                return Some(&self.entries[i].1);
            }
            i = i + 1;
        }
        proof {
            lemma_entry_pos(self@, name@, i as nat);
        }
        None
    }

    /// Puts a value under a name; what stood there before gives way.
    pub fn insert(&mut self, name: String, value: T)
        ensures
            final(self)@ == with_entry(old(self)@, name@, value@),
    {
        let mut i: usize = 0;
        while i < self.entries.len() && comes_before(self.entries[i].0.as_str(), name.as_str())
            invariant
                i <= self.entries.len(),
                *self == *old(self),
                forall|j: int| 0 <= j < i ==> text_before((#[trigger] self@[j]).0, name@),
            decreases self.entries.len() - i,
        {
            assert(self@[i as int].0 == self.entries@[i as int].0@);
            i = i + 1;
        }
        proof {
            if i < self.entries.len() {
                assert(self@[i as int].0 == self.entries@[i as int].0@);
            }
            lemma_entry_place(self@, name@, i as nat);
        }
        if i < self.entries.len() && same_text(self.entries[i].0.as_str(), name.as_str()) {
            self.entries[i] = (name, value);
            assert(self@ == with_entry(old(self)@, name@, value@));
        } else {
            self.entries.insert(i, (name, value));
            assert(self@ == with_entry(old(self)@, name@, value@));
        }
    }
}

impl<T: Duplicate> Duplicate for StrMap<T> {
    fn duplicate(&self) -> (r: StrMap<T>) {
        let mut entries: Vec<(String, T)> = Vec::new();
        let mut i: usize = 0;
        while i < self.entries.len()
            invariant
                i <= self.entries.len(),
                entries.len() == i,
                forall|j: int|
                    0 <= j < i ==> (#[trigger] entries@[j]).0@ == self.entries@[j].0@
                        && entries@[j].1@ == self.entries@[j].1@,
            decreases self.entries.len() - i,
        {
            entries.push((self.entries[i].0.clone(), self.entries[i].1.duplicate()));
            i = i + 1;
        }
        let r: StrMap<T> = StrMap { entries };
        assert(r@ == self@);
        r
    }
}

impl<T: Duplicate> Clone for StrMap<T> {
    fn clone(&self) -> (r: StrMap<T>)
        ensures
            r@ == self@,
    {
        self.duplicate()
    }
}

impl Duplicate for Param {
    fn duplicate(&self) -> (r: Param) {
        self.clone()
    }
}

/// The parameters with the keys of their curves in order.
pub open spec fn sanitized_params(m: Seq<(Seq<char>, ParamV)>) -> Seq<(Seq<char>, ParamV)> {
    m.map_values(|e: (Seq<char>, ParamV)| (e.0, e.1.sanitized()))
}

/// Whether the curves of all parameters have their keys in order.
pub open spec fn tidy_params(m: Seq<(Seq<char>, ParamV)>) -> bool {
    forall|i: int| 0 <= i < m.len() ==> (#[trigger] m[i]).1.tidy()
}

/// The parameters before a cut.
pub open spec fn left_params(m: Seq<(Seq<char>, ParamV)>, offset: i64) -> Seq<(Seq<char>, ParamV)> {
    m.map_values(|e: (Seq<char>, ParamV)| (e.0, e.1.split_left(offset)))
}

/// The parameters after a cut.
pub open spec fn right_params(m: Seq<(Seq<char>, ParamV)>, offset: i64) -> Seq<
    (Seq<char>, ParamV),
> {
    m.map_values(|e: (Seq<char>, ParamV)| (e.0, e.1.split_right(offset)))
}

impl StrMap<Param> {
    /// The parameters with the keys of their curves in order.
    pub fn sanitized(&self) -> (r: StrMap<Param>)
        ensures
            r@ == sanitized_params(self@),
    {
        let mut entries: Vec<(String, Param)> = Vec::new();
        let mut i: usize = 0;
        while i < self.entries.len()
            invariant
                i <= self.entries.len(),
                entries.len() == i,
                forall|j: int|
                    0 <= j < i ==> (#[trigger] entries@[j]).0@ == self.entries@[j].0@
                        && entries@[j].1@ == self.entries@[j].1@.sanitized(),
            decreases self.entries.len() - i,
        {
            entries.push((self.entries[i].0.clone(), self.entries[i].1.sanitized()));
            i = i + 1;
        }
        let r: StrMap<Param> = StrMap { entries };
        assert(r@ == sanitized_params(self@));
        r
    }

    /// The parameters before and after a cut.
    pub fn split(&self, offset: i64) -> (r: (StrMap<Param>, StrMap<Param>))
        ensures
            r.0@ == left_params(self@, offset),
            r.1@ == right_params(self@, offset),
    {
        let mut a: Vec<(String, Param)> = Vec::new();
        let mut b: Vec<(String, Param)> = Vec::new();
        let mut i: usize = 0;
        while i < self.entries.len()
            invariant
                i <= self.entries.len(),
                a.len() == i,
                b.len() == i,
                forall|j: int|
                    0 <= j < i ==> (#[trigger] a@[j]).0@ == self.entries@[j].0@ && a@[j].1@
                        == self.entries@[j].1@.split_left(offset),
                forall|j: int|
                    0 <= j < i ==> (#[trigger] b@[j]).0@ == self.entries@[j].0@ && b@[j].1@
                        == self.entries@[j].1@.split_right(offset),
            decreases self.entries.len() - i,
        {
            let (l, r) = self.entries[i].1.split(offset);
            a.push((self.entries[i].0.clone(), l));
            b.push((self.entries[i].0.clone(), r));
            i = i + 1;
        }
        let l: StrMap<Param> = StrMap { entries: a };
        let r: StrMap<Param> = StrMap { entries: b };
        assert(l@ == left_params(self@, offset));
        assert(r@ == right_params(self@, offset));
        (l, r)
    }
}

} // verus!
