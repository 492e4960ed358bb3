//! Lists of parts: views of whole lists, copies, and search by identifier.

use vstd::prelude::*;

use crate::ident::Id;

verus! {

/// The views of the items of a list.
pub open spec fn views<T: View>(s: Seq<T>) -> Seq<T::V> {
    s.map_values(|x: T| x@)
}

/// A type whose values can be duplicated.
pub trait Duplicate: View + Sized {
    fn duplicate(&self) -> (r: Self)
        ensures
            r@ == self@,
    ;
}

/// Duplicates a list.
pub fn duplicate_all<T: Duplicate>(v: &Vec<T>) -> (r: Vec<T>)
    ensures
        views(r@) == views(v@),
{
    let mut r: Vec<T> = Vec::new();
    let mut i: usize = 0;
    while i < v.len()
        invariant
            i <= v.len(),
            r.len() == i,
            forall|j: int| 0 <= j < i ==> r@[j]@ == v@[j]@,
        decreases v.len() - i,
    {
        r.push(v[i].duplicate());
        i = i + 1;
    }
    assert(views(r@) == views(v@));
    r
}

impl Duplicate for String {
    fn duplicate(&self) -> (r: String) {
        self.clone()
    }
}

/// Duplicates an optional text.
pub fn duplicate_text(o: &Option<String>) -> (r: Option<String>)
    ensures
        r == *o,
{
    match o {
        Some(s) => Some(s.clone()),
        None => None,
    }
}

/// A part with an identifier.
pub trait Ident {
    spec fn ident(self) -> Id;
}

/// A value whose identifier can be read.
pub trait Keyed: View where <Self as View>::V: Ident {
    fn key(&self) -> (id: Id)
        ensures
            id == self@.ident(),
    ;
}

/// The first part with an identifier, or the count of parts.
pub open spec fn pos<T: Ident>(s: Seq<T>, id: Id) -> nat
    decreases s.len(),
{
    if s.len() == 0 || s[0].ident() == id {
        0
    } else {
        1 + pos(s.drop_first(), id)
    }
}

/// Whether a part with the identifier is there.
pub open spec fn holds<T: Ident>(s: Seq<T>, id: Id) -> bool {
    pos(s, id) < s.len()
}

/// What `pos` finds: no part before it has the identifier, and the part there
/// does.
pub broadcast proof fn lemma_pos<T: Ident>(s: Seq<T>, id: Id)
    ensures
        #![trigger pos(s, id)]
        pos(s, id) <= s.len(),
        forall|j: int| 0 <= j < pos(s, id) ==> (#[trigger] s[j]).ident() != id,
        pos(s, id) < s.len() ==> s[pos(s, id) as int].ident() == id,
    decreases s.len(),
{
    if s.len() > 0 && s[0].ident() != id {
        let r = s.drop_first();
        lemma_pos(r, id);
        assert forall|j: int| 0 <= j < pos(s, id) implies (#[trigger] s[j]).ident() != id by {
            if j > 0 {
                assert(s[j] == r[j - 1]);
            }
        }
        if pos(s, id) < s.len() {
            assert(s[pos(s, id) as int] == r[pos(r, id) as int]);
        }
    }
}

/// The first index at which the identifier stands is what `pos` finds.
pub proof fn lemma_pos_at<T: Ident>(s: Seq<T>, id: Id, i: nat)
    requires
        i <= s.len(),
        forall|j: int| 0 <= j < i ==> (#[trigger] s[j]).ident() != id,
        i < s.len() ==> s[i as int].ident() == id,
    ensures
        pos(s, id) == i,
{
    lemma_pos(s, id);
    let p = pos(s, id);
    if p < i {
        assert(s[p as int].ident() != id);
    } else if i < p {
        assert(s[i as int].ident() != id);
    }
}

/// The index of the first part with an identifier.
pub fn find<T: Keyed>(v: &Vec<T>, id: Id) -> (r: Option<usize>) where <T as View>::V: Ident
    ensures
        match r {
            Some(i) => i < v.len() && i == pos(views(v@), id),
            None => !holds(views(v@), id),
        },
{
    let mut i: usize = 0;
    while i < v.len()
        invariant
            i <= v.len(),
            forall|j: int| 0 <= j < i ==> (#[trigger] views(v@)[j]).ident() != id,
        decreases v.len() - i,
    {
        assert(views(v@)[i as int] == v@[i as int]@);
        if v[i].key() == id {
            proof {
                lemma_pos_at(views(v@), id, i as nat);
            }
            return Some(i);
        }
        i = i + 1;
    }
    proof {
        lemma_pos_at(views(v@), id, i as nat);
    }
    None
}

/// Whether an identifier is in a list.
pub fn holds_id(v: &Vec<Id>, id: Id) -> (r: bool)
    ensures
        r == v@.contains(id),
{
    let mut i: usize = 0;
    while i < v.len()
        invariant
            i <= v.len(),
            forall|j: int| 0 <= j < i ==> v@[j] != id,
        decreases v.len() - i,
    {
        if v[i] == id {
            assert(v@[i as int] == id);
            return true;
        }
        i = i + 1;
    }
    false
}

/// Puts a value in a place and gives back what was there.
pub fn swap_in<T>(place: &mut T, value: T) -> (before: T)
    ensures
        before == *old(place),
        *final(place) == value,
{
    let mut v: T = value;
    std::mem::swap(place, &mut v);
    v
}

} // verus!
