//! Identifiers of the parts of a project.

use vstd::prelude::*;

verus! {

/// The identifier of a project part: 128 bits, unique for all practical
/// purposes.
#[derive(Clone, Copy, PartialEq, Eq, Structural, Debug, Hash, PartialOrd, Ord)]
pub struct Id {
    pub value: u128,
}

/// The lowest `width` digits of a number in Crockford's base 32.
pub open spec fn base32(n: nat, width: nat) -> Seq<char>
    decreases width,
{
    if width == 0 {
        Seq::<char>::empty()
    } else {
        base32(n / 32, (width - 1) as nat).push("0123456789ABCDEFGHJKMNPQRSTVWXYZ"@[(n % 32) as int])
    }
}

/// `Ulid::new` of the crate `ulid` draws a new identifier from the clock and
/// a random source: nothing is claimed of its value.
#[verifier::external_body]
fn draw_ulid() -> (value: u128) {
    ulid::Ulid::new().0
}

/// `Ulid::to_string` of the crate `ulid` writes an identifier as 26 digits of
/// Crockford's base 32, the highest first.
#[verifier::external_body]
fn ulid_text(value: u128) -> (s: String)
    ensures
        s@ == base32(value as nat, 26),
{
    ulid::Ulid(value).to_string()
}

impl Id {
    /// A new identifier, drawn from the clock and a random source: its value
    /// is left open.
    pub fn new() -> (id: Id) {
        Id { value: draw_ulid() }
    }

    /// The identifier as text.
    pub open spec fn text(self) -> Seq<char> {
        base32(self.value as nat, 26)
    }

    /// Writes the identifier as text.
    pub fn to_text(self) -> (s: String)
        ensures
            s@ == self.text(),
    {
        ulid_text(self.value)
    }
}

/// A supply of identifiers: those given at the start come first, and new ones
/// are drawn when they run out.
pub struct IdPool {
    pub ids: Vec<Id>,
    pub used: usize,
}

/// Whether a list of identifiers starts with those of another.
pub open spec fn begins(list: Seq<Id>, start: Seq<Id>) -> bool {
    &&& start.len() <= list.len()
    &&& forall|i: int| 0 <= i < start.len() ==> #[trigger] list[i] == start[i]
}

impl IdPool {
    /// No more are used than there are.
    pub open spec fn wf(self) -> bool {
        self.used <= self.ids.len()
    }

    /// An empty supply: every identifier will be a new one.
    pub fn new() -> (p: IdPool)
        ensures
            p.ids@ == Seq::<Id>::empty(),
            p.used == 0,
            p.wf(),
    {
        IdPool { ids: Vec::new(), used: 0 }
    }

    /// A supply that starts with the given identifiers.
    pub fn from_ids(ids: Vec<Id>) -> (p: IdPool)
        ensures
            p.ids@ == ids@,
            p.used == 0,
            p.wf(),
    {
        IdPool { ids, used: 0 }
    }

    /// The next identifier of the supply.
    pub fn take(&mut self) -> (id: Id)
        requires
            old(self).wf(),
        ensures
            final(self).wf(),
            final(self).used == old(self).used + 1,
            begins(final(self).ids@, old(self).ids@),
            id == final(self).ids@[old(self).used as int],
            old(self).used < old(self).ids.len() ==> final(self).ids@ == old(self).ids@,
    {
        if self.used >= self.ids.len() {
            let id: Id = Id::new();
            self.ids.push(id);
        }
        let count: usize = self.ids.len();
        assert(self.used < count);
        let id: Id = self.ids[self.used];
        self.used = self.used + 1;
        id
    }
}

} // verus!
