//! The errors of editing operations.

use vstd::prelude::*;

use crate::ident::Id;
use crate::text::copy_text;

verus! {

/// Why an operation was refused.
#[derive(Debug)]
pub enum UeError {
    NotFound(String),
    Invalid(String),
    Overlap(String),
    Locked(String),
    /// The version found, and the newest one that is understood.
    SchemaVersion(u32, u32),
    Json(String),
}

/// What an edit comes to.
pub type UeResult<T> = Result<T, UeError>;

/// The contents of an error.
pub enum ErrV {
    NotFound(Seq<char>),
    Invalid(Seq<char>),
    Overlap(Seq<char>),
    Locked(Seq<char>),
    SchemaVersion(u32, u32),
    Json(Seq<char>),
}

impl View for UeError {
    type V = ErrV;

    open spec fn view(&self) -> ErrV {
        match self {
            UeError::NotFound(s) => ErrV::NotFound(s@),
            UeError::Invalid(s) => ErrV::Invalid(s@),
            UeError::Overlap(s) => ErrV::Overlap(s@),
            UeError::Locked(s) => ErrV::Locked(s@),
            UeError::SchemaVersion(a, b) => ErrV::SchemaVersion(*a, *b),
            UeError::Json(s) => ErrV::Json(s@),
        }
    }
}

impl UeError {
    /// The error as a sentence.
    pub open spec fn message(self) -> Seq<char> {
        match self {
            UeError::NotFound(s) => "not found: "@ + s@,
            UeError::Invalid(s) => "invalid: "@ + s@,
            UeError::Overlap(s) => "overlap: "@ + s@,
            UeError::Locked(s) => "track locked: "@ + s@,
            UeError::SchemaVersion(a, b) => "schema version "@ + crate::text::digits(a as nat)
                + " is newer than "@ + crate::text::digits(b as nat),
            UeError::Json(s) => "json: "@ + s@,
        }
    }

    /// Writes the error as a sentence.
    pub fn to_text(&self) -> (r: String)
        ensures
            r@ == self.message(),
    {
        match self {
            UeError::NotFound(s) => labelled("not found: ", s.as_str()),
            UeError::Invalid(s) => labelled("invalid: ", s.as_str()),
            UeError::Overlap(s) => labelled("overlap: ", s.as_str()),
            UeError::Locked(s) => labelled("track locked: ", s.as_str()),
            UeError::SchemaVersion(a, b) => {
                let mut r: String = copy_text("schema version ");
                let x: String = crate::text::nat_to_text(*a as u128);
                r.append(x.as_str());
                r.append(" is newer than ");
                let y: String = crate::text::nat_to_text(*b as u128);
                r.append(y.as_str());
                r
            },
            UeError::Json(s) => labelled("json: ", s.as_str()),
        }
    }
}

fn labelled(label: &str, s: &str) -> (r: String)
    ensures
        r@ == label@ + s@,
{
    let mut r: String = copy_text(label);
    r.append(s);
    r
}

/// The error for a part that is not there.
pub open spec fn missing(what: Seq<char>, id: Id) -> ErrV {
    ErrV::NotFound(what + id.text())
}

/// Makes the error for a part that is not there.
pub fn not_found(what: &str, id: Id) -> (e: UeError)
    ensures
        e@ == missing(what@, id),
{
    let mut s: String = copy_text(what);
    let t: String = id.to_text();
    s.append(t.as_str());
    UeError::NotFound(s)
}

/// Makes the error for an invalid request.
pub fn invalid(why: &str) -> (e: UeError)
    ensures
        e@ == ErrV::Invalid(why@),
{
    UeError::Invalid(copy_text(why))
}

} // verus!
