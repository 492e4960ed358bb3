//! Texts read as lists, lines and whole numbers.

use vstd::prelude::*;

use crate::text;
use crate::text::{chars_of, push_text, text_between, text_of};

verus! {

// ---- pieces ----

/// The pieces of a text between the places of a character.
pub open spec fn pieces(s: Seq<char>, c: char) -> Seq<Seq<char>>
    decreases s.len(),
{
    if s.len() == 0 {
        seq![Seq::<char>::empty()]
    } else {
        let before = pieces(s.drop_last(), c);
        if s.last() == c {
            before.push(Seq::<char>::empty())
        } else {
            before.drop_last().push(before.last().push(s.last()))
        }
    }
}

/// Takes a text apart at a character.
pub fn split(s: &str, c: char) -> (r: Vec<String>)
    ensures
        text::texts(r@) == pieces(s@, c),
        r.len() > 0,
{
    let v: Vec<char> = chars_of(s);
    let mut r: Vec<String> = Vec::new();
    let mut from: usize = 0;
    let mut i: usize = 0;
    assert(v@.subrange(0, 0) =~= Seq::<char>::empty());
    assert(text::texts(r@).push(v@.subrange(0, 0)) =~= pieces(v@.take(0), c));
    while i < v.len()
        invariant
            from <= i <= v.len(),
            text::texts(r@).push(v@.subrange(from as int, i as int)) == pieces(
                v@.take(i as int),
                c,
            ),
        decreases v.len() - i,
    {
        let ghost before = text::texts(r@);
        proof {
            assert(v@.take(i + 1).drop_last() =~= v@.take(i as int));
            assert(v@.take(i + 1).last() == v@[i as int]);
            assert(before.push(v@.subrange(from as int, i as int)).drop_last() =~= before);
        }
        if v[i] == c {
            push_text(&mut r, text_between(&v, from, i));
            from = i + 1;
            assert(v@.subrange(from as int, i + 1) =~= Seq::<char>::empty());
        } else {
            assert(v@.subrange(from as int, i + 1) =~= v@.subrange(from as int, i as int).push(
                v@[i as int],
            ));
        }
        i = i + 1;
    }
    push_text(&mut r, text_between(&v, from, i));
    assert(v@.take(i as int) =~= v@);
    r
}

/// A line without the return before its end.
pub open spec fn without_return(s: Seq<char>) -> Seq<char> {
    if s.len() > 0 && s.last() == '\r' {
        s.drop_last()
    } else {
        s
    }
}

/// The lines of a text: each ends at a line feed, with a return before it or
/// without one, and the last may end with the text.
pub open spec fn lines_of(s: Seq<char>) -> Seq<Seq<char>> {
    let p = pieces(s, '\n');
    let ended = p.drop_last().map_values(|l: Seq<char>| without_return(l));
    if p.last().len() > 0 {
        ended.push(p.last())
    } else {
        ended
    }
}

/// Takes a text apart into its lines.
pub fn split_lines(s: &str) -> (r: Vec<String>)
    ensures
        text::texts(r@) == lines_of(s@),
{
    let parts: Vec<String> = split(s, '\n');
    let ghost p = pieces(s@, '\n');
    let ghost ended = p.drop_last().map_values(|l: Seq<char>| without_return(l));
    let last: usize = parts.len() - 1;
    let mut r: Vec<String> = Vec::new();
    let mut i: usize = 0;
    assert(text::texts(r@) =~= ended.take(0));
    while i < last
        invariant
            i <= last,
            last == parts.len() - 1,
            p == pieces(s@, '\n'),
            text::texts(parts@) == p,
            ended == p.drop_last().map_values(|l: Seq<char>| without_return(l)),
            text::texts(r@) == ended.take(i as int),
        decreases last - i,
    {
        let v: Vec<char> = chars_of(parts[i].as_str());
        assert(p[i as int] == parts@[i as int]@);
        let end: usize = if v.len() > 0 && v[v.len() - 1] == '\r' {
            v.len() - 1
        } else {
            v.len()
        };
        let line: String = text_between(&v, 0, end);
        assert(v@.subrange(0, end as int) =~= without_return(v@));
        assert(ended.take(i + 1) =~= ended.take(i as int).push(ended[i as int]));
        push_text(&mut r, line);
        i = i + 1;
    }
    assert(ended.take(i as int) =~= ended);
    let tail: Vec<char> = chars_of(parts[last].as_str());
    assert(p.last() == parts@[last as int]@);
    if tail.len() > 0 {
        push_text(&mut r, text_of(&tail));
    }
    r
}

// ---- whole numbers ----

/// Whether a text is nothing but decimal digits.
pub open spec fn all_digits(s: Seq<char>) -> bool {
    forall|i: int| 0 <= i < s.len() ==> '0' <= #[trigger] s[i] && s[i] <= '9'
}

/// The number that decimal digits stand for.
pub open spec fn value(s: Seq<char>) -> int
    decreases s.len(),
{
    if s.len() == 0 {
        0
    } else {
        10 * value(s.drop_last()) + (s.last() as int - 48)
    }
}

/// The natural number of a text; none where it is not one.
pub open spec fn natural(s: Seq<char>) -> Option<int> {
    if s.len() > 0 && all_digits(s) {
        Some(value(s))
    } else {
        None
    }
}

/// The natural number of a text that may have a plus sign.
pub open spec fn unsigned(s: Seq<char>) -> Option<int> {
    if s.len() > 0 && s[0] == '+' {
        natural(s.drop_first())
    } else {
        natural(s)
    }
}

/// The whole number of a text that may have a sign.
pub open spec fn whole(s: Seq<char>) -> Option<int> {
    if s.len() > 0 && s[0] == '-' {
        match natural(s.drop_first()) {
            Some(n) => Some(-n),
            None => None,
        }
    } else {
        unsigned(s)
    }
}

/// More than any number that is read.
const LIMIT: u128 = 0x1_0000_0000_0000_0000;

/// Reads digits from a place on; numbers over the limit come out as the limit.
fn read_natural(v: &Vec<char>, from: usize) -> (r: Option<u128>)
    requires
        from <= v.len(),
    ensures
        match natural(v@.skip(from as int)) {
            Some(n) => r is Some && r->Some_0 <= LIMIT && (if n < LIMIT {
                r->Some_0 == n
            } else {
                r->Some_0 == LIMIT
            }),
            None => r is None,
        },
{
    let ghost s = v@.skip(from as int);
    if from == v.len() {
        return None;
    }
    let mut n: u128 = 0;
    let mut i: usize = from;
    while i < v.len()
        invariant
            from <= i <= v.len(),
            s == v@.skip(from as int),
            all_digits(s.take(i - from)),
            n <= LIMIT,
            value(s.take(i - from)) < LIMIT ==> n == value(s.take(i - from)),
            value(s.take(i - from)) >= LIMIT ==> n == LIMIT,
            value(s.take(i - from)) >= 0,
        decreases v.len() - i,
    {
        let c: char = v[i];
        let ghost k = i - from;
        assert(s[k] == c);
        if !('0' <= c && c <= '9') {
            return None;
        }
        proof {
            assert(s.take(k + 1).drop_last() =~= s.take(k));
            assert(s.take(k + 1).last() == c);
            assert forall|j: int| 0 <= j < k + 1 implies '0' <= #[trigger] s.take(k + 1)[j] && s.take(
                k + 1,
            )[j] <= '9' by {
                if j < k {
                    assert(s.take(k + 1)[j] == s.take(k)[j]);
                }
            }
        }
        let d: u8 = c as u8 - 48;
        let next: u128 = 10 * n + d as u128;
        n = if next < LIMIT {
            next
        } else {
            LIMIT
        };
        i = i + 1;
    }
    assert(s.take(i - from) =~= s);
    Some(n)
}

/// Reads a whole number of 64 bits.
pub fn parse_i64(s: &str) -> (r: Option<i64>)
    ensures
        match whole(s@) {
            Some(n) => if i64::MIN <= n <= i64::MAX {
                r is Some && r->Some_0 == n
            } else {
                r is None
            },
            None => r is None,
        },
{
    let v: Vec<char> = chars_of(s);
    assert(v@.skip(0) =~= v@);
    if v.len() > 0 {
        assert(v@.skip(1) =~= v@.drop_first());
        if v[0] == '-' {
            return match read_natural(&v, 1) {
                Some(n) => if n <= 0x8000_0000_0000_0000 {
                    Some((-(n as i128)) as i64)
                } else {
                    None
                },
                None => None,
            };
        }
    }
    let from: usize = if v.len() > 0 && v[0] == '+' {
        1
    } else {
        0
    };
    match read_natural(&v, from) {
        Some(n) => if n <= 0x7FFF_FFFF_FFFF_FFFF {
            Some(n as i64)
        } else {
            None
        },
        None => None,
    }
}

/// Reads a natural number of 32 bits.
pub fn parse_u32(s: &str) -> (r: Option<u32>)
    ensures
        match unsigned(s@) {
            Some(n) => if n <= u32::MAX {
                r is Some && r->Some_0 == n
            } else {
                r is None
            },
            None => r is None,
        },
{
    let v: Vec<char> = chars_of(s);
    assert(v@.skip(0) =~= v@);
    if v.len() > 0 {
        assert(v@.skip(1) =~= v@.drop_first());
    }
    let from: usize = if v.len() > 0 && v[0] == '+' {
        1
    } else {
        0
    };
    match read_natural(&v, from) {
        Some(n) => if n <= 0xFFFF_FFFF {
            Some(n as u32)
        } else {
            None
        },
        None => None,
    }
}

} // verus!
