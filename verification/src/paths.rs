//! Paths of files as texts. On Windows a backslash separates parts as a slash
//! does, and a path may start with a drive or a share.

use vstd::prelude::*;

use crate::text;
use crate::text::{chars_of, copy_text, lower, push_text, same_text, text_between};

verus! {

// ---- parts ----

/// Whether a character separates the parts of a path.
pub open spec fn is_sep(c: char, windows: bool) -> bool {
    c == '/' || (windows && c == '\\')
}

fn separates(c: char, windows: bool) -> (b: bool)
    ensures
        b == is_sep(c, windows),
{
    c == '/' || (windows && c == '\\')
}

/// Whether a character is the letter of a drive.
pub open spec fn is_drive_letter(c: char) -> bool {
    'a' <= c <= 'z' || 'A' <= c <= 'Z'
}

/// Whether a path starts with a drive, as `C:`.
pub open spec fn has_drive(p: Seq<char>, windows: bool) -> bool {
    windows && p.len() >= 2 && is_drive_letter(p[0]) && p[1] == ':'
}

/// Where the part of a path that starts at a place ends.
pub open spec fn part_end(p: Seq<char>, from: nat, windows: bool) -> nat
    decreases p.len() - from,
{
    if from >= p.len() || is_sep(p[from as int], windows) {
        from
    } else {
        part_end(p, from + 1, windows)
    }
}

/// Whether a path starts with a share, as `\\server\share`.
pub open spec fn has_share(p: Seq<char>, windows: bool) -> bool {
    let server = part_end(p, 2, windows);
    &&& windows && p.len() >= 2 && is_sep(p[0], windows) && is_sep(p[1], windows)
    &&& 2 < server < p.len()
    &&& server + 1 < part_end(p, server + 1, windows)
}

/// How long the drive or share is that a path starts with.
pub open spec fn prefix_len(p: Seq<char>, windows: bool) -> nat {
    if has_drive(p, windows) {
        2
    } else if has_share(p, windows) {
        part_end(p, part_end(p, 2, windows) + 1, windows)
    } else {
        0
    }
}

/// A path behind its drive or share.
pub open spec fn body(p: Seq<char>, windows: bool) -> Seq<char> {
    p.skip(prefix_len(p, windows) as int)
}

/// Whether a path starts at a root.
pub open spec fn has_root(p: Seq<char>, windows: bool) -> bool {
    has_share(p, windows) || (body(p, windows).len() > 0 && is_sep(body(p, windows)[0], windows))
}

/// Whether a path does not depend on where it is looked up.
pub open spec fn is_absolute(p: Seq<char>, windows: bool) -> bool {
    has_root(p, windows) && (windows ==> prefix_len(p, windows) > 0)
}

/// A path inside a directory; an absolute one stays as it is. One with a drive
/// stays too, and one that only has a root keeps the drive or share of the
/// directory.
pub open spec fn path_in(base: Seq<char>, p: Seq<char>, windows: bool) -> Seq<char> {
    if is_absolute(p, windows) || prefix_len(p, windows) > 0 {
        p
    } else if has_root(p, windows) {
        base.take(prefix_len(base, windows) as int) + p
    } else if base.len() == 0 || is_sep(base.last(), windows) || (has_drive(base, windows)
        && base.len() == 2) {
        base + p
    } else if windows {
        base + "\\"@ + p
    } else {
        base + "/"@ + p
    }
}

fn find_part_end(p: &Vec<char>, from: usize, windows: bool) -> (r: usize)
    requires
        from <= p.len(),
    ensures
        r == part_end(p@, from as nat, windows),
        from <= r <= p.len(),
{
    let mut i: usize = from;
    while i < p.len() && !separates(p[i], windows)
        invariant
            from <= i <= p.len(),
            part_end(p@, from as nat, windows) == part_end(p@, i as nat, windows),
        decreases p.len() - i,
    {
        i = i + 1;
    }
    i
}

/// Whether a path starts with a drive, whether it does with a share, and how long
/// that is.
fn find_prefix(p: &Vec<char>, windows: bool) -> (r: (bool, bool, usize))
    ensures
        r.0 == has_drive(p@, windows),
        r.1 == has_share(p@, windows),
        r.2 == prefix_len(p@, windows),
        r.2 <= p.len(),
{
    let drive: bool = windows && p.len() >= 2 && (('a' <= p[0] && p[0] <= 'z') || ('A' <= p[0]
        && p[0] <= 'Z')) && p[1] == ':';
    if windows && p.len() >= 2 && separates(p[0], windows) && separates(p[1], windows) {
        let server: usize = find_part_end(p, 2, windows);
        if 2 < server && server < p.len() {
            let share: usize = find_part_end(p, server + 1, windows);
            if server + 1 < share {
                return (drive, true, share);
            }
        }
        return (drive, false, 0);
    }
    (
        drive,
        false,
        if drive {
            2
        } else {
            0
        },
    )
}

/// Resolves a path of a project: relative ones lie in its directory.
pub fn resolve_path_pub(base: &str, p: &str, windows: bool) -> (r: String)
    ensures
        r@ == path_in(base@, p@, windows),
{
    let pv: Vec<char> = chars_of(p);
    let bv: Vec<char> = chars_of(base);
    let (_, ps, pn): (bool, bool, usize) = find_prefix(&pv, windows);
    let (bd, _, bn): (bool, bool, usize) = find_prefix(&bv, windows);
    let root: bool = ps || (pn < pv.len() && separates(pv[pn], windows));
    assert(body(p@, windows).len() == pv.len() - pn);
    assert(pn < pv.len() ==> body(p@, windows)[0] == pv@[pn as int]);
    if pn > 0 || (root && !windows) {
        return copy_text(p);
    }
    if root {
        let mut r: String = text_between(&bv, 0, bn);
        assert(bv@.subrange(0, bn as int) =~= base@.take(bn as int));
        r.append(p);
        return r;
    }
    let mut r: String = copy_text(base);
    if bv.len() > 0 && !separates(bv[bv.len() - 1], windows) && !(bd && bv.len() == 2) {
        if windows {
            r.append("\\");
        } else {
            r.append("/");
        }
    }
    r.append(p);
    r
}

/// A path without separators and dots that only stand for itself at its end.
pub open spec fn path_core(p: Seq<char>, windows: bool) -> Seq<char>
    decreases p.len(),
{
    if p.len() > 0 && is_sep(p.last(), windows) {
        path_core(p.drop_last(), windows)
    } else if p.len() > 1 && p.last() == '.' && is_sep(p[p.len() - 2], windows) {
        path_core(p.drop_last(), windows)
    } else {
        p
    }
}

/// Where the last part of a path starts.
pub open spec fn name_start(p: Seq<char>, windows: bool) -> nat
    decreases p.len(),
{
    if p.len() == 0 || is_sep(p.last(), windows) {
        p.len()
    } else {
        name_start(p.drop_last(), windows)
    }
}

/// Where the last dot of a name is; zero for none, or where it is the first
/// character.
pub open spec fn last_dot(name: Seq<char>) -> nat
    decreases name.len(),
{
    if name.len() == 0 {
        0
    } else if name.last() == '.' {
        (name.len() - 1) as nat
    } else {
        last_dot(name.drop_last())
    }
}

/// The last part of a path behind its drive or share.
pub open spec fn last_part(p: Seq<char>, windows: bool) -> Seq<char> {
    let core = path_core(body(p, windows), windows);
    core.skip(name_start(core, windows) as int)
}

/// Whether a path names a file.
pub open spec fn names_file(p: Seq<char>, windows: bool) -> bool {
    last_part(p, windows) != ""@ && last_part(p, windows) != "."@ && last_part(p, windows) != ".."@
}

/// The extension of the file of a path.
pub open spec fn extension(p: Seq<char>, windows: bool) -> Option<Seq<char>> {
    let name = last_part(p, windows);
    if names_file(p, windows) && last_dot(name) > 0 {
        Some(name.skip(last_dot(name) as int + 1))
    } else {
        None
    }
}

/// A path with another extension.
pub open spec fn with_extension(p: Seq<char>, ext: Seq<char>, windows: bool) -> Seq<char> {
    if names_file(p, windows) {
        let core = path_core(body(p, windows), windows);
        let name = last_part(p, windows);
        let kept = if last_dot(name) > 0 {
            core.take((name_start(core, windows) + last_dot(name)) as int)
        } else {
            core
        };
        p.take(prefix_len(p, windows) as int) + kept + "."@ + ext
    } else {
        p
    }
}

proof fn lemma_starts(p: Seq<char>, windows: bool)
    ensures
        name_start(p, windows) <= p.len(),
        last_dot(p) <= p.len(),
        p.len() > 0 ==> last_dot(p) < p.len(),
    decreases p.len(),
{
    if p.len() > 0 {
        lemma_starts(p.drop_last(), windows);
    }
}

/// The core of a path, where its last part starts, and where the last dot of
/// that is.
fn split_path(p: &Vec<char>, windows: bool) -> (r: (usize, usize, usize))
    ensures
        r.0 == path_core(p@, windows).len(),
        path_core(p@, windows) == p@.take(r.0 as int),
        r.1 == name_start(path_core(p@, windows), windows),
        r.1 <= r.0 <= p.len(),
        r.2 == last_dot(
            path_core(p@, windows).skip(name_start(path_core(p@, windows), windows) as int),
        ),
        r.2 <= r.0 - r.1,
        r.0 > r.1 ==> r.2 < r.0 - r.1,
{
    let mut n: usize = p.len();
    assert(p@.take(n as int) =~= p@);
    while n > 0 && (separates(p[n - 1], windows) || (n > 1 && p[n - 1] == '.' && separates(
        p[n - 2],
        windows,
    )))
        invariant
            n <= p.len(),
            path_core(p@, windows) == path_core(p@.take(n as int), windows),
        decreases n,
    {
        assert(p@.take(n as int).last() == p@[n - 1]);
        assert(n > 1 ==> p@.take(n as int)[n - 2] == p@[n - 2]);
        assert(p@.take(n as int).drop_last() =~= p@.take(n - 1));
        n = n - 1;
    }
    let ghost core = p@.take(n as int);
    proof {
        if n > 0 {
            assert(core.last() == p@[n - 1]);
        }
        if n > 1 {
            assert(core[n - 2] == p@[n - 2]);
        }
        assert(path_core(p@, windows) == core);
    }
    let s: usize = find_name_start(p, n, windows);
    let ghost name = core.skip(s as int);
    let mut d: usize = n - s;
    assert(name.take(d as int) =~= name);
    while d > 0 && p[s + d - 1] != '.'
        invariant
            d <= n - s,
            s <= n <= p.len(),
            core == p@.take(n as int),
            name == core.skip(s as int),
            last_dot(name) == last_dot(name.take(d as int)),
        decreases d,
    {
        assert(name.take(d as int).last() == p@[s + d - 1]);
        assert(name.take(d as int).drop_last() =~= name.take(d - 1));
        d = d - 1;
    }
    proof {
        if d > 0 {
            assert(name.take(d as int).last() == p@[s + d - 1]);
        }
        lemma_starts(name, windows);
    }
    let dot: usize = if d > 0 {
        d - 1
    } else {
        0
    };
    (n, s, dot)
}

/// Where the last part of the first characters starts.
fn find_name_start(p: &Vec<char>, n: usize, windows: bool) -> (s: usize)
    requires
        n <= p.len(),
    ensures
        s == name_start(p@.take(n as int), windows),
        s <= n,
{
    let ghost core = p@.take(n as int);
    let mut s: usize = n;
    assert(core.take(s as int) =~= core);
    while s > 0 && !separates(p[s - 1], windows)
        invariant
            s <= n <= p.len(),
            core == p@.take(n as int),
            name_start(core, windows) == name_start(core.take(s as int), windows),
        decreases s,
    {
        assert(core.take(s as int).last() == p@[s - 1]);
        assert(core.take(s as int).drop_last() =~= core.take(s - 1));
        s = s - 1;
    }
    proof {
        if s > 0 {
            assert(core.take(s as int).last() == p@[s - 1]);
        }
    }
    s
}

/// The characters of a path from a place on.
fn chars_from(p: &Vec<char>, from: usize) -> (r: Vec<char>)
    requires
        from <= p.len(),
    ensures
        r@ == p@.skip(from as int),
{
    let rest: String = text_between(p, from, p.len());
    let r: Vec<char> = chars_of(rest.as_str());
    assert(r@ =~= p@.skip(from as int));
    r
}

fn is_file_name(p: &Vec<char>, core: usize, start: usize) -> (b: bool)
    requires
        start <= core <= p.len(),
    ensures
        b == (p@.subrange(start as int, core as int) != ""@ && p@.subrange(start as int, core as int)
            != "."@ && p@.subrange(start as int, core as int) != ".."@),
{
    let name: String = text_between(p, start, core);
    !same_text(name.as_str(), "") && !same_text(name.as_str(), ".") && !same_text(
        name.as_str(),
        "..",
    )
}

fn find_extension(p: &str, windows: bool) -> (r: Option<String>)
    ensures
        crate::model::opt_text(r) == extension(p@, windows),
{
    let all: Vec<char> = chars_of(p);
    let (_, _, pn): (bool, bool, usize) = find_prefix(&all, windows);
    let v: Vec<char> = chars_from(&all, pn);
    let (core, start, dot): (usize, usize, usize) = split_path(&v, windows);
    assert(v@.subrange(start as int, core as int) =~= last_part(p@, windows));
    if is_file_name(&v, core, start) && dot > 0 {
        assert(v@.subrange(start + dot + 1, core as int) =~= last_part(p@, windows).skip(dot + 1));
        Some(text_between(&v, start + dot + 1, core))
    } else {
        None
    }
}

fn replace_extension(p: &str, ext: &str, windows: bool) -> (r: String)
    ensures
        r@ == with_extension(p@, ext@, windows),
{
    let all: Vec<char> = chars_of(p);
    let (_, _, pn): (bool, bool, usize) = find_prefix(&all, windows);
    let v: Vec<char> = chars_from(&all, pn);
    let (core, start, dot): (usize, usize, usize) = split_path(&v, windows);
    assert(v@.subrange(start as int, core as int) =~= last_part(p@, windows));
    if is_file_name(&v, core, start) {
        let end: usize = if dot > 0 {
            start + dot
        } else {
            core
        };
        let mut r: String = text_between(&all, 0, pn);
        let kept: String = text_between(&v, 0, end);
        proof {
            let c = path_core(v@, windows);
            assert(all@.subrange(0, pn as int) =~= p@.take(pn as int));
            assert(v@.subrange(0, end as int) =~= c.take(end as int));
            assert(c.take(core as int) =~= c);
        }
        r.append(kept.as_str());
        r.append(".");
        r.append(ext);
        r
    } else {
        copy_text(p)
    }
}

// ---- the same path ----

/// The parts of a path behind its drive or share, the last one first. What is
/// between separators that follow each other is no part, and neither is a dot
/// that stands for a place itself, unless the path starts with it.
pub open spec fn parts(p: Seq<char>, windows: bool) -> Seq<Seq<char>>
    decreases p.len(),
{
    if p.len() == 0 {
        Seq::<Seq<char>>::empty()
    } else if is_sep(p.last(), windows) {
        parts(p.drop_last(), windows)
    } else {
        let n = name_start(p, windows) as int;
        if 0 <= n < p.len() {
            if n > 0 && p.skip(n) == "."@ {
                parts(p.take(n), windows)
            } else {
                seq![p.skip(n)] + parts(p.take(n), windows)
            }
        } else {
            Seq::<Seq<char>>::empty()
        }
    }
}

/// The server of the share that a path starts with.
pub open spec fn server_of(p: Seq<char>, windows: bool) -> Seq<char> {
    p.subrange(2, part_end(p, 2, windows) as int)
}

/// The name of the share that a path starts with.
pub open spec fn share_of(p: Seq<char>, windows: bool) -> Seq<char> {
    p.subrange(part_end(p, 2, windows) as int + 1, prefix_len(p, windows) as int)
}

/// Whether two paths start with the same drive or share.
pub open spec fn same_start(a: Seq<char>, b: Seq<char>, windows: bool) -> bool {
    &&& has_drive(a, windows) == has_drive(b, windows)
    &&& has_share(a, windows) == has_share(b, windows)
    &&& has_root(a, windows) == has_root(b, windows)
    &&& has_drive(a, windows) ==> text::lowered(a.take(1)) == text::lowered(b.take(1))
    &&& has_share(a, windows) ==> server_of(a, windows) == server_of(b, windows) && share_of(
        a,
        windows,
    ) == share_of(b, windows)
}

/// Whether two paths are the same, part by part.
pub open spec fn same_path(a: Seq<char>, b: Seq<char>, windows: bool) -> bool {
    same_start(a, b, windows) && parts(body(a, windows), windows) == parts(body(b, windows), windows)
}

/// To be the same path is an equivalence.
pub proof fn law_same_path(a: Seq<char>, b: Seq<char>, c: Seq<char>, windows: bool)
    ensures
        same_path(a, a, windows),
        same_path(a, b, windows) ==> same_path(b, a, windows),
        same_path(a, b, windows) && same_path(b, c, windows) ==> same_path(a, c, windows),
{
}

/// A separator at the end of a path changes nothing.
pub proof fn law_separator_at_the_end(a: Seq<char>)
    requires
        a.len() > 0,
    ensures
        same_path(a.push('/'), a, false),
{
    let b = a.push('/');
    assert(body(a, false) =~= a);
    assert(body(b, false) =~= b);
    assert(b.drop_last() =~= a);
}

proof fn lemma_name(p: Seq<char>, windows: bool)
    requires
        p.len() > 0,
        !is_sep(p.last(), windows),
    ensures
        name_start(p, windows) < p.len(),
{
    lemma_starts(p.drop_last(), windows);
}

fn list_parts(p: &Vec<char>, windows: bool) -> (r: Vec<String>)
    ensures
        text::texts(r@) == parts(p@, windows),
{
    let mut r: Vec<String> = Vec::new();
    let mut n: usize = p.len();
    assert(p@.take(n as int) =~= p@);
    assert(text::texts(r@) =~= Seq::<Seq<char>>::empty());
    assert(text::texts(r@) + parts(p@.take(n as int), windows) =~= parts(p@, windows));
    while n > 0
        invariant
            n <= p.len(),
            text::texts(r@) + parts(p@.take(n as int), windows) == parts(p@, windows),
        decreases n,
    {
        let ghost here = p@.take(n as int);
        let ghost before = text::texts(r@);
        assert(here.last() == p@[n - 1]);
        if separates(p[n - 1], windows) {
            assert(here.drop_last() =~= p@.take(n - 1));
            n = n - 1;
        } else {
            let s: usize = find_name_start(p, n, windows);
            proof {
                lemma_name(here, windows);
                assert(here.take(s as int) =~= p@.take(s as int));
                assert(p@.subrange(s as int, n as int) =~= here.skip(s as int));
            }
            let name: String = text_between(p, s, n);
            if !(s > 0 && same_text(name.as_str(), ".")) {
                let ghost nv = name@;
                push_text(&mut r, name);
                assert(text::texts(r@) =~= before.push(nv));
                assert(before.push(nv) + parts(p@.take(s as int), windows) =~= before + (seq![nv]
                    + parts(p@.take(s as int), windows)));
            }
            n = s;
        }
    }
    assert(p@.take(0) =~= Seq::<char>::empty());
    assert(text::texts(r@) + parts(p@.take(0), windows) =~= text::texts(r@));
    r
}

fn same_texts(a: &Vec<String>, b: &Vec<String>) -> (r: bool)
    ensures
        r == (text::texts(a@) == text::texts(b@)),
{
    if a.len() != b.len() {
        assert(text::texts(a@).len() != text::texts(b@).len());
        return false;
    }
    let mut i: usize = 0;
    while i < a.len()
        invariant
            i <= a.len(),
            a.len() == b.len(),
            forall|k: int| 0 <= k < i ==> text::texts(a@)[k] == #[trigger] text::texts(b@)[k],
        decreases a.len() - i,
    {
        assert(text::texts(a@)[i as int] == a@[i as int]@);
        assert(text::texts(b@)[i as int] == b@[i as int]@);
        if !same_text(a[i].as_str(), b[i].as_str()) {
            return false;
        }
        i = i + 1;
    }
    assert(text::texts(a@) =~= text::texts(b@));
    true
}

/// Tells whether two paths are the same, part by part.
pub fn are_same_path(a: &str, b: &str, windows: bool) -> (r: bool)
    ensures
        r == same_path(a@, b@, windows),
{
    let av: Vec<char> = chars_of(a);
    let bv: Vec<char> = chars_of(b);
    let (ad, ash, an): (bool, bool, usize) = find_prefix(&av, windows);
    let (bd, bsh, bn): (bool, bool, usize) = find_prefix(&bv, windows);
    let abody: Vec<char> = chars_from(&av, an);
    let bbody: Vec<char> = chars_from(&bv, bn);
    let ar: bool = ash || (abody.len() > 0 && separates(abody[0], windows));
    let br: bool = bsh || (bbody.len() > 0 && separates(bbody[0], windows));
    if ad != bd || ash != bsh || ar != br {
        return false;
    }
    if ad {
        let x: String = lower(text_between(&av, 0, 1).as_str());
        let y: String = lower(text_between(&bv, 0, 1).as_str());
        assert(av@.subrange(0, 1) =~= a@.take(1));
        assert(bv@.subrange(0, 1) =~= b@.take(1));
        if !same_text(x.as_str(), y.as_str()) {
            return false;
        }
    }
    if ash {
        let ae: usize = find_part_end(&av, 2, windows);
        let be: usize = find_part_end(&bv, 2, windows);
        if !same_text(
            text_between(&av, 2, ae).as_str(),
            text_between(&bv, 2, be).as_str(),
        ) || !same_text(
            text_between(&av, ae + 1, an).as_str(),
            text_between(&bv, be + 1, bn).as_str(),
        ) {
            return false;
        }
    }
    same_texts(&list_parts(&abody, windows), &list_parts(&bbody, windows))
}

// ---- files ----

/// Whether an extension is that of a still picture.
pub open spec fn is_image_extension(ext: Seq<char>) -> bool {
    let e = text::lowered(ext);
    e == "png"@ || e == "jpg"@ || e == "jpeg"@ || e == "webp"@ || e == "bmp"@ || e == "tiff"@ || e
        == "tif"@ || e == "gif"@ || e == "heic"@
}

/// Whether a path is that of a still picture.
pub open spec fn is_image(p: Seq<char>, windows: bool) -> bool {
    match extension(p, windows) {
        Some(e) => is_image_extension(e),
        None => false,
    }
}

/// Tells whether a path is that of a still picture, by its extension.
pub fn is_image_path(p: &str, windows: bool) -> (b: bool)
    ensures
        b == is_image(p@, windows),
{
    match find_extension(p, windows) {
        Some(ext) => {
            let e: String = lower(ext.as_str());
            let s: &str = e.as_str();
            same_text(s, "png") || same_text(s, "jpg") || same_text(s, "jpeg") || same_text(
                s,
                "webp",
            ) || same_text(s, "bmp") || same_text(s, "tiff") || same_text(s, "tif") || same_text(
                s,
                "gif",
            ) || same_text(s, "heic")
        },
        None => false,
    }
}

/// The denoised neighbour of a sound file.
pub open spec fn denoised_of(p: Seq<char>, windows: bool) -> Seq<char> {
    with_extension(p, "denoise.wav"@, windows)
}

/// Names the denoised neighbour of a sound file: `x.wav` has `x.denoise.wav`.
pub fn denoised_path(conform: &str, windows: bool) -> (r: String)
    ensures
        r@ == denoised_of(conform@, windows),
{
    replace_extension(conform, "denoise.wav", windows)
}

/// Names the file that a denoised sound file is written to first.
pub fn denoise_part_path(out: &str, windows: bool) -> (r: String)
    ensures
        r@ == with_extension(out@, "part.wav"@, windows),
{
    replace_extension(out, "part.wav", windows)
}

/// Names the file that a conformed sound file is written to first.
pub fn conform_part_path(out: &str, windows: bool) -> (r: String)
    ensures
        r@ == with_extension(out@, "wav.tmp"@, windows),
{
    replace_extension(out, "wav.tmp", windows)
}

/// The interpreter of the Python environment in a directory.
pub open spec fn venv_of(env_dir: Seq<char>, windows: bool) -> Seq<char> {
    path_in(
        env_dir,
        if windows {
            "venv/Scripts/python.exe"@
        } else {
            "venv/bin/python"@
        },
        windows,
    )
}

/// Names the interpreter of the Python environment in a directory.
pub fn venv_python(env_dir: &str, windows: bool) -> (r: String)
    ensures
        r@ == venv_of(env_dir@, windows),
{
    resolve_path_pub(
        env_dir,
        if windows {
            "venv/Scripts/python.exe"
        } else {
            "venv/bin/python"
        },
        windows,
    )
}

} // verus!
