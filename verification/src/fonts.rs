//! Fonts: which file draws a family, and how wide a text is in it.

use vstd::prelude::*;

use crate::float::Real;
use crate::strmap;
use crate::text;
use crate::text::{chars_of, copy_text, same_text};

verus! {

/// 0.5
pub const HALF_BITS: u64 = 0x3fe0_0000_0000_0000;

// ---- the font database ----

/// `Database` of the crate `fontdb`: the faces that the machine has.
#[verifier::external_type_specification]
#[verifier::external_body]
pub struct ExDatabase(fontdb::Database);

/// `ID` of the crate `fontdb`: the name of a face in a database.
#[verifier::external_type_specification]
#[verifier::external_body]
pub struct ExFaceId(fontdb::ID);

/// A face of a database: its name there, its families, the file that it comes
/// from where it comes from one, and its style, weight and stretch as numbers.
pub type FaceV = (fontdb::ID, Seq<Seq<char>>, Option<Seq<char>>, (int, int, int));

/// The faces of a database in the order in which it gives them.
pub uninterp spec fn font_faces(db: fontdb::Database) -> Seq<FaceV>;

/// The face that a query for a family alone finds: of those of the family the
/// one that is the closest to normal in stretch, style and weight.
pub uninterp spec fn best_face(faces: Seq<FaceV>, family: Seq<char>) -> Option<fontdb::ID>;

/// Whether some face has a family.
pub open spec fn has_family(faces: Seq<FaceV>, family: Seq<char>) -> bool {
    exists|i: int| 0 <= i < faces.len() && (#[trigger] faces[i]).1.contains(family)
}

/// Whether a face has a name and a family.
pub open spec fn face_has(faces: Seq<FaceV>, id: fontdb::ID, family: Seq<char>) -> bool {
    exists|i: int|
        0 <= i < faces.len() && (#[trigger] faces[i]).0 == id && faces[i].1.contains(family)
}

/// `Database::query` of the crate `fontdb`, for one family by name and nothing
/// else: the best of the faces that have the family, and none just where no
/// face has it. What makes a face the best is left to the crate.
#[verifier::external_body]
fn query_family(db: &fontdb::Database, family: &str) -> (r: Option<fontdb::ID>)
    ensures
        r == best_face(font_faces(*db), family@),
        r is Some <==> has_family(font_faces(*db), family@),
        r is Some ==> face_has(font_faces(*db), r->Some_0, family@),
{
    let families = [fontdb::Family::Name(family)];
    db.query(&fontdb::Query { families: &families, ..Default::default() })
}

/// The file of the first face with a name: none without such a face, and none
/// inside where the face comes from no file.
pub open spec fn file_of(faces: Seq<FaceV>, id: fontdb::ID) -> Option<Option<Seq<char>>>
    decreases faces.len(),
{
    if faces.len() == 0 {
        None
    } else if faces[0].0 == id {
        Some(faces[0].2)
    } else {
        file_of(faces.drop_first(), id)
    }
}

/// The contents of a file that a face may come from.
pub open spec fn opt_opt(o: Option<Option<String>>) -> Option<Option<Seq<char>>> {
    match o {
        Some(x) => Some(crate::model::opt_text(x)),
        None => None,
    }
}

/// `Database::face_source` of the crate `fontdb`: where a face comes from, here
/// its file. No two faces of a database have one name.
#[verifier::external_body]
fn face_file(db: &fontdb::Database, id: fontdb::ID) -> (r: Option<Option<String>>)
    ensures
        opt_opt(r) == file_of(font_faces(*db), id),
{
    match db.face_source(id) {
        Some((fontdb::Source::File(path), _)) => Some(Some(path.to_string_lossy().into_owned())),
        Some(_) => Some(None),
        None => None,
    }
}

/// A face as a list shows it.
pub struct FaceEntry {
    /// The first of its families.
    pub family: Option<String>,
    /// The file that it comes from.
    pub file: Option<String>,
}

/// The contents of a `FaceEntry`.
pub type EntryV = (Option<Seq<char>>, Option<Seq<char>>);

impl View for FaceEntry {
    type V = EntryV;

    open spec fn view(&self) -> EntryV {
        (crate::model::opt_text(self.family), crate::model::opt_text(self.file))
    }
}

/// A face of a database as a list shows it.
pub open spec fn entry_of(f: FaceV) -> EntryV {
    (
        if f.1.len() > 0 {
            Some(f.1[0])
        } else {
            None
        },
        f.2,
    )
}

/// `Database::faces` of the crate `fontdb`: all faces in order, here with the
/// first family and the file of each.
#[verifier::external_body]
fn all_faces(db: &fontdb::Database) -> (r: Vec<FaceEntry>)
    ensures
        crate::seqs::views(r@) == font_faces(*db).map_values(|f: FaceV| entry_of(f)),
{
    db.faces().map(|face| FaceEntry {
        family: face.families.first().map(|f| f.0.clone()),
        file: match &face.source {
            fontdb::Source::File(path) => Some(path.to_string_lossy().into_owned()),
            _ => None,
        },
    }).collect()
}

// ---- metrics ----

/// The units of an em in a font file; none for what is no font.
pub uninterp spec fn units_of(data: Seq<u8>) -> Option<u16>;

/// How far a character advances in a font file, in units; none for what is no
/// font, or where the font has no such glyph.
pub uninterp spec fn advance_of(data: Seq<u8>, c: char) -> Option<u16>;

/// `Face::parse` and `Face::units_per_em` of the crate `ttf_parser`: the units
/// of an em of the first face in a file, from 16 to 16384.
#[verifier::external_body]
fn font_units(data: &Vec<u8>) -> (r: Option<u16>)
    ensures
        r == units_of(data@),
        r is Some ==> 16 <= r->Some_0 <= 16384,
{
    match ttf_parser::Face::parse(data, 0) {
        Ok(face) => Some(face.units_per_em()),
        Err(_) => None,
    }
}

/// `Face::parse`, `Face::glyph_index` and `Face::glyph_hor_advance` of the crate
/// `ttf_parser`: the advance of the glyph for a character.
#[verifier::external_body]
fn font_advance(data: &Vec<u8>, c: char) -> (r: Option<u16>)
    ensures
        r == advance_of(data@, c),
{
    let face = ttf_parser::Face::parse(data, 0).ok()?;
    let glyph = face.glyph_index(c)?;
    face.glyph_hor_advance(glyph)
}

// ---- what a machine has ----

/// A font file that was read.
#[derive(Debug)]
pub struct FontFile {
    pub path: String,
    pub data: Vec<u8>,
}

/// The fonts of a machine.
pub struct Fonts {
    pub db: fontdb::Database,
    /// The usual font files that are there.
    pub present: Vec<String>,
    /// The font files that could be read.
    pub files: Vec<FontFile>,
}

/// The contents of `Fonts`.
#[verifier::ext_equal]
pub struct FontsV {
    pub faces: Seq<FaceV>,
    pub present: Seq<Seq<char>>,
    pub files: Seq<(Seq<char>, Seq<u8>)>,
}

impl View for Fonts {
    type V = FontsV;

    open spec fn view(&self) -> FontsV {
        FontsV {
            faces: font_faces(self.db),
            present: text::texts(self.present@),
            files: self.files@.map_values(|f: FontFile| (f.path@, f.data@)),
        }
    }
}

/// The contents of a file.
pub open spec fn data_of(files: Seq<(Seq<char>, Seq<u8>)>, path: Seq<char>) -> Option<Seq<u8>>
    decreases files.len(),
{
    if files.len() == 0 {
        None
    } else if files[0].0 == path {
        Some(files[0].1)
    } else {
        data_of(files.drop_first(), path)
    }
}

fn find_file(fonts: &Fonts, path: &str) -> (r: Option<usize>)
    ensures
        match r {
            Some(i) => i < fonts.files.len() && data_of(fonts@.files, path@) == Some(
                fonts.files@[i as int].data@,
            ),
            None => data_of(fonts@.files, path@) is None,
        },
{
    let ghost all = fonts@.files;
    let mut i: usize = 0;
    assert(all.skip(0) =~= all);
    while i < fonts.files.len()
        invariant
            i <= fonts.files.len(),
            all == fonts@.files,
            data_of(all, path@) == data_of(all.skip(i as int), path@),
        decreases fonts.files.len() - i,
    {
        assert(all.skip(i as int)[0] == all[i as int]);
        assert(all.skip(i as int).drop_first() =~= all.skip(i as int + 1));
        if same_text(fonts.files[i].path.as_str(), path) {
            return Some(i);
        }
        i = i + 1;
    }
    None
}

// ---- widths ----

/// How far a character advances; half an em where the font has no glyph.
pub open spec fn char_units(data: Seq<u8>, upem: u16, c: char) -> Real {
    match advance_of(data, c) {
        Some(a) => Real::of(a as int),
        None => Real::of(upem as int).times(Real { bits: HALF_BITS }),
    }
}

/// The sum of the advances of a text.
pub open spec fn text_units(data: Seq<u8>, upem: u16, s: Seq<char>) -> Real
    decreases s.len(),
{
    if s.len() == 0 {
        Real::of(0)
    } else {
        text_units(data, upem, s.drop_last()).plus(char_units(data, upem, s.last()))
    }
}

/// The width of a text in pixels; none where the font cannot be read.
pub open spec fn text_width(f: FontsV, path: Seq<char>, s: Seq<char>, px: Real) -> Option<Real> {
    match data_of(f.files, path) {
        None => None,
        Some(data) => match units_of(data) {
            None => None,
            Some(upem) => Some(
                text_units(data, upem, s).over(Real::of(upem as int)).times(px),
            ),
        },
    }
}

/// Measures a text in pixels with a font file: the sum of the advances.
pub fn measure_text_px(fonts: &Fonts, path: &str, s: &str, px: Real) -> (r: Option<Real>)
    ensures
        r == text_width(fonts@, path@, s@, px),
{
    let i: usize = match find_file(fonts, path) {
        Some(i) => i,
        None => {
            return None;
        },
    };
    let data: &Vec<u8> = &fonts.files[i].data;
    let upem: u16 = match font_units(data) {
        Some(u) => u,
        None => {
            return None;
        },
    };
    let em: Real = Real::from_int(upem as i64);
    let v: Vec<char> = chars_of(s);
    let mut units: Real = Real::from_int(0);
    let mut k: usize = 0;
    assert(v@.take(0) =~= Seq::<char>::empty());
    while k < v.len()
        invariant
            k <= v.len(),
            em == Real::of(upem as int),
            units == text_units(data@, upem, v@.take(k as int)),
        decreases v.len() - k,
    {
        proof {
            assert(v@.take(k as int + 1).drop_last() =~= v@.take(k as int));
        }
        let u: Real = match font_advance(data, v[k]) {
            Some(a) => Real::from_int(a as i64),
            None => em.mul(Real { bits: HALF_BITS }),
        };
        units = units.add(u);
        k = k + 1;
    }
    assert(v@.take(k as int) =~= v@);
    Some(units.div(em).mul(px))
}

// ---- families ----

/// The first of the usual font files that is there.
pub open spec fn first_present(present: Seq<Seq<char>>, candidates: Seq<Seq<char>>) -> Option<Seq<char>>
    decreases candidates.len(),
{
    if candidates.len() == 0 {
        None
    } else if present.contains(candidates[0]) {
        Some(candidates[0])
    } else {
        first_present(present, candidates.drop_first())
    }
}

/// The usual font files.
pub open spec fn usual_files() -> Seq<Seq<char>> {
    seq![
        "/System/Library/Fonts/Supplemental/Arial.ttf"@,
        "/System/Library/Fonts/Helvetica.ttc"@,
        "/usr/share/fonts/truetype/dejavu/DejaVuSans.ttf"@,
        "/usr/share/fonts/TTF/DejaVuSans.ttf"@,
        "C:\\Windows\\Fonts\\arial.ttf"@,
    ]
}

fn is_present(fonts: &Fonts, path: &str) -> (b: bool)
    ensures
        b == fonts@.present.contains(path@),
{
    let mut i: usize = 0;
    while i < fonts.present.len()
        invariant
            i <= fonts.present.len(),
            forall|k: int| 0 <= k < i ==> fonts.present@[k]@ != path@,
        decreases fonts.present.len() - i,
    {
        assert(fonts@.present[i as int] == fonts.present@[i as int]@);
        if same_text(fonts.present[i].as_str(), path) {
            return true;
        }
        i = i + 1;
    }
    proof {
        assert forall|k: int| 0 <= k < fonts@.present.len() implies fonts@.present[k] != path@ by {
            assert(fonts@.present[k] == fonts.present@[k]@);
        }
    }
    false
}

/// The usual font files, for a look at which of them are there.
pub fn font_candidates() -> (v: Vec<&'static str>)
    ensures
        v@.map_values(|s: &'static str| s@) == usual_files(),
{
    let v: Vec<&'static str> = vec![
        "/System/Library/Fonts/Supplemental/Arial.ttf",
        "/System/Library/Fonts/Helvetica.ttc",
        "/usr/share/fonts/truetype/dejavu/DejaVuSans.ttf",
        "/usr/share/fonts/TTF/DejaVuSans.ttf",
        "C:\\Windows\\Fonts\\arial.ttf",
    ];
    assert(v@.map_values(|s: &'static str| s@) =~= usual_files());
    v
}

/// Finds the first of the usual font files that is there.
pub fn find_font(fonts: &Fonts) -> (r: Option<&'static str>)
    ensures
        match first_present(fonts@.present, usual_files()) {
            Some(x) => r is Some && r->Some_0@ == x,
            None => r is None,
        },
{
    let v: Vec<&'static str> = font_candidates();
    let ghost all = usual_files();
    let mut i: usize = 0;
    assert(all.skip(0) =~= all);
    assert(v.len() == all.len());
    while i < v.len()
        invariant
            i <= v.len(),
            v.len() == all.len(),
            v@.map_values(|s: &'static str| s@) == all,
            all == usual_files(),
            first_present(fonts@.present, all) == first_present(fonts@.present, all.skip(i as int)),
        decreases v.len() - i,
    {
        assert(all[i as int] == v@[i as int]@);
        assert(all.skip(i as int)[0] == all[i as int]);
        assert(all.skip(i as int).drop_first() =~= all.skip(i as int + 1));
        if is_present(fonts, v[i]) {
            return Some(v[i]);
        }
        i = i + 1;
    }
    None
}

/// The file of a family by name.
pub open spec fn named_font(f: FontsV, family: Seq<char>) -> Option<Seq<char>> {
    match best_face(f.faces, family) {
        None => None,
        Some(id) => match file_of(f.faces, id) {
            Some(Some(path)) => Some(path),
            _ => None,
        },
    }
}

/// Whether every face comes from a file, as those of a system do.
pub open spec fn all_from_files(faces: Seq<FaceV>) -> bool {
    forall|i: int| 0 <= i < faces.len() ==> (#[trigger] faces[i]).2 is Some
}

proof fn lemma_file_of(faces: Seq<FaceV>, id: fontdb::ID, k: int)
    requires
        all_from_files(faces),
        0 <= k < faces.len(),
        faces[k].0 == id,
    ensures
        file_of(faces, id) is Some,
        file_of(faces, id)->Some_0 is Some,
    decreases faces.len(),
{
    if faces[0].0 != id {
        let rest = faces.drop_first();
        assert forall|i: int| 0 <= i < rest.len() implies (#[trigger] rest[i]).2 is Some by {
            assert(rest[i] == faces[i + 1]);
        }
        lemma_file_of(rest, id, k - 1);
    }
}

fn resolve_named(fonts: &Fonts, family: &str) -> (r: Option<String>)
    ensures
        crate::model::opt_text(r) == named_font(fonts@, family@),
        all_from_files(fonts@.faces) ==> (r is Some <==> has_family(fonts@.faces, family@)),
{
    let found: Option<fontdb::ID> = query_family(&fonts.db, family);
    proof {
        if all_from_files(fonts@.faces) && found is Some {
            let id = found->Some_0;
            let k = choose|k: int|
                0 <= k < fonts@.faces.len() && (#[trigger] fonts@.faces[k]).0 == id
                    && fonts@.faces[k].1.contains(family@);
            lemma_file_of(fonts@.faces, id, k);
        }
    }
    match found {
        None => None,
        Some(id) => match face_file(&fonts.db, id) {
            Some(Some(path)) => Some(path),
            _ => None,
        },
    }
}

/// The file of the first face that comes from one.
pub open spec fn first_file(faces: Seq<FaceV>) -> Option<Seq<char>>
    decreases faces.len(),
{
    if faces.len() == 0 {
        None
    } else if faces[0].2 is Some {
        faces[0].2
    } else {
        first_file(faces.drop_first())
    }
}

/// Whether some face comes from a file.
pub open spec fn some_file(faces: Seq<FaceV>) -> bool {
    exists|i: int| 0 <= i < faces.len() && (#[trigger] faces[i]).2 is Some
}

proof fn lemma_first_file(faces: Seq<FaceV>)
    ensures
        first_file(faces) is Some <==> some_file(faces),
    decreases faces.len(),
{
    if faces.len() > 0 && faces[0].2 is None {
        let rest = faces.drop_first();
        lemma_first_file(rest);
        if some_file(faces) {
            let i = choose|i: int| 0 <= i < faces.len() && (#[trigger] faces[i]).2 is Some;
            assert(rest[i - 1].2 is Some);
        }
        if some_file(rest) {
            let i = choose|i: int| 0 <= i < rest.len() && (#[trigger] rest[i]).2 is Some;
            assert(faces[i + 1].2 is Some);
        }
    }
}

fn find_any_file(fonts: &Fonts) -> (r: Option<String>)
    ensures
        crate::model::opt_text(r) == first_file(fonts@.faces),
{
    let v: Vec<FaceEntry> = all_faces(&fonts.db);
    let ghost all = fonts@.faces;
    let ghost entries = crate::seqs::views(v@);
    let mut i: usize = 0;
    assert(all.skip(0) =~= all);
    assert(entries.len() == all.len());
    while i < v.len()
        invariant
            i <= v.len(),
            entries == crate::seqs::views(v@),
            entries == all.map_values(|f: FaceV| entry_of(f)),
            entries.len() == all.len(),
            all == fonts@.faces,
            first_file(all) == first_file(all.skip(i as int)),
        decreases v.len() - i,
    {
        assert(entries.len() == v.len());
        assert(entries[i as int] == v@[i as int]@);
        assert(entries[i as int] == entry_of(all[i as int]));
        assert(all.skip(i as int)[0] == all[i as int]);
        assert(all.skip(i as int).drop_first() =~= all.skip(i as int + 1));
        if let Some(file) = &v[i].file {
            return Some(file.clone());
        }
        i = i + 1;
    }
    None
}

/// The file of the first family that has one; then a usual file, and then the
/// file of any face at all.
pub open spec fn first_named(f: FontsV, families: Seq<Seq<char>>) -> Option<Seq<char>>
    decreases families.len(),
{
    if families.len() == 0 {
        match first_present(f.present, usual_files()) {
            Some(x) => Some(x),
            None => first_file(f.faces),
        }
    } else {
        match named_font(f, families[0]) {
            Some(x) => Some(x),
            None => first_named(f, families.drop_first()),
        }
    }
}

proof fn lemma_first_named(f: FontsV, families: Seq<Seq<char>>)
    requires
        some_file(f.faces),
    ensures
        first_named(f, families) is Some,
    decreases families.len(),
{
    if families.len() == 0 {
        lemma_first_file(f.faces);
    } else {
        lemma_first_named(f, families.drop_first());
    }
}

fn resolve_first(fonts: &Fonts, families: &Vec<&'static str>) -> (r: Option<String>)
    ensures
        crate::model::opt_text(r) == first_named(
            fonts@,
            families@.map_values(|s: &'static str| s@),
        ),
{
    let ghost all = families@.map_values(|s: &'static str| s@);
    let mut i: usize = 0;
    assert(all.skip(0) =~= all);
    while i < families.len()
        invariant
            i <= families.len(),
            all == families@.map_values(|s: &'static str| s@),
            first_named(fonts@, all) == first_named(fonts@, all.skip(i as int)),
        decreases families.len() - i,
    {
        assert(all.skip(i as int)[0] == families@[i as int]@);
        assert(all.skip(i as int).drop_first() =~= all.skip(i as int + 1));
        if let Some(x) = resolve_named(fonts, families[i]) {
            return Some(x);
        }
        i = i + 1;
    }
    assert(all.skip(i as int) =~= Seq::<Seq<char>>::empty());
    match find_font(fonts) {
        Some(s) => Some(copy_text(s)),
        None => find_any_file(fonts),
    }
}

/// Families without serifs, by preference.
pub open spec fn sans_families() -> Seq<Seq<char>> {
    seq![
        "Arial"@,
        "Helvetica"@,
        "Helvetica Neue"@,
        "Liberation Sans"@,
        "DejaVu Sans"@,
        "Segoe UI"@,
        "Roboto"@,
    ]
}

/// Families with serifs, by preference.
pub open spec fn serif_families() -> Seq<Seq<char>> {
    seq!["Times New Roman"@, "Georgia"@, "Liberation Serif"@, "DejaVu Serif"@, "Times"@]
}

/// Families with one width for all characters, by preference.
pub open spec fn mono_families() -> Seq<Seq<char>> {
    seq![
        "Menlo"@,
        "Courier New"@,
        "Liberation Mono"@,
        "DejaVu Sans Mono"@,
        "Consolas"@,
        "Courier"@,
    ]
}

/// The file that draws a family: a generic name stands for the first family of
/// its kind that is there, and where none is, for any font at all.
pub open spec fn font_of(f: FontsV, family: Seq<char>) -> Option<Seq<char>> {
    let name = text::trimmed(family);
    let low = text::lowered(name);
    if low == "sans-serif"@ || low == "sans"@ || low == ""@ {
        first_named(f, sans_families())
    } else if low == "serif"@ {
        first_named(f, serif_families())
    } else if low == "monospace"@ || low == "mono"@ {
        first_named(f, mono_families())
    } else {
        named_font(f, name)
    }
}

/// Whether a family is a generic one.
pub open spec fn generic(family: Seq<char>) -> bool {
    let low = text::lowered(text::trimmed(family));
    low == "sans-serif"@ || low == "sans"@ || low == ""@ || low == "serif"@ || low == "monospace"@
        || low == "mono"@
}

/// A generic family is drawn wherever some face comes from a file.
pub proof fn law_generic_families_are_drawn(f: FontsV, family: Seq<char>)
    requires
        generic(family),
        some_file(f.faces),
    ensures
        font_of(f, family) is Some,
{
    lemma_first_named(f, sans_families());
    lemma_first_named(f, serif_families());
    lemma_first_named(f, mono_families());
}

/// Finds the file that draws a family. The generic families stand for the
/// first real one of their kind that is there, or for any font that is; of the
/// others, just those are found that a face has, where all faces come from
/// files.
pub fn resolve_font_family(fonts: &Fonts, family: &str) -> (r: Option<String>)
    ensures
        crate::model::opt_text(r) == font_of(fonts@, family@),
        generic(family@) && some_file(fonts@.faces) ==> r is Some,
        all_from_files(fonts@.faces) && !generic(family@) ==> (r is Some <==> has_family(
            fonts@.faces,
            text::trimmed(family@),
        )),
{
    proof {
        if generic(family@) && some_file(fonts@.faces) {
            law_generic_families_are_drawn(fonts@, family@);
        }
    }
    let name: String = text::trim(family);
    let low: String = text::lower(name.as_str());
    if same_text(low.as_str(), "sans-serif") || same_text(low.as_str(), "sans") || same_text(
        low.as_str(),
        "",
    ) {
        let v: Vec<&'static str> = vec![
            "Arial",
            "Helvetica",
            "Helvetica Neue",
            "Liberation Sans",
            "DejaVu Sans",
            "Segoe UI",
            "Roboto",
        ];
        assert(v@.map_values(|s: &'static str| s@) =~= sans_families());
        resolve_first(fonts, &v)
    } else if same_text(low.as_str(), "serif") {
        let v: Vec<&'static str> = vec![
            "Times New Roman",
            "Georgia",
            "Liberation Serif",
            "DejaVu Serif",
            "Times",
        ];
        assert(v@.map_values(|s: &'static str| s@) =~= serif_families());
        resolve_first(fonts, &v)
    } else if same_text(low.as_str(), "monospace") || same_text(low.as_str(), "mono") {
        let v: Vec<&'static str> = vec![
            "Menlo",
            "Courier New",
            "Liberation Mono",
            "DejaVu Sans Mono",
            "Consolas",
            "Courier",
        ];
        assert(v@.map_values(|s: &'static str| s@) =~= mono_families());
        resolve_first(fonts, &v)
    } else {
        resolve_named(fonts, name.as_str())
    }
}

/// Tells whether a family is drawn by some file.
pub fn font_is_available(fonts: &Fonts, family: &str) -> (b: bool)
    ensures
        b == (font_of(fonts@, family@) is Some),
{
    resolve_font_family(fonts, family).is_some()
}

// ---- the list of fonts ----

/// A list by family with one more, unless its family is there.
pub open spec fn listed(list: Seq<(Seq<char>, Seq<char>)>, e: EntryV) -> Seq<(Seq<char>, Seq<char>)> {
    match (e.0, e.1) {
        (Some(family), Some(file)) => if strmap::lookup(list, family) is Some {
            list
        } else {
            strmap::with_entry(list, family, file)
        },
        _ => list,
    }
}

/// The families that come from files, each with its first file, by name.
pub open spec fn font_list(entries: Seq<EntryV>) -> Seq<(Seq<char>, Seq<char>)>
    decreases entries.len(),
{
    if entries.len() == 0 {
        Seq::<(Seq<char>, Seq<char>)>::empty()
    } else {
        listed(font_list(entries.drop_last()), entries.last())
    }
}

/// Lists the families that come from files, each once, with its first file.
pub fn list_system_fonts(fonts: &Fonts) -> (r: strmap::StrMap<String>)
    ensures
        r@ == font_list(fonts@.faces.map_values(|f: FaceV| entry_of(f))),
{
    let v: Vec<FaceEntry> = all_faces(&fonts.db);
    let ghost all = crate::seqs::views(v@);
    let mut r: strmap::StrMap<String> = strmap::StrMap::new();
    let mut i: usize = 0;
    assert(all.take(0) =~= Seq::<EntryV>::empty());
    assert(r@ =~= Seq::<(Seq<char>, Seq<char>)>::empty());
    while i < v.len()
        invariant
            i <= v.len(),
            all == crate::seqs::views(v@),
            r@ == font_list(all.take(i as int)),
        decreases v.len() - i,
    {
        proof {
            assert(all.take(i as int + 1).drop_last() =~= all.take(i as int));
            assert(all.take(i as int + 1).last() == v@[i as int]@);
        }
        if let Some(family) = &v[i].family {
            if let Some(file) = &v[i].file {
                if r.get(family.as_str()).is_none() {
                    r.insert(family.clone(), file.clone());
                }
            }
        }
        i = i + 1;
    }
    assert(all.take(i as int) =~= all);
    r
}

} // verus!
