//! Fonts: families, files and the width of texts.

use ubereditor::float::Real;
use ubereditor::fonts::{
    find_font, font_is_available, list_system_fonts, measure_text_px, resolve_font_family,
    FontFile, Fonts,
};
use ubereditor::model::TextStyle;

fn num(x: f64) -> Real {
    Real { bits: x.to_bits() }
}

fn face(family: &str, file: &str, weight: u16) -> fontdb::FaceInfo {
    fontdb::FaceInfo {
        id: fontdb::ID::dummy(),
        source: fontdb::Source::File(file.into()),
        index: 0,
        families: vec![(family.to_string(), fontdb::Language::English_UnitedStates)],
        post_script_name: family.to_string(),
        style: fontdb::Style::Normal,
        weight: fontdb::Weight(weight),
        stretch: fontdb::Stretch::Normal,
        monospaced: false,
    }
}

fn fonts_of(faces: Vec<fontdb::FaceInfo>) -> Fonts {
    let mut db = fontdb::Database::new();
    for f in faces {
        db.push_face_info(f);
    }
    Fonts { db, present: vec![], files: vec![] }
}

#[test]
fn generic_font_families_resolve_to_real_files() {
    let fonts = fonts_of(vec![
        face("DejaVu Sans", "/f/DejaVuSans.ttf", 400),
        face("Georgia", "/f/Georgia.ttf", 400),
        face("Menlo", "/f/Menlo.ttc", 400),
    ]);
    for (generic, file) in [
        ("sans-serif", "/f/DejaVuSans.ttf"),
        ("sans", "/f/DejaVuSans.ttf"),
        ("serif", "/f/Georgia.ttf"),
        ("monospace", "/f/Menlo.ttc"),
        ("mono", "/f/Menlo.ttc"),
        ("", "/f/DejaVuSans.ttf"),
    ] {
        let resolved = resolve_font_family(&fonts, generic);
        assert_eq!(resolved.as_deref(), Some(file), "generic '{generic}' must map to a real font");
        assert!(font_is_available(&fonts, generic), "'{generic}' reports available");
    }
    // the default TextStyle uses one of these — it must be renderable
    let default_font = TextStyle::default().font;
    assert!(
        font_is_available(&fonts, &default_font),
        "the DEFAULT font '{default_font}' must render, not draw empty"
    );
}

#[test]
fn system_fonts_enumerate_and_resolve() {
    let fonts = fonts_of(vec![
        face("Arial", "/f/Arial.ttf", 400),
        face("DejaVu Sans", "/f/DejaVuSans.ttf", 400),
        face("Georgia", "/f/Georgia.ttf", 400),
        face("Menlo", "/f/Menlo.ttc", 400),
        face("Times", "/f/Times.ttf", 400),
        face("Verdana", "/f/Verdana.ttf", 400),
    ]);
    let listed = list_system_fonts(&fonts).entries;
    assert!(listed.len() > 5, "a desktop system has fonts");
    // resolving the first listed family must yield its path
    let (family, path) = &listed[0];
    let resolved = resolve_font_family(&fonts, family);
    assert!(resolved.is_some(), "family {family} resolvable");
    assert_eq!(path, "/f/Arial.ttf");
    // a nonexistent family falls to None (and drawtext will use the default)
    assert!(resolve_font_family(&fonts, "NoSuchFontFamily9999").is_none());
}

#[test]
fn families_resolve_by_name() {
    let fonts = fonts_of(vec![
        face("Zed", "/f/Zed-Bold.ttf", 700),
        face("Zed", "/f/Zed.ttf", 400),
        face("Alpha", "/f/Alpha.ttf", 400),
    ]);
    assert_eq!(resolve_font_family(&fonts, " Zed ").as_deref(), Some("/f/Zed.ttf"));
    assert!(resolve_font_family(&fonts, "NoSuchFontFamily9999").is_none());
    let list = list_system_fonts(&fonts);
    let families: Vec<&str> = list.entries.iter().map(|(k, _)| k.as_str()).collect();
    assert_eq!(families, ["Alpha", "Zed"]);
    // a resolved family has a file that the list knows
    assert_eq!(list.get("Alpha").unwrap(), "/f/Alpha.ttf");
}

#[test]
fn any_font_stands_for_a_generic_family() {
    // none of these is a preferred family, and no usual file is there
    let mut odd = face("Odd", "/f/Odd.ttf", 400);
    odd.source = fontdb::Source::Binary(std::sync::Arc::new(vec![0u8]));
    let mut fonts = fonts_of(vec![odd, face("Zed", "/f/Zed.ttf", 400), face("Alpha", "/f/Alpha.ttf", 400)]);
    let generics = ["sans-serif", " Sans ", "serif", "monospace", "MONO", ""];
    for generic in generics {
        let file = resolve_font_family(&fonts, generic).expect("some font is installed");
        assert!(file == "/f/Zed.ttf" || file == "/f/Alpha.ttf", "{generic}: {file}");
        assert!(font_is_available(&fonts, generic));
    }
    assert!(resolve_font_family(&fonts, "Odd").is_none(), "it comes from no file");
    // a usual file comes first
    fonts.present = vec!["/usr/share/fonts/TTF/DejaVuSans.ttf".into()];
    assert_eq!(
        resolve_font_family(&fonts, "serif").as_deref(),
        Some("/usr/share/fonts/TTF/DejaVuSans.ttf")
    );
    // and without any font nothing is drawn
    let none = fonts_of(vec![]);
    for generic in generics {
        assert!(!font_is_available(&none, generic));
    }
}

#[test]
fn usual_files_are_tried_in_order() {
    let mut fonts = fonts_of(vec![]);
    assert!(find_font(&fonts).is_none());
    fonts.present = vec![
        "/usr/share/fonts/TTF/DejaVuSans.ttf".into(),
        "/usr/share/fonts/truetype/dejavu/DejaVuSans.ttf".into(),
    ];
    assert_eq!(find_font(&fonts), Some("/usr/share/fonts/truetype/dejavu/DejaVuSans.ttf"));
}

fn be16(v: &mut Vec<u8>, x: u16) {
    v.extend_from_slice(&x.to_be_bytes());
}

fn be32(v: &mut Vec<u8>, x: u32) {
    v.extend_from_slice(&x.to_be_bytes());
}

/// A font of a thousand units with glyphs for `A` and `B`, 500 and 600 wide.
fn tiny_font() -> Vec<u8> {
    let mut head = vec![0u8; 54];
    head[0..4].copy_from_slice(&0x0001_0000u32.to_be_bytes());
    head[12..16].copy_from_slice(&0x5F0F_3CF5u32.to_be_bytes());
    head[18..20].copy_from_slice(&1000u16.to_be_bytes());
    let mut hhea = vec![0u8; 36];
    hhea[0..4].copy_from_slice(&0x0001_0000u32.to_be_bytes());
    hhea[34..36].copy_from_slice(&3u16.to_be_bytes());
    let mut maxp = vec![];
    be32(&mut maxp, 0x0000_5000);
    be16(&mut maxp, 3);
    let mut hmtx = vec![];
    for advance in [250u16, 500, 600] {
        be16(&mut hmtx, advance);
        be16(&mut hmtx, 0);
    }
    let mut cmap = vec![];
    be16(&mut cmap, 0);
    be16(&mut cmap, 1);
    be16(&mut cmap, 3);
    be16(&mut cmap, 1);
    be32(&mut cmap, 12);
    be16(&mut cmap, 6);
    be16(&mut cmap, 14);
    be16(&mut cmap, 0);
    be16(&mut cmap, 'A' as u16);
    be16(&mut cmap, 2);
    be16(&mut cmap, 1);
    be16(&mut cmap, 2);
    let tables: Vec<(&[u8; 4], Vec<u8>)> =
        vec![(b"cmap", cmap), (b"head", head), (b"hhea", hhea), (b"hmtx", hmtx), (b"maxp", maxp)];
    let mut font = vec![];
    be32(&mut font, 0x0001_0000);
    be16(&mut font, tables.len() as u16);
    be16(&mut font, 64);
    be16(&mut font, 2);
    be16(&mut font, 16);
    let mut offset = 12 + 16 * tables.len();
    let mut body = vec![];
    for (tag, data) in &tables {
        font.extend_from_slice(*tag);
        be32(&mut font, 0);
        be32(&mut font, offset as u32);
        be32(&mut font, data.len() as u32);
        body.extend_from_slice(data);
        while body.len() % 4 != 0 {
            body.push(0);
        }
        offset = 12 + 16 * tables.len() + body.len();
    }
    font.extend_from_slice(&body);
    font
}

#[test]
fn texts_are_as_wide_as_their_glyphs() {
    let mut fonts = fonts_of(vec![]);
    fonts.files = vec![
        FontFile { path: "tiny.ttf".into(), data: tiny_font() },
        FontFile { path: "broken.ttf".into(), data: vec![1, 2, 3] },
    ];
    assert_eq!(measure_text_px(&fonts, "tiny.ttf", "A", num(100.0)), Some(num(50.0)));
    assert_eq!(measure_text_px(&fonts, "tiny.ttf", "AB", num(100.0)), Some(num(110.00000000000001)));
    assert_eq!(measure_text_px(&fonts, "tiny.ttf", "", num(100.0)), Some(num(0.0)));
    assert_eq!(measure_text_px(&fonts, "broken.ttf", "A", num(100.0)), None);
    assert_eq!(measure_text_px(&fonts, "none.ttf", "A", num(100.0)), None);
}
