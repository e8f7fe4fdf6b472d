use vsdx::package::{VsdxPackage, XmlRecord};
use vsdx::palette::{font_family, palette_colour};
use vsdx::render_text::{Diagnostic, DiagnosticCategory};
use vsdx::text::parse_i64;

fn package(colors: Vec<XmlRecord>) -> VsdxPackage {
    VsdxPackage {
        document_part_path: "visio/document.xml".into(),
        pages_part_path: None,
        masters_part_path: None,
        page_part_paths: vec![],
        master_part_paths: vec![],
        theme_part_paths: vec![],
        windows_part_path: None,
        relationships: vec![],
        document_sheet: None,
        style_sheets: vec![],
        colors,
        face_names: vec![],
        page_sheets: vec![],
        master_sheets: vec![],
        page_part_ids: vec![],
        master_part_ids: vec![],
        page_contents: vec![],
        master_contents: vec![],
        parts: vec![],
    }
}

fn entry(attributes: &[(&str, &str)]) -> XmlRecord {
    XmlRecord {
        name: "ColorEntry".into(),
        attributes: attributes.iter().map(|(k, v)| (k.to_string(), v.to_string())).collect(),
        children: vec![],
    }
}

#[test]
fn palette_colours_and_unknown_codes_fail_safe() {
    let package = package(vec![entry(&[("IX", "3"), ("RGB", "010203")])]);
    assert_eq!(palette_colour(&package, 3), Some("#010203".into()));
    assert_eq!(
        Diagnostic::for_code("future-diagnostic", "detail").category,
        DiagnosticCategory::Integrity
    );
}

#[test]
fn palette_entries_need_an_index_and_six_hex_digits() {
    let package = package(vec![
        entry(&[("IX", "1"), ("RGB", "12345")]),
        entry(&[("Index", "+2"), ("Color", "##aBcDeF")]),
        entry(&[("IX", "4"), ("Value", "GGGGGG")]),
        entry(&[("IX", "5")]),
        entry(&[("IX", "-6"), ("Value", "#000000")]),
    ]);
    assert_eq!(palette_colour(&package, 1), None);
    assert_eq!(palette_colour(&package, 2), Some("#aBcDeF".into()));
    assert_eq!(palette_colour(&package, 4), None);
    assert_eq!(palette_colour(&package, 5), None);
    assert_eq!(palette_colour(&package, -6), Some("#000000".into()));
    assert_eq!(palette_colour(&package, 7), None);
}

#[test]
fn signed_integers_parse_as_std_does() {
    for text in ["0", "+17", "-17", "9223372036854775807", "-9223372036854775808", "007"] {
        assert_eq!(parse_i64(text), text.parse::<i64>().ok(), "{text}");
    }
    for text in ["", "+", "-", "9223372036854775808", "-9223372036854775809", "1e3", " 1"] {
        assert_eq!(parse_i64(text), None, "{text}");
    }
}

#[test]
fn fonts_name_their_face_by_id_or_stand_for_themselves() {
    let mut pkg = package(vec![]);
    pkg.face_names = vec![
        XmlRecord {
            name: "FaceName".into(),
            attributes: vec![("ID".into(), "4".into()), ("Name".into(), "Calibri".into())],
            children: vec![],
        },
        XmlRecord {
            name: "FaceName".into(),
            attributes: vec![("ID".into(), "5".into())],
            children: vec![],
        },
    ];
    assert_eq!(font_family(&pkg, "4"), "Calibri");
    assert_eq!(font_family(&pkg, "5"), "5");
    assert_eq!(font_family(&pkg, "Arial"), "Arial");
}
