use vsdx::package::{
    catalog_part_ids, id_at, path_for, relationship_path, require_part, target_by_type, targets_by_type,
    PackagePart, Relationship, TargetMode, VsdxError, VsdxPackage,
};

fn rel(id: &str, kind: &str, resolved: Option<&str>) -> Relationship {
    Relationship {
        id: id.into(),
        relationship_type: kind.into(),
        target: resolved.unwrap_or("").into(),
        target_mode: TargetMode::Internal,
        resolved_target: resolved.map(str::to_owned),
    }
}

#[test]
fn relationship_parts_sit_beside_their_source() {
    assert_eq!(relationship_path(""), "_rels/.rels");
    assert_eq!(relationship_path("visio/document.xml"), "visio/_rels/document.xml.rels");
    assert_eq!(relationship_path("visio/pages/page1.xml"), "visio/pages/_rels/page1.xml.rels");
    assert_eq!(relationship_path("document.xml"), "_rels/document.xml.rels");
}

#[test]
fn required_parts_must_be_present() {
    let parts = vec![("visio/document.xml".to_string(), vec![1u8, 2, 3])];
    assert!(require_part(&parts, "visio/document.xml").is_ok());
    assert!(matches!(
        require_part(&parts, "visio/pages/pages.xml"),
        Err(VsdxError::MissingPart(p)) if p == "visio/pages/pages.xml"
    ));
}

#[test]
fn the_first_relationship_of_a_type_decides_its_target() {
    let rels = vec![
        rel("rId1", "theme", Some("visio/theme/theme1.xml")),
        rel("rId2", "pages", None),
        rel("rId3", "pages", Some("visio/pages/pages.xml")),
    ];
    assert_eq!(target_by_type(&rels, "theme").as_deref(), Some("visio/theme/theme1.xml"));
    assert_eq!(target_by_type(&rels, "pages"), None);
    assert_eq!(target_by_type(&rels, "masters"), None);
}

#[test]
fn targets_of_a_type_are_listed_once_in_order() {
    let rels = vec![
        rel("rId1", "page", Some("visio/pages/page2.xml")),
        rel("rId2", "page", Some("visio/pages/page1.xml")),
        rel("rId3", "image", Some("visio/media/a.png")),
        rel("rId4", "page", Some("visio/pages/page2.xml")),
        rel("rId5", "page", None),
    ];
    assert_eq!(
        targets_by_type(&rels, "page"),
        vec!["visio/pages/page2.xml".to_string(), "visio/pages/page1.xml".to_string()]
    );
    assert!(targets_by_type(&rels, "master").is_empty());
}

fn item(attrs: &[(&str, &str)]) -> Vec<(String, String)> {
    attrs.iter().map(|(k, v)| (k.to_string(), v.to_string())).collect()
}

#[test]
fn catalog_entries_map_parts_to_their_ids() {
    let rels = vec![
        rel("rId1", "page", Some("visio/pages/page1.xml")),
        rel("rId2", "page", Some("visio/pages/page2.xml")),
    ];
    let items = vec![
        item(&[("ID", "0"), ("r:id", "rId1")]),
        item(&[("ID", "x"), ("r:id", "rId2")]),
        item(&[("Name", "no id"), ("r:id", "rId2")]),
        item(&[("ID", "4")]),
        item(&[("ID", "5"), ("id", "rId2")]),
        item(&[("ID", "6"), ("r:id", "rId1")]),
    ];
    let ids = catalog_part_ids(&items, "visio/pages/pages.xml", &rels).unwrap();
    assert_eq!(
        ids,
        vec![("visio/pages/page1.xml".to_string(), 6), ("visio/pages/page2.xml".to_string(), 5)]
    );
}

#[test]
fn rejects_catalog_entries_that_cannot_resolve() {
    let rels = vec![rel("rId1", "page", Some("visio/pages/page1.xml"))];
    let items = vec![item(&[("ID", "0"), ("r:id", "rId1")]), item(&[("ID", "1"), ("r:id", "rId9")])];
    assert!(matches!(
        catalog_part_ids(&items, "visio/pages/pages.xml", &rels),
        Err(VsdxError::InvalidRelationship { source_part, target })
            if source_part == "visio/pages/pages.xml" && target == "rId9"
    ));
    assert!(matches!(
        catalog_part_ids(&items[..1].to_vec(), "visio/masters/masters.xml", &vec![]),
        Err(VsdxError::InvalidRelationship { target, .. }) if target == "rId1"
    ));
}

fn package_with_parts(parts: Vec<PackagePart>) -> VsdxPackage {
    VsdxPackage {
        document_part_path: "visio/document.xml".into(),
        pages_part_path: None,
        masters_part_path: None,
        page_part_paths: vec![],
        master_part_paths: vec![],
        theme_part_paths: vec![],
        windows_part_path: None,
        relationships: vec![],
        document_sheet: None,
        style_sheets: vec![],
        colors: vec![],
        face_names: vec![],
        page_sheets: vec![],
        master_sheets: vec![],
        page_part_ids: vec![],
        master_part_ids: vec![],
        page_contents: vec![],
        master_contents: vec![],
        parts,
    }
}

#[test]
fn parts_are_read_replaced_and_added_by_path() {
    let mut pkg = package_with_parts(vec![
        PackagePart { path: "a.xml".into(), bytes: vec![1] },
        PackagePart { path: "b.xml".into(), bytes: vec![2] },
        PackagePart { path: "a.xml".into(), bytes: vec![3] },
    ]);
    assert_eq!(pkg.part_bytes("a.xml"), Some(&[1u8][..]));
    assert_eq!(pkg.part_bytes("c.xml"), None);
    assert!(pkg.replace_part("a.xml", vec![9, 9]));
    assert_eq!(pkg.part_bytes("a.xml"), Some(&[9u8, 9][..]));
    assert_eq!(pkg.parts[2].bytes, vec![3]);
    assert!(!pkg.replace_part("c.xml", vec![0]));
    pkg.add_part("c.xml".into(), vec![7]);
    assert_eq!(pkg.part_bytes("c.xml"), Some(&[7u8][..]));
    assert_eq!(pkg.parts.len(), 4);
}

#[test]
fn catalogue_lookups_act_as_a_map_keyed_by_path() {
    let entries = vec![
        ("visio/masters/master9.xml".to_string(), 3),
        ("visio/masters/master2.xml".to_string(), 3),
        ("visio/masters/master5.xml".to_string(), 7),
        ("visio/masters/master5.xml".to_string(), 4),
    ];
    // A later entry for a path replaces an earlier one.
    assert_eq!(id_at(&entries, "visio/masters/master5.xml"), Some(4));
    assert_eq!(id_at(&entries, "visio/masters/master1.xml"), None);
    // An ID shared by two paths resolves to the path that sorts first.
    assert_eq!(path_for(&entries, 3).map(String::as_str), Some("visio/masters/master2.xml"));
    assert_eq!(path_for(&entries, 4).map(String::as_str), Some("visio/masters/master5.xml"));
    // The replaced entry no longer answers for its ID.
    assert_eq!(path_for(&entries, 7), None);
}
