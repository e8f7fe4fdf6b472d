use std::collections::HashSet;

use vsdx::edit_model::{CellSnapshot, DiagramSnapshot, EditError, PageSnapshot, ParseLimits, ShapeSnapshot};
use vsdx::markup::shape_xml;
use vsdx::structure::{added_shape_markup, StructuralShapeEntry};
use vsdx::materialize::{materialize_page_shapes, materialize_shape, shape_from_snapshot};
use vsdx::package::VsdxPackage;
use vsdx::resolve_model::{Lookup, Provenance, ResolvedCell, ResolvedTextToken};
use vsdx::sheet::{Cell, CellLocator, CellSheet, Shape, Sheet, TextToken};
use vsdx::snapshot::{
    container_ids, find_snapshot_shape, original_shape_containers, page_part_paths_for_snapshot,
    page_reorder, snapshot_shapes,
};
use vsdx::story::{materialize_page_text, plain_text};
use vsdx::tree::{largest_shape_id, sheet_shape_ids};

fn shape(id: u32, children: Vec<Shape>) -> Shape {
    Shape {
        id,
        name: Some(format!("Shape.{id}")),
        master: None,
        master_shape: None,
        line_style: None,
        fill_style: None,
        text_style: None,
        del: false,
        cells: vec![Cell {
            name: "Angle".into(),
            formula: Some("0".into()),
            value: None,
            unit: None,
            del: false,
        }],
        sections: vec![],
        shapes: children,
        text: None,
    }
}

fn sheet(shapes: Vec<Shape>) -> Sheet {
    Sheet {
        id: None,
        cells: vec![],
        sections: vec![],
        shapes,
        connects: vec![],
        other_attrs: vec![("xml:space".into(), "preserve".into())],
    }
}

fn snap(id: &str, source_id: u32, children: Vec<ShapeSnapshot>) -> ShapeSnapshot {
    ShapeSnapshot {
        id: id.into(),
        source_id,
        name: Some(format!("Snap.{source_id}")),
        cells: vec![],
        children,
    }
}

fn pin_x(formula: &str) -> CellSnapshot {
    CellSnapshot {
        locator: CellLocator {
            sheet: CellSheet::Page(1),
            shape_id: None,
            section: None,
            section_index: None,
            row: None,
            cell_name: "PinX".into(),
        },
        name: "PinX".into(),
        formula: Some(formula.into()),
        value: None,
        row_type: None,
    }
}

fn page(shapes: Vec<ShapeSnapshot>) -> PageSnapshot {
    PageSnapshot {
        id: "page:1".into(),
        source_part_path: "visio/pages/page1.xml".into(),
        name: None,
        shapes,
    }
}

fn ids(v: &[&str]) -> Vec<String> {
    v.iter().map(|s| s.to_string()).collect()
}

#[test]
fn a_fresh_shape_keeps_only_the_snapshot_identity() {
    let s = shape_from_snapshot(&snap("a", 9, vec![]));
    assert_eq!(s.id, 9);
    assert_eq!(s.name.as_deref(), Some("Snap.9"));
    assert!(s.cells.is_empty() && s.sections.is_empty() && s.shapes.is_empty());
    assert!(s.text.is_none() && s.master.is_none());
}

#[test]
fn rebuilding_writes_cells_and_replaces_children_from_originals() {
    let mut s = shape(1, vec![shape(2, vec![]), shape(3, vec![])]);
    let mut snapshot = snap("s1", 1, vec![snap("s3", 3, vec![]), snap("new", 40, vec![])]);
    snapshot.cells.push(pin_x("2 in"));
    materialize_shape(&mut s, &snapshot, &ids(&["s1", "s3"]), 1).unwrap();
    assert_eq!(s.cells.len(), 2);
    assert_eq!(s.cells[1].name, "PinX");
    assert_eq!(s.cells[1].formula.as_deref(), Some("2 in"));
    assert_eq!(s.shapes.iter().map(|c| c.id).collect::<Vec<_>>(), vec![3, 40]);
    // The original child keeps its cells; the added one starts bare.
    assert_eq!(s.shapes[0].cells.len(), 1);
    assert_eq!(s.shapes[0].name.as_deref(), Some("Shape.3"));
    assert!(s.shapes[1].cells.is_empty());
    assert_eq!(s.shapes[1].name.as_deref(), Some("Snap.40"));
}

#[test]
fn a_child_not_listed_as_original_is_rebuilt_from_scratch() {
    let mut s = shape(1, vec![shape(2, vec![])]);
    let snapshot = snap("s1", 1, vec![snap("s2", 2, vec![])]);
    materialize_shape(&mut s, &snapshot, &ids(&["s1"]), 1).unwrap();
    assert!(s.shapes[0].cells.is_empty());
    assert_eq!(s.shapes[0].name.as_deref(), Some("Snap.2"));
}

#[test]
fn the_last_original_with_a_source_id_is_the_base() {
    let mut first = shape(2, vec![]);
    first.name = Some("first".into());
    let mut second = shape(2, vec![]);
    second.name = Some("second".into());
    let mut s = shape(1, vec![first, second]);
    let snapshot = snap("s1", 1, vec![snap("s2", 2, vec![])]);
    materialize_shape(&mut s, &snapshot, &ids(&["s2"]), 1).unwrap();
    assert_eq!(s.shapes.len(), 1);
    assert_eq!(s.shapes[0].name.as_deref(), Some("second"));
}

fn nested(depth: usize) -> ShapeSnapshot {
    let mut s = snap("leaf", 1, vec![]);
    for _ in 0..depth {
        s = snap("inner", 1, vec![s]);
    }
    s
}

#[test]
fn nesting_beyond_the_limit_is_refused() {
    let mut s = shape(1, vec![]);
    let err = materialize_shape(&mut s, &nested(256), &ids(&[]), 1).unwrap_err();
    assert!(matches!(err, EditError::InvalidState(m) if m == "shape nesting exceeds maximum depth"));
    let mut s = shape(1, vec![]);
    assert!(materialize_shape(&mut s, &nested(255), &ids(&[]), 1).is_ok());
}

#[test]
fn page_shapes_are_replaced_in_snapshot_order() {
    let mut sh = sheet(vec![shape(1, vec![]), shape(2, vec![shape(5, vec![])])]);
    let p = page(vec![snap("b", 2, vec![]), snap("a", 1, vec![]), snap("c", 7, vec![])]);
    materialize_page_shapes(&mut sh, &p, &ids(&["a", "b"])).unwrap();
    assert_eq!(sh.shapes.iter().map(|s| s.id).collect::<Vec<_>>(), vec![2, 1, 7]);
    // The snapshot lists no children for `b`, so its nested shape is gone.
    assert!(sh.shapes[0].shapes.is_empty());
    assert_eq!(sh.shapes[0].cells.len(), 1);
    assert_eq!(sh.other_attrs.len(), 1);
}

#[test]
fn a_refused_page_is_left_as_it_was() {
    let mut sh = sheet(vec![shape(1, vec![])]);
    let p = page(vec![snap("a", 1, vec![]), nested(300)]);
    assert!(materialize_page_shapes(&mut sh, &p, &ids(&["a"])).is_err());
    assert_eq!(sh.shapes.len(), 1);
    assert_eq!(sh.shapes[0].id, 1);
    assert_eq!(sh.shapes[0].cells.len(), 1);
}

#[test]
fn the_largest_shape_id_looks_at_nested_shapes() {
    let sh = sheet(vec![shape(3, vec![shape(12, vec![])]), shape(7, vec![])]);
    assert_eq!(largest_shape_id(&sh), 12);
    assert_eq!(largest_shape_id(&sheet(vec![])), 0);
}

#[test]
fn sheet_shape_ids_cover_every_depth() {
    let sh = sheet(vec![shape(3, vec![shape(12, vec![shape(4, vec![])])]), shape(7, vec![])]);
    let expected: HashSet<u32> = [3, 12, 4, 7].into_iter().collect();
    assert_eq!(sheet_shape_ids(&sh), expected);
    assert!(sheet_shape_ids(&sheet(vec![])).is_empty());
}

fn props(value: Option<&str>) -> Vec<(String, Lookup)> {
    match value {
        Some(v) => vec![(
            "Value".into(),
            Lookup::Found(ResolvedCell {
                cell: Cell {
                    name: "Value".into(),
                    formula: None,
                    value: Some(v.into()),
                    unit: None,
                    del: false,
                },
                provenance: Provenance::Local,
            }),
        )],
        None => vec![("Value".into(), Lookup::Deleted)],
    }
}

#[test]
fn plain_text_turns_markers_into_controls() {
    let tokens = vec![
        ResolvedTextToken::ParagraphRun { index: 0, properties: vec![] },
        ResolvedTextToken::Literal("Total:".into()),
        ResolvedTextToken::Tab { index: 0, properties: vec![] },
        ResolvedTextToken::Field { index: 0, properties: props(Some("42")) },
        ResolvedTextToken::CharacterRun { index: 1, properties: vec![] },
        ResolvedTextToken::ParagraphRun { index: 1, properties: vec![] },
        ResolvedTextToken::Field { index: 1, properties: props(None) },
        ResolvedTextToken::Literal("end".into()),
    ];
    assert_eq!(plain_text(&tokens), "Total:\t42\nend");
    assert_eq!(plain_text(&vec![]), "");
}

fn package(paths: &[&str]) -> VsdxPackage {
    VsdxPackage {
        document_part_path: "visio/document.xml".into(),
        pages_part_path: None,
        masters_part_path: None,
        page_part_paths: ids(paths),
        master_part_paths: vec![],
        theme_part_paths: vec![],
        windows_part_path: None,
        relationships: vec![],
        document_sheet: None,
        style_sheets: vec![],
        colors: vec![],
        face_names: vec![],
        page_sheets: vec![],
        master_sheets: vec![],
        page_part_ids: vec![],
        master_part_ids: vec![],
        page_contents: vec![],
        master_contents: vec![],
        parts: vec![],
    }
}

fn diagram(paths: &[&str]) -> DiagramSnapshot {
    DiagramSnapshot {
        pages: paths
            .iter()
            .map(|p| PageSnapshot {
                id: format!("page:{p}"),
                source_part_path: p.to_string(),
                name: None,
                shapes: vec![],
            })
            .collect(),
    }
}

#[test]
fn snapshot_pages_may_reorder_but_not_change_the_package_pages() {
    let pkg = package(&["p1", "p2", "p3"]);
    assert_eq!(
        page_part_paths_for_snapshot(&pkg, &diagram(&["p3", "p1", "p2"])).unwrap(),
        ids(&["p3", "p1", "p2"])
    );
    for paths in [&["p1", "p2"][..], &["p1", "p1", "p2"][..], &["p1", "p2", "p4"][..]] {
        let err = page_part_paths_for_snapshot(&pkg, &diagram(paths)).unwrap_err();
        assert!(matches!(
            err,
            EditError::InvalidState(m) if m == "page order does not match the original package"
        ));
    }
    // A package listing a page twice still has only its distinct pages.
    let doubled = package(&["p1", "p1", "p2"]);
    assert!(page_part_paths_for_snapshot(&doubled, &diagram(&["p2", "p1"])).is_ok());
}

#[test]
fn containers_list_the_page_then_each_shape_in_pre_order() {
    let sh = sheet(vec![shape(1, vec![shape(3, vec![]), shape(4, vec![])]), shape(2, vec![])]);
    let containers = original_shape_containers(&sh);
    let listed: Vec<(Option<u32>, Vec<u32>)> = containers.clone();
    assert_eq!(
        listed,
        vec![
            (None, vec![1, 2]),
            (Some(1), vec![3, 4]),
            (Some(3), vec![]),
            (Some(4), vec![]),
            (Some(2), vec![]),
        ]
    );
    assert_eq!(container_ids(&containers, Some(1)), Some(&vec![3, 4]));
    assert_eq!(container_ids(&containers, None), Some(&vec![1, 2]));
    assert_eq!(container_ids(&containers, Some(9)), None);
}

#[test]
fn snapshot_shapes_follow_the_stack_walk() {
    let p = page(vec![
        snap("a", 1, vec![snap("a1", 11, vec![]), snap("a2", 12, vec![])]),
        snap("b", 2, vec![snap("b1", 21, vec![])]),
    ]);
    let visited = snapshot_shapes(&p);
    assert_eq!(
        visited.iter().map(|s| s.id.as_str()).collect::<Vec<_>>(),
        vec!["b", "b1", "a", "a2", "a1"]
    );
    assert_eq!(find_snapshot_shape(&visited, "a2").map(|s| s.source_id), Some(12));
    assert!(find_snapshot_shape(&visited, "zz").is_none());
}

#[test]
fn edited_stories_replace_the_text_of_the_first_shape_with_the_source_id() {
    let mut sh = sheet(vec![shape(1, vec![shape(5, vec![])]), shape(5, vec![])]);
    sh.shapes[0].text = Some(vec![TextToken::Literal("old".into())]);
    let p = page(vec![snap("one", 1, vec![snap("five", 5, vec![])]), snap("two", 2, vec![])]);
    let texts = vec![
        ("five".to_string(), "nested".to_string()),
        ("one".to_string(), String::new()),
        ("two".to_string(), "no such shape".to_string()),
    ];
    materialize_page_text(&mut sh, &p, &texts);
    assert!(matches!(&sh.shapes[0].text, Some(tokens) if tokens.is_empty()));
    assert!(matches!(
        sh.shapes[0].shapes[0].text.as_deref(),
        Some([TextToken::Literal(t)]) if t == "nested"
    ));
    // The later top-level shape with the same ID keeps its story.
    assert!(sh.shapes[1].text.is_none());
    assert_eq!(sh.shapes[0].cells.len(), 1);
}

#[test]
fn projecting_stories_keeps_every_shape_id() {
    let mut sh = sheet(vec![shape(1, vec![shape(5, vec![])]), shape(2, vec![])]);
    let before = sheet_shape_ids(&sh);
    let p = page(vec![snap("one", 1, vec![snap("five", 5, vec![])]), snap("two", 2, vec![])]);
    let texts = vec![("five".to_string(), "x".to_string()), ("two".to_string(), "y".to_string())];
    materialize_page_text(&mut sh, &p, &texts);
    assert_eq!(sheet_shape_ids(&sh), before);
}

#[test]
fn a_snapshot_page_order_names_each_package_page_once() {
    let pkg = package(&["p1", "p2", "p2", "p3"]);
    let paths = page_part_paths_for_snapshot(&pkg, &diagram(&["p2", "p3", "p1"])).unwrap();
    let got: HashSet<String> = paths.into_iter().collect();
    let expected: HashSet<String> = ids(&["p1", "p2", "p3"]).into_iter().collect();
    assert_eq!(got, expected);
}

fn catalogued(paths: &[&str]) -> VsdxPackage {
    let mut pkg = package(paths);
    pkg.page_part_ids = paths.iter().enumerate().map(|(i, p)| (p.to_string(), 10 + i as u32)).collect();
    pkg
}

#[test]
fn pages_are_reordered_only_when_the_snapshot_order_differs() {
    let pkg = catalogued(&["p1", "p2", "p3"]);
    assert_eq!(page_reorder(&pkg, &diagram(&["p1", "p2", "p3"])).unwrap(), None);
    assert_eq!(page_reorder(&pkg, &diagram(&["p3", "p1", "p2"])).unwrap(), Some(vec![12, 10, 11]));
    let err = page_reorder(&pkg, &diagram(&["p1", "p2"])).unwrap_err();
    assert!(matches!(err, EditError::InvalidState(m) if m == "page order does not match the original package"));
    let mut missing = catalogued(&["p1", "p2"]);
    missing.page_part_ids.pop();
    let err = page_reorder(&missing, &diagram(&["p2", "p1"])).unwrap_err();
    assert!(matches!(err, EditError::InvalidState(m) if m == "page is missing a source ID"));
}

fn added(id: &str, parent: Option<&str>) -> StructuralShapeEntry {
    StructuralShapeEntry { id: id.into(), parent_id: parent.map(str::to_owned), source_id: 40, is_original: false }
}

fn story_limits() -> ParseLimits {
    ParseLimits {
        max_expanded_bytes: 1 << 20,
        max_xml_text_bytes: 8,
        max_attribute_bytes: 64,
        max_cells: 16,
        max_sections: 16,
        max_rows: 16,
        max_shapes: 16,
    }
}

#[test]
fn added_shapes_are_written_from_the_snapshot() {
    let p = page(vec![snap("n", 40, vec![]), snap("o", 1, vec![])]);
    let shapes = snapshot_shapes(&p);
    let expected = shape_xml(&snap("n", 40, vec![]), Some("hi"));
    assert_eq!(added_shape_markup(&added("n", None), &shapes, Some("hi"), &story_limits()).unwrap(), expected);
    let bare = shape_xml(&snap("n", 40, vec![]), None);
    assert_eq!(added_shape_markup(&added("n", None), &shapes, Some(""), &story_limits()).unwrap(), bare);
    assert_eq!(added_shape_markup(&added("n", None), &shapes, None, &story_limits()).unwrap(), bare);
    let nested = added_shape_markup(&added("n", Some("o")), &shapes, None, &story_limits()).unwrap_err();
    assert!(matches!(nested, EditError::InvalidState(m) if m == "added shapes cannot have a parent"));
    let unseen = added_shape_markup(&added("zz", None), &shapes, None, &story_limits()).unwrap_err();
    assert!(matches!(unseen, EditError::InvalidState(m) if m == "added shape \"zz\" is missing from snapshot"));
    let long = added_shape_markup(&added("n", None), &shapes, Some("far too long"), &story_limits()).unwrap_err();
    assert!(matches!(long, EditError::InvalidState(m) if m == "shape text exceeds maximum length"));
}
