use vsdx::draft::{is_guarded, validate_draft, validate_shape_draft};
use vsdx::formula::Limits;
use vsdx::edit_checks::{
    eq_ignore_ascii_case, gesture_for_cell, is_size_cell, locator_key, lock_target,
    shape_id_prefix, size_value, validate_client_id, validate_state_vector_entry_count,
    validate_story_text, MAX_SAFE_CLIENT_ID,
};
use vsdx::edit_model::{
    CellSnapshot, EditCtx, EditError, EditOrigin, ParseLimits, ShapeDraft, ShapeSnapshot,
};
use vsdx::markup::{cell_xml, shape_xml, xml_escape};
use vsdx::materialize::materialize_cell;
use vsdx::sheet::{Cell, CellLocator, CellRow, CellSheet, MutationGesture, Row, Section, Shape, StructuralEdit};
use vsdx::structure::{check_original_identities, structural_container_edits, StructuralShapeEntry};

fn limits() -> ParseLimits {
    ParseLimits {
        max_expanded_bytes: 1 << 20,
        max_xml_text_bytes: 16,
        max_attribute_bytes: 32,
        max_cells: 4,
        max_sections: 16,
        max_rows: 16,
        max_shapes: 16,
    }
}

fn locator(section: Option<&str>, section_index: Option<u32>, row: Option<CellRow>, name: &str) -> CellLocator {
    CellLocator {
        sheet: CellSheet::Page(1),
        shape_id: None,
        section: section.map(str::to_owned),
        section_index,
        row,
        cell_name: name.to_owned(),
    }
}

fn snapshot_cell(loc: CellLocator, formula: Option<&str>, value: Option<&str>, row_type: Option<&str>) -> CellSnapshot {
    CellSnapshot {
        name: loc.cell_name.clone(),
        locator: loc,
        formula: formula.map(str::to_owned),
        value: value.map(str::to_owned),
        row_type: row_type.map(str::to_owned),
    }
}

#[test]
fn local_edit_context_names_its_author() {
    let ctx = EditCtx::local("ada".to_owned());
    assert_eq!(ctx.origin, EditOrigin::Local);
    assert_eq!(ctx.author, "ada");
}

#[test]
fn client_ids_must_be_nonzero_and_javascript_safe() {
    assert!(validate_client_id(1).is_ok());
    assert!(validate_client_id(MAX_SAFE_CLIENT_ID).is_ok());
    assert!(matches!(validate_client_id(0), Err(EditError::InvalidClientId(0))));
    assert!(matches!(
        validate_client_id(MAX_SAFE_CLIENT_ID + 1),
        Err(EditError::InvalidClientId(id)) if id == MAX_SAFE_CLIENT_ID + 1
    ));
}

#[test]
fn state_vector_entry_counts_are_checked_before_decoding() {
    assert_eq!(validate_state_vector_entry_count(&[]).unwrap_err(), "state vector is empty");
    assert_eq!(
        validate_state_vector_entry_count(&[0x80]).unwrap_err(),
        "invalid state vector entry count"
    );
    assert_eq!(
        validate_state_vector_entry_count(&[0x81, 0x80, 0x80, 0x80, 0x10]).unwrap_err(),
        "invalid state vector entry count"
    );
    assert_eq!(
        validate_state_vector_entry_count(&[0x81, 0x80, 0x05]).unwrap_err(),
        "state vector contains 81921 entries, exceeds the 65536-entry limit"
    );
    assert_eq!(
        validate_state_vector_entry_count(&[2, 1, 1, 1]).unwrap_err(),
        "state vector entry count exceeds its payload"
    );
    assert!(validate_state_vector_entry_count(&[2, 1, 1, 1, 1]).is_ok());
    assert!(validate_state_vector_entry_count(&[0]).is_ok());
}

#[test]
fn story_text_must_fit_and_be_xml() {
    let limits = limits();
    assert!(validate_story_text("hello", &limits).is_ok());
    assert!(matches!(
        validate_story_text("this text is far too long", &limits),
        Err(EditError::InvalidState(m)) if m == "shape text exceeds maximum length"
    ));
    assert!(matches!(
        validate_story_text("bell\u{7}", &limits),
        Err(EditError::InvalidState(m)) if m == "shape text contains a character forbidden by XML 1.0"
    ));
}

#[test]
fn locator_keys_join_section_row_and_cell() {
    assert_eq!(locator_key(&locator(None, None, None, "PinX")), "PinX");
    assert_eq!(
        locator_key(&locator(Some("Geometry"), Some(2), Some(CellRow::Index(3)), "X")),
        "Geometry[2]\u{1f}IX:3\u{1f}X"
    );
    assert_eq!(
        locator_key(&locator(Some("User"), None, Some(CellRow::Name("Scale".into())), "Value")),
        "User\u{1f}N:Scale\u{1f}Value"
    );
}

#[test]
fn formula_keys_and_locks() {
    assert_eq!(shape_id_prefix("shape:7/PinX"), "shape:7");
    assert_eq!(shape_id_prefix("plain"), "plain");
    assert_eq!(lock_target("LockMoveX"), Some("PinX"));
    assert_eq!(lock_target("LockAspect"), Some("Width"));
    assert_eq!(lock_target("LockTextEdit"), Some("Text"));
    assert_eq!(lock_target("LockDelete"), None);
    assert_eq!(gesture_for_cell("PinY"), MutationGesture::MoveY);
    assert_eq!(gesture_for_cell("Height"), MutationGesture::ResizeHeight);
    assert_eq!(gesture_for_cell("FillForegnd"), MutationGesture::CellEdit);
}

#[test]
fn size_references_ignore_ascii_case() {
    assert!(eq_ignore_ascii_case("WIDTH", "width"));
    assert!(!eq_ignore_ascii_case("Width", "Widths"));
    assert!(is_size_cell("height"));
    assert!(!is_size_cell("PinX"));
    let width = "4".to_string();
    let height = "2".to_string();
    assert_eq!(size_value("width", &width, &height), Some(&width));
    assert_eq!(size_value("HEIGHT", &width, &height), Some(&height));
    assert_eq!(size_value("PinX", &width, &height), None);
}

#[test]
fn escaping_replaces_the_five_xml_specials() {
    let mut out = String::from("x");
    xml_escape(&mut out, "a<b>&\"c'd");
    assert_eq!(out, "xa&lt;b&gt;&amp;&quot;c&apos;d");
}

#[test]
fn cell_markup_writes_name_formula_and_value() {
    let mut out = String::new();
    cell_xml(&mut out, &snapshot_cell(locator(None, None, None, "PinX"), Some("Width*0.5"), Some("1"), None));
    assert_eq!(out, "<Cell N=\"PinX\" F=\"Width*0.5\" V=\"1\"/>");
    let mut out = String::new();
    cell_xml(&mut out, &snapshot_cell(locator(None, None, None, "A&B"), None, None, None));
    assert_eq!(out, "<Cell N=\"A&amp;B\"/>");
}

#[test]
fn shape_markup_groups_section_cells_by_first_appearance() {
    let shape = ShapeSnapshot {
        id: "page:1:shape:added:7:0".into(),
        source_id: 12,
        name: Some("Box <1>".into()),
        cells: vec![
            snapshot_cell(locator(Some("Geometry"), Some(0), Some(CellRow::Index(1)), "X"), Some("1"), None, Some("LineTo")),
            snapshot_cell(locator(None, None, None, "PinX"), Some("2"), None, None),
            snapshot_cell(locator(Some("User"), None, Some(CellRow::Name("Tag".into())), "Value"), None, Some("\"t\""), None),
            snapshot_cell(locator(Some("Geometry"), Some(0), Some(CellRow::Index(0)), "X"), Some("0"), None, Some("MoveTo")),
            snapshot_cell(locator(Some("Geometry"), Some(0), Some(CellRow::Index(1)), "Y"), Some("3"), None, None),
        ],
        children: vec![],
    };
    assert_eq!(
        shape_xml(&shape, Some("a&b")),
        [
            "<Shape Type=\"Shape\" ID=\"12\" Name=\"Box &lt;1&gt;\">",
            "<Cell N=\"PinX\" F=\"2\"/>",
            "<Section N=\"Geometry\" IX=\"0\">",
            "<Row IX=\"1\" T=\"LineTo\"><Cell N=\"X\" F=\"1\"/><Cell N=\"Y\" F=\"3\"/></Row>",
            "<Row IX=\"0\" T=\"MoveTo\"><Cell N=\"X\" F=\"0\"/></Row>",
            "</Section>",
            "<Section N=\"User\"><Row N=\"Tag\"><Cell N=\"Value\" V=\"&quot;t&quot;\"/></Row></Section>",
            "<Text>a&amp;b</Text>",
            "</Shape>",
        ]
        .concat()
    );
    let bare = ShapeSnapshot {
        id: "s".into(),
        source_id: 3,
        name: None,
        cells: vec![],
        children: vec![],
    };
    assert_eq!(shape_xml(&bare, None), "<Shape Type=\"Shape\" ID=\"3\"></Shape>");
}

fn entry(id: &str, source_id: u32, is_original: bool) -> StructuralShapeEntry {
    StructuralShapeEntry {
        id: id.into(),
        parent_id: None,
        source_id,
        is_original,
    }
}

/// Applies a container's deletions and moves the way a save does, for checking.
fn apply(originals: &[u32], added: &[u32], edits: &[StructuralEdit]) -> Vec<u32> {
    let mut order: Vec<u32> = originals.to_vec();
    for edit in edits {
        if let StructuralEdit::DeleteShape { shape_id, .. } = edit {
            order.retain(|id| id != shape_id);
        }
    }
    order.extend_from_slice(added);
    for edit in edits {
        if let StructuralEdit::ReorderShape { shape_id, before_shape_id, .. } = edit {
            let from = order.iter().position(|id| id == shape_id).unwrap();
            order.remove(from);
            match before_shape_id {
                Some(before) => {
                    let to = order.iter().position(|id| id == before).unwrap();
                    order.insert(to, *shape_id);
                }
                None => order.push(*shape_id),
            }
        }
    }
    order
}

#[test]
fn container_edits_delete_then_move_into_session_order() {
    let originals = vec![1, 2, 3, 4];
    let desired = vec![
        entry("s4", 4, true),
        entry("new", 0, false),
        entry("s1", 1, true),
        entry("s3", 3, true),
    ];
    let added = vec![("new".to_string(), 9)];
    let mut edits = Vec::new();
    structural_container_edits(5, &originals, &desired, &added, &mut edits).unwrap();
    assert_eq!(edits[0], StructuralEdit::DeleteShape { page_id: 5, shape_id: 2 });
    assert_eq!(
        edits[1],
        StructuralEdit::ReorderShape { page_id: 5, shape_id: 4, before_shape_id: Some(1) }
    );
    assert_eq!(apply(&originals, &[9], &edits), vec![4, 9, 1, 3]);
}

#[test]
fn unchanged_containers_need_no_edits() {
    let originals = vec![1, 2];
    let desired = vec![entry("a", 1, true), entry("b", 2, true)];
    let mut edits = Vec::new();
    structural_container_edits(1, &originals, &desired, &vec![], &mut edits).unwrap();
    assert!(edits.is_empty());
}

#[test]
fn an_added_shape_without_a_source_id_is_refused() {
    let originals = vec![1, 2];
    let desired = vec![entry("a", 1, true), entry("lost \"one\"", 0, false)];
    let mut edits = Vec::new();
    let error = structural_container_edits(1, &originals, &desired, &vec![], &mut edits).unwrap_err();
    assert!(matches!(
        error,
        EditError::InvalidState(m) if m == "added shape \"lost \\\"one\\\"\" is missing its allocated source ID"
    ));
    assert_eq!(edits, vec![StructuralEdit::DeleteShape { page_id: 1, shape_id: 2 }]);
}

#[test]
fn an_original_from_another_container_is_refused() {
    let originals = vec![1];
    let desired = vec![entry("x", 7, true), entry("a", 1, true)];
    let mut edits = Vec::new();
    let error = structural_container_edits(2, &originals, &desired, &vec![], &mut edits).unwrap_err();
    assert!(matches!(
        error,
        EditError::InvalidState(m) if m == "shape 7 is requested in order but is absent from its container"
    ));
    assert_eq!(
        edits,
        vec![StructuralEdit::ReorderShape { page_id: 2, shape_id: 7, before_shape_id: Some(1) }]
    );
}

fn cell(name: &str, formula: &str) -> Cell {
    Cell {
        name: name.into(),
        formula: Some(formula.into()),
        value: None,
        unit: Some("IN".into()),
        del: false,
    }
}

fn shape() -> Shape {
    Shape {
        id: 1,
        name: None,
        master: None,
        master_shape: None,
        line_style: None,
        fill_style: None,
        text_style: None,
        del: false,
        cells: vec![cell("PinX", "1"), cell("PinX", "dup")],
        sections: vec![Section {
            name: "Geometry".into(),
            index: None,
            del: false,
            rows: vec![Row {
                index: Some(0),
                name: None,
                row_type: Some("MoveTo".into()),
                del: false,
                cells: vec![cell("X", "0")],
            }],
        }],
        shapes: vec![],
        text: None,
    }
}

#[test]
fn materializing_overwrites_the_first_matching_cell() {
    let mut target = shape();
    materialize_cell(&mut target, &snapshot_cell(locator(None, None, None, "PinX"), Some("5"), Some("5"), None));
    assert_eq!(target.cells[0].formula.as_deref(), Some("5"));
    assert_eq!(target.cells[0].value.as_deref(), Some("5"));
    assert_eq!(target.cells[0].unit.as_deref(), Some("IN"));
    assert_eq!(target.cells[1].formula.as_deref(), Some("dup"));

    materialize_cell(
        &mut target,
        &snapshot_cell(locator(Some("Geometry"), Some(0), Some(CellRow::Index(0)), "X"), Some("9"), None, None),
    );
    assert_eq!(target.sections[0].rows[0].cells[0].formula.as_deref(), Some("9"));
    assert_eq!(target.sections[0].rows[0].cells.len(), 1);
}

#[test]
fn materializing_adds_missing_cells_rows_and_sections() {
    let mut target = shape();
    materialize_cell(&mut target, &snapshot_cell(locator(None, None, None, "Width"), Some("2"), None, None));
    assert_eq!(target.cells.len(), 3);
    assert_eq!(target.cells[2].name, "Width");
    assert!(target.cells[2].unit.is_none());

    materialize_cell(
        &mut target,
        &snapshot_cell(locator(Some("Geometry"), None, Some(CellRow::Index(0)), "Y"), Some("4"), None, None),
    );
    assert_eq!(target.sections[0].rows[0].cells.len(), 2);
    assert_eq!(target.sections[0].rows[0].cells[1].name, "Y");

    materialize_cell(
        &mut target,
        &snapshot_cell(locator(Some("Geometry"), None, Some(CellRow::Index(1)), "X"), Some("7"), None, Some("LineTo")),
    );
    assert_eq!(target.sections[0].rows.len(), 2);
    assert_eq!(target.sections[0].rows[1].index, Some(1));
    assert_eq!(target.sections[0].rows[1].row_type.as_deref(), Some("LineTo"));

    materialize_cell(
        &mut target,
        &snapshot_cell(locator(Some("User"), Some(2), Some(CellRow::Name("Tag".into())), "Value"), None, Some("v"), None),
    );
    assert_eq!(target.sections.len(), 2);
    assert_eq!(target.sections[1].name, "User");
    assert_eq!(target.sections[1].index, Some(2));
    assert_eq!(target.sections[1].rows[0].name.as_deref(), Some("Tag"));
    assert_eq!(target.sections[1].rows[0].cells[0].value.as_deref(), Some("v"));

    let before = target.sections.len();
    materialize_cell(
        &mut target,
        &snapshot_cell(locator(Some("Scratch"), None, None, "A"), Some("1"), None, None),
    );
    assert_eq!(target.sections.len(), before);
}

fn draft(cells: Vec<CellSnapshot>) -> ShapeDraft {
    ShapeDraft { source_id: 0, name: Some("Generated".into()), cells }
}

fn draft_error(d: &ShapeDraft, formula_errors: Vec<Option<String>>) -> String {
    match validate_shape_draft(d, &limits(), &formula_errors) {
        Err(EditError::InvalidState(m)) => m,
        other => panic!("expected a refusal, got {other:?}"),
    }
}

#[test]
fn valid_drafts_are_accepted() {
    let d = draft(vec![
        snapshot_cell(locator(None, None, None, "LocPinX"), Some("Width * 0.5"), None, None),
        snapshot_cell(locator(Some("Geometry"), None, Some(CellRow::Index(0)), "X"), Some("0"), None, Some("MoveTo")),
        snapshot_cell(locator(Some("Geometry"), None, Some(CellRow::Index(0)), "Y"), Some("0"), None, Some("MoveTo")),
    ]);
    assert!(validate_shape_draft(&d, &limits(), &vec![None, None, None]).is_ok());
}

#[test]
fn drafts_are_refused_for_each_invalid_cell() {
    let plain = |name: &str| locator(None, None, None, name);
    assert_eq!(
        draft_error(&draft(vec![snapshot_cell(plain("PinX"), None, Some("1"), None)]), vec![None]),
        "shape draft cells must not contain value"
    );
    assert_eq!(
        draft_error(&draft(vec![snapshot_cell(locator(Some("Geometry"), None, None, "X"), None, None, None)]), vec![None]),
        "draft contains an invalid cell locator"
    );
    assert_eq!(
        draft_error(&draft(vec![snapshot_cell(plain("Pin\u{1}X"), None, None, None)]), vec![None]),
        "draft contains invalid XML attribute text"
    );
    assert_eq!(
        draft_error(
            &draft(vec![snapshot_cell(plain("PinX"), None, None, None), snapshot_cell(plain("PinX"), None, None, None)]),
            vec![None, None]
        ),
        "draft contains duplicate cell locators"
    );
    let row0 = |name: &str| locator(Some("Geometry"), None, Some(CellRow::Index(0)), name);
    assert_eq!(
        draft_error(
            &draft(vec![
                snapshot_cell(row0("X"), None, None, Some("MoveTo")),
                snapshot_cell(row0("Y"), None, None, Some("LineTo")),
            ]),
            vec![None, None]
        ),
        "draft contains conflicting row types"
    );
    assert_eq!(
        draft_error(&draft(vec![snapshot_cell(plain("PinX"), Some("1 +"), None, None)]), vec![Some("expected expression".into())]),
        "expected expression"
    );
    let five = (0..5).map(|i| snapshot_cell(plain(&format!("C{i}")), None, None, None)).collect();
    assert_eq!(draft_error(&draft(five), vec![None; 5]), "draft cell count exceeds maximum");
    let mut named = draft(vec![]);
    named.name = Some("n".repeat(33));
    assert_eq!(draft_error(&named, vec![]), "draft contains invalid XML attribute text");
}

fn formula_limits() -> Limits {
    Limits { max_depth: 64, max_nodes: 1024, max_tokens: 1024 }
}

#[test]
fn drafts_with_unparsable_formulas_are_refused_by_the_parser() {
    let plain = |name: &str| locator(None, None, None, name);
    let good = draft(vec![
        snapshot_cell(plain("PinX"), Some("=Width * 0.5"), None, None),
        snapshot_cell(plain("PinY"), Some("==2"), None, None),
    ]);
    assert!(validate_draft(&good, &limits(), formula_limits()).is_ok());
    let bad = draft(vec![
        snapshot_cell(plain("PinX"), Some("=1"), None, None),
        snapshot_cell(plain("PinY"), Some("=1 +"), None, None),
    ]);
    match validate_draft(&bad, &limits(), formula_limits()) {
        Err(EditError::InvalidState(message)) => assert!(!message.is_empty()),
        other => panic!("unexpected {other:?}"),
    }
    let earlier = draft(vec![
        snapshot_cell(plain("PinX"), None, Some("1"), None),
        snapshot_cell(plain("PinY"), Some("(("), None, None),
    ]);
    match validate_draft(&earlier, &limits(), formula_limits()) {
        Err(EditError::InvalidState(message)) => {
            assert_eq!(message, "shape draft cells must not contain value")
        }
        other => panic!("unexpected {other:?}"),
    }
}

fn nested_entry(id: &str, parent: &str, source_id: u32, is_original: bool) -> StructuralShapeEntry {
    StructuralShapeEntry {
        id: id.into(),
        parent_id: Some(parent.into()),
        source_id,
        is_original,
    }
}

#[test]
fn original_shapes_must_sit_where_the_package_has_them() {
    let containers = vec![(None, vec![1, 2]), (Some(1), vec![3]), (Some(3), vec![]), (Some(2), vec![])];
    let ok = vec![entry("a", 1, true), nested_entry("c", "a", 3, true), entry("b", 2, true), entry("n", 9, false)];
    assert!(check_original_identities(&ok, &containers).is_ok());
    let moved = vec![entry("a", 1, true), entry("c", 3, true)];
    let twice = vec![entry("a", 1, true), entry("a2", 1, true)];
    let under_added = vec![entry("n", 9, false), nested_entry("c", "n", 3, true)];
    for desired in [moved, twice, under_added] {
        let err = check_original_identities(&desired, &containers).unwrap_err();
        assert!(matches!(
            err,
            EditError::InvalidState(m) if m == "original shape identity does not match the source package"
        ));
    }
}

#[test]
fn guarded_formulas_name_guard_in_any_case() {
    assert!(is_guarded("=GUARD(1)", formula_limits()));
    assert!(is_guarded("Width*Guard(2)", formula_limits()));
    assert!(is_guarded("=\"safeguarded\"", formula_limits()));
    assert!(!is_guarded("=Width*2", formula_limits()));
    assert!(!is_guarded("=GUA(1)+RD(2)", formula_limits()));
    assert!(!is_guarded("=GUARD(", formula_limits()));
}

#[test]
fn a_draft_is_refused_exactly_when_a_rule_is_broken() {
    let plain = |name: &str| locator(None, None, None, name);
    let fine = draft(vec![snapshot_cell(plain("PinX"), Some("=1"), None, None)]);
    assert!(validate_draft(&fine, &limits(), formula_limits()).is_ok());
    let text = "1+".repeat(20);
    let long_formula = draft(vec![snapshot_cell(plain("PinX"), Some(text.as_str()), None, None)]);
    assert!(validate_draft(&long_formula, &limits(), formula_limits()).is_err());
}
