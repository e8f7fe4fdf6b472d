use vsdx::edit_model::EditError;
use vsdx::resolve_model::{Lookup, Provenance, ResolvedCell, ResolvedRow, ResolvedSection, ResolvedShape};
use vsdx::seed::{child_key, seed_cells};
use vsdx::sheet::{Cell, CellRow, CellSheet};

fn found(name: &str, formula: Option<&str>, value: &str) -> (String, Lookup) {
    (
        name.into(),
        Lookup::Found(ResolvedCell {
            cell: Cell {
                name: name.into(),
                formula: formula.map(str::to_owned),
                value: Some(value.into()),
                unit: None,
                del: false,
            },
            provenance: Provenance::Local,
        }),
    )
}

fn row(key: &str, row_type: Option<&str>, cells: Vec<(String, Lookup)>) -> ResolvedRow {
    ResolvedRow { key: key.into(), deleted: false, row_type: row_type.map(str::to_owned), cells }
}

#[test]
fn seeded_cells_follow_the_resolved_shape() {
    let resolved = ResolvedShape {
        deleted: false,
        cells: vec![found("PinX", Some("Width*0.5"), "1"), ("Gone".into(), Lookup::Deleted), found("PinY", None, "2")],
        sections: vec![ResolvedSection {
            name: "Geometry".into(),
            deleted: false,
            rows: vec![
                row("IX:3", Some("LineTo"), vec![found("X", None, "4"), ("Y".into(), Lookup::Absent)]),
                row("other", None, vec![found("Z", None, "5")]),
                row("N:Prop1", None, vec![found("Value", None, "6")]),
                row("IX:x", None, vec![found("W", None, "7")]),
            ],
        }],
    };
    let cells = seed_cells(7, &resolved, 0).unwrap();
    let names: Vec<&str> = cells.iter().map(|c| c.name.as_str()).collect();
    assert_eq!(names, vec!["PinX", "PinY", "X", "Value"]);
    assert!(matches!(cells[0].locator.sheet, CellSheet::Page(0)));
    assert_eq!(cells[0].locator.shape_id, Some(7));
    assert_eq!(cells[0].formula.as_deref(), Some("Width*0.5"));
    assert!(cells[0].locator.section.is_none() && cells[0].locator.row.is_none());
    assert_eq!(cells[2].locator.section.as_deref(), Some("Geometry"));
    assert!(matches!(cells[2].locator.row, Some(CellRow::Index(3))));
    assert_eq!(cells[2].row_type.as_deref(), Some("LineTo"));
    assert_eq!(cells[2].value.as_deref(), Some("4"));
    assert!(matches!(&cells[3].locator.row, Some(CellRow::Name(n)) if n == "Prop1"));
    assert!(cells.iter().all(|c| c.locator.section_index.is_none()));
}

#[test]
fn seeding_past_the_nesting_limit_is_refused() {
    let resolved = ResolvedShape { deleted: false, cells: vec![], sections: vec![] };
    assert!(seed_cells(1, &resolved, 256).unwrap().is_empty());
    match seed_cells(1, &resolved, 257) {
        Err(EditError::InvalidState(m)) => assert_eq!(m, "shape nesting exceeds maximum depth"),
        other => panic!("unexpected {other:?}"),
    }
}

#[test]
fn nested_shapes_are_keyed_under_their_parent() {
    assert_eq!(child_key("page:1:shape:4", 12), "page:1:shape:4:shape:12");
}
