use vsdx::inheritance::Resolver;
use vsdx::package::VsdxPackage;
use vsdx::resolve_model::{
    Lookup, Provenance, ResolveError, ResolvedRow, ResolvedSection, ResolvedShape,
    ResolvedTextToken,
};
use vsdx::sheet::{Cell, Row, Section, Shape, Sheet, TextToken};

fn package() -> VsdxPackage {
    VsdxPackage {
        document_part_path: String::new(),
        pages_part_path: None,
        masters_part_path: None,
        page_part_paths: vec![],
        master_part_paths: vec![],
        theme_part_paths: vec![],
        windows_part_path: None,
        relationships: vec![],
        document_sheet: None,
        style_sheets: vec![],
        colors: vec![],
        face_names: vec![],
        page_sheets: vec![],
        master_sheets: vec![],
        page_part_ids: vec![],
        master_part_ids: vec![],
        page_contents: vec![],
        master_contents: vec![],
        parts: vec![],
    }
}

fn cell(name: &str, value: &str) -> Cell {
    Cell {
        name: name.into(),
        formula: None,
        value: Some(value.into()),
        unit: None,
        del: false,
    }
}

fn deleted_cell(name: &str) -> Cell {
    Cell {
        name: name.into(),
        formula: None,
        value: None,
        unit: None,
        del: true,
    }
}

fn shape(id: u32) -> Shape {
    Shape {
        id,
        name: None,
        master: None,
        master_shape: None,
        line_style: None,
        fill_style: None,
        text_style: None,
        del: false,
        cells: vec![],
        sections: vec![],
        shapes: vec![],
        text: None,
    }
}

fn shape_with_cells(id: u32, cells: Vec<Cell>) -> Shape {
    let mut s = shape(id);
    s.cells = cells;
    s
}

fn shape_with_sections(id: u32, sections: Vec<Section>) -> Shape {
    let mut s = shape(id);
    s.sections = sections;
    s
}

fn sheet(id: Option<u32>) -> Sheet {
    Sheet {
        id,
        cells: vec![],
        sections: vec![],
        shapes: vec![],
        connects: vec![],
        other_attrs: vec![],
    }
}

fn sheet_with_cells(id: Option<u32>, cells: Vec<Cell>) -> Sheet {
    let mut s = sheet(id);
    s.cells = cells;
    s
}

fn sheet_with_sections(id: Option<u32>, sections: Vec<Section>) -> Sheet {
    let mut s = sheet(id);
    s.sections = sections;
    s
}

fn section(name: &str, rows: Vec<Row>) -> Section {
    Section {
        name: name.into(),
        index: None,
        del: false,
        rows,
    }
}

fn row(index: u32, cells: Vec<Cell>) -> Row {
    Row {
        index: Some(index),
        name: None,
        row_type: None,
        del: false,
        cells,
    }
}

fn deleted_row(index: u32) -> Row {
    deleted_row_with_cells(index, vec![])
}

fn deleted_row_with_cells(index: u32, cells: Vec<Cell>) -> Row {
    Row {
        index: Some(index),
        name: None,
        row_type: None,
        del: true,
        cells,
    }
}

fn put<K: PartialEq, V>(entries: &mut Vec<(K, V)>, key: K, value: V) {
    match entries.iter_mut().find(|(k, _)| *k == key) {
        Some(entry) => entry.1 = value,
        None => entries.push((key, value)),
    }
}

fn add_page_shapes(package: &mut VsdxPackage, shapes: Vec<Shape>) {
    put(&mut package.page_part_ids, "page".to_string(), 1);
    let mut contents = sheet(None);
    contents.shapes = shapes;
    put(&mut package.page_contents, "page".to_string(), contents);
}

fn add_page(package: &mut VsdxPackage, value: Shape) {
    add_page_shapes(package, vec![value]);
}

fn add_master_shapes(package: &mut VsdxPackage, id: u32, values: Vec<Shape>) {
    let path = format!("master{id}");
    put(&mut package.master_part_ids, path.clone(), id);
    let mut contents = sheet(None);
    contents.shapes = values;
    put(&mut package.master_contents, path, contents);
}

fn add_master(package: &mut VsdxPackage, id: u32, value: Shape) {
    add_master_shapes(package, id, vec![value]);
}

fn lookup<'a>(cells: &'a [(String, Lookup)], name: &str) -> Option<&'a Lookup> {
    cells.iter().find(|(k, _)| k == name).map(|(_, v)| v)
}

fn section_of<'a>(shape: &'a ResolvedShape, name: &str) -> &'a ResolvedSection {
    shape.sections.iter().find(|s| s.name == name).unwrap()
}

fn row_of<'a>(section: &'a ResolvedSection, key: &str) -> &'a ResolvedRow {
    section.rows.iter().find(|r| r.key == key).unwrap()
}

fn found<'a>(shape: &'a ResolvedShape, name: &str) -> (&'a str, Provenance) {
    match lookup(&shape.cells, name) {
        Some(Lookup::Found(value)) => (value.cell.value.as_deref().unwrap(), value.provenance),
        value => panic!("expected {name} to be found, got {value:?}"),
    }
}

#[test]
fn deleted_style_rows_do_not_contribute_cells() {
    let mut package = package();
    package.style_sheets = vec![sheet_with_sections(
        Some(1),
        vec![section(
            "Character",
            vec![deleted_row_with_cells(
                0,
                vec![cell("Leaked", "style"), deleted_cell("Shared")],
            )],
        )],
    )];
    package.page_sheets.push((
        1,
        sheet_with_sections(
            None,
            vec![section("Character", vec![row(0, vec![cell("Shared", "page")])])],
        ),
    ));
    let mut local = shape_with_sections(1, vec![section("Character", vec![row(0, vec![])])]);
    local.text_style = Some(1);
    add_page(&mut package, local);

    let resolved = Resolver::new(&package).resolve_shape("page", 1).unwrap();
    let cells = &row_of(section_of(&resolved, "Character"), "IX:0").cells;
    assert!(lookup(cells, "Leaked").is_none());
    match lookup(cells, "Shared").unwrap() {
        Lookup::Found(value) => {
            assert_eq!(value.cell.value.as_deref(), Some("page"));
            assert_eq!(value.provenance, Provenance::Page);
        }
        value => panic!("expected page cell, got {value:?}"),
    }
}

#[test]
fn deleted_master_rows_do_not_suppress_lower_live_cells() {
    let mut package = package();
    package.page_sheets.push((
        1,
        sheet_with_sections(
            None,
            vec![section("Character", vec![row(0, vec![cell("Char", "page")])])],
        ),
    ));
    let mut local = shape_with_sections(1, vec![section("Character", vec![row(0, vec![])])]);
    local.master = Some(1);
    add_page(&mut package, local);
    add_master(
        &mut package,
        1,
        shape_with_sections(
            1,
            vec![section(
                "Character",
                vec![deleted_row_with_cells(0, vec![cell("Char", "master")])],
            )],
        ),
    );

    let resolved = Resolver::new(&package).resolve_shape("page", 1).unwrap();
    match lookup(&row_of(section_of(&resolved, "Character"), "IX:0").cells, "Char").unwrap() {
        Lookup::Found(value) => {
            assert_eq!(value.cell.value.as_deref(), Some("page"));
            assert_eq!(value.provenance, Provenance::Page);
        }
        value => panic!("expected page cell, got {value:?}"),
    }
}

#[test]
fn row_deletion_uses_the_highest_priority_row_and_preserves_its_state() {
    let mut package = package();
    package.style_sheets = vec![sheet_with_sections(
        Some(1),
        vec![section("Character", vec![deleted_row(0)])],
    )];
    let mut local =
        shape_with_sections(1, vec![section("Character", vec![row(0, vec![cell("Char", "local")])])]);
    local.text_style = Some(1);
    let mut deleted = shape_with_sections(2, vec![section("Character", vec![deleted_row(0)])]);
    deleted.text_style = Some(1);
    let empty = shape_with_sections(3, vec![section("Character", vec![row(0, vec![])])]);
    add_page_shapes(&mut package, vec![local, deleted, empty]);

    let resolver = Resolver::new(&package);
    let local = resolver.resolve_shape("page", 1).unwrap();
    let local_row = row_of(section_of(&local, "Character"), "IX:0");
    assert!(!local_row.deleted);
    match lookup(&local_row.cells, "Char").unwrap() {
        Lookup::Found(value) => assert_eq!(value.provenance, Provenance::Local),
        value => panic!("expected local row cell, got {value:?}"),
    }

    let deleted = resolver.resolve_shape("page", 2).unwrap();
    let deleted_row = row_of(section_of(&deleted, "Character"), "IX:0");
    assert!(deleted_row.deleted);
    assert!(deleted_row.cells.is_empty());

    let empty = resolver.resolve_shape("page", 3).unwrap();
    let empty_row = row_of(section_of(&empty, "Character"), "IX:0");
    assert!(!empty_row.deleted);
    assert!(empty_row.cells.is_empty());
}

#[test]
fn master_without_master_shape_inherits_from_master_root() {
    let mut package = package();
    let mut local = shape(10);
    local.master = Some(5);
    add_page(&mut package, local);
    add_master_shapes(
        &mut package,
        5,
        vec![
            shape_with_cells(50, vec![cell("PinX", "root")]),
            shape_with_cells(51, vec![cell("PinX", "other")]),
        ],
    );

    let resolved = Resolver::new(&package).resolve_shape("page", 10).unwrap();
    assert_eq!(found(&resolved, "PinX"), ("root", Provenance::Master));
}

#[test]
fn master_ignores_master_shape_and_inherits_from_master_root() {
    let mut package = package();
    let mut local = shape(10);
    local.master = Some(5);
    local.master_shape = Some(51);
    add_page(&mut package, local);
    add_master_shapes(
        &mut package,
        5,
        vec![
            shape_with_cells(50, vec![cell("PinX", "root")]),
            shape_with_cells(51, vec![cell("PinX", "specified")]),
        ],
    );

    let resolved = Resolver::new(&package).resolve_shape("page", 10).unwrap();
    assert_eq!(found(&resolved, "PinX"), ("root", Provenance::Master));
}

#[test]
fn master_shape_inherits_from_the_enclosing_masters_subshape() {
    let mut package = package();
    let mut group = shape(10);
    let mut local = shape(11);
    local.master_shape = Some(51);
    group.shapes = vec![local];
    group.master = Some(5);
    add_page(&mut package, group);
    let mut master_root = shape(50);
    master_root.shapes = vec![shape_with_cells(51, vec![cell("PinX", "subshape")])];
    add_master_shapes(&mut package, 5, vec![master_root]);

    let resolved = Resolver::new(&package).resolve_shape("page", 11).unwrap();
    assert_eq!(found(&resolved, "PinX"), ("subshape", Provenance::MasterShape));
}

#[test]
fn master_inheritance_walks_deeply_and_local_overrides() {
    let mut package = package();
    let mut local = shape(10);
    local.master = Some(1);
    add_page(&mut package, local);
    let mut first = shape(1);
    first.master = Some(2);
    add_master(&mut package, 1, first);
    let mut second = shape(2);
    second.master = Some(3);
    add_master(&mut package, 2, second);
    add_master(
        &mut package,
        3,
        shape_with_cells(3, vec![cell("PinX", "furthest"), cell("PinY", "master-shape")]),
    );
    let resolved = Resolver::new(&package).resolve_shape("page", 10).unwrap();
    assert_eq!(found(&resolved, "PinX"), ("furthest", Provenance::Master));
    let mut direct = shape(12);
    direct.master = Some(3);
    add_page(&mut package, direct);
    assert_eq!(
        found(&Resolver::new(&package).resolve_shape("page", 12).unwrap(), "PinY"),
        ("master-shape", Provenance::Master)
    );

    let mut local = shape_with_cells(11, vec![cell("PinX", "local")]);
    local.master = Some(4);
    add_page(&mut package, local);
    add_master(&mut package, 4, shape_with_cells(4, vec![cell("PinX", "master")]));
    let resolved = Resolver::new(&package).resolve_shape("page", 11).unwrap();
    assert_eq!(found(&resolved, "PinX"), ("local", Provenance::Local));
}

#[test]
fn style_slices_and_based_on_chains_resolve_independently() {
    let mut package = package();
    let mut child = sheet_with_cells(Some(5), vec![cell("LineWeight", "child")]);
    child.other_attrs = vec![("BasedOn".into(), "4".into())];
    let mut only_child = sheet(Some(7));
    only_child.other_attrs = vec![("BasedOn".into(), "6".into())];
    package.style_sheets = vec![
        sheet_with_cells(Some(1), vec![cell("LineColor", "line")]),
        sheet_with_cells(Some(2), vec![cell("FillForegnd", "fill")]),
        sheet_with_cells(Some(3), vec![cell("Text", "text")]),
        sheet_with_cells(Some(4), vec![cell("LineWeight", "ancestor")]),
        child,
        sheet_with_cells(Some(6), vec![cell("LineWeight", "only-ancestor")]),
        only_child,
    ];
    let mut value = shape(1);
    value.line_style = Some(1);
    value.fill_style = Some(2);
    value.text_style = Some(3);
    add_page(&mut package, value);
    let resolved = Resolver::new(&package).resolve_shape("page", 1).unwrap();
    assert_eq!(found(&resolved, "LineColor"), ("line", Provenance::StyleLine));
    assert_eq!(found(&resolved, "FillForegnd"), ("fill", Provenance::StyleFill));
    assert_eq!(found(&resolved, "Text"), ("text", Provenance::StyleText));

    let mut inherited = shape(2);
    inherited.line_style = Some(7);
    add_page(&mut package, inherited);
    assert_eq!(
        found(&Resolver::new(&package).resolve_shape("page", 2).unwrap(), "LineWeight"),
        ("only-ancestor", Provenance::StyleLine)
    );
    let mut overridden = shape(3);
    overridden.line_style = Some(5);
    add_page(&mut package, overridden);
    assert_eq!(
        found(&Resolver::new(&package).resolve_shape("page", 3).unwrap(), "LineWeight"),
        ("child", Provenance::StyleLine)
    );
}

#[test]
fn deletions_block_inheritance_while_absence_inherits() {
    let mut package = package();
    let master = {
        let mut m = shape_with_cells(100, vec![cell("PinX", "master")]);
        m.sections = vec![section("Geometry", vec![row(0, vec![cell("X", "1")])])];
        m
    };
    add_master_shapes(&mut package, 1, vec![master]);
    let deleted_section = Section {
        name: "Geometry".into(),
        index: None,
        del: true,
        rows: vec![],
    };
    let deleted_row = Row {
        index: Some(0),
        name: None,
        row_type: None,
        del: true,
        cells: vec![],
    };
    for (id, local) in [
        (1, shape_with_cells(1, vec![deleted_cell("PinX")])),
        (2, shape_with_sections(2, vec![deleted_section])),
        (3, shape_with_sections(3, vec![section("Geometry", vec![deleted_row])])),
    ] {
        let mut local = local;
        local.master = Some(1);
        add_page(&mut package, local);
        let resolved = Resolver::new(&package).resolve_shape("page", id).unwrap();
        if id == 1 {
            assert!(matches!(lookup(&resolved.cells, "PinX"), Some(Lookup::Deleted)));
        }
        if id == 2 {
            assert!(section_of(&resolved, "Geometry").deleted);
        }
        if id == 3 {
            assert!(row_of(section_of(&resolved, "Geometry"), "IX:0").cells.is_empty());
        }
    }
    let mut absent = shape(4);
    absent.master = Some(1);
    add_page(&mut package, absent);
    let resolved = Resolver::new(&package).resolve_shape("page", 4).unwrap();
    assert_eq!(found(&resolved, "PinX"), ("master", Provenance::Master));
    assert!(!matches!(Lookup::Deleted, Lookup::Absent));
}

#[test]
fn shape_deletion_and_all_provenance_layers_are_exposed() {
    let mut package = package();
    package.document_sheet = Some(sheet_with_cells(None, vec![cell("Doc", "document")]));
    package.page_sheets.push((1, sheet_with_cells(None, vec![cell("Page", "page")])));
    package.style_sheets = vec![
        sheet_with_cells(Some(1), vec![cell("LineColor", "line")]),
        sheet_with_cells(Some(2), vec![cell("FillForegnd", "fill")]),
        sheet_with_cells(Some(3), vec![cell("Text", "text")]),
    ];
    let mut local = shape_with_cells(1, vec![cell("Local", "local")]);
    local.master = Some(1);
    local.line_style = Some(1);
    local.fill_style = Some(2);
    local.text_style = Some(3);
    add_page(&mut package, local);
    add_master(&mut package, 1, shape_with_cells(1, vec![cell("Master", "master")]));
    let resolved = Resolver::new(&package)
        .with_defaults(vec![cell("Default", "default")])
        .resolve_shape("page", 1)
        .unwrap();
    for (name, expected) in [
        ("Local", Provenance::Local),
        ("Master", Provenance::Master),
        ("LineColor", Provenance::StyleLine),
        ("FillForegnd", Provenance::StyleFill),
        ("Text", Provenance::StyleText),
        ("Page", Provenance::Page),
        ("Doc", Provenance::Document),
        ("Default", Provenance::Default),
    ] {
        assert_eq!(found(&resolved, name).1, expected);
    }
    let mut deleted = shape(2);
    deleted.del = true;
    add_page(&mut package, deleted);
    assert!(Resolver::new(&package).resolve_shape("page", 2).unwrap().deleted);
}

#[test]
fn cycles_return_diagnostics() {
    let mut cycle_package = package();
    let mut looped = sheet(Some(1));
    looped.other_attrs = vec![("BasedOn".into(), "1".into())];
    cycle_package.style_sheets = vec![looped];
    let mut local = shape(1);
    local.line_style = Some(1);
    add_page(&mut cycle_package, local);
    assert!(matches!(
        Resolver::new(&cycle_package).resolve_shape("page", 1),
        Err(ResolveError::Cycle(_))
    ));

    let mut master_loop_package = package();
    let mut local = shape(1);
    local.master = Some(1);
    add_page(&mut master_loop_package, local);
    let mut first = shape(1);
    first.master = Some(2);
    add_master(&mut master_loop_package, 1, first);
    let mut second = shape(2);
    second.master = Some(1);
    add_master(&mut master_loop_package, 2, second);
    assert!(matches!(
        Resolver::new(&master_loop_package).resolve_shape("page", 1),
        Err(ResolveError::Cycle(_))
    ));

    let mut deep_package = package();
    let mut local = shape(9);
    local.master = Some(1);
    add_page(&mut deep_package, local);
    for id in 1..=65 {
        let mut ancestor = shape(id);
        ancestor.master = if id < 65 { Some(id + 1) } else { None };
        add_master(&mut deep_package, id, ancestor);
    }
    assert!(matches!(
        Resolver::new(&deep_package).resolve_shape("page", 9),
        Err(ResolveError::Cycle(message)) if message == "maximum inheritance depth"
    ));
}

#[test]
fn text_markers_fields_and_style_rows_are_merged() {
    let mut package = package();
    package.style_sheets = vec![sheet_with_sections(
        Some(1),
        vec![
            section("Character", vec![row(0, vec![cell("Font", "style")])]),
            section("Paragraph", vec![row(0, vec![cell("IndFirst", "style")])]),
        ],
    )];
    let mut value = shape(1);
    value.text = Some(vec![
        TextToken::CharacterRun(0),
        TextToken::Literal("hello".into()),
        TextToken::ParagraphRun(0),
        TextToken::Field(0),
    ]);
    value.text_style = Some(1);
    let page = sheet(None);
    let tokens = Resolver::new(&package).resolve_text(&value, &page).unwrap();
    assert!(
        matches!(&tokens[0], ResolvedTextToken::CharacterRun { properties, .. } if matches!(lookup(properties, "Font"), Some(Lookup::Found(_))))
    );
    assert!(matches!(&tokens[1], ResolvedTextToken::Literal(text) if text == "hello"));
    assert!(
        matches!(&tokens[2], ResolvedTextToken::ParagraphRun { properties, .. } if matches!(lookup(properties, "IndFirst"), Some(Lookup::Found(_))))
    );
    assert!(matches!(tokens[3], ResolvedTextToken::Field { index: 0, .. }));
}

#[test]
fn style_references_supplied_by_a_master_are_consulted() {
    let mut package = package();
    package.style_sheets = vec![
        sheet_with_cells(Some(1), vec![cell("LineColor", "master")]),
        sheet_with_cells(Some(2), vec![cell("FillForegnd", "fill")]),
        sheet_with_cells(Some(3), vec![cell("Text", "text")]),
        sheet_with_cells(Some(4), vec![cell("LineColor", "local")]),
    ];
    let mut master = shape(1);
    master.line_style = Some(1);
    master.fill_style = Some(2);
    master.text_style = Some(3);
    add_master(&mut package, 1, master);

    let mut instance = shape(1);
    instance.master = Some(1);
    add_page(&mut package, instance);
    let resolved = Resolver::new(&package).resolve_shape("page", 1).unwrap();
    assert_eq!(found(&resolved, "LineColor"), ("master", Provenance::StyleLine));
    assert_eq!(found(&resolved, "FillForegnd"), ("fill", Provenance::StyleFill));
    assert_eq!(found(&resolved, "Text"), ("text", Provenance::StyleText));

    let mut overriding = shape(2);
    overriding.master = Some(1);
    overriding.line_style = Some(4);
    add_page(&mut package, overriding);
    assert_eq!(
        found(&Resolver::new(&package).resolve_shape("page", 2).unwrap(), "LineColor"),
        ("local", Provenance::StyleLine)
    );
}

#[test]
fn nested_group_members_and_nested_master_shapes_resolve() {
    let mut package = package();
    let member = shape_with_cells(2, vec![cell("PinX", "member")]);
    let mut group = shape(1);
    group.shapes = vec![member];
    add_page(&mut package, group);
    let resolved = Resolver::new(&package).resolve_shape("page", 2).unwrap();
    assert_eq!(found(&resolved, "PinX"), ("member", Provenance::Local));

    let nested_master = shape_with_cells(5, vec![cell("PinY", "nested-master")]);
    let mut master_root = shape(1);
    master_root.shapes = vec![nested_master];
    add_master(&mut package, 1, master_root);
    let mut instance = shape(3);
    instance.master = Some(1);
    instance.master_shape = Some(5);
    add_page(&mut package, instance);
    let resolved = Resolver::new(&package).resolve_shape("page", 3).unwrap();
    assert_eq!(found(&resolved, "PinY"), ("nested-master", Provenance::MasterShape));
}

#[test]
fn missing_page_and_missing_shape_are_reported() {
    let mut package = package();
    assert!(matches!(
        Resolver::new(&package).resolve_shape("nowhere", 1),
        Err(ResolveError::MissingPage(p)) if p == "nowhere"
    ));
    add_page(&mut package, shape(1));
    assert!(matches!(
        Resolver::new(&package).resolve_shape("page", 2),
        Err(ResolveError::MissingShape(2))
    ));
}

#[test]
fn local_cell_overrides_every_inherited_layer() {
    let mut package = package();
    package.document_sheet = Some(sheet_with_cells(None, vec![cell("PinX", "document")]));
    package.style_sheets = vec![sheet_with_cells(Some(1), vec![cell("LineColor", "style")])];
    let mut local = shape_with_cells(1, vec![cell("PinX", "local"), cell("LineColor", "mine")]);
    local.master = Some(1);
    local.line_style = Some(1);
    add_page(&mut package, local);
    add_master(&mut package, 1, shape_with_cells(1, vec![cell("PinX", "master")]));
    let resolved = Resolver::new(&package)
        .with_defaults(vec![cell("PinX", "default")])
        .resolve_shape("page", 1)
        .unwrap();
    assert_eq!(found(&resolved, "PinX"), ("local", Provenance::Local));
    assert_eq!(found(&resolved, "LineColor"), ("mine", Provenance::Local));
}

#[test]
fn the_last_default_of_a_name_is_used() {
    let mut package = package();
    add_page(&mut package, shape(1));
    let resolved = Resolver::new(&package)
        .with_defaults(vec![cell("PinX", "first"), cell("PinX", "second")])
        .resolve_shape("page", 1)
        .unwrap();
    assert_eq!(found(&resolved, "PinX"), ("second", Provenance::Default));
}

#[test]
fn missing_master_reports_a_diagnostic() {
    let mut package = package();
    let mut local = shape(10);
    local.master = Some(5);
    add_page(&mut package, local);

    assert!(matches!(
        Resolver::new(&package).resolve_shape("page", 10),
        Err(ResolveError::MissingMaster(5))
    ));
}

#[test]
fn text_uses_effective_page_or_document_rows_and_master_stream() {
    let mut package = package();
    package.page_sheets.push((
        1,
        sheet_with_sections(
            Some(1),
            vec![section("Character", vec![row(0, vec![cell("Font", "page")])])],
        ),
    ));
    package.document_sheet = Some(sheet_with_sections(
        None,
        vec![section("Paragraph", vec![row(0, vec![cell("IndLeft", "document")])])],
    ));
    let make_local = || {
        let mut s = shape(1);
        s.master = Some(7);
        s
    };
    add_page(&mut package, make_local());
    let local = make_local();
    let mut master = shape(7);
    master.text = Some(vec![
        TextToken::CharacterRun(0),
        TextToken::Literal("master text".into()),
        TextToken::ParagraphRun(0),
    ]);
    add_master(&mut package, 7, master);
    let page = &package.page_sheets[0].1;
    let resolved = Resolver::new(&package).resolve_shape("page", 1).unwrap();
    let tokens = Resolver::new(&package)
        .resolve_text_in_context(&local, page, &resolved)
        .unwrap();
    assert!(
        matches!(&tokens[0], ResolvedTextToken::CharacterRun { properties, .. } if matches!(lookup(properties, "Font"), Some(Lookup::Found(cell)) if cell.cell.value.as_deref() == Some("page")))
    );
    assert!(matches!(&tokens[1], ResolvedTextToken::Literal(text) if text == "master text"));
    assert!(
        matches!(&tokens[2], ResolvedTextToken::ParagraphRun { properties, .. } if matches!(lookup(properties, "IndLeft"), Some(Lookup::Found(cell)) if cell.cell.value.as_deref() == Some("document")))
    );
}

#[test]
fn resolved_entries_come_out_in_name_order() {
    let mut package = package();
    let mut local = shape(1);
    local.cells = vec![cell("Width", "1"), cell("PinY", "2"), cell("Angle", "3")];
    local.sections = vec![
        section("User", vec![row(2, vec![cell("Value", "a")]), row(0, vec![cell("Value", "b"), cell("Prompt", "c")])]),
        section("Geometry", vec![row(1, vec![cell("Y", "0"), cell("X", "0")])]),
    ];
    add_page(&mut package, local);
    let resolved = Resolver::new(&package).resolve_shape("page", 1).unwrap();
    let names: Vec<&str> = resolved.cells.iter().map(|(n, _)| n.as_str()).collect();
    assert_eq!(names, vec!["Angle", "PinY", "Width"]);
    let sections: Vec<&str> = resolved.sections.iter().map(|s| s.name.as_str()).collect();
    assert_eq!(sections, vec!["Geometry", "User"]);
    let user = &resolved.sections[1];
    let keys: Vec<&str> = user.rows.iter().map(|r| r.key.as_str()).collect();
    assert_eq!(keys, vec!["IX:0", "IX:2"]);
    let row_cells: Vec<&str> = user.rows[0].cells.iter().map(|(n, _)| n.as_str()).collect();
    assert_eq!(row_cells, vec!["Prompt", "Value"]);
    let geometry: Vec<&str> = resolved.sections[0].rows[0].cells.iter().map(|(n, _)| n.as_str()).collect();
    assert_eq!(geometry, vec!["X", "Y"]);
}
