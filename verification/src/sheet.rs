//! The parsed ShapeSheet model: cells, rows, sections, shapes and sheets as
//! a VSDX part holds them, with the searches that every layer above uses.

use vstd::prelude::*;

use crate::seqs::{find_first, lemma_find_first_index, lemma_find_first_skip};
use crate::text::str_eq;

verus! {

/// One ShapeSheet cell: `N`, `F`, `V`, `U` and the `Del` override marker.
#[derive(Debug)]
pub struct Cell {
    pub name: String,
    pub formula: Option<String>,
    pub value: Option<String>,
    pub unit: Option<String>,
    pub del: bool,
}

/// How a locator names a row: by `IX` index or by `N` name.
#[derive(Debug)]
pub enum CellRow {
    Index(u32),
    Name(String),
}

/// One section row with its cells.
#[derive(Debug)]
pub struct Row {
    pub index: Option<u32>,
    pub name: Option<String>,
    pub row_type: Option<String>,
    pub del: bool,
    pub cells: Vec<Cell>,
}

/// One named ShapeSheet section with its rows.
#[derive(Debug)]
pub struct Section {
    pub name: String,
    pub index: Option<u32>,
    pub del: bool,
    pub rows: Vec<Row>,
}

/// A token of a shape's `Text` element: literal text or a run marker.
#[derive(Debug)]
pub enum TextToken {
    Literal(String),
    CharacterRun(u32),
    ParagraphRun(u32),
    Tab(u32),
    Field(u32),
}

/// A glue record of a page's `Connects` collection.
#[derive(Debug)]
pub struct Connect {
    pub from_sheet: u32,
    pub from_cell: Option<String>,
    pub from_part: Option<i32>,
    pub to_sheet: u32,
    pub to_cell: Option<String>,
    pub to_part: Option<i32>,
}

/// A shape with its local cells, sections, nested shapes and text.
#[derive(Debug)]
pub struct Shape {
    pub id: u32,
    pub name: Option<String>,
    pub master: Option<u32>,
    pub master_shape: Option<u32>,
    pub line_style: Option<u32>,
    pub fill_style: Option<u32>,
    pub text_style: Option<u32>,
    pub del: bool,
    pub cells: Vec<Cell>,
    pub sections: Vec<Section>,
    pub shapes: Vec<Shape>,
    pub text: Option<Vec<TextToken>>,
}

/// A sheet: page contents, a master, a style, a page sheet or the document sheet.
#[derive(Debug)]
pub struct Sheet {
    pub id: Option<u32>,
    pub cells: Vec<Cell>,
    pub sections: Vec<Section>,
    pub shapes: Vec<Shape>,
    pub connects: Vec<Connect>,
    pub other_attrs: Vec<(String, String)>,
}

/// Which sheet a cell locator addresses.
#[derive(Debug)]
pub enum CellSheet {
    Document,
    Page(u32),
    Master(u32),
}

/// The address of one cell: sheet, shape, optional section, row and the cell name.
#[derive(Debug)]
pub struct CellLocator {
    pub sheet: CellSheet,
    pub shape_id: Option<u32>,
    pub section: Option<String>,
    pub section_index: Option<u32>,
    pub row: Option<CellRow>,
    pub cell_name: String,
}

/// The user gesture that a cell edit stands for, as lock checks see it.
#[derive(Debug, PartialEq, Eq, Clone, Copy)]
pub enum MutationGesture {
    MoveX,
    MoveY,
    ResizeWidth,
    ResizeHeight,
    CellEdit,
}

/// A package-level edit that a save applies to a page's shape tree.
#[derive(Debug, PartialEq, Eq, Clone, Copy)]
pub enum StructuralEdit {
    DeleteShape { page_id: u32, shape_id: u32 },
    ReorderShape { page_id: u32, shape_id: u32, before_shape_id: Option<u32> },
}

/// Matches a cell by name.
pub open spec fn cell_named(name: Seq<char>) -> spec_fn(Cell) -> bool {
    |c: Cell| c.name@ == name
}

/// Matches a section by name.
pub open spec fn section_named(name: Seq<char>) -> spec_fn(Section) -> bool {
    |s: Section| s.name@ == name
}

/// Matches a shape by ID.
pub open spec fn shape_with_id(id: u32) -> spec_fn(Shape) -> bool {
    |s: Shape| s.id == id
}

/// A copy of an optional string.
pub fn copy_opt_string(s: &Option<String>) -> (res: Option<String>)
    ensures
        res == *s,
{
    match s {
        Some(v) => Some(v.clone()),
        None => None,
    }
}

impl Cell {
    /// A copy of the cell.
    pub fn copy(&self) -> (res: Cell)
        ensures
            res == *self,
    {
        Cell {
            name: self.name.clone(),
            formula: copy_opt_string(&self.formula),
            value: copy_opt_string(&self.value),
            unit: copy_opt_string(&self.unit),
            del: self.del,
        }
    }
}

impl CellRow {
    /// A copy of the row designator.
    pub fn copy(&self) -> (res: CellRow)
        ensures
            res == *self,
    {
        match self {
            CellRow::Index(i) => CellRow::Index(*i),
            CellRow::Name(n) => CellRow::Name(n.clone()),
        }
    }
}

impl CellSheet {
    /// A copy of the sheet designator.
    pub fn copy(&self) -> (res: CellSheet)
        ensures
            res == *self,
    {
        match self {
            CellSheet::Document => CellSheet::Document,
            CellSheet::Page(i) => CellSheet::Page(*i),
            CellSheet::Master(i) => CellSheet::Master(*i),
        }
    }
}

impl CellLocator {
    /// A copy of the locator.
    pub fn copy(&self) -> (res: CellLocator)
        ensures
            res == *self,
    {
        CellLocator {
            sheet: self.sheet.copy(),
            shape_id: self.shape_id,
            section: copy_opt_string(&self.section),
            section_index: self.section_index,
            row: match &self.row {
                Some(r) => Some(r.copy()),
                None => None,
            },
            cell_name: self.cell_name.clone(),
        }
    }
}

/// The first cell named `name`.
pub fn find_cell<'a>(cells: &'a Vec<Cell>, name: &str) -> (res: Option<&'a Cell>)
    ensures
        res.is_some() == find_first(cells@, cell_named(name@)).is_some(),
        res matches Some(c) ==> find_first(cells@, cell_named(name@)) == Some(*c),
{
    let ghost p = cell_named(name@);
    let mut i: usize = 0;
    while i < cells.len()
        invariant
            i <= cells@.len(),
            p == cell_named(name@),
            forall|j: int| 0 <= j < i ==> !p(#[trigger] cells@[j]),
        decreases cells.len() - i,
    {
        if str_eq(cells[i].name.as_str(), name) {
            proof {
                lemma_find_first_skip(cells@, p, i as int);
            }
            return Some(&cells[i]);
        }
        i = i + 1;
    }
    proof {
        lemma_find_first_index(cells@, p);
    }
    None
}

/// The first section named `name`.
pub fn find_section<'a>(sections: &'a Vec<Section>, name: &str) -> (res: Option<&'a Section>)
    ensures
        res.is_some() == find_first(sections@, section_named(name@)).is_some(),
        res matches Some(s) ==> find_first(sections@, section_named(name@)) == Some(*s),
{
    let ghost p = section_named(name@);
    let mut i: usize = 0;
    while i < sections.len()
        invariant
            i <= sections@.len(),
            p == section_named(name@),
            forall|j: int| 0 <= j < i ==> !p(#[trigger] sections@[j]),
        decreases sections.len() - i,
    {
        if str_eq(sections[i].name.as_str(), name) {
            proof {
                lemma_find_first_skip(sections@, p, i as int);
            }
            return Some(&sections[i]);
        }
        i = i + 1;
    }
    proof {
        lemma_find_first_index(sections@, p);
    }
    None
}


/// Two rows hold the same designator, type, mark and cells.
pub open spec fn row_same(a: Row, b: Row) -> bool {
    &&& a.index == b.index
    &&& a.name == b.name
    &&& a.row_type == b.row_type
    &&& a.del == b.del
    &&& a.cells@ == b.cells@
}

/// Two sections hold the same name, index, mark and rows.
pub open spec fn section_same(a: Section, b: Section) -> bool {
    &&& a.name == b.name
    &&& a.index == b.index
    &&& a.del == b.del
    &&& a.rows@.len() == b.rows@.len()
    &&& forall|i: int| 0 <= i < a.rows@.len() ==> row_same(#[trigger] a.rows@[i], b.rows@[i])
}

/// Two lists of sections are the same section by section.
pub open spec fn sections_same(a: Seq<Section>, b: Seq<Section>) -> bool {
    a.len() == b.len() && forall|i: int| 0 <= i < a.len() ==> section_same(#[trigger] a[i], b[i])
}

/// Two optional texts hold the same tokens.
pub open spec fn text_same(a: Option<Vec<TextToken>>, b: Option<Vec<TextToken>>) -> bool {
    match (a, b) {
        (None, None) => true,
        (Some(x), Some(y)) => x@ == y@,
        _ => false,
    }
}

/// Two shapes are the same shape: equal attributes, cells, sections and
/// text, and the same nested shapes in order.
pub open spec fn shape_same(a: Shape, b: Shape) -> bool
    decreases a,
{
    &&& a.id == b.id
    &&& a.name == b.name
    &&& a.master == b.master
    &&& a.master_shape == b.master_shape
    &&& a.line_style == b.line_style
    &&& a.fill_style == b.fill_style
    &&& a.text_style == b.text_style
    &&& a.del == b.del
    &&& a.cells@ == b.cells@
    &&& sections_same(a.sections@, b.sections@)
    &&& text_same(a.text, b.text)
    &&& a.shapes@.len() == b.shapes@.len()
    &&& forall|i: int|
        0 <= i < a.shapes@.len() ==> shape_same(#[trigger] a.shapes@[i], b.shapes@[i])
}

fn copy_cells(cells: &Vec<Cell>) -> (res: Vec<Cell>)
    ensures
        res@ == cells@,
{
    let mut out: Vec<Cell> = Vec::new();
    let mut i: usize = 0;
    while i < cells.len()
        invariant
            i <= cells@.len(),
            out@ == cells@.take(i as int),
        decreases cells.len() - i,
    {
        out.push(cells[i].copy());
        assert(out@ =~= cells@.take(i + 1));
        i = i + 1;
    }
    assert(cells@.take(i as int) =~= cells@);
    out
}

impl Row {
    /// A copy of the row.
    pub fn copy(&self) -> (res: Row)
        ensures
            row_same(*self, res),
    {
        Row {
            index: self.index,
            name: copy_opt_string(&self.name),
            row_type: copy_opt_string(&self.row_type),
            del: self.del,
            cells: copy_cells(&self.cells),
        }
    }
}

impl Section {
    /// A copy of the section.
    pub fn copy(&self) -> (res: Section)
        ensures
            section_same(*self, res),
    {
        let mut rows: Vec<Row> = Vec::new();
        let mut i: usize = 0;
        while i < self.rows.len()
            invariant
                i <= self.rows@.len(),
                rows@.len() == i,
                forall|j: int| 0 <= j < i ==> row_same(#[trigger] self.rows@[j], rows@[j]),
            decreases self.rows.len() - i,
        {
            rows.push(self.rows[i].copy());
            i = i + 1;
        }
        Section { name: self.name.clone(), index: self.index, del: self.del, rows }
    }
}

impl TextToken {
    /// A copy of the token.
    pub fn copy(&self) -> (res: TextToken)
        ensures
            res == *self,
    {
        match self {
            TextToken::Literal(t) => TextToken::Literal(t.clone()),
            TextToken::CharacterRun(i) => TextToken::CharacterRun(*i),
            TextToken::ParagraphRun(i) => TextToken::ParagraphRun(*i),
            TextToken::Tab(i) => TextToken::Tab(*i),
            TextToken::Field(i) => TextToken::Field(*i),
        }
    }
}

fn copy_text(text: &Option<Vec<TextToken>>) -> (res: Option<Vec<TextToken>>)
    ensures
        text_same(*text, res),
{
    match text {
        None => None,
        Some(tokens) => {
            let mut out: Vec<TextToken> = Vec::new();
            let mut i: usize = 0;
            while i < tokens.len()
                invariant
                    i <= tokens@.len(),
                    out@ == tokens@.take(i as int),
                decreases tokens.len() - i,
            {
                out.push(tokens[i].copy());
                assert(out@ =~= tokens@.take(i + 1));
                i = i + 1;
            }
            assert(tokens@.take(i as int) =~= tokens@);
            Some(out)
        },
    }
}

impl Shape {
    /// A copy of the shape with all its nested shapes.
    pub fn copy(&self) -> (res: Shape)
        ensures
            shape_same(*self, res),
        decreases *self,
    {
        let mut sections: Vec<Section> = Vec::new();
        let mut i: usize = 0;
        while i < self.sections.len()
            invariant
                i <= self.sections@.len(),
                sections@.len() == i,
                forall|j: int| 0 <= j < i ==> section_same(#[trigger] self.sections@[j], sections@[j]),
            decreases self.sections.len() - i,
        {
            sections.push(self.sections[i].copy());
            i = i + 1;
        }
        let mut shapes: Vec<Shape> = Vec::new();
        let mut k: usize = 0;
        while k < self.shapes.len()
            invariant
                k <= self.shapes@.len(),
                shapes@.len() == k,
                forall|j: int| 0 <= j < k ==> shape_same(#[trigger] self.shapes@[j], shapes@[j]),
            decreases self.shapes.len() - k,
        {
            proof {
                assert(decreases_to!(*self => self.shapes@[k as int]));
            }
            shapes.push(self.shapes[k].copy());
            k = k + 1;
        }
        Shape {
            id: self.id,
            name: copy_opt_string(&self.name),
            master: self.master,
            master_shape: self.master_shape,
            line_style: self.line_style,
            fill_style: self.fill_style,
            text_style: self.text_style,
            del: self.del,
            cells: copy_cells(&self.cells),
            sections,
            shapes,
            text: copy_text(&self.text),
        }
    }
}

} // verus!
