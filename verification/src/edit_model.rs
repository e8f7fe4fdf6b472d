//! The collaborative editing model's plain values: edit contexts, the
//! semantic snapshot of pages, shapes and cells, receipts and errors.

use vstd::prelude::*;

use crate::sheet::CellLocator;

verus! {

/// Who made an edit.
#[derive(Debug, Clone, Copy, PartialEq, Eq, Structural)]
pub enum EditOrigin {
    Local,
    Agent,
    Remote,
    System,
}

/// The context an edit is made in: its origin and author.
#[derive(Debug)]
pub struct EditCtx {
    pub origin: EditOrigin,
    pub author: String,
}

impl EditCtx {
    /// A local edit by `author`.
    pub fn local(author: String) -> (res: EditCtx)
        ensures
            res.origin == EditOrigin::Local,
            res.author == author,
    {
        EditCtx { origin: EditOrigin::Local, author }
    }
}

/// One cell of a snapshot shape, with its locator and cached value.
#[derive(Debug)]
pub struct CellSnapshot {
    pub locator: CellLocator,
    pub name: String,
    pub formula: Option<String>,
    pub value: Option<String>,
    pub row_type: Option<String>,
}

/// One shape of a snapshot page, with its cells and nested shapes.
#[derive(Debug)]
pub struct ShapeSnapshot {
    pub id: String,
    pub source_id: u32,
    pub name: Option<String>,
    pub cells: Vec<CellSnapshot>,
    pub children: Vec<ShapeSnapshot>,
}

/// One page of a snapshot, with its top-level shapes in order.
#[derive(Debug)]
pub struct PageSnapshot {
    pub id: String,
    pub source_part_path: String,
    pub name: Option<String>,
    pub shapes: Vec<ShapeSnapshot>,
}

/// The semantic view of a whole diagram: its pages in order.
#[derive(Debug)]
pub struct DiagramSnapshot {
    pub pages: Vec<PageSnapshot>,
}

/// What a formula edit changed.
#[derive(Debug)]
pub struct CellFormulaReceipt {
    pub page_id: String,
    pub shape_id: String,
    pub cell_name: String,
    pub before: Option<String>,
    pub after: String,
}

/// What a shape or page reorder changed.
#[derive(Debug)]
pub struct ShapeReceipt {
    pub page_id: String,
    pub shape_id: String,
    pub from_index: Option<u32>,
    pub to_index: Option<u32>,
}

/// A shape that exists only in the session, so a save must insert it into the package.
#[derive(Debug)]
pub struct AddedShape {
    pub page_id: String,
    pub source_page_id: u32,
    pub shape_id: String,
    pub name: Option<String>,
    pub cells: Vec<CellSnapshot>,
}

/// A formula or value change of one package cell.
#[derive(Debug)]
pub struct SemanticCellEdit {
    pub locator: CellLocator,
    pub formula: Option<String>,
    pub value: Option<String>,
}

/// The whole of a session's divergence from its package, partitioned by how a save applies it.
#[derive(Debug)]
pub struct SessionExport {
    pub cell_edits: Vec<SemanticCellEdit>,
    pub added_shapes: Vec<AddedShape>,
}

/// A shape to add: its page-local ID, name and cells.
#[derive(Debug)]
pub struct ShapeDraft {
    pub source_id: u32,
    pub name: Option<String>,
    pub cells: Vec<CellSnapshot>,
}

/// Where a document update came from.
#[derive(Debug, Clone, Copy, PartialEq, Eq, Structural)]
pub enum UpdateOrigin {
    Local,
    Remote,
}

/// An encoded document update and its origin.
#[derive(Debug)]
pub struct UpdateEvent {
    pub update: Vec<u8>,
    pub origin: UpdateOrigin,
}

/// Why an edit or session operation was refused.
#[derive(Debug)]
pub enum EditError {
    InvalidClientId(u64),
    Parse(String),
    InvalidState(String),
    InvalidUpdate(String),
    InvalidStateVector(String),
    PageNotFound(String),
    ShapeNotFound(String),
    CellNotFound(String),
    OutOfBounds { index: u32, length: u32 },
    Observer(String),
    Json(String),
}

/// Size and count limits for parsed and written ShapeSheet content.
#[derive(Debug, Clone, Copy)]
pub struct ParseLimits {
    pub max_expanded_bytes: usize,
    pub max_xml_text_bytes: usize,
    pub max_attribute_bytes: usize,
    pub max_cells: usize,
    pub max_sections: usize,
    pub max_rows: usize,
    pub max_shapes: usize,
}

} // verus!
