//! Resolved, non-mutating views over parsed sheets: where each effective
//! cell came from, and whether an override deleted it.

use vstd::prelude::*;

use crate::sheet::{copy_opt_string, Cell, Row};
use crate::text::{append, decimal, decimal_string, owned};

verus! {

/// The layer of the inheritance chain that supplied a cell.
#[derive(Debug, Clone, Copy, PartialEq, Eq, Structural)]
pub enum Provenance {
    Local,
    MasterShape,
    Master,
    StyleLine,
    StyleFill,
    StyleText,
    Page,
    Document,
    Default,
}

/// An effective cell and the layer it came from.
#[derive(Debug)]
pub struct ResolvedCell {
    pub cell: Cell,
    pub provenance: Provenance,
}

/// The outcome of looking a cell up through the inheritance chain.
#[derive(Debug)]
pub enum Lookup {
    Found(ResolvedCell),
    Deleted,
    Absent,
}

/// A resolved section row, keyed `N:<name>` or `IX:<index>`; its cells are
/// in name order, each name once.
#[derive(Debug)]
pub struct ResolvedRow {
    pub key: String,
    pub deleted: bool,
    pub row_type: Option<String>,
    pub cells: Vec<(String, Lookup)>,
}

/// A resolved section and its rows, in key order, each key once.
#[derive(Debug)]
pub struct ResolvedSection {
    pub name: String,
    pub deleted: bool,
    pub rows: Vec<ResolvedRow>,
}

/// A resolved shape: its effective cells and sections, each in name order,
/// each name once.
#[derive(Debug)]
pub struct ResolvedShape {
    pub deleted: bool,
    pub cells: Vec<(String, Lookup)>,
    pub sections: Vec<ResolvedSection>,
}

/// A text token with the run properties its marker resolves to.
#[derive(Debug)]
pub enum ResolvedTextToken {
    Literal(String),
    CharacterRun { index: u32, properties: Vec<(String, Lookup)> },
    ParagraphRun { index: u32, properties: Vec<(String, Lookup)> },
    Tab { index: u32, properties: Vec<(String, Lookup)> },
    Field { index: u32, properties: Vec<(String, Lookup)> },
}

/// Why a geometry row could not be realized.
#[derive(Debug)]
pub enum GeometryIssue {
    UnsupportedRowType(String),
    UnevaluatedCell { row_type: String, cell: String },
    MissingCell { row_type: String, cell: String },
}

/// Why a shape could not be resolved.
#[derive(Debug)]
pub enum ResolveError {
    MissingPage(String),
    MissingShape(u32),
    MissingMaster(u32),
    Cycle(String),
}

/// The lookup a source cell yields: deleted when it carries `Del`, found otherwise.
pub open spec fn spec_found(cell: Cell, provenance: Provenance) -> Lookup {
    if cell.del {
        Lookup::Deleted
    } else {
        Lookup::Found(ResolvedCell { cell, provenance })
    }
}

/// The lookup that a source cell yields.
pub fn found(cell: &Cell, provenance: Provenance) -> (res: Lookup)
    ensures
        res == spec_found(*cell, provenance),
{
    if cell.del {
        Lookup::Deleted
    } else {
        Lookup::Found(ResolvedCell { cell: cell.copy(), provenance })
    }
}

/// The key of a row: `N:<name>` for a named row, `IX:<index>` for an indexed one.
pub open spec fn spec_row_key(row: Row) -> Seq<char> {
    match row.name {
        Some(name) => "N:"@ + name@,
        None => match row.index {
            Some(index) => "IX:"@ + decimal(index as nat),
            None => Seq::empty(),
        },
    }
}

/// The key under which a row resolves.
pub fn row_key(row: &Row) -> (res: String)
    ensures
        res@ == spec_row_key(*row),
{
    match &row.name {
        Some(name) => {
            let mut key = owned("N:");
            append(&mut key, name.as_str());
            key
        },
        None => match row.index {
            Some(index) => {
                let mut key = owned("IX:");
                let digits = decimal_string(index);
                append(&mut key, digits.as_str());
                key
            },
            None => String::new(),
        },
    }
}

impl Lookup {
    /// A copy of the lookup.
    pub fn copy(&self) -> (res: Lookup)
        ensures
            res == *self,
    {
        match self {
            Lookup::Found(c) => Lookup::Found(
                ResolvedCell { cell: c.cell.copy(), provenance: c.provenance },
            ),
            Lookup::Deleted => Lookup::Deleted,
            Lookup::Absent => Lookup::Absent,
        }
    }
}

/// A copy of an optional row type.
pub fn copy_row_type(row: &Row) -> (res: Option<String>)
    ensures
        res == row.row_type,
{
    copy_opt_string(&row.row_type)
}

} // verus!
