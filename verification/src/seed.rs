//! What a session records when it seeds an original shape: one cell record
//! for every cell the shape resolves to, shape cells first and then the cells
//! of each section row, and a key for each nested shape.

use vstd::prelude::*;

use crate::edit_model::{CellSnapshot, EditError};
use crate::materialize::MAX_SHAPE_NESTING;
use crate::resolve_model::{Lookup, ResolvedRow, ResolvedSection, ResolvedShape};
use crate::sheet::{copy_opt_string, Cell, CellLocator, CellRow, CellSheet};
use crate::text::{append, decimal, decimal_string, owned, parse_u32, spec_parse_u32, starts_with};

verus! {

/// A resolved row key names a row: `N:<name>` by name, `IX:<index>` by a
/// decimal index.
pub open spec fn key_names_row(key: Seq<char>, row: CellRow) -> bool {
    match row {
        CellRow::Name(n) => key.len() >= 2 && key.take(2) == "N:"@ && n@ == key.skip(2),
        CellRow::Index(i) => !(key.len() >= 2 && key.take(2) == "N:"@) && key.len() >= 3 && key.take(3)
            == "IX:"@ && spec_parse_u32(key.skip(3)) == Some(i),
    }
}

/// A resolved row key that names a row at all; the cells of other rows are
/// not seeded.
pub open spec fn key_is_row(key: Seq<char>) -> bool {
    ||| key.len() >= 2 && key.take(2) == "N:"@
    ||| key.len() >= 3 && key.take(3) == "IX:"@ && spec_parse_u32(key.skip(3)) is Some
}

/// Where a seeded cell comes from: its section, the key of its row, the
/// row's type, the cell's name and the resolved cell.
pub type SeedSource = (Option<Seq<char>>, Option<Seq<char>>, Option<String>, Seq<char>, Cell);

/// The resolved cells that are found, in order, each with where it sits.
pub open spec fn found_sources(
    cells: Seq<(String, Lookup)>,
    section: Option<Seq<char>>,
    row_key: Option<Seq<char>>,
    row_type: Option<String>,
) -> Seq<SeedSource>
    decreases cells.len(),
{
    if cells.len() == 0 {
        Seq::empty()
    } else {
        let rest = found_sources(cells.drop_last(), section, row_key, row_type);
        match cells.last().1 {
            Lookup::Found(rc) => rest.push((section, row_key, row_type, cells.last().0@, rc.cell)),
            _ => rest,
        }
    }
}

/// The found cells of a section's rows, row by row, skipping rows whose key
/// names no row.
pub open spec fn row_sources(name: Seq<char>, rows: Seq<ResolvedRow>) -> Seq<SeedSource>
    decreases rows.len(),
{
    if rows.len() == 0 {
        Seq::empty()
    } else {
        let rest = row_sources(name, rows.drop_last());
        let r = rows.last();
        if key_is_row(r.key@) {
            rest + found_sources(r.cells@, Some(name), Some(r.key@), r.row_type)
        } else {
            rest
        }
    }
}

/// The found cells of every section, section by section.
pub open spec fn section_sources(sections: Seq<ResolvedSection>) -> Seq<SeedSource>
    decreases sections.len(),
{
    if sections.len() == 0 {
        Seq::empty()
    } else {
        section_sources(sections.drop_last()) + row_sources(
            sections.last().name@,
            sections.last().rows@,
        )
    }
}

/// Every cell a seeded shape records: its own found cells, then those of its
/// sections.
pub open spec fn seed_sources(resolved: ResolvedShape) -> Seq<SeedSource> {
    found_sources(resolved.cells@, None, None, None) + section_sources(resolved.sections@)
}

/// The view of an optional string.
pub open spec fn opt_view(s: Option<String>) -> Option<Seq<char>> {
    match s {
        Some(v) => Some(v@),
        None => None,
    }
}

/// A seeded cell record: on page sheet zero, for the shape, at the source's
/// section and row (no section index), named as the source cell and holding
/// its formula and value, with the row's type.
pub open spec fn seeded(c: CellSnapshot, shape_id: u32, source: SeedSource) -> bool {
    let (section, row_key, row_type, name, cell) = source;
    &&& c.locator.sheet == CellSheet::Page(0)
    &&& c.locator.shape_id == Some(shape_id)
    &&& opt_view(c.locator.section) == section
    &&& c.locator.section_index is None
    &&& match row_key {
        None => c.locator.row is None,
        Some(k) => c.locator.row matches Some(r) && key_names_row(k, r),
    }
    &&& c.locator.cell_name@ == name
    &&& c.name@ == name
    &&& c.formula == cell.formula
    &&& c.value == cell.value
    &&& c.row_type == row_type
}

fn copy_row(row: &Option<CellRow>) -> (res: Option<CellRow>)
    ensures
        res == *row,
{
    match row {
        Some(CellRow::Index(i)) => Some(CellRow::Index(*i)),
        Some(CellRow::Name(n)) => Some(CellRow::Name(n.clone())),
        None => None,
    }
}

fn push_found(
    out: &mut Vec<CellSnapshot>,
    shape_id: u32,
    cells: &Vec<(String, Lookup)>,
    section: &Option<String>,
    row: &Option<CellRow>,
    row_type: &Option<String>,
    Ghost(row_key): Ghost<Option<Seq<char>>>,
)
    requires
        row_key is None <==> row is None,
        row_key matches Some(k) ==> key_names_row(k, row.unwrap()),
    ensures
        final(out)@.len() == old(out)@.len() + found_sources(
            cells@,
            opt_view(*section),
            row_key,
            *row_type,
        ).len(),
        forall|k: int| 0 <= k < old(out)@.len() ==> #[trigger] final(out)@[k] == old(out)@[k],
        forall|k: int|
            0 <= k < found_sources(cells@, opt_view(*section), row_key, *row_type).len() ==> seeded(
                #[trigger] final(out)@[old(out)@.len() + k],
                shape_id,
                found_sources(cells@, opt_view(*section), row_key, *row_type)[k],
            ),
{
    let ghost base = out@.len();
    let ghost sec = opt_view(*section);
    let mut i: usize = 0;
    while i < cells.len()
        invariant
            i <= cells@.len(),
            base == old(out)@.len(),
            out@.len() == base + found_sources(cells@.take(i as int), sec, row_key, *row_type).len(),
            forall|k: int| 0 <= k < base ==> #[trigger] out@[k] == old(out)@[k],
            forall|k: int|
                0 <= k < found_sources(cells@.take(i as int), sec, row_key, *row_type).len() ==> seeded(
                    #[trigger] out@[base + k],
                    shape_id,
                    found_sources(cells@.take(i as int), sec, row_key, *row_type)[k],
                ),
            row_key is None <==> row is None,
            row_key matches Some(k) ==> key_names_row(k, row.unwrap()),
            sec == opt_view(*section),
        decreases cells.len() - i,
    {
        proof {
            assert(cells@.take(i + 1).drop_last() =~= cells@.take(i as int));
            assert(cells@.take(i + 1).last() == cells@[i as int]);
        }
        match &cells[i].1 {
            Lookup::Found(rc) => {
                let name = &cells[i].0;
                let c = CellSnapshot {
                    locator: CellLocator {
                        sheet: CellSheet::Page(0),
                        shape_id: Some(shape_id),
                        section: copy_opt_string(section),
                        section_index: None,
                        row: copy_row(row),
                        cell_name: name.clone(),
                    },
                    name: name.clone(),
                    formula: copy_opt_string(&rc.cell.formula),
                    value: copy_opt_string(&rc.cell.value),
                    row_type: copy_opt_string(row_type),
                };
                let ghost before = out@;
                out.push(c);
                proof {
                    let src = found_sources(cells@.take(i + 1), sec, row_key, *row_type);
                    let prev = found_sources(cells@.take(i as int), sec, row_key, *row_type);
                    assert(src == prev.push((sec, row_key, *row_type, cells@[i as int].0@, rc.cell)));
                    assert forall|k: int| 0 <= k < src.len() implies seeded(
                        #[trigger] out@[base + k],
                        shape_id,
                        src[k],
                    ) by {
                        if k < prev.len() {
                            assert(out@[base + k] == before[base + k]);
                        }
                    }
                }
            },
            _ => {},
        }
        i = i + 1;
    }
    proof {
        assert(cells@.take(cells@.len() as int) =~= cells@);
    }
}

/// The row a resolved row key names, if it names one.
fn row_from_key(key: &str) -> (res: Option<CellRow>)
    ensures
        res is Some <==> key_is_row(key@),
        res matches Some(r) ==> key_names_row(key@, r),
{
    let n = key.unicode_len();
    if starts_with(key, "N:") {
        proof {
            reveal_strlit("N:");
        }
        return Some(CellRow::Name(owned(key.substring_char(2, n))));
    }
    proof {
        reveal_strlit("N:");
    }
    if starts_with(key, "IX:") {
        proof {
            reveal_strlit("IX:");
        }
        return match parse_u32(key.substring_char(3, n)) {
            Some(i) => Some(CellRow::Index(i)),
            None => None,
        };
    }
    proof {
        reveal_strlit("IX:");
    }
    None
}

/// The cell records a session seeds for an original shape at a nesting depth:
/// one for every found cell of the resolved shape, its own cells first and
/// then, section by section and row by row, those of each row whose key
/// names a row. A shape nested deeper than the limit is refused.
pub fn seed_cells(shape_id: u32, resolved: &ResolvedShape, depth: usize) -> (res: Result<
    Vec<CellSnapshot>,
    EditError,
>)
    ensures
        depth > MAX_SHAPE_NESTING ==> (res matches Err(EditError::InvalidState(m)) && m@
            == "shape nesting exceeds maximum depth"@),
        depth <= MAX_SHAPE_NESTING ==> (res matches Ok(v) && v@.len() == seed_sources(*resolved).len()
            && forall|k: int|
            0 <= k < v@.len() ==> seeded(#[trigger] v@[k], shape_id, seed_sources(*resolved)[k])),
{
    if depth > MAX_SHAPE_NESTING {
        return Err(EditError::InvalidState(owned("shape nesting exceeds maximum depth")));
    }
    let mut out: Vec<CellSnapshot> = Vec::new();
    push_found(&mut out, shape_id, &resolved.cells, &None, &None, &None, Ghost(None));
    let ghost top = found_sources(resolved.cells@, None, None, None);
    let sections = &resolved.sections;
    proof {
        assert(section_sources(sections@.take(0)) =~= Seq::<SeedSource>::empty());
        assert(top + section_sources(sections@.take(0)) =~= top);
        assert forall|k: int| 0 <= k < out@.len() implies seeded(
            #[trigger] out@[k],
            shape_id,
            (top + section_sources(sections@.take(0)))[k],
        ) by {
            assert(out@[0 + k] == out@[k]);
        }
    }
    let mut s: usize = 0;
    while s < sections.len()
        invariant
            s <= sections@.len(),
            sections == &resolved.sections,
            top == found_sources(resolved.cells@, None, None, None),
            out@.len() == top.len() + section_sources(sections@.take(s as int)).len(),
            forall|k: int|
                0 <= k < out@.len() ==> seeded(
                    #[trigger] out@[k],
                    shape_id,
                    (top + section_sources(sections@.take(s as int)))[k],
                ),
        decreases sections.len() - s,
    {
        let section = &sections[s];
        let name = Some(section.name.clone());
        let rows = &section.rows;
        let ghost done = top + section_sources(sections@.take(s as int));
        let mut r: usize = 0;
        while r < rows.len()
            invariant
                r <= rows@.len(),
                rows == &section.rows,
                opt_view(name) == Some(section.name@),
                out@.len() == done.len() + row_sources(section.name@, rows@.take(r as int)).len(),
                forall|k: int|
                    0 <= k < out@.len() ==> seeded(
                        #[trigger] out@[k],
                        shape_id,
                        (done + row_sources(section.name@, rows@.take(r as int)))[k],
                    ),
            decreases rows.len() - r,
        {
            let row = &rows[r];
            proof {
                assert(rows@.take(r + 1).drop_last() =~= rows@.take(r as int));
                assert(rows@.take(r + 1).last() == rows@[r as int]);
            }
            let ghost before = out@;
            let ghost prev = done + row_sources(section.name@, rows@.take(r as int));
            match row_from_key(row.key.as_str()) {
                Some(cell_row) => {
                    let located = Some(cell_row);
                    push_found(
                        &mut out,
                        shape_id,
                        &row.cells,
                        &name,
                        &located,
                        &row.row_type,
                        Ghost(Some(row.key@)),
                    );
                    proof {
                        let added = found_sources(row.cells@, Some(section.name@), Some(row.key@), row.row_type);
                        assert(done + row_sources(section.name@, rows@.take(r + 1)) =~= prev + added);
                        assert forall|k: int| 0 <= k < out@.len() implies seeded(
                            #[trigger] out@[k],
                            shape_id,
                            (prev + added)[k],
                        ) by {
                            if k < before.len() {
                                assert(out@[k] == before[k]);
                            } else {
                                assert(out@[before.len() + (k - before.len())] == out@[k]);
                            }
                        }
                    }
                },
                None => {
                    proof {
                        assert(done + row_sources(section.name@, rows@.take(r + 1)) =~= prev);
                    }
                },
            }
            r = r + 1;
        }
        proof {
            assert(rows@.take(rows@.len() as int) =~= rows@);
            assert(sections@.take(s + 1).drop_last() =~= sections@.take(s as int));
            assert(sections@.take(s + 1).last() == sections@[s as int]);
            assert(top + section_sources(sections@.take(s + 1)) =~= done + row_sources(
                section.name@,
                rows@,
            ));
        }
        s = s + 1;
    }
    proof {
        assert(sections@.take(sections@.len() as int) =~= sections@);
    }
    Ok(out)
}

/// The session key of a nested shape: its parent's key, `:shape:` and the
/// nested shape's ID.
pub fn child_key(parent: &str, child_id: u32) -> (res: String)
    ensures
        res@ == parent@ + ":shape:"@ + decimal(child_id as nat),
{
    let mut key = owned(parent);
    append(&mut key, ":shape:");
    let digits = decimal_string(child_id);
    append(&mut key, digits.as_str());
    key
}

} // verus!
