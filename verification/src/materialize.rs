//! Projecting a session snapshot back onto the parsed ShapeSheet model before
//! a save: each snapshot cell overwrites the cell it locates or is added
//! where it belongs, and each snapshot shape is rebuilt from its original or
//! from scratch.

use vstd::prelude::*;

use crate::edit_model::{CellSnapshot, EditError, PageSnapshot, ShapeSnapshot};
use crate::names::{contains_str, strs};
use crate::seqs::{find_last, first_index, lemma_find_first_index, lemma_find_first_skip, lemma_find_last_take};
use crate::sheet::{
    cell_named, copy_opt_string, shape_same, shape_with_id, Cell, CellLocator, CellRow, Row, Section,
    Shape, Sheet,
};
use crate::text::{owned, str_eq};

verus! {

/// An optional index, reading an absent one as zero.
pub open spec fn index_or_zero(x: Option<u32>) -> u32 {
    match x {
        Some(v) => v,
        None => 0,
    }
}

/// The section has the locator's section name and index (an absent index counting as zero).
pub open spec fn section_located(sec: Section, loc: CellLocator) -> bool {
    match loc.section {
        Some(n) => sec.name@ == n@ && index_or_zero(sec.index) == index_or_zero(loc.section_index),
        None => false,
    }
}

/// The row is the one a row designator names.
pub open spec fn row_designated(row: Row, designator: Option<CellRow>) -> bool {
    match designator {
        Some(CellRow::Index(i)) => row.index == Some(i),
        Some(CellRow::Name(n)) => match row.name {
            Some(x) => x@ == n@,
            None => false,
        },
        None => false,
    }
}

/// Matches a section that the locator names.
pub open spec fn located_section(loc: CellLocator) -> spec_fn(Section) -> bool {
    |sec: Section| section_located(sec, loc)
}

/// Matches a row that the designator names.
pub open spec fn designated_row(designator: Option<CellRow>) -> spec_fn(Row) -> bool {
    |row: Row| row_designated(row, designator)
}

/// Matches a named row that holds the locator's cell.
pub open spec fn row_holding(loc: CellLocator) -> spec_fn(Row) -> bool {
    |row: Row|
        row_designated(row, loc.row) && first_index(row.cells@, cell_named(loc.cell_name@))
            < row.cells@.len()
}

/// Matches a named section that holds the locator's cell in a named row.
pub open spec fn section_holding(loc: CellLocator) -> spec_fn(Section) -> bool {
    |sec: Section|
        section_located(sec, loc) && first_index(sec.rows@, row_holding(loc)) < sec.rows@.len()
}

/// `new` is `old` with the snapshot's formula and value.
pub open spec fn cell_rewritten(old: Cell, new: Cell, snap: CellSnapshot) -> bool {
    &&& new.name == old.name
    &&& new.unit == old.unit
    &&& new.del == old.del
    &&& new.formula == snap.formula
    &&& new.value == snap.value
}

/// `c` is the cell a snapshot cell becomes where none existed.
pub open spec fn fresh_cell(c: Cell, snap: CellSnapshot) -> bool {
    &&& c.name == snap.locator.cell_name
    &&& c.formula == snap.formula
    &&& c.value == snap.value
    &&& c.unit is None
    &&& !c.del
}

/// `r` is the row a snapshot cell becomes where its row did not exist.
pub open spec fn fresh_row(r: Row, snap: CellSnapshot) -> bool {
    &&& match snap.locator.row {
        Some(CellRow::Index(i)) => r.index == Some(i) && r.name is None,
        Some(CellRow::Name(n)) => r.index is None && r.name == Some(n),
        None => false,
    }
    &&& r.row_type == snap.row_type
    &&& !r.del
    &&& r.cells@.len() == 1
    &&& fresh_cell(r.cells@[0], snap)
}

/// `s` is the section a snapshot cell becomes where its section did not exist.
pub open spec fn fresh_section(s: Section, snap: CellSnapshot) -> bool {
    &&& s.name == snap.locator.section.unwrap()
    &&& s.index == snap.locator.section_index
    &&& !s.del
    &&& s.rows@.len() == 1
    &&& fresh_row(s.rows@[0], snap)
}

/// `new` is `old` with only position `k` possibly changed.
pub open spec fn same_except<T>(old: Seq<T>, new: Seq<T>, k: int) -> bool {
    &&& new.len() == old.len()
    &&& forall|i: int| 0 <= i < old.len() && i != k ==> new[i] == old[i]
}

/// `new` is `old` with one element appended.
pub open spec fn grown_by_one<T>(old: Seq<T>, new: Seq<T>) -> bool {
    new.len() == old.len() + 1 && new.take(old.len() as int) == old
}

/// The row keeps its designator, type and deletion mark.
pub open spec fn row_header_kept(old: Row, new: Row) -> bool {
    new.index == old.index && new.name == old.name && new.row_type == old.row_type && new.del
        == old.del
}

/// The section keeps its name, index and deletion mark.
pub open spec fn section_header_kept(old: Section, new: Section) -> bool {
    new.name == old.name && new.index == old.index && new.del == old.del
}

/// The shape keeps everything but its cells and sections.
pub open spec fn shape_header_kept(old: Shape, new: Shape) -> bool {
    &&& new.id == old.id
    &&& new.name == old.name
    &&& new.master == old.master
    &&& new.master_shape == old.master_shape
    &&& new.line_style == old.line_style
    &&& new.fill_style == old.fill_style
    &&& new.text_style == old.text_style
    &&& new.del == old.del
    &&& new.shapes == old.shapes
    &&& new.text == old.text
}

/// What writing a snapshot cell does to a shape. A shape-level cell
/// overwrites the first cell of its name, or is appended. A section cell
/// overwrites the first cell of its name in the first named row, of a named
/// section, that holds one; failing that, it is appended to the first row
/// its designator names in the first section of its name and index, or as a
/// new row of that section, or as a new section; a section cell without a row
/// designator changes nothing.
pub open spec fn cell_materialized(old: Shape, new: Shape, snap: CellSnapshot) -> bool {
    let loc = snap.locator;
    &&& shape_header_kept(old, new)
    &&& match loc.section {
        None => {
            let k = first_index(old.cells@, cell_named(loc.cell_name@));
            &&& new.sections@ == old.sections@
            &&& if k < old.cells@.len() {
                same_except(old.cells@, new.cells@, k) && cell_rewritten(
                    old.cells@[k],
                    new.cells@[k],
                    snap,
                )
            } else {
                grown_by_one(old.cells@, new.cells@) && fresh_cell(new.cells@.last(), snap)
            }
        },
        Some(_) => {
            let s = first_index(old.sections@, section_holding(loc));
            &&& new.cells@ == old.cells@
            &&& if s < old.sections@.len() {
                let sec = old.sections@[s];
                let r = first_index(sec.rows@, row_holding(loc));
                let row = sec.rows@[r];
                let c = first_index(row.cells@, cell_named(loc.cell_name@));
                &&& same_except(old.sections@, new.sections@, s)
                &&& section_header_kept(sec, new.sections@[s])
                &&& same_except(sec.rows@, new.sections@[s].rows@, r)
                &&& row_header_kept(row, new.sections@[s].rows@[r])
                &&& same_except(row.cells@, new.sections@[s].rows@[r].cells@, c)
                &&& cell_rewritten(row.cells@[c], new.sections@[s].rows@[r].cells@[c], snap)
            } else if loc.row is None {
                new.sections@ == old.sections@
            } else {
                let s0 = first_index(old.sections@, located_section(loc));
                if s0 < old.sections@.len() {
                    let sec = old.sections@[s0];
                    let r0 = first_index(sec.rows@, designated_row(loc.row));
                    let nsec = new.sections@[s0];
                    &&& same_except(old.sections@, new.sections@, s0)
                    &&& section_header_kept(sec, nsec)
                    &&& if r0 < sec.rows@.len() {
                        &&& same_except(sec.rows@, nsec.rows@, r0)
                        &&& row_header_kept(sec.rows@[r0], nsec.rows@[r0])
                        &&& grown_by_one(sec.rows@[r0].cells@, nsec.rows@[r0].cells@)
                        &&& fresh_cell(nsec.rows@[r0].cells@.last(), snap)
                    } else {
                        grown_by_one(sec.rows@, nsec.rows@) && fresh_row(nsec.rows@.last(), snap)
                    }
                } else {
                    grown_by_one(old.sections@, new.sections@) && fresh_section(
                        new.sections@.last(),
                        snap,
                    )
                }
            }
        },
    }
}

/// Writing a snapshot cell leaves every section that the cell's locator does
/// not name exactly as it was, in its place: a section is named only when
/// both its name and its index match the locator's section name and section
/// index, an absent index on either side reading as zero.
pub proof fn lemma_other_sections_untouched(old: Shape, new: Shape, snap: CellSnapshot)
    requires
        cell_materialized(old, new, snap),
    ensures
        new.sections@.len() >= old.sections@.len(),
        forall|k: int|
            0 <= k < old.sections@.len() && !(snap.locator.section matches Some(n)
                && (#[trigger] old.sections@[k]).name@ == n@ && (match old.sections@[k].index {
                Some(v) => v,
                None => 0u32,
            }) == (match snap.locator.section_index {
                Some(v) => v,
                None => 0u32,
            })) ==> new.sections@[k] == old.sections@[k],
{
    let loc = snap.locator;
    if loc.section is Some {
        let s = first_index(old.sections@, section_holding(loc));
        lemma_find_first_index(old.sections@, section_holding(loc));
        if s < old.sections@.len() {
            assert(section_holding(loc)(old.sections@[s]));
        } else if loc.row is Some {
            let s0 = first_index(old.sections@, located_section(loc));
            lemma_find_first_index(old.sections@, located_section(loc));
            if s0 < old.sections@.len() {
                assert(located_section(loc)(old.sections@[s0]));
            } else {
                assert forall|k: int| 0 <= k < old.sections@.len() implies new.sections@[k]
                    == old.sections@[k] by {
                    assert(new.sections@.take(old.sections@.len() as int)[k] == new.sections@[k]);
                }
            }
        }
    }
}

fn cell_position(cells: &Vec<Cell>, name: &str) -> (res: usize)
    ensures
        res == first_index(cells@, cell_named(name@)),
        res <= cells@.len(),
{
    let ghost p = cell_named(name@);
    proof {
        lemma_find_first_index(cells@, p);
    }
    let mut i: usize = 0;
    while i < cells.len()
        invariant
            i <= cells@.len(),
            p == cell_named(name@),
            forall|j: int| 0 <= j < i ==> !p(#[trigger] cells@[j]),
        decreases cells.len() - i,
    {
        if str_eq(cells[i].name.as_str(), name) {
            proof {
                lemma_find_first_skip(cells@, p, i as int);
                assert(p(cells@.skip(i as int)[0]));
            }
            return i;
        }
        i = i + 1;
    }
    proof {
        lemma_find_first_skip(cells@, p, i as int);
        assert(cells@.skip(i as int) =~= Seq::<Cell>::empty());
    }
    i
}

fn is_row_designated(row: &Row, designator: &Option<CellRow>) -> (res: bool)
    ensures
        res == row_designated(*row, *designator),
{
    match designator {
        Some(CellRow::Index(i)) => row.index == Some(*i),
        Some(CellRow::Name(n)) => match &row.name {
            Some(x) => str_eq(x.as_str(), n.as_str()),
            None => false,
        },
        None => false,
    }
}

fn is_section_located(sec: &Section, loc: &CellLocator) -> (res: bool)
    ensures
        res == section_located(*sec, *loc),
{
    match &loc.section {
        Some(n) => {
            let a = match sec.index {
                Some(v) => v,
                None => 0,
            };
            let b = match loc.section_index {
                Some(v) => v,
                None => 0,
            };
            str_eq(sec.name.as_str(), n.as_str()) && a == b
        },
        None => false,
    }
}

fn row_position(rows: &Vec<Row>, loc: &CellLocator, holding: bool) -> (res: usize)
    ensures
        res <= rows@.len(),
        holding ==> res == first_index(rows@, row_holding(*loc)),
        !holding ==> res == first_index(rows@, designated_row(loc.row)),
{
    let ghost p = if holding {
        row_holding(*loc)
    } else {
        designated_row(loc.row)
    };
    proof {
        lemma_find_first_index(rows@, p);
    }
    let mut i: usize = 0;
    while i < rows.len()
        invariant
            i <= rows@.len(),
            p == if holding {
                row_holding(*loc)
            } else {
                designated_row(loc.row)
            },
            forall|j: int| 0 <= j < i ==> !p(#[trigger] rows@[j]),
        decreases rows.len() - i,
    {
        let row = &rows[i];
        let hit = if is_row_designated(row, &loc.row) {
            if holding {
                cell_position(&row.cells, loc.cell_name.as_str()) < row.cells.len()
            } else {
                true
            }
        } else {
            false
        };
        if hit {
            proof {
                lemma_find_first_skip(rows@, p, i as int);
                assert(p(rows@.skip(i as int)[0]));
            }
            return i;
        }
        i = i + 1;
    }
    proof {
        lemma_find_first_skip(rows@, p, i as int);
        assert(rows@.skip(i as int) =~= Seq::<Row>::empty());
    }
    i
}

fn section_position(sections: &Vec<Section>, loc: &CellLocator, holding: bool) -> (res: usize)
    ensures
        res <= sections@.len(),
        holding ==> res == first_index(sections@, section_holding(*loc)),
        !holding ==> res == first_index(sections@, located_section(*loc)),
{
    let ghost p = if holding {
        section_holding(*loc)
    } else {
        located_section(*loc)
    };
    proof {
        lemma_find_first_index(sections@, p);
    }
    let mut i: usize = 0;
    while i < sections.len()
        invariant
            i <= sections@.len(),
            p == if holding {
                section_holding(*loc)
            } else {
                located_section(*loc)
            },
            forall|j: int| 0 <= j < i ==> !p(#[trigger] sections@[j]),
        decreases sections.len() - i,
    {
        let sec = &sections[i];
        let hit = if is_section_located(sec, loc) {
            if holding {
                row_position(&sec.rows, loc, true) < sec.rows.len()
            } else {
                true
            }
        } else {
            false
        };
        if hit {
            proof {
                lemma_find_first_skip(sections@, p, i as int);
                assert(p(sections@.skip(i as int)[0]));
            }
            return i;
        }
        i = i + 1;
    }
    proof {
        lemma_find_first_skip(sections@, p, i as int);
        assert(sections@.skip(i as int) =~= Seq::<Section>::empty());
    }
    i
}

fn new_cell(snapshot: &CellSnapshot) -> (res: Cell)
    ensures
        fresh_cell(res, *snapshot),
{
    Cell {
        name: snapshot.locator.cell_name.clone(),
        formula: copy_opt_string(&snapshot.formula),
        value: copy_opt_string(&snapshot.value),
        unit: None,
        del: false,
    }
}

fn new_row(snapshot: &CellSnapshot, row: &CellRow) -> (res: Row)
    requires
        snapshot.locator.row == Some(*row),
    ensures
        fresh_row(res, *snapshot),
{
    let mut cells: Vec<Cell> = Vec::new();
    cells.push(new_cell(snapshot));
    Row {
        index: match row {
            CellRow::Index(i) => Some(*i),
            CellRow::Name(_) => None,
        },
        name: match row {
            CellRow::Index(_) => None,
            CellRow::Name(n) => Some(n.clone()),
        },
        row_type: copy_opt_string(&snapshot.row_type),
        del: false,
        cells,
    }
}

/// Writes one snapshot cell into the parsed shape it belongs to.
pub fn materialize_cell(shape: &mut Shape, snapshot: &CellSnapshot)
    ensures
        cell_materialized(*old(shape), *final(shape), *snapshot),
        forall|k: int|
            0 <= k < old(shape).sections@.len() && !(snapshot.locator.section matches Some(n)
                && (#[trigger] old(shape).sections@[k]).name@ == n@ && (match old(shape).sections@[k].index {
                Some(v) => v,
                None => 0u32,
            }) == (match snapshot.locator.section_index {
                Some(v) => v,
                None => 0u32,
            })) ==> final(shape).sections@[k] == old(shape).sections@[k],
{
    let loc = &snapshot.locator;
    match &loc.section {
        None => {
            let k = cell_position(&shape.cells, loc.cell_name.as_str());
            if k < shape.cells.len() {
                let ghost before = shape.cells@;
                let mut cell = shape.cells.remove(k);
                cell.formula = copy_opt_string(&snapshot.formula);
                cell.value = copy_opt_string(&snapshot.value);
                shape.cells.insert(k, cell);
                assert(shape.cells@ =~= before.update(k as int, cell));
            } else {
                let ghost before = shape.cells@;
                shape.cells.push(new_cell(snapshot));
                assert(shape.cells@.take(before.len() as int) =~= before);
            }
        },
        Some(section_name) => {
            let s = section_position(&shape.sections, loc, true);
            if s < shape.sections.len() {
                let ghost before = shape.sections@;
                let ghost old_sec = before[s as int];
                let mut sec = shape.sections.remove(s);
                let r = row_position(&sec.rows, loc, true);
                proof {
                    lemma_find_first_index(old_sec.rows@, row_holding(*loc));
                    lemma_find_first_index(before, section_holding(*loc));
                    assert(section_holding(*loc)(old_sec));
                }
                let ghost old_rows = sec.rows@;
                let mut row = sec.rows.remove(r);
                let ghost old_row = row;
                let c = cell_position(&row.cells, loc.cell_name.as_str());
                proof {
                    assert(row_holding(*loc)(old_row));
                }
                let ghost old_cells = row.cells@;
                let mut cell = row.cells.remove(c);
                cell.formula = copy_opt_string(&snapshot.formula);
                cell.value = copy_opt_string(&snapshot.value);
                row.cells.insert(c, cell);
                assert(row.cells@ =~= old_cells.update(c as int, cell));
                sec.rows.insert(r, row);
                assert(sec.rows@ =~= old_rows.update(r as int, row));
                shape.sections.insert(s, sec);
                assert(shape.sections@ =~= before.update(s as int, sec));
            } else {
                match &loc.row {
                    None => {},
                    Some(designator) => {
                        let s0 = section_position(&shape.sections, loc, false);
                        if s0 < shape.sections.len() {
                            let ghost before = shape.sections@;
                            let mut sec = shape.sections.remove(s0);
                            let r0 = row_position(&sec.rows, loc, false);
                            if r0 < sec.rows.len() {
                                let ghost old_rows = sec.rows@;
                                let mut row = sec.rows.remove(r0);
                                let ghost old_cells = row.cells@;
                                row.cells.push(new_cell(snapshot));
                                assert(row.cells@.take(old_cells.len() as int) =~= old_cells);
                                sec.rows.insert(r0, row);
                                assert(sec.rows@ =~= old_rows.update(r0 as int, row));
                            } else {
                                let ghost old_rows = sec.rows@;
                                sec.rows.push(new_row(snapshot, designator));
                                assert(sec.rows@.take(old_rows.len() as int) =~= old_rows);
                            }
                            shape.sections.insert(s0, sec);
                            assert(shape.sections@ =~= before.update(s0 as int, sec));
                        } else {
                            let ghost before = shape.sections@;
                            let mut rows: Vec<Row> = Vec::new();
                            rows.push(new_row(snapshot, designator));
                            shape.sections.push(
                                Section {
                                    name: section_name.clone(),
                                    index: loc.section_index,
                                    del: false,
                                    rows,
                                },
                            );
                            assert(shape.sections@.take(before.len() as int) =~= before);
                        }
                    },
                }
            }
        },
    }
    proof {
        lemma_other_sections_untouched(*old(shape), *shape, *snapshot);
    }
}


/// The deepest nesting of snapshot shapes that a save rebuilds.
pub const MAX_SHAPE_NESTING: usize = 256;

/// `trace` records writing the snapshot cells `snaps` into `old` in turn:
/// it starts at `old`, and each step writes the next cell.
pub open spec fn cells_written(old: Shape, snaps: Seq<CellSnapshot>, trace: Seq<Shape>) -> bool {
    &&& trace.len() == snaps.len() + 1
    &&& trace[0] == old
    &&& forall|i: int|
        #![trigger snaps[i]]
        0 <= i < snaps.len() ==> cell_materialized(trace[i], trace[i + 1], snaps[i])
}

/// `s` is the bare shape a snapshot shape becomes when it has no original:
/// its ID and name, and nothing else.
pub open spec fn fresh_shape(s: Shape, snap: ShapeSnapshot) -> bool {
    &&& s.id == snap.source_id
    &&& s.name == snap.name
    &&& s.master is None
    &&& s.master_shape is None
    &&& s.line_style is None
    &&& s.fill_style is None
    &&& s.text_style is None
    &&& !s.del
    &&& s.cells@.len() == 0
    &&& s.sections@.len() == 0
    &&& s.shapes@.len() == 0
    &&& s.text is None
}

/// A snapshot shape's subtree, entered at nesting `depth`, stays within the nesting limit.
pub open spec fn nesting_ok(snap: ShapeSnapshot, depth: int) -> bool
    decreases snap,
{
    &&& depth <= MAX_SHAPE_NESTING
    &&& forall|i: int|
        0 <= i < snap.children@.len() ==> nesting_ok(#[trigger] snap.children@[i], depth + 1)
}

/// The shape a snapshot child is rebuilt from: a copy of the last original
/// child with its source ID when the snapshot names an original shape and one
/// exists, else a bare shape.
pub open spec fn child_base(
    originals: Seq<Shape>,
    snap: ShapeSnapshot,
    ids: Seq<Seq<char>>,
    base: Shape,
) -> bool {
    if ids.contains(snap.id@) && find_last(originals, shape_with_id(snap.source_id)) is Some {
        shape_same(find_last(originals, shape_with_id(snap.source_id)).unwrap(), base)
    } else {
        fresh_shape(base, snap)
    }
}

/// How a shape was rebuilt from its snapshot: the shape after each written
/// cell in turn, the shape each child was rebuilt from, and how each child
/// was rebuilt.
pub struct RebuildTrace {
    pub trace: Seq<Shape>,
    pub bases: Seq<Shape>,
    pub kids: Seq<RebuildTrace>,
}

/// `new` is `old` rebuilt from a snapshot shape, as `w` records it: the
/// snapshot's cells written in turn, then the nested shapes replaced by the
/// rebuilt children, in order, each from its base; everything else is as the
/// cells left it.
pub open spec fn rebuilt(
    old: Shape,
    new: Shape,
    snap: ShapeSnapshot,
    ids: Seq<Seq<char>>,
    w: RebuildTrace,
) -> bool
    decreases snap,
{
    let mid = w.trace.last();
    &&& cells_written(old, snap.cells@, w.trace)
    &&& new.id == mid.id
    &&& new.name == mid.name
    &&& new.master == mid.master
    &&& new.master_shape == mid.master_shape
    &&& new.line_style == mid.line_style
    &&& new.fill_style == mid.fill_style
    &&& new.text_style == mid.text_style
    &&& new.del == mid.del
    &&& new.text == mid.text
    &&& new.cells@ == mid.cells@
    &&& new.sections@ == mid.sections@
    &&& new.shapes@.len() == snap.children@.len()
    &&& w.bases.len() == snap.children@.len()
    &&& w.kids.len() == snap.children@.len()
    &&& forall|i: int|
        #![trigger snap.children@[i]]
        0 <= i < snap.children@.len() ==> child_base(mid.shapes@, snap.children@[i], ids, w.bases[i])
            && rebuilt(w.bases[i], new.shapes@[i], snap.children@[i], ids, w.kids[i])
}

/// `new` is `old` rebuilt from a snapshot shape: the snapshot's cells written
/// in turn, then its children rebuilt in order, each from its base, in place
/// of the old nested shapes. `ids` are the session keys of original shapes.
pub open spec fn shape_materialized(
    old: Shape,
    new: Shape,
    snap: ShapeSnapshot,
    ids: Seq<Seq<char>>,
) -> bool {
    exists|w: RebuildTrace| #[trigger] rebuilt(old, new, snap, ids, w)
}

/// The first `n` rebuilt children: each from its base, as the snapshot child says.
pub open spec fn children_rebuilt(
    originals: Seq<Shape>,
    kids: Seq<ShapeSnapshot>,
    ids: Seq<Seq<char>>,
    bases: Seq<Shape>,
    ws: Seq<RebuildTrace>,
    children: Seq<Shape>,
    n: int,
) -> bool {
    &&& children.len() == n
    &&& bases.len() == n
    &&& ws.len() == n
    &&& forall|j: int|
        #![trigger kids[j]]
        0 <= j < n ==> child_base(originals, kids[j], ids, bases[j]) && rebuilt(
            bases[j],
            children[j],
            kids[j],
            ids,
            ws[j],
        )
}

proof fn lemma_children_step(
    originals: Seq<Shape>,
    kids: Seq<ShapeSnapshot>,
    ids: Seq<Seq<char>>,
    bases: Seq<Shape>,
    ws: Seq<RebuildTrace>,
    children: Seq<Shape>,
    n: int,
    base: Shape,
    w: RebuildTrace,
    child: Shape,
)
    requires
        0 <= n < kids.len(),
        children_rebuilt(originals, kids, ids, bases, ws, children, n),
        child_base(originals, kids[n], ids, base),
        rebuilt(base, child, kids[n], ids, w),
    ensures
        children_rebuilt(
            originals,
            kids,
            ids,
            bases.push(base),
            ws.push(w),
            children.push(child),
            n + 1,
        ),
{
    let nb = bases.push(base);
    let nw = ws.push(w);
    let nc = children.push(child);
    assert forall|j: int| #![trigger kids[j]] 0 <= j < n + 1 implies child_base(
        originals,
        kids[j],
        ids,
        nb[j],
    ) && rebuilt(nb[j], nc[j], kids[j], ids, nw[j]) by {
        if j < n {
            assert(nc[j] == children[j]);
            assert(nb[j] == bases[j]);
            assert(nw[j] == ws[j]);
        }
    }
}

/// The bare shape a snapshot shape becomes when it has no original.
pub fn shape_from_snapshot(snapshot: &ShapeSnapshot) -> (res: Shape)
    ensures
        fresh_shape(res, *snapshot),
{
    Shape {
        id: snapshot.source_id,
        name: copy_opt_string(&snapshot.name),
        master: None,
        master_shape: None,
        line_style: None,
        fill_style: None,
        text_style: None,
        del: false,
        cells: Vec::new(),
        sections: Vec::new(),
        shapes: Vec::new(),
        text: None,
    }
}

fn last_with_id<'a>(shapes: &'a Vec<Shape>, id: u32) -> (res: Option<&'a Shape>)
    ensures
        match res {
            Some(s) => find_last(shapes@, shape_with_id(id)) == Some(*s),
            None => find_last(shapes@, shape_with_id(id)) is None,
        },
{
    let ghost p = shape_with_id(id);
    let mut i: usize = shapes.len();
    while i > 0
        invariant
            i <= shapes@.len(),
            p == shape_with_id(id),
            forall|j: int| i <= j < shapes@.len() ==> !p(#[trigger] shapes@[j]),
        decreases i,
    {
        if shapes[i - 1].id == id {
            proof {
                lemma_find_last_take(shapes@, p, i as int);
                assert(shapes@.take(i as int).last() == shapes@[i - 1]);
            }
            return Some(&shapes[i - 1]);
        }
        i = i - 1;
    }
    proof {
        lemma_find_last_take(shapes@, p, 0);
        assert(shapes@.take(0).len() == 0);
    }
    None
}

/// The shape a snapshot child is rebuilt from.
fn base_for(originals: &Vec<Shape>, snapshot: &ShapeSnapshot, ids: &Vec<String>) -> (res: Shape)
    ensures
        child_base(originals@, *snapshot, strs(ids@), res),
{
    if contains_str(ids, snapshot.id.as_str()) {
        match last_with_id(originals, snapshot.source_id) {
            Some(original) => original.copy(),
            None => shape_from_snapshot(snapshot),
        }
    } else {
        shape_from_snapshot(snapshot)
    }
}

fn nesting_error() -> (res: Result<(), EditError>)
    ensures
        res matches Err(EditError::InvalidState(m)) && m@ == "shape nesting exceeds maximum depth"@,
{
    Err(EditError::InvalidState(owned("shape nesting exceeds maximum depth")))
}

/// Rebuilds a shape from its snapshot, entered at nesting `depth`: writes the
/// snapshot's cells, then rebuilds each snapshot child from its base and
/// makes those the shape's nested shapes. Refused when the snapshot nests
/// deeper than the limit.
pub fn materialize_shape(
    shape: &mut Shape,
    snapshot: &ShapeSnapshot,
    original_shape_ids: &Vec<String>,
    depth: usize,
) -> (res: Result<(), EditError>)
    ensures
        res is Ok <==> nesting_ok(*snapshot, depth as int),
        res is Ok ==> shape_materialized(
            *old(shape),
            *final(shape),
            *snapshot,
            strs(original_shape_ids@),
        ),
        res matches Err(e) ==> (e matches EditError::InvalidState(m) && m@
            == "shape nesting exceeds maximum depth"@),
        res is Err && depth > MAX_SHAPE_NESTING ==> *final(shape) == *old(shape),
        res is Err && depth <= MAX_SHAPE_NESTING ==> exists|trace: Seq<Shape>|
            #[trigger] cells_written(*old(shape), snapshot.cells@, trace) && trace.last()
                == *final(shape),
    decreases snapshot,
{
    if depth > MAX_SHAPE_NESTING {
        return nesting_error();
    }
    let ghost start = *shape;
    let ghost ids = strs(original_shape_ids@);
    let cells = &snapshot.cells;
    let ghost mut trace: Seq<Shape> = seq![start];
    let mut k: usize = 0;
    while k < cells.len()
        invariant
            k <= cells@.len(),
            cells == &snapshot.cells,
            trace.len() == k + 1,
            trace[0] == start,
            trace[k as int] == *shape,
            forall|t: int|
                #![trigger cells@[t]]
                0 <= t < k ==> cell_materialized(trace[t], trace[t + 1], cells@[t]),
        decreases cells.len() - k,
    {
        materialize_cell(shape, &cells[k]);
        proof {
            let old_trace = trace;
            trace = trace.push(*shape);
            assert forall|t: int|
                #![trigger cells@[t]]
                0 <= t < k + 1 implies cell_materialized(trace[t], trace[t + 1], cells@[t]) by {
                if t < k {
                    assert(trace[t] == old_trace[t] && trace[t + 1] == old_trace[t + 1]);
                }
            }
        }
        k = k + 1;
    }
    assert(cells_written(start, snapshot.cells@, trace));
    let ghost mid = *shape;
    assert(trace.last() == mid);
    let kids = &snapshot.children;
    let ghost mut bases: Seq<Shape> = Seq::empty();
    let ghost mut ws: Seq<RebuildTrace> = Seq::empty();
    let mut children: Vec<Shape> = Vec::new();
    let mut i: usize = 0;
    while i < kids.len()
        invariant
            i <= kids@.len(),
            kids == &snapshot.children,
            depth <= MAX_SHAPE_NESTING,
            *shape == mid,
            start == *old(shape),
            cells_written(start, snapshot.cells@, trace),
            trace.last() == mid,
            ids == strs(original_shape_ids@),
            forall|j: int| 0 <= j < i ==> nesting_ok(#[trigger] kids@[j], depth + 1),
            children_rebuilt(mid.shapes@, kids@, ids, bases, ws, children@, i as int),
        decreases kids.len() - i,
    {
        let child_snapshot = &kids[i];
        let mut child = base_for(&shape.shapes, child_snapshot, original_shape_ids);
        let ghost base = child;
        proof {
            assert(decreases_to!(*snapshot => snapshot.children@[i as int]));
        }
        match materialize_shape(&mut child, child_snapshot, original_shape_ids, depth + 1) {
            Ok(()) => {},
            Err(e) => {
                proof {
                    assert(!nesting_ok(kids@[i as int], depth + 1));
                }
                return Err(e);
            },
        }
        let ghost w = choose|w: RebuildTrace| rebuilt(base, child, kids@[i as int], ids, w);
        let ghost old_children = children@;
        children.push(child);
        proof {
            lemma_children_step(mid.shapes@, kids@, ids, bases, ws, old_children, i as int, base, w, child);
            bases = bases.push(base);
            ws = ws.push(w);
        }
        i = i + 1;
    }
    shape.shapes = children;
    proof {
        let w = RebuildTrace { trace, bases, kids: ws };
        assert(rebuilt(start, *shape, *snapshot, ids, w));
    }
    Ok(())
}

/// `new` holds the snapshot shapes `kids` rebuilt in order, each from its
/// base among `originals`.
pub open spec fn shapes_rebuilt(
    originals: Seq<Shape>,
    kids: Seq<ShapeSnapshot>,
    ids: Seq<Seq<char>>,
    new: Seq<Shape>,
) -> bool {
    exists|bases: Seq<Shape>, ws: Seq<RebuildTrace>|
        #[trigger] children_rebuilt(originals, kids, ids, bases, ws, new, kids.len() as int)
}

/// Every top-level snapshot shape of a page, entered at nesting one, stays
/// within the nesting limit.
pub open spec fn page_nesting_ok(page: PageSnapshot) -> bool {
    forall|i: int| 0 <= i < page.shapes@.len() ==> nesting_ok(#[trigger] page.shapes@[i], 1)
}

/// Replaces a page's shapes by its snapshot shapes, each rebuilt from the
/// last top-level original with its source ID (when the snapshot names an
/// original shape) or from scratch. Refused, leaving the page as it was, when
/// a snapshot shape nests deeper than the limit.
pub fn materialize_page_shapes(
    sheet: &mut Sheet,
    page: &PageSnapshot,
    original_shape_ids: &Vec<String>,
) -> (res: Result<(), EditError>)
    ensures
        res is Ok <==> page_nesting_ok(*page),
        res is Ok ==> {
            &&& shapes_rebuilt(old(sheet).shapes@, page.shapes@, strs(original_shape_ids@), final(sheet).shapes@)
            &&& final(sheet).id == old(sheet).id
            &&& final(sheet).cells@ == old(sheet).cells@
            &&& final(sheet).sections@ == old(sheet).sections@
            &&& final(sheet).connects@ == old(sheet).connects@
            &&& final(sheet).other_attrs@ == old(sheet).other_attrs@
        },
        res is Err ==> *final(sheet) == *old(sheet),
        res matches Err(e) ==> (e matches EditError::InvalidState(m) && m@
            == "shape nesting exceeds maximum depth"@),
{
    let ghost ids = strs(original_shape_ids@);
    let ghost originals = sheet.shapes@;
    let kids = &page.shapes;
    let ghost mut bases: Seq<Shape> = Seq::empty();
    let ghost mut ws: Seq<RebuildTrace> = Seq::empty();
    let mut shapes: Vec<Shape> = Vec::new();
    let mut i: usize = 0;
    while i < kids.len()
        invariant
            i <= kids@.len(),
            kids == &page.shapes,
            originals == sheet.shapes@,
            ids == strs(original_shape_ids@),
            forall|j: int| 0 <= j < i ==> nesting_ok(#[trigger] kids@[j], 1),
            children_rebuilt(originals, kids@, ids, bases, ws, shapes@, i as int),
        decreases kids.len() - i,
    {
        let snapshot = &kids[i];
        let mut shape = base_for(&sheet.shapes, snapshot, original_shape_ids);
        let ghost base = shape;
        match materialize_shape(&mut shape, snapshot, original_shape_ids, 1) {
            Ok(()) => {},
            Err(e) => {
                proof {
                    assert(!nesting_ok(kids@[i as int], 1));
                }
                return Err(e);
            },
        }
        let ghost w = choose|w: RebuildTrace| rebuilt(base, shape, kids@[i as int], ids, w);
        let ghost old_shapes = shapes@;
        shapes.push(shape);
        proof {
            lemma_children_step(originals, kids@, ids, bases, ws, old_shapes, i as int, base, w, shape);
            bases = bases.push(base);
            ws = ws.push(w);
        }
        i = i + 1;
    }
    sheet.shapes = shapes;
    Ok(())
}

/// A shape tree mirrors a snapshot shape's IDs: the shape has the
/// snapshot's source ID, and its nested shapes mirror the snapshot's
/// children, one for one and in order.
pub open spec fn mirrors_ids(shape: Shape, snap: ShapeSnapshot) -> bool
    decreases snap,
{
    &&& shape.id == snap.source_id
    &&& shape.shapes@.len() == snap.children@.len()
    &&& forall|i: int|
        0 <= i < snap.children@.len() ==> mirrors_ids(shape.shapes@[i], #[trigger] snap.children@[i])
}

proof fn lemma_find_last_holds(s: Seq<Shape>, p: spec_fn(Shape) -> bool)
    requires
        find_last(s, p) is Some,
    ensures
        p(find_last(s, p).unwrap()),
    decreases s.len(),
{
    if !p(s.last()) {
        lemma_find_last_holds(s.drop_last(), p);
    }
}

proof fn lemma_cells_keep_id(old: Shape, snaps: Seq<CellSnapshot>, trace: Seq<Shape>, k: int)
    requires
        cells_written(old, snaps, trace),
        0 <= k <= snaps.len(),
    ensures
        trace[k].id == old.id,
    decreases k,
{
    if k > 0 {
        lemma_cells_keep_id(old, snaps, trace, k - 1);
        assert(cell_materialized(trace[k - 1], trace[k], snaps[k - 1]));
    }
}

/// A shape rebuilt from a snapshot, starting from a shape with the
/// snapshot's source ID, mirrors the snapshot's IDs at every depth.
pub proof fn lemma_rebuilt_mirrors_snapshot(
    old: Shape,
    new: Shape,
    snap: ShapeSnapshot,
    ids: Seq<Seq<char>>,
    w: RebuildTrace,
)
    requires
        rebuilt(old, new, snap, ids, w),
        old.id == snap.source_id,
    ensures
        mirrors_ids(new, snap),
    decreases snap,
{
    let mid = w.trace.last();
    lemma_cells_keep_id(old, snap.cells@, w.trace, snap.cells@.len() as int);
    assert(w.trace.last() == w.trace[snap.cells@.len() as int]);
    assert forall|i: int| 0 <= i < snap.children@.len() implies mirrors_ids(
        new.shapes@[i],
        #[trigger] snap.children@[i],
    ) by {
        let kid = snap.children@[i];
        assert(child_base(mid.shapes@, kid, ids, w.bases[i]));
        if ids.contains(kid.id@) && find_last(mid.shapes@, shape_with_id(kid.source_id)) is Some {
            lemma_find_last_holds(mid.shapes@, shape_with_id(kid.source_id));
        }
        assert(w.bases[i].id == kid.source_id);
        assert(decreases_to!(snap => snap.children@[i]));
        lemma_rebuilt_mirrors_snapshot(w.bases[i], new.shapes@[i], kid, ids, w.kids[i]);
    }
}

/// The shapes a page is rebuilt with mirror the snapshot page's shapes: one
/// for each, in order, with the same source IDs at every depth.
pub proof fn lemma_page_mirrors_snapshot(
    originals: Seq<Shape>,
    kids: Seq<ShapeSnapshot>,
    ids: Seq<Seq<char>>,
    new: Seq<Shape>,
)
    requires
        shapes_rebuilt(originals, kids, ids, new),
    ensures
        new.len() == kids.len(),
        forall|i: int| 0 <= i < kids.len() ==> mirrors_ids(new[i], #[trigger] kids[i]),
{
    let (bases, ws) = choose|bases: Seq<Shape>, ws: Seq<RebuildTrace>|
        #[trigger] children_rebuilt(originals, kids, ids, bases, ws, new, kids.len() as int);
    assert forall|i: int| 0 <= i < kids.len() implies mirrors_ids(new[i], #[trigger] kids[i]) by {
        let kid = kids[i];
        assert(child_base(originals, kid, ids, bases[i]));
        if ids.contains(kid.id@) && find_last(originals, shape_with_id(kid.source_id)) is Some {
            lemma_find_last_holds(originals, shape_with_id(kid.source_id));
        }
        lemma_rebuilt_mirrors_snapshot(bases[i], new[i], kid, ids, ws[i]);
    }
}

} // verus!
