//! Inheritance resolution: which layer supplies each effective cell of a
//! shape — the shape itself, its master chain, its line, fill and text
//! style chains, the page, the document, or caller-supplied defaults.

use vstd::prelude::*;
use vstd::set_lib::{lemma_int_range, lemma_len_subset, set_int_range};

use crate::package::{path_for, sheet_at, spec_path_for, spec_sheet_at, VsdxPackage};
use crate::resolve_model::{found, spec_found, Lookup, Provenance, ResolveError, ResolvedCell};
use crate::seqs::{
    find_first, find_last, first_index, lemma_find_first_index, lemma_find_first_skip,
    lemma_find_first_some, lemma_find_last_take,
};
use crate::sheet::{cell_named, find_cell, shape_with_id, Cell, Shape, Sheet};
use crate::text::{append, decimal, decimal_string, owned, parse_u32, spec_parse_u32, str_eq};
use crate::tree::{find_in_forest, flatten};

verus! {

/// The longest master chain a shape may have.
pub const MAX_INHERITANCE_DEPTH: usize = 64;

/// Resolves shapes of one package, with optional defaults for cells that no layer supplies.
pub struct Resolver<'a> {
    pub package: &'a VsdxPackage,
    pub defaults: Vec<Cell>,
}

/// Matches a sheet by its `ID`.
pub open spec fn sheet_with_id(id: u32) -> spec_fn(Sheet) -> bool {
    |s: Sheet| s.id == Some(id)
}

/// Matches an attribute by name.
pub open spec fn attr_named(name: Seq<char>) -> spec_fn((String, String)) -> bool {
    |a: (String, String)| a.0@ == name
}

/// The style a style sheet is based on: its first `BasedOn` attribute, read as a `u32`.
pub open spec fn spec_based_on(sheet: Sheet) -> Option<u32> {
    match find_first(sheet.other_attrs@, attr_named("BasedOn"@)) {
        Some(a) => spec_parse_u32(a.1@),
        None => None,
    }
}

/// The style a style sheet is based on.
pub fn based_on(sheet: &Sheet) -> (res: Option<u32>)
    ensures
        res == spec_based_on(*sheet),
{
    let ghost p = attr_named("BasedOn"@);
    let attrs = &sheet.other_attrs;
    let mut i: usize = 0;
    while i < attrs.len()
        invariant
            i <= attrs@.len(),
            attrs == sheet.other_attrs,
            p == attr_named("BasedOn"@),
            forall|j: int| 0 <= j < i ==> !p(#[trigger] attrs@[j]),
        decreases attrs.len() - i,
    {
        if str_eq(attrs[i].0.as_str(), "BasedOn") {
            proof {
                lemma_find_first_skip(attrs@, p, i as int);
            }
            return parse_u32(attrs[i].1.as_str());
        }
        i = i + 1;
    }
    proof {
        lemma_find_first_index(attrs@, p);
    }
    None
}

/// Cells that belong to the line style.
pub open spec fn is_line_style_cell(n: Seq<char>) -> bool {
    n == "LineColor"@ || n == "LinePattern"@ || n == "LineWeight"@ || n == "LineCap"@ || n
        == "BeginArrow"@ || n == "EndArrow"@ || n == "BeginArrowSize"@ || n == "EndArrowSize"@
        || n == "LineColorTrans"@ || n == "LinePatternTrans"@ || n == "Rounding"@ || n
        == "LineGradientDir"@ || n == "LineGradientAngle"@ || n == "LineGradientEnabled"@
}

/// Cells that belong to the fill style.
pub open spec fn is_fill_style_cell(n: Seq<char>) -> bool {
    n == "FillForegnd"@ || n == "FillBkgnd"@ || n == "FillPattern"@ || n == "FillForegndTrans"@
        || n == "FillBkgndTrans"@ || n == "FillGradientDir"@ || n == "FillGradientAngle"@ || n
        == "FillGradientEnabled"@ || n == "FillGradientStops"@ || n == "FillGradientStopCount"@
        || n == "ShdwForegnd"@ || n == "ShdwForegndTrans"@ || n == "ShdwPattern"@ || n
        == "ShapeShdwType"@ || n == "ShapeShdwOffsetX"@ || n == "ShapeShdwOffsetY"@
}

/// Cells that belong to the text style.
pub open spec fn is_text_style_cell(n: Seq<char>) -> bool {
    n == "Char"@ || n == "Para"@ || n == "Text"@ || n == "VerticalAlign"@ || n == "TxtPinX"@ || n
        == "TxtPinY"@ || n == "TxtWidth"@ || n == "TxtHeight"@ || n == "TxtAngle"@ || n
        == "TxtLocPinX"@ || n == "TxtLocPinY"@ || n == "LeftMargin"@ || n == "RightMargin"@ || n
        == "TopMargin"@ || n == "BottomMargin"@ || n == "TextBkgnd"@ || n == "DefaultTabStop"@
        || n == "TextDirection"@ || n == "TextBlockVerticalAlign"@
}

/// The style chain that owns a cell, from the MS-VSDX style-sheet cell lists;
/// unlisted cells bypass styles.
pub open spec fn spec_style_owner(n: Seq<char>) -> Option<Provenance> {
    if is_line_style_cell(n) {
        Some(Provenance::StyleLine)
    } else if is_fill_style_cell(n) {
        Some(Provenance::StyleFill)
    } else if is_text_style_cell(n) {
        Some(Provenance::StyleText)
    } else {
        None
    }
}

/// The style kind that owns each cell, from the MS-VSDX style-sheet cell
/// lists: the line cells `LineColor`, `LinePattern`, `LineWeight`, `LineCap`,
/// `BeginArrow`, `EndArrow`, `BeginArrowSize`, `EndArrowSize`,
/// `LineColorTrans`, `LinePatternTrans`, `Rounding`, `LineGradientDir`,
/// `LineGradientAngle` and `LineGradientEnabled` belong to the line style; the
/// fill and shadow cells `FillForegnd`, `FillBkgnd`, `FillPattern`,
/// `FillForegndTrans`, `FillBkgndTrans`, `FillGradientDir`,
/// `FillGradientAngle`, `FillGradientEnabled`, `FillGradientStops`,
/// `FillGradientStopCount`, `ShdwForegnd`, `ShdwForegndTrans`, `ShdwPattern`,
/// `ShapeShdwType`, `ShapeShdwOffsetX` and `ShapeShdwOffsetY` to the fill
/// style; the text cells `Char`, `Para`, `Text`, `VerticalAlign`, `TxtPinX`,
/// `TxtPinY`, `TxtWidth`, `TxtHeight`, `TxtAngle`, `TxtLocPinX`,
/// `TxtLocPinY`, `LeftMargin`, `RightMargin`, `TopMargin`, `BottomMargin`,
/// `TextBkgnd`, `DefaultTabStop`, `TextDirection` and
/// `TextBlockVerticalAlign` to the text style; no other cell has a style owner.
pub proof fn lemma_style_cell_owners(n: Seq<char>)
    ensures
        spec_style_owner(n) == if n == "LineColor"@ || n == "LinePattern"@ || n == "LineWeight"@
            || n == "LineCap"@ || n == "BeginArrow"@ || n == "EndArrow"@ || n == "BeginArrowSize"@
            || n == "EndArrowSize"@ || n == "LineColorTrans"@ || n == "LinePatternTrans"@ || n
            == "Rounding"@ || n == "LineGradientDir"@ || n == "LineGradientAngle"@ || n
            == "LineGradientEnabled"@ {
            Some(Provenance::StyleLine)
        } else if n == "FillBkgnd"@ || n == "FillForegnd"@ || n == "FillPattern"@ || n
            == "FillForegndTrans"@ || n == "FillBkgndTrans"@ || n == "FillGradientDir"@ || n
            == "FillGradientAngle"@ || n == "FillGradientEnabled"@ || n == "FillGradientStops"@ || n
            == "FillGradientStopCount"@ || n == "ShdwForegnd"@ || n == "ShdwForegndTrans"@ || n
            == "ShdwPattern"@ || n == "ShapeShdwType"@ || n == "ShapeShdwOffsetX"@ || n
            == "ShapeShdwOffsetY"@ {
            Some(Provenance::StyleFill)
        } else if n == "Char"@ || n == "Para"@ || n == "Text"@ || n == "VerticalAlign"@ || n
            == "TxtPinX"@ || n == "TxtPinY"@ || n == "TxtWidth"@ || n == "TxtHeight"@ || n
            == "TxtAngle"@ || n == "TxtLocPinX"@ || n == "TxtLocPinY"@ || n == "LeftMargin"@ || n
            == "RightMargin"@ || n == "TopMargin"@ || n == "BottomMargin"@ || n == "TextBkgnd"@ || n
            == "DefaultTabStop"@ || n == "TextDirection"@ || n == "TextBlockVerticalAlign"@ {
            Some(Provenance::StyleText)
        } else {
            None
        },
{
}

fn in_line_list(n: &str) -> (res: bool)
    ensures
        res == is_line_style_cell(n@),
{
    str_eq(n, "LineColor") || str_eq(n, "LinePattern") || str_eq(n, "LineWeight") || str_eq(
        n,
        "LineCap",
    ) || str_eq(n, "BeginArrow") || str_eq(n, "EndArrow") || str_eq(n, "BeginArrowSize")
        || str_eq(n, "EndArrowSize") || str_eq(n, "LineColorTrans") || str_eq(
        n,
        "LinePatternTrans",
    ) || str_eq(n, "Rounding") || str_eq(n, "LineGradientDir") || str_eq(
        n,
        "LineGradientAngle",
    ) || str_eq(n, "LineGradientEnabled")
}

fn in_fill_list(n: &str) -> (res: bool)
    ensures
        res == is_fill_style_cell(n@),
{
    str_eq(n, "FillForegnd") || str_eq(n, "FillBkgnd") || str_eq(n, "FillPattern") || str_eq(
        n,
        "FillForegndTrans",
    ) || str_eq(n, "FillBkgndTrans") || str_eq(n, "FillGradientDir") || str_eq(
        n,
        "FillGradientAngle",
    ) || str_eq(n, "FillGradientEnabled") || str_eq(n, "FillGradientStops") || str_eq(
        n,
        "FillGradientStopCount",
    ) || str_eq(n, "ShdwForegnd") || str_eq(n, "ShdwForegndTrans") || str_eq(n, "ShdwPattern")
        || str_eq(n, "ShapeShdwType") || str_eq(n, "ShapeShdwOffsetX") || str_eq(
        n,
        "ShapeShdwOffsetY",
    )
}

fn in_text_list(n: &str) -> (res: bool)
    ensures
        res == is_text_style_cell(n@),
{
    str_eq(n, "Char") || str_eq(n, "Para") || str_eq(n, "Text") || str_eq(n, "VerticalAlign")
        || str_eq(n, "TxtPinX") || str_eq(n, "TxtPinY") || str_eq(n, "TxtWidth") || str_eq(
        n,
        "TxtHeight",
    ) || str_eq(n, "TxtAngle") || str_eq(n, "TxtLocPinX") || str_eq(n, "TxtLocPinY") || str_eq(
        n,
        "LeftMargin",
    ) || str_eq(n, "RightMargin") || str_eq(n, "TopMargin") || str_eq(n, "BottomMargin")
        || str_eq(n, "TextBkgnd") || str_eq(n, "DefaultTabStop") || str_eq(n, "TextDirection")
        || str_eq(n, "TextBlockVerticalAlign")
}

/// The style chain that owns a cell.
pub fn style_owner(name: &str) -> (res: Option<Provenance>)
    ensures
        res == spec_style_owner(name@),
{
    if in_line_list(name) {
        Some(Provenance::StyleLine)
    } else if in_fill_list(name) {
        Some(Provenance::StyleFill)
    } else if in_text_list(name) {
        Some(Provenance::StyleText)
    } else {
        None
    }
}

/// The `k`-th style ID a chain visits: the starting ID, then each sheet's `BasedOn`.
pub open spec fn chain_id(start: Option<u32>, chain: Seq<&Sheet>, k: int) -> Option<u32> {
    if k == 0 {
        start
    } else {
        spec_based_on(*chain[k - 1])
    }
}

/// `chain` follows `BasedOn` links from `start` through `styles` without repeating an ID.
pub open spec fn is_style_prefix(styles: Seq<Sheet>, start: Option<u32>, chain: Seq<&Sheet>) -> bool {
    &&& forall|k: int|
        0 <= k < chain.len() ==> (#[trigger] chain_id(start, chain, k)).is_some() && find_first(
            styles,
            sheet_with_id(chain_id(start, chain, k).unwrap()),
        ) == Some(*chain[k])
    &&& forall|j: int, k: int|
        0 <= j < k < chain.len() ==> chain_id(start, chain, j) != chain_id(start, chain, k)
}

/// `chain` is the whole style chain from `start`: it ends where the next ID is
/// absent or names no style sheet.
pub open spec fn is_style_chain(styles: Seq<Sheet>, start: Option<u32>, chain: Seq<&Sheet>) -> bool {
    &&& is_style_prefix(styles, start, chain)
    &&& match chain_id(start, chain, chain.len() as int) {
        None => true,
        Some(next) => find_first(styles, sheet_with_id(next)).is_none(),
    }
}

/// Following `BasedOn` links from `start` returns to an ID already visited.
pub open spec fn style_chain_cycles(styles: Seq<Sheet>, start: Option<u32>) -> bool {
    exists|chain: Seq<&Sheet>|
        #[trigger] is_style_prefix(styles, start, chain) && chain_id(
            start,
            chain,
            chain.len() as int,
        ).is_some() && exists|j: int|
            0 <= j < chain.len() && #[trigger] chain_id(start, chain, j) == chain_id(
                start,
                chain,
                chain.len() as int,
            )
}

/// The message a style cycle is reported with: the style ID met again.
pub open spec fn style_cycle_message(id: u32) -> Seq<char> {
    "style "@ + decimal(id as nat)
}

/// Following `BasedOn` links from `start` returns to a visited style, and
/// `message` names that style.
pub open spec fn style_cycle_reported(styles: Seq<Sheet>, start: Option<u32>, message: Seq<char>) -> bool {
    exists|chain: Seq<&Sheet>|
        #[trigger] is_style_prefix(styles, start, chain) && match chain_id(
            start,
            chain,
            chain.len() as int,
        ) {
            Some(id) => message == style_cycle_message(id) && exists|j: int|
                0 <= j < chain.len() && #[trigger] chain_id(start, chain, j) == Some(id),
            None => false,
        }
}

/// The master sheet a master ID names: the contents of the first part catalogued with that ID.
pub open spec fn spec_master_sheet(package: VsdxPackage, master_id: u32) -> Option<Sheet> {
    match spec_path_for(package.master_part_ids@, master_id) {
        Some(path) => spec_sheet_at(package.master_contents@, path@),
        None => None,
    }
}

/// The shape a master chain has reached after `k` links.
pub open spec fn chain_shape(shape: Shape, chain: Seq<(Provenance, &Shape)>, k: int) -> Shape {
    if k == 0 {
        shape
    } else {
        *chain[k - 1].1
    }
}

/// The master that link `k` of a chain follows: for the shape itself, its own
/// master, or, for a sub-shape that names a master shape but no master, the
/// master of its nearest enclosing group (`enclosing`); after that, the master
/// of the master shape reached.
pub open spec fn link_master(
    shape: Shape,
    enclosing: Option<u32>,
    chain: Seq<(Provenance, &Shape)>,
    k: int,
) -> Option<u32> {
    if k == 0 {
        match shape.master {
            Some(m) => Some(m),
            None => if shape.master_shape.is_some() {
                enclosing
            } else {
                None
            },
        }
    } else {
        chain_shape(shape, chain, k).master
    }
}

/// The (master, master shape) pair that a link from `cur` through master `m` visits.
pub open spec fn master_key(cur: Shape, m: u32) -> (u32, u32) {
    (m, if cur.master_shape.is_some() {
        cur.master_shape.unwrap()
    } else {
        m
    })
}

/// The key of link `k` of a chain.
pub open spec fn link_key(
    shape: Shape,
    enclosing: Option<u32>,
    chain: Seq<(Provenance, &Shape)>,
    k: int,
) -> (u32, u32) {
    master_key(chain_shape(shape, chain, k), link_master(shape, enclosing, chain, k).unwrap())
}

/// The master shape that `cur` inherits from within a master sheet, with how
/// the link is labelled: the sub-shape of the master's root shape with `cur`'s
/// `MasterShape` ID when there is one (a master-shape link), else the root
/// shape itself (a master link); none when the master has no shapes.
pub open spec fn master_next(sheet: Sheet, cur: Shape) -> Option<(Provenance, Shape)> {
    if sheet.shapes@.len() == 0 {
        None
    } else {
        let root = sheet.shapes@[0];
        match cur.master_shape {
            Some(t) => match find_first(flatten(root.shapes@), shape_with_id(t)) {
                Some(x) => Some((Provenance::MasterShape, x)),
                None => Some((Provenance::Master, root)),
            },
            None => Some((Provenance::Master, root)),
        }
    }
}

/// `chain` follows master links from `shape` without repeating a (master, shape) pair.
pub open spec fn is_master_prefix(
    package: VsdxPackage,
    shape: Shape,
    enclosing: Option<u32>,
    chain: Seq<(Provenance, &Shape)>,
) -> bool {
    &&& forall|k: int|
        0 <= k < chain.len() ==> {
            let cur = #[trigger] chain_shape(shape, chain, k);
            let m = link_master(shape, enclosing, chain, k);
            &&& m.is_some()
            &&& spec_master_sheet(package, m.unwrap()).is_some()
            &&& master_next(spec_master_sheet(package, m.unwrap()).unwrap(), cur) == Some(
                (chain[k].0, *chain[k].1),
            )
        }
    &&& forall|j: int, k: int|
        0 <= j < k < chain.len() ==> link_key(shape, enclosing, chain, j) != link_key(
            shape,
            enclosing,
            chain,
            k,
        )
}

/// The pair a chain is about to visit was already visited.
pub open spec fn master_key_repeats(
    shape: Shape,
    enclosing: Option<u32>,
    chain: Seq<(Provenance, &Shape)>,
) -> bool {
    exists|j: int|
        0 <= j < chain.len() && #[trigger] link_key(shape, enclosing, chain, j) == link_key(
            shape,
            enclosing,
            chain,
            chain.len() as int,
        )
}

/// `chain` is the whole master chain of `shape`: it stops at a shape with no
/// master to follow, or at a master with no shapes.
pub open spec fn is_master_chain(
    package: VsdxPackage,
    shape: Shape,
    enclosing: Option<u32>,
    chain: Seq<(Provenance, &Shape)>,
) -> bool {
    let cur = chain_shape(shape, chain, chain.len() as int);
    let m = link_master(shape, enclosing, chain, chain.len() as int);
    &&& is_master_prefix(package, shape, enclosing, chain)
    &&& chain.len() < MAX_INHERITANCE_DEPTH
    &&& (m.is_none() || (spec_master_sheet(package, m.unwrap()).is_some() && !master_key_repeats(
        shape,
        enclosing,
        chain,
    ) && master_next(spec_master_sheet(package, m.unwrap()).unwrap(), cur).is_none()))
}

/// Following master links from `shape` reaches master `m`, which the package
/// does not hold.
pub open spec fn master_missing(
    package: VsdxPackage,
    shape: Shape,
    enclosing: Option<u32>,
    m: u32,
) -> bool {
    exists|chain: Seq<(Provenance, &Shape)>|
        #[trigger] is_master_prefix(package, shape, enclosing, chain) && chain.len()
            < MAX_INHERITANCE_DEPTH && link_master(shape, enclosing, chain, chain.len() as int)
            == Some(m) && spec_master_sheet(package, m).is_none()
}

/// Following master links from `shape` repeats a (master, shape) pair or
/// reaches the maximum inheritance depth.
pub open spec fn master_chain_cycles(package: VsdxPackage, shape: Shape, enclosing: Option<u32>) -> bool {
    exists|chain: Seq<(Provenance, &Shape)>|
        #[trigger] is_master_prefix(package, shape, enclosing, chain) && (chain.len()
            == MAX_INHERITANCE_DEPTH || ({
            let m = link_master(shape, enclosing, chain, chain.len() as int);
            &&& chain.len() < MAX_INHERITANCE_DEPTH
            &&& m.is_some()
            &&& spec_master_sheet(package, m.unwrap()).is_some()
            &&& master_key_repeats(shape, enclosing, chain)
        }))
}

/// The message a repeated (master, shape) pair is reported with.
pub open spec fn master_cycle_message(key: (u32, u32)) -> Seq<char> {
    "master "@ + decimal(key.0 as nat) + "/"@ + decimal(key.1 as nat)
}

/// Following master links from `shape` passes the maximum inheritance depth.
pub open spec fn master_chain_too_deep(package: VsdxPackage, shape: Shape, enclosing: Option<u32>) -> bool {
    exists|chain: Seq<(Provenance, &Shape)>|
        #[trigger] is_master_prefix(package, shape, enclosing, chain) && chain.len()
            == MAX_INHERITANCE_DEPTH
}

/// How a failing master chain is reported: a chain that passes the maximum
/// depth as `maximum inheritance depth`, a repeated (master, shape) pair by
/// naming that pair.
pub open spec fn master_cycle_reported(
    package: VsdxPackage,
    shape: Shape,
    enclosing: Option<u32>,
    message: Seq<char>,
) -> bool {
    ||| message == "maximum inheritance depth"@ && master_chain_too_deep(package, shape, enclosing)
    ||| exists|chain: Seq<(Provenance, &Shape)>|
        #[trigger] is_master_prefix(package, shape, enclosing, chain) && ({
            let m = link_master(shape, enclosing, chain, chain.len() as int);
            &&& chain.len() < MAX_INHERITANCE_DEPTH
            &&& m.is_some()
            &&& spec_master_sheet(package, m.unwrap()).is_some()
            &&& master_key_repeats(shape, enclosing, chain)
            &&& message == master_cycle_message(link_key(shape, enclosing, chain, chain.len() as int))
        })
}

/// Following master links from `shape` fails: it reaches a missing master or cycles.
pub open spec fn master_chain_fails(package: VsdxPackage, shape: Shape, enclosing: Option<u32>) -> bool {
    master_chain_cycles(package, shape, enclosing) || exists|m: u32|
        #[trigger] master_missing(package, shape, enclosing, m)
}

fn contains_pair(v: &Vec<(u32, u32)>, x: (u32, u32)) -> (res: bool)
    ensures
        res == v@.contains(x),
{
    let mut i: usize = 0;
    while i < v.len()
        invariant
            i <= v@.len(),
            forall|j: int| 0 <= j < i ==> v@[j] != x,
        decreases v.len() - i,
    {
        if v[i].0 == x.0 && v[i].1 == x.1 {
            return true;
        }
        i = i + 1;
    }
    false
}

/// A master link whose shape defines the named cell locally.
pub open spec fn master_has<'x>(name: Seq<char>) -> spec_fn((Provenance, &'x Shape)) -> bool {
    |m: (Provenance, &'x Shape)| find_first(m.1.cells@, cell_named(name)).is_some()
}

/// A sheet that defines the named cell.
pub open spec fn sheet_has<'x>(name: Seq<char>) -> spec_fn(&'x Sheet) -> bool {
    |s: &'x Sheet| find_first(s.cells@, cell_named(name)).is_some()
}

/// A style chain of the given kind.
pub open spec fn styles_for<'x>(owner: Provenance) -> spec_fn((Provenance, Vec<&'x Sheet>)) -> bool {
    |e: (Provenance, Vec<&'x Sheet>)| e.0 == owner
}

/// The cell a style chain supplies: only cells owned by a style kind consult
/// that kind's chain, nearest style first.
pub open spec fn style_source(styles: Seq<(Provenance, Vec<&Sheet>)>, name: Seq<char>) -> Option<
    (Provenance, Cell),
> {
    match spec_style_owner(name) {
        None => None,
        Some(owner) => match find_first(styles, styles_for(owner)) {
            None => None,
            Some(e) => match find_first(e.1@, sheet_has(name)) {
                Some(sheet) => Some((e.0, find_first(sheet.cells@, cell_named(name)).unwrap())),
                None => None,
            },
        },
    }
}

/// The default for a cell name: the last default with that name.
pub open spec fn spec_default(defaults: Seq<Cell>, name: Seq<char>) -> Option<Cell> {
    find_last(defaults, cell_named(name))
}

/// The named cell of an optional sheet.
pub open spec fn opt_sheet_cell(sheet: Option<Sheet>, name: Seq<char>) -> Option<Cell> {
    match sheet {
        Some(d) => find_first(d.cells@, cell_named(name)),
        None => None,
    }
}

/// How a cell resolves: the first layer that defines it decides — the shape,
/// then its masters nearest first, then the owning style chain, then the page,
/// then the document — and a deleted definition there hides everything
/// behind it; with no definition, the last default of that name, else absent.
pub open spec fn spec_resolve_cell(
    shape: Shape,
    masters: Seq<(Provenance, &Shape)>,
    styles: Seq<(Provenance, Vec<&Sheet>)>,
    page: Sheet,
    document: Option<Sheet>,
    defaults: Seq<Cell>,
    name: Seq<char>,
) -> Lookup {
    match find_first(shape.cells@, cell_named(name)) {
        Some(c) => spec_found(c, Provenance::Local),
        None => match find_first(masters, master_has(name)) {
            Some(m) => spec_found(find_first(m.1.cells@, cell_named(name)).unwrap(), m.0),
            None => match style_source(styles, name) {
                Some(hit) => spec_found(hit.1, hit.0),
                None => match find_first(page.cells@, cell_named(name)) {
                    Some(c) => spec_found(c, Provenance::Page),
                    None => match opt_sheet_cell(document, name) {
                        Some(c) => spec_found(c, Provenance::Document),
                        None => match spec_default(defaults, name) {
                            Some(c) => Lookup::Found(
                                ResolvedCell { cell: c, provenance: Provenance::Default },
                            ),
                            None => Lookup::Absent,
                        },
                    },
                },
            },
        },
    }
}

/// A cell owned by a style kind that neither the shape nor any master in
/// its chain defines resolves from that kind's style chain: from the nearest
/// style in the chain that defines it, with the chain's provenance (line,
/// fill or text style), ahead of the page, the document and the defaults.
pub proof fn lemma_owned_cells_resolve_through_their_style(
    shape: Shape,
    masters: Seq<(Provenance, &Shape)>,
    styles: Seq<(Provenance, Vec<&Sheet>)>,
    page: Sheet,
    document: Option<Sheet>,
    defaults: Seq<Cell>,
    name: Seq<char>,
    kind: Provenance,
)
    requires
        spec_style_owner(name) == Some(kind),
        find_first(shape.cells@, cell_named(name)) is None,
        find_first(masters, master_has(name)) is None,
    ensures
        match find_first(styles, styles_for(kind)) {
            Some(e) => match find_first(e.1@, sheet_has(name)) {
                Some(sheet) => spec_resolve_cell(shape, masters, styles, page, document, defaults, name)
                    == spec_found(find_first(sheet.cells@, cell_named(name)).unwrap(), kind),
                None => true,
            },
            None => true,
        },
{
    if find_first(styles, styles_for(kind)) is Some {
        lemma_find_first_some(styles, styles_for(kind));
    }
}

/// Some layer of the inheritance chain defines the named cell.
pub open spec fn some_layer_defines(
    shape: Shape,
    masters: Seq<(Provenance, &Shape)>,
    styles: Seq<(Provenance, Vec<&Sheet>)>,
    page: Sheet,
    document: Option<Sheet>,
    name: Seq<char>,
) -> bool {
    ||| find_first(shape.cells@, cell_named(name)) is Some
    ||| find_first(masters, master_has(name)) is Some
    ||| style_source(styles, name) is Some
    ||| find_first(page.cells@, cell_named(name)) is Some
    ||| opt_sheet_cell(document, name) is Some
}

/// A cell the shape defines itself is what it resolves to: a live local cell
/// is found as local, and a deleted one reads as deleted, whatever its
/// masters, styles, page or document say.
pub proof fn lemma_local_cell_wins(
    shape: Shape,
    masters: Seq<(Provenance, &Shape)>,
    styles: Seq<(Provenance, Vec<&Sheet>)>,
    page: Sheet,
    document: Option<Sheet>,
    defaults: Seq<Cell>,
    name: Seq<char>,
)
    requires
        find_first(shape.cells@, cell_named(name)) is Some,
    ensures
        ({
            let c = find_first(shape.cells@, cell_named(name)).unwrap();
            spec_resolve_cell(shape, masters, styles, page, document, defaults, name) == if c.del {
                Lookup::Deleted
            } else {
                Lookup::Found(ResolvedCell { cell: c, provenance: Provenance::Local })
            }
        }),
{
}

/// The nearest master that defines a cell decides it when the shape does not.
pub proof fn lemma_nearest_master_wins(
    shape: Shape,
    masters: Seq<(Provenance, &Shape)>,
    styles: Seq<(Provenance, Vec<&Sheet>)>,
    page: Sheet,
    document: Option<Sheet>,
    defaults: Seq<Cell>,
    name: Seq<char>,
    i: int,
)
    requires
        find_first(shape.cells@, cell_named(name)) is None,
        0 <= i < masters.len(),
        find_first(masters[i].1.cells@, cell_named(name)) is Some,
        forall|j: int| 0 <= j < i ==> find_first(#[trigger] masters[j].1.cells@, cell_named(name)) is None,
    ensures
        spec_resolve_cell(shape, masters, styles, page, document, defaults, name) == spec_found(
            find_first(masters[i].1.cells@, cell_named(name)).unwrap(),
            masters[i].0,
        ),
{
    let q = master_has(name);
    lemma_find_first_index(masters, q);
    assert(q(masters[i]));
    assert forall|j: int| 0 <= j < i implies !q(#[trigger] masters[j]) by {
        assert(find_first(masters[j].1.cells@, cell_named(name)) is None);
    }
    if first_index(masters, q) < i {
        assert(!q(masters[first_index(masters, q)]));
    }
    assert(first_index(masters, q) == i);
}

/// Defaults only fill gaps: a cell resolves to a default exactly when no
/// layer defines it and a default of that name exists, and it is absent
/// exactly when neither a layer nor a default supplies it.
pub proof fn lemma_defaults_fill_only_gaps(
    shape: Shape,
    masters: Seq<(Provenance, &Shape)>,
    styles: Seq<(Provenance, Vec<&Sheet>)>,
    page: Sheet,
    document: Option<Sheet>,
    defaults: Seq<Cell>,
    name: Seq<char>,
)
    requires
        forall|i: int|
            0 <= i < masters.len() ==> (#[trigger] masters[i]).0 == Provenance::Master || masters[i].0
                == Provenance::MasterShape,
    ensures
        (spec_resolve_cell(shape, masters, styles, page, document, defaults, name) matches Lookup::Found(r)
            && r.provenance == Provenance::Default) <==> (!some_layer_defines(
            shape,
            masters,
            styles,
            page,
            document,
            name,
        ) && spec_default(defaults, name) is Some),
        spec_resolve_cell(shape, masters, styles, page, document, defaults, name) is Absent <==> (
        !some_layer_defines(shape, masters, styles, page, document, name) && spec_default(
            defaults,
            name,
        ) is None),
{
    if find_first(masters, master_has(name)) is Some {
        lemma_find_first_some(masters, master_has(name));
        let m = find_first(masters, master_has(name)).unwrap();
        let k = choose|k: int| 0 <= k < masters.len() && masters[k] == m;
        assert(masters[k].0 == Provenance::Master || masters[k].0 == Provenance::MasterShape);
    }
    match spec_style_owner(name) {
        Some(owner) => {
            if find_first(styles, styles_for(owner)) is Some {
                lemma_find_first_some(styles, styles_for(owner));
            }
        },
        None => {},
    }
}

/// A sequence of distinct indices into a sequence of length `n` is no longer than `n`.
proof fn lemma_distinct_indices_bounded(idx: Seq<int>, n: int)
    requires
        n >= 0,
        idx.no_duplicates(),
        forall|k: int| 0 <= k < idx.len() ==> 0 <= #[trigger] idx[k] < n,
    ensures
        idx.len() <= n,
{
    idx.unique_seq_to_set();
    lemma_int_range(0, n);
    assert(idx.to_set().subset_of(set_int_range(0, n)));
    lemma_len_subset(idx.to_set(), set_int_range(0, n));
}

fn contains_u32(v: &Vec<u32>, x: u32) -> (res: bool)
    ensures
        res == v@.contains(x),
{
    let mut i: usize = 0;
    while i < v.len()
        invariant
            i <= v@.len(),
            forall|j: int| 0 <= j < i ==> v@[j] != x,
        decreases v.len() - i,
    {
        if v[i] == x {
            return true;
        }
        i = i + 1;
    }
    false
}

fn style_sheet_index(styles: &Vec<Sheet>, id: u32) -> (res: Option<usize>)
    ensures
        match res {
            Some(i) => i < styles@.len() && styles@[i as int].id == Some(id) && i == first_index(styles@, sheet_with_id(id)) && find_first(
                styles@,
                sheet_with_id(id),
            ) == Some(styles@[i as int]),
            None => find_first(styles@, sheet_with_id(id)).is_none(),
        },
{
    let ghost p = sheet_with_id(id);
    let mut i: usize = 0;
    while i < styles.len()
        invariant
            i <= styles@.len(),
            p == sheet_with_id(id),
            forall|j: int| 0 <= j < i ==> !p(#[trigger] styles@[j]),
        decreases styles.len() - i,
    {
        if styles[i].id == Some(id) {
            proof {
                lemma_find_first_skip(styles@, p, i as int);
                lemma_find_first_index(styles@, p);
                lemma_find_first_index(styles@.skip(i as int), p);
            }
            return Some(i);
        }
        i = i + 1;
    }
    proof {
        lemma_find_first_index(styles@, p);
    }
    None
}

impl<'a> Resolver<'a> {
    /// A resolver over `package` with no defaults.
    pub fn new(package: &'a VsdxPackage) -> (res: Self)
        ensures
            res.package == package,
            res.defaults@.len() == 0,
    {
        Resolver { package, defaults: Vec::new() }
    }

    /// The same resolver, with `defaults` supplying cells that no layer defines;
    /// of several defaults with one name, the last is used.
    pub fn with_defaults(self, defaults: Vec<Cell>) -> (res: Self)
        ensures
            res.package == self.package,
            res.defaults@ == defaults@,
    {
        Resolver { package: self.package, defaults }
    }

    /// The style chain that starts at style `start`, following `BasedOn` links.
    pub fn style_chain(&self, start: Option<u32>) -> (res: Result<Vec<&'a Sheet>, ResolveError>)
        ensures
            res matches Ok(chain) ==> is_style_chain(self.package.style_sheets@, start, chain@),
            res is Err ==> style_chain_cycles(self.package.style_sheets@, start),
            res matches Err(e) ==> e is Cycle,
            res matches Err(ResolveError::Cycle(m)) ==> style_cycle_reported(
                self.package.style_sheets@,
                start,
                m@,
            ),
    {
        let styles: &'a Vec<Sheet> = &self.package.style_sheets;
        let mut out: Vec<&'a Sheet> = Vec::new();
        let mut seen: Vec<u32> = Vec::new();
        let mut id = start;
        let ghost mut idx: Seq<int> = Seq::empty();
        loop
            invariant
                styles == &self.package.style_sheets,
                is_style_prefix(styles@, start, out@),
                id == chain_id(start, out@, out@.len() as int),
                seen@.len() == out@.len(),
                forall|k: int| 0 <= k < out@.len() ==> Some(#[trigger] seen@[k]) == chain_id(
                    start,
                    out@,
                    k,
                ),
                idx.len() == out@.len(),
                idx.no_duplicates(),
                forall|k: int|
                    0 <= k < idx.len() ==> 0 <= #[trigger] idx[k] < styles@.len() && styles@[idx[k]].id
                        == chain_id(start, out@, k),
                out@.len() <= styles@.len(),
            decreases styles@.len() - out@.len(),
        {
            let current = match id {
                None => {
                    return Ok(out);
                },
                Some(current) => current,
            };
            if contains_u32(&seen, current) {
                proof {
                    let j = choose|j: int| 0 <= j < seen@.len() && seen@[j] == current;
                    assert(chain_id(start, out@, j) == Some(current));
                    assert(is_style_prefix(styles@, start, out@));
                }
                let mut message = owned("style ");
                let digits = decimal_string(current);
                append(&mut message, digits.as_str());
                proof {
                    reveal_strlit("style ");
                    let j = choose|j: int| 0 <= j < seen@.len() && seen@[j] == current;
                    assert(chain_id(start, out@, j) == Some(current));
                    assert(message@ == style_cycle_message(current));
                    assert(style_cycle_reported(styles@, start, message@));
                }
                return Err(ResolveError::Cycle(message));
            }
            let found = style_sheet_index(styles, current);
            let i = match found {
                None => {
                    return Ok(out);
                },
                Some(i) => i,
            };
            let ghost old_out = out@;
            let ghost old_seen = seen@;
            let ghost old_idx = idx;
            let sheet: &'a Sheet = &styles[i];
            out.push(sheet);
            seen.push(current);
            proof {
                assert forall|k: int| 0 <= k < old_out.len() implies chain_id(start, out@, k)
                    == chain_id(start, old_out, k) by {
                    if k > 0 {
                        assert(out@[k - 1] == old_out[k - 1]);
                    }
                }
                assert(chain_id(start, out@, old_out.len() as int) == Some(current));
                assert forall|j: int| 0 <= j < idx.len() implies idx[j] != i as int by {
                    assert(styles@[idx[j]].id == chain_id(start, old_out, j));
                    assert(chain_id(start, old_out, j) == Some(seen@[j]));
                    assert(seen@[j] != current);
                }
                idx = idx.push(i as int);
                assert forall|k: int| 0 <= k < out@.len() implies Some(#[trigger] seen@[k])
                    == chain_id(start, out@, k) by {
                    if k < old_out.len() {
                        assert(seen@[k] == old_seen[k]);
                    }
                }
                assert(is_style_prefix(styles@, start, out@)) by {
                    assert forall|k: int| 0 <= k < out@.len() implies (#[trigger] chain_id(
                        start,
                        out@,
                        k,
                    )).is_some() && find_first(
                        styles@,
                        sheet_with_id(chain_id(start, out@, k).unwrap()),
                    ) == Some(*out@[k]) by {
                        if k < old_out.len() {
                            assert(out@[k] == old_out[k]);
                            assert(chain_id(start, old_out, k).is_some());
                        }
                    }
                    assert forall|j: int, k: int|
                        0 <= j < k < out@.len() implies chain_id(start, out@, j) != chain_id(
                        start,
                        out@,
                        k,
                    ) by {
                        assert(Some(seen@[j]) == chain_id(start, out@, j));
                        assert(Some(seen@[k]) == chain_id(start, out@, k));
                        if k == old_out.len() {
                            assert(old_seen.contains(seen@[j])) by {
                                assert(old_seen[j] == seen@[j]);
                            }
                        }
                    }
                }
                assert(idx.no_duplicates()) by {
                    assert forall|a: int, b: int|
                        0 <= a < idx.len() && 0 <= b < idx.len() && a != b implies idx[a]
                        != idx[b] by {
                        if a < old_idx.len() && b < old_idx.len() {
                            assert(idx[a] == old_idx[a]);
                            assert(idx[b] == old_idx[b]);
                        } else if a < old_idx.len() {
                            assert(idx[a] == old_idx[a]);
                        } else {
                            assert(idx[b] == old_idx[b]);
                        }
                    }
                }
                lemma_distinct_indices_bounded(idx, styles@.len() as int);
            }
            id = based_on(sheet);
        }
    }

    /// The master sheet a master ID names.
    fn master_sheet(&self, master_id: u32) -> (res: Option<&'a Sheet>)
        ensures
            res.is_some() == spec_master_sheet(*self.package, master_id).is_some(),
            res matches Some(s) ==> spec_master_sheet(*self.package, master_id) == Some(*s),
    {
        let package: &'a VsdxPackage = self.package;
        match path_for(&package.master_part_ids, master_id) {
            None => None,
            Some(path) => sheet_at(&package.master_contents, path.as_str()),
        }
    }

    /// The master chain of `shape`: each master shape it inherits from, nearest
    /// first. `enclosing` is the master of the shape's nearest enclosing group,
    /// which a sub-shape that names only a master shape inherits through.
    pub fn master_chain(&self, shape: &'a Shape, enclosing: Option<u32>) -> (res: Result<
        Vec<(Provenance, &'a Shape)>,
        ResolveError,
    >)
        ensures
            res matches Ok(chain) ==> is_master_chain(*self.package, *shape, enclosing, chain@),
            res matches Err(ResolveError::MissingMaster(m)) ==> master_missing(
                *self.package,
                *shape,
                enclosing,
                m,
            ),
            res matches Err(ResolveError::Cycle(_)) ==> master_chain_cycles(
                *self.package,
                *shape,
                enclosing,
            ),
            res matches Err(e) ==> e is Cycle || e is MissingMaster,
            res matches Err(ResolveError::Cycle(m)) ==> master_cycle_reported(
                *self.package,
                *shape,
                enclosing,
                m@,
            ),
    {
        let mut out: Vec<(Provenance, &'a Shape)> = Vec::new();
        let mut current: &'a Shape = shape;
        let mut seen: Vec<(u32, u32)> = Vec::new();
        let mut link: Option<u32> = match shape.master {
            Some(m) => Some(m),
            None => if shape.master_shape.is_some() {
                enclosing
            } else {
                None
            },
        };
        loop
            invariant
                is_master_prefix(*self.package, *shape, enclosing, out@),
                *current == chain_shape(*shape, out@, out@.len() as int),
                link == link_master(*shape, enclosing, out@, out@.len() as int),
                out@.len() < MAX_INHERITANCE_DEPTH,
                seen@.len() == out@.len(),
                forall|k: int|
                    0 <= k < out@.len() ==> #[trigger] seen@[k] == link_key(
                        *shape,
                        enclosing,
                        out@,
                        k,
                    ),
            decreases MAX_INHERITANCE_DEPTH - out@.len(),
        {
            let master_id = match link {
                None => {
                    return Ok(out);
                },
                Some(m) => m,
            };
            let sheet: &'a Sheet = match self.master_sheet(master_id) {
                None => {
                    return Err(ResolveError::MissingMaster(master_id));
                },
                Some(sheet) => sheet,
            };
            let id = match current.master_shape {
                Some(t) => t,
                None => master_id,
            };
            assert(link_key(*shape, enclosing, out@, out@.len() as int) == (master_id, id));
            if contains_pair(&seen, (master_id, id)) {
                proof {
                    let j = choose|j: int| 0 <= j < seen@.len() && seen@[j] == (master_id, id);
                    assert(link_key(*shape, enclosing, out@, j) == (master_id, id));
                    assert(master_key_repeats(*shape, enclosing, out@));
                }
                let mut message = owned("master ");
                let m = decimal_string(master_id);
                append(&mut message, m.as_str());
                append(&mut message, "/");
                let t = decimal_string(id);
                append(&mut message, t.as_str());
                proof {
                    reveal_strlit("master ");
                    reveal_strlit("/");
                    assert(message@ == master_cycle_message((master_id, id)));
                    assert(master_cycle_reported(*self.package, *shape, enclosing, message@));
                }
                return Err(ResolveError::Cycle(message));
            }
            if sheet.shapes.len() == 0 {
                proof {
                    if master_key_repeats(*shape, enclosing, out@) {
                        let j = choose|j: int|
                            0 <= j < out@.len() && #[trigger] link_key(*shape, enclosing, out@, j)
                                == link_key(*shape, enclosing, out@, out@.len() as int);
                        assert(seen@[j] == (master_id, id));
                    }
                }
                return Ok(out);
            }
            let root: &'a Shape = &sheet.shapes[0];
            let step: (Provenance, &'a Shape) = match current.master_shape {
                Some(t) => match find_in_forest(&root.shapes, t) {
                    Some(x) => (Provenance::MasterShape, x),
                    None => (Provenance::Master, root),
                },
                None => (Provenance::Master, root),
            };
            assert(master_next(*sheet, *current) == Some((step.0, *step.1)));
            let next: &'a Shape = step.1;
            let ghost old_out = out@;
            let ghost old_seen = seen@;
            out.push(step);
            seen.push((master_id, id));
            proof {
                assert forall|k: int| 0 <= k <= old_out.len() implies chain_shape(*shape, out@, k)
                    == chain_shape(*shape, old_out, k) by {
                    if k > 0 {
                        assert(out@[k - 1] == old_out[k - 1]);
                    }
                }
                assert forall|k: int| 0 <= k <= old_out.len() implies link_master(
                    *shape,
                    enclosing,
                    out@,
                    k,
                ) == link_master(*shape, enclosing, old_out, k) by {
                    if k > 0 {
                        assert(chain_shape(*shape, out@, k) == chain_shape(*shape, old_out, k));
                    }
                }
                assert forall|k: int| 0 <= k < out@.len() implies #[trigger] seen@[k] == link_key(
                    *shape,
                    enclosing,
                    out@,
                    k,
                ) by {
                    assert(chain_shape(*shape, out@, k) == chain_shape(*shape, old_out, k));
                    assert(link_master(*shape, enclosing, out@, k) == link_master(
                        *shape,
                        enclosing,
                        old_out,
                        k,
                    ));
                    if k < old_out.len() {
                        assert(seen@[k] == old_seen[k]);
                    }
                }
                assert forall|k: int| 0 <= k < out@.len() implies {
                    let cur = #[trigger] chain_shape(*shape, out@, k);
                    let m = link_master(*shape, enclosing, out@, k);
                    &&& m.is_some()
                    &&& spec_master_sheet(*self.package, m.unwrap()).is_some()
                    &&& master_next(spec_master_sheet(*self.package, m.unwrap()).unwrap(), cur)
                        == Some((out@[k].0, *out@[k].1))
                } by {
                    assert(chain_shape(*shape, out@, k) == chain_shape(*shape, old_out, k));
                    assert(link_master(*shape, enclosing, out@, k) == link_master(
                        *shape,
                        enclosing,
                        old_out,
                        k,
                    ));
                    if k < old_out.len() {
                        assert(out@[k] == old_out[k]);
                    }
                }
                assert forall|j: int, k: int| 0 <= j < k < out@.len() implies link_key(
                    *shape,
                    enclosing,
                    out@,
                    j,
                ) != link_key(*shape, enclosing, out@, k) by {
                    assert(seen@[j] == link_key(*shape, enclosing, out@, j));
                    assert(seen@[k] == link_key(*shape, enclosing, out@, k));
                    if k == old_out.len() {
                        assert(old_seen[j] == seen@[j]);
                        assert(old_seen.contains(seen@[j]));
                    } else {
                        assert(old_seen[j] == seen@[j]);
                        assert(old_seen[k] == seen@[k]);
                    }
                }
                assert(chain_shape(*shape, out@, out@.len() as int) == *next);
            }
            current = next;
            link = next.master;
            if out.len() == MAX_INHERITANCE_DEPTH {
                assert(is_master_prefix(*self.package, *shape, enclosing, out@));
                assert(master_chain_too_deep(*self.package, *shape, enclosing));
                return Err(ResolveError::Cycle(owned("maximum inheritance depth")));
            }
        }
    }

    /// The last default named `name`.
    fn default_cell(&self, name: &str) -> (res: Option<&Cell>)
        ensures
            res.is_some() == spec_default(self.defaults@, name@).is_some(),
            res matches Some(c) ==> spec_default(self.defaults@, name@) == Some(*c),
    {
        let ghost p = cell_named(name@);
        let mut i: usize = self.defaults.len();
        while i > 0
            invariant
                i <= self.defaults@.len(),
                p == cell_named(name@),
                forall|j: int| i <= j < self.defaults@.len() ==> !p(#[trigger] self.defaults@[j]),
            decreases i,
        {
            if str_eq(self.defaults[i - 1].name.as_str(), name) {
                proof {
                    lemma_find_last_take(self.defaults@, p, i as int);
                    assert(self.defaults@.take(i as int).last() == self.defaults@[i - 1]);
                }
                return Some(&self.defaults[i - 1]);
            }
            i = i - 1;
        }
        proof {
            lemma_find_last_take(self.defaults@, p, 0);
            assert(self.defaults@.take(0).len() == 0);
        }
        None
    }

    /// The cell the owning style chain supplies.
    fn style_cell<'b>(styles: &'b Vec<(Provenance, Vec<&'a Sheet>)>, name: &str) -> (res: Option<
        (Provenance, &'a Cell),
    >)
        ensures
            res.is_some() == style_source(styles@, name@).is_some(),
            res matches Some(hit) ==> style_source(styles@, name@) == Some((hit.0, *hit.1)),
    {
        let owner = match style_owner(name) {
            None => {
                return None;
            },
            Some(owner) => owner,
        };
        let ghost q = styles_for(owner);
        let mut k: usize = 0;
        while k < styles.len()
            invariant
                k <= styles@.len(),
                q == styles_for(owner),
                spec_style_owner(name@) == Some(owner),
                forall|j: int| 0 <= j < k ==> !q(#[trigger] styles@[j]),
            decreases styles.len() - k,
        {
            if styles[k].0 == owner {
                proof {
                    lemma_find_first_skip(styles@, q, k as int);
                }
                let chain = &styles[k].1;
                let ghost r = sheet_has(name@);
                let mut i: usize = 0;
                #[verifier::loop_isolation(false)]
                while i < chain.len()
                    invariant
                        i <= chain@.len(),
                        r == sheet_has(name@),
                        forall|j: int| 0 <= j < i ==> !r(#[trigger] chain@[j]),
                    decreases chain.len() - i,
                {
                    let sheet: &'a Sheet = chain[i];
                    match find_cell(&sheet.cells, name) {
                        Some(c) => {
                            proof {
                                lemma_find_first_skip(chain@, r, i as int);
                                assert(chain@.skip(i as int)[0] == chain@[i as int]);
                                assert(r(chain@[i as int]));
                                assert(styles@.skip(k as int)[0] == styles@[k as int]);
                            }
                            return Some((styles[k].0, c));
                        },
                        None => {},
                    }
                    i = i + 1;
                }
                proof {
                    lemma_find_first_index(chain@, r);
                }
                return None;
            }
            k = k + 1;
        }
        proof {
            lemma_find_first_index(styles@, q);
        }
        None
    }

    /// How the cell `name` resolves for `shape`, given its master chain, its
    /// style chains and its page.
    pub fn resolve_cell(
        &self,
        shape: &Shape,
        masters: &Vec<(Provenance, &'a Shape)>,
        styles: &Vec<(Provenance, Vec<&'a Sheet>)>,
        page: &Sheet,
        name: &str,
    ) -> (res: Lookup)
        ensures
            res == spec_resolve_cell(
                *shape,
                masters@,
                styles@,
                *page,
                self.package.document_sheet,
                self.defaults@,
                name@,
            ),
    {
        if let Some(c) = find_cell(&shape.cells, name) {
            return found(c, Provenance::Local);
        }
        let ghost q = master_has(name@);
        let mut k: usize = 0;
        while k < masters.len()
            invariant
                k <= masters@.len(),
                q == master_has(name@),
                find_first(shape.cells@, cell_named(name@)).is_none(),
                forall|j: int| 0 <= j < k ==> !q(#[trigger] masters@[j]),
            decreases masters.len() - k,
        {
            if let Some(c) = find_cell(&masters[k].1.cells, name) {
                proof {
                    lemma_find_first_skip(masters@, q, k as int);
                    assert(masters@.skip(k as int)[0] == masters@[k as int]);
                    assert(q(masters@[k as int]));
                    assert(find_first(masters@, q) == Some(masters@[k as int]));
                }
                return found(c, masters[k].0);
            }
            k = k + 1;
        }
        proof {
            lemma_find_first_index(masters@, q);
        }
        if let Some(hit) = Self::style_cell(styles, name) {
            return found(hit.1, hit.0);
        }
        if let Some(c) = find_cell(&page.cells, name) {
            return found(c, Provenance::Page);
        }
        match &self.package.document_sheet {
            Some(d) => {
                if let Some(c) = find_cell(&d.cells, name) {
                    return found(c, Provenance::Document);
                }
            },
            None => {},
        }
        match self.default_cell(name) {
            Some(c) => Lookup::Found(ResolvedCell { cell: c.copy(), provenance: Provenance::Default }),
            None => Lookup::Absent,
        }
    }
}

} // verus!
