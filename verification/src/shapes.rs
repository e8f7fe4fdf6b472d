//! Whole-shape resolution: every cell and section that any layer defines,
//! each resolved through the shape's master and style chains.

use vstd::prelude::*;

use crate::inheritance::{
    is_master_chain, is_style_chain, master_chain_fails, master_cycle_reported, master_missing,
    spec_resolve_cell, style_chain_cycles, style_cycle_reported, Resolver,
};
use crate::names::{ascending, push_unique, sorted_strs, strs, unique_strs};
use crate::package::{
    VsdxPackage,
    catalog_sheet, id_at, sheet_at, spec_catalog_sheet, spec_id_at, spec_sheet_at,
};
use crate::resolve_model::{
    Lookup, Provenance, ResolveError, ResolvedRow, ResolvedSection, ResolvedShape,
    ResolvedTextToken,
};
use crate::sections::{add_cell_names, section_matches, spec_section_sources};
use crate::seqs::{find_first, first_index, lemma_find_first_index, lemma_find_first_skip};
use crate::sheet::{cell_named, section_named, Cell, Section, Shape, Sheet, TextToken};
use crate::text::{append, decimal, decimal_string, owned, str_eq};
use crate::tree::{entry_with_id, find_shape_with_enclosing, with_enclosing};

verus! {

/// Some cell of `cells` has the name.
pub open spec fn cells_define(cells: Seq<Cell>, n: Seq<char>) -> bool {
    find_first(cells, cell_named(n)).is_some()
}

/// Some section of `sections` has the name.
pub open spec fn sections_define(sections: Seq<Section>, n: Seq<char>) -> bool {
    find_first(sections, section_named(n)).is_some()
}

/// Some layer of the shape — itself, a master, any style, the page, the
/// document — or a default defines a cell with the name.
pub open spec fn layer_cell_name(
    shape: Shape,
    masters: Seq<(Provenance, &Shape)>,
    styles: Seq<(Provenance, Vec<&Sheet>)>,
    page: Sheet,
    document: Option<Sheet>,
    defaults: Seq<Cell>,
    n: Seq<char>,
) -> bool {
    ||| cells_define(shape.cells@, n)
    ||| exists|k: int| 0 <= k < masters.len() && cells_define((#[trigger] masters[k]).1.cells@, n)
    ||| exists|e: int, t: int|
        0 <= e < styles.len() && 0 <= t < styles[e].1@.len() && cells_define(
            (#[trigger] styles[e].1@[t]).cells@,
            n,
        )
    ||| cells_define(page.cells@, n)
    ||| (document.is_some() && cells_define(document.unwrap().cells@, n))
    ||| cells_define(defaults, n)
}

/// Some layer of the shape defines a section with the name.
pub open spec fn layer_section_name(
    shape: Shape,
    masters: Seq<(Provenance, &Shape)>,
    styles: Seq<(Provenance, Vec<&Sheet>)>,
    page: Sheet,
    document: Option<Sheet>,
    n: Seq<char>,
) -> bool {
    ||| sections_define(shape.sections@, n)
    ||| exists|k: int|
        0 <= k < masters.len() && sections_define((#[trigger] masters[k]).1.sections@, n)
    ||| exists|e: int, t: int|
        0 <= e < styles.len() && 0 <= t < styles[e].1@.len() && sections_define(
            (#[trigger] styles[e].1@[t]).sections@,
            n,
        )
    ||| sections_define(page.sections@, n)
    ||| (document.is_some() && sections_define(document.unwrap().sections@, n))
}

/// The style a shape names for one style kind.
pub open spec fn own_style(shape: Shape, kind: Provenance) -> Option<u32> {
    match kind {
        Provenance::StyleLine => shape.line_style,
        Provenance::StyleFill => shape.fill_style,
        _ => shape.text_style,
    }
}

/// Matches a master link whose shape names a style of the kind.
pub open spec fn master_styled<'x>(kind: Provenance) -> spec_fn((Provenance, &'x Shape)) -> bool {
    |m: (Provenance, &'x Shape)| own_style(*m.1, kind).is_some()
}

/// The style of a kind that applies to a shape: its own, or else that of the
/// nearest master in its chain that names one.
pub open spec fn effective_style(
    shape: Shape,
    masters: Seq<(Provenance, &Shape)>,
    kind: Provenance,
) -> Option<u32> {
    match own_style(shape, kind) {
        Some(s) => Some(s),
        None => match find_first(masters, master_styled(kind)) {
            Some(m) => own_style(*m.1, kind),
            None => None,
        },
    }
}

/// The three style chains of a shape: line, fill and text, in that order,
/// each starting at the style of that kind that applies to the shape.
pub open spec fn style_chains_ok(
    styles_of: Seq<Sheet>,
    shape: Shape,
    masters: Seq<(Provenance, &Shape)>,
    styles: Seq<(Provenance, Vec<&Sheet>)>,
) -> bool {
    &&& styles.len() == 3
    &&& styles[0].0 == Provenance::StyleLine && is_style_chain(
        styles_of,
        effective_style(shape, masters, Provenance::StyleLine),
        styles[0].1@,
    )
    &&& styles[1].0 == Provenance::StyleFill && is_style_chain(
        styles_of,
        effective_style(shape, masters, Provenance::StyleFill),
        styles[1].1@,
    )
    &&& styles[2].0 == Provenance::StyleText && is_style_chain(
        styles_of,
        effective_style(shape, masters, Provenance::StyleText),
        styles[2].1@,
    )
}

/// One of the style chains that apply to a shape loops.
pub open spec fn styles_cycle(
    styles_of: Seq<Sheet>,
    shape: Shape,
    masters: Seq<(Provenance, &Shape)>,
) -> bool {
    ||| style_chain_cycles(styles_of, effective_style(shape, masters, Provenance::StyleLine))
    ||| style_chain_cycles(styles_of, effective_style(shape, masters, Provenance::StyleFill))
    ||| style_chain_cycles(styles_of, effective_style(shape, masters, Provenance::StyleText))
}

/// A style chain starting at `start` exists: it runs to its end.
pub open spec fn style_chain_ends(styles_of: Seq<Sheet>, start: Option<u32>) -> bool {
    exists|chain: Seq<&Sheet>| #[trigger] is_style_chain(styles_of, start, chain)
}

/// One of the style chains that apply to a shape loops, checked in the order
/// line, fill, text; `message` reports the first that loops (the ones before
/// it run to their end).
pub open spec fn styles_cycle_reported(
    styles_of: Seq<Sheet>,
    shape: Shape,
    masters: Seq<(Provenance, &Shape)>,
    message: Seq<char>,
) -> bool {
    let line = effective_style(shape, masters, Provenance::StyleLine);
    let fill = effective_style(shape, masters, Provenance::StyleFill);
    let text = effective_style(shape, masters, Provenance::StyleText);
    ||| style_cycle_reported(styles_of, line, message)
    ||| style_chain_ends(styles_of, line) && style_cycle_reported(styles_of, fill, message)
    ||| style_chain_ends(styles_of, line) && style_chain_ends(styles_of, fill)
        && style_cycle_reported(styles_of, text, message)
}

/// The error resolving a shape reports: a missing master by its ID; a master
/// chain that loops or passes the maximum depth, or (with a sound master
/// chain) a looping style chain, as a cycle with its message.
pub open spec fn resolution_error<'a>(
    package: VsdxPackage,
    shape: Shape,
    enclosing: Option<u32>,
    e: ResolveError,
) -> bool {
    match e {
        ResolveError::MissingMaster(m) => master_missing(package, shape, enclosing, m),
        ResolveError::Cycle(msg) => master_cycle_reported(package, shape, enclosing, msg@) || exists|
            masters: Seq<(Provenance, &'a Shape)>,
        |
            #[trigger] is_master_chain(package, shape, enclosing, masters) && styles_cycle_reported(
                package.style_sheets@,
                shape,
                masters,
                msg@,
            ),
        _ => false,
    }
}

/// Resolving a shape fails: its master chain fails, or one of the style
/// chains that apply to it loops.
pub open spec fn resolution_fails<'a>(package: VsdxPackage, shape: Shape, enclosing: Option<u32>) -> bool {
    ||| master_chain_fails(package, shape, enclosing)
    ||| exists|masters: Seq<(Provenance, &'a Shape)>|
        #[trigger] is_master_chain(package, shape, enclosing, masters) && styles_cycle(
            package.style_sheets@,
            shape,
            masters,
        )
}

/// A resolved shape agrees with its layers: a deleted shape resolves to an
/// empty deleted shape; otherwise every name any layer defines appears once, in name order,
/// resolved through the chains.
pub open spec fn shape_matches(
    res: ResolvedShape,
    shape: Shape,
    masters: Seq<(Provenance, &Shape)>,
    styles: Seq<(Provenance, Vec<&Sheet>)>,
    page: Sheet,
    document: Option<Sheet>,
    defaults: Seq<Cell>,
) -> bool {
    if shape.del {
        res.deleted && res.cells@.len() == 0 && res.sections@.len() == 0
    } else {
        &&& !res.deleted
        &&& strs(res.cells@.map_values(|c: (String, Lookup)| c.0)).no_duplicates()
        &&& ascending(strs(res.cells@.map_values(|c: (String, Lookup)| c.0)))
        &&& forall|k: int|
            0 <= k < res.cells@.len() ==> layer_cell_name(
                shape,
                masters,
                styles,
                page,
                document,
                defaults,
                (#[trigger] res.cells@[k]).0@,
            ) && res.cells@[k].1 == spec_resolve_cell(
                shape,
                masters,
                styles,
                page,
                document,
                defaults,
                res.cells@[k].0@,
            )
        &&& forall|n: Seq<char>|
            #[trigger] layer_cell_name(shape, masters, styles, page, document, defaults, n)
                ==> exists|k: int| 0 <= k < res.cells@.len() && (#[trigger] res.cells@[k]).0@ == n
        &&& strs(res.sections@.map_values(|s: ResolvedSection| s.name)).no_duplicates()
        &&& ascending(strs(res.sections@.map_values(|s: ResolvedSection| s.name)))
        &&& forall|k: int|
            0 <= k < res.sections@.len() ==> layer_section_name(
                shape,
                masters,
                styles,
                page,
                document,
                (#[trigger] res.sections@[k]).name@,
            ) && section_matches(
                res.sections@[k],
                spec_section_sources(shape, masters, styles, page, document, res.sections@[k].name@),
                res.sections@[k].name@,
            )
        &&& forall|n: Seq<char>|
            #[trigger] layer_section_name(shape, masters, styles, page, document, n) ==> exists|
                k: int,
            | 0 <= k < res.sections@.len() && (#[trigger] res.sections@[k]).name@ == n
    }
}

/// `r` is the resolution of `shape` on `page` through its master chain (with
/// `enclosing` the master of its nearest enclosing group) and its three style chains.
pub open spec fn resolves_to<'a>(
    package: VsdxPackage,
    defaults: Seq<Cell>,
    shape: Shape,
    enclosing: Option<u32>,
    page: Sheet,
    r: ResolvedShape,
) -> bool {
    exists|masters: Seq<(Provenance, &'a Shape)>, styles: Seq<(Provenance, Vec<&'a Sheet>)>|
        #![trigger is_master_chain(package, shape, enclosing, masters), style_chains_ok(package.style_sheets@, shape, masters, styles)]
        is_master_chain(package, shape, enclosing, masters) && style_chains_ok(
            package.style_sheets@,
            shape,
            masters,
            styles,
        ) && shape_matches(r, shape, masters, styles, page, package.document_sheet, defaults)
}

/// The sheet whose cells a page's shapes inherit: the catalogued page sheet
/// for the part's page ID, or else the page contents themselves.
pub open spec fn spec_page_sheet(package: VsdxPackage, page_part: Seq<char>, contents: Sheet) -> Sheet {
    match spec_id_at(package.page_part_ids@, page_part) {
        Some(id) => match spec_catalog_sheet(package.page_sheets@, id) {
            Some(s) => s,
            None => contents,
        },
        None => contents,
    }
}

/// Matches a resolved section by name.
pub open spec fn resolved_section_named(name: Seq<char>) -> spec_fn(ResolvedSection) -> bool {
    |s: ResolvedSection| s.name@ == name
}

/// Matches a resolved row by key.
pub open spec fn resolved_row_keyed(key: Seq<char>) -> spec_fn(ResolvedRow) -> bool {
    |r: ResolvedRow| r.key@ == key
}

/// The resolved cells of row `IX:<index>` of a section, or none.
pub open spec fn spec_row_properties(resolved: ResolvedShape, section: Seq<char>, index: u32) -> Seq<
    (String, Lookup),
> {
    match find_first(resolved.sections@, resolved_section_named(section)) {
        Some(sec) => match find_first(
            sec.rows@,
            resolved_row_keyed("IX:"@ + decimal(index as nat)),
        ) {
            Some(row) => row.cells@,
            None => Seq::empty(),
        },
        None => Seq::empty(),
    }
}

/// A resolved text token stands for a text token: literals carry their text,
/// markers carry their index and the resolved cells of the matching row of
/// the Character, Paragraph, Tabs or Field section.
pub open spec fn token_matches(t: TextToken, rt: ResolvedTextToken, r: ResolvedShape) -> bool {
    match t {
        TextToken::Literal(text) => rt == ResolvedTextToken::Literal(text),
        TextToken::CharacterRun(i) => rt matches ResolvedTextToken::CharacterRun {
            index,
            properties,
        } && index == i && properties@ == spec_row_properties(r, "Character"@, i),
        TextToken::ParagraphRun(i) => rt matches ResolvedTextToken::ParagraphRun {
            index,
            properties,
        } && index == i && properties@ == spec_row_properties(r, "Paragraph"@, i),
        TextToken::Tab(i) => rt matches ResolvedTextToken::Tab { index, properties } && index
            == i && properties@ == spec_row_properties(r, "Tabs"@, i),
        TextToken::Field(i) => rt matches ResolvedTextToken::Field { index, properties } && index
            == i && properties@ == spec_row_properties(r, "Field"@, i),
    }
}

/// The tokens of a shape's text, or none.
pub open spec fn text_tokens(shape: Shape) -> Seq<TextToken> {
    match shape.text {
        Some(t) => t@,
        None => Seq::empty(),
    }
}

/// Matches a master link whose shape has a text element.
pub open spec fn master_with_text<'x>() -> spec_fn((Provenance, &'x Shape)) -> bool {
    |m: (Provenance, &'x Shape)| m.1.text.is_some()
}

/// The text a shape shows: its own when it has a text element, else that of
/// the nearest master in its chain with one.
pub open spec fn shown_text(shape: Shape, masters: Seq<(Provenance, &Shape)>) -> Seq<TextToken> {
    if shape.text.is_some() {
        text_tokens(shape)
    } else {
        match find_first(masters, master_with_text()) {
            Some(m) => text_tokens(*m.1),
            None => Seq::empty(),
        }
    }
}

/// A copy of resolved cell entries.
pub fn copy_entries(v: &Vec<(String, Lookup)>) -> (res: Vec<(String, Lookup)>)
    ensures
        res@ == v@,
{
    let mut out: Vec<(String, Lookup)> = Vec::new();
    let mut i: usize = 0;
    while i < v.len()
        invariant
            i <= v@.len(),
            out@ =~= v@.take(i as int),
        decreases v.len() - i,
    {
        out.push((v[i].0.clone(), v[i].1.copy()));
        assert(v@.take(i + 1) =~= v@.take(i as int).push(v@[i as int]));
        i = i + 1;
    }
    assert(v@.take(v@.len() as int) =~= v@);
    out
}

/// The resolved cells of row `IX:<index>` of a resolved section, or none.
pub fn row_properties(resolved: &ResolvedShape, section: &str, index: u32) -> (res: Vec<
    (String, Lookup),
>)
    ensures
        res@ == spec_row_properties(*resolved, section@, index),
{
    let ghost p = resolved_section_named(section@);
    let mut i: usize = 0;
    while i < resolved.sections.len()
        invariant
            i <= resolved.sections@.len(),
            p == resolved_section_named(section@),
            forall|j: int| 0 <= j < i ==> !p(#[trigger] resolved.sections@[j]),
        decreases resolved.sections.len() - i,
    {
        if str_eq(resolved.sections[i].name.as_str(), section) {
            proof {
                lemma_find_first_skip(resolved.sections@, p, i as int);
                assert(resolved.sections@.skip(i as int)[0] == resolved.sections@[i as int]);
            }
            let sec = &resolved.sections[i];
            let mut key = owned("IX:");
            let digits = decimal_string(index);
            append(&mut key, digits.as_str());
            let ghost q = resolved_row_keyed(key@);
            let mut j: usize = 0;
            #[verifier::loop_isolation(false)]
            while j < sec.rows.len()
                invariant
                    j <= sec.rows@.len(),
                    q == resolved_row_keyed(key@),
                    forall|t: int| 0 <= t < j ==> !q(#[trigger] sec.rows@[t]),
                decreases sec.rows.len() - j,
            {
                if str_eq(sec.rows[j].key.as_str(), key.as_str()) {
                    proof {
                        lemma_find_first_skip(sec.rows@, q, j as int);
                        assert(sec.rows@.skip(j as int)[0] == sec.rows@[j as int]);
                    }
                    return copy_entries(&sec.rows[j].cells);
                }
                j = j + 1;
            }
            proof {
                lemma_find_first_index(sec.rows@, q);
            }
            return Vec::new();
        }
        i = i + 1;
    }
    proof {
        lemma_find_first_index(resolved.sections@, p);
    }
    Vec::new()
}

/// Adds the name of every section of `sections` to `names`.
fn add_section_names(names: &mut Vec<String>, sections: &Vec<Section>)
    requires
        unique_strs(old(names)@),
    ensures
        unique_strs(final(names)@),
        forall|n: Seq<char>|
            #[trigger] strs(final(names)@).contains(n) <==> strs(old(names)@).contains(n)
                || sections_define(sections@, n),
{
    let ghost before = strs(names@);
    let mut i: usize = 0;
    while i < sections.len()
        invariant
            i <= sections@.len(),
            unique_strs(names@),
            forall|n: Seq<char>|
                #[trigger] strs(names@).contains(n) <==> before.contains(n) || exists|j: int|
                    0 <= j < i && (#[trigger] sections@[j]).name@ == n,
        decreases sections.len() - i,
    {
        let ghost prev = strs(names@);
        push_unique(names, sections[i].name.as_str());
        proof {
            assert forall|n: Seq<char>|
                #[trigger] strs(names@).contains(n) <==> before.contains(n) || exists|j: int|
                    0 <= j < i + 1 && (#[trigger] sections@[j]).name@ == n by {
                assert(strs(names@).to_set().contains(n) == strs(names@).contains(n));
                assert(prev.to_set().contains(n) == prev.contains(n));
                if exists|j: int| 0 <= j < i + 1 && (#[trigger] sections@[j]).name@ == n {
                    let j = choose|j: int| 0 <= j < i + 1 && (#[trigger] sections@[j]).name@ == n;
                    if j < i {
                        assert(prev.contains(n));
                    }
                }
            }
        }
        i = i + 1;
    }
    proof {
        assert forall|n: Seq<char>|
            #[trigger] strs(names@).contains(n) <==> before.contains(n) || sections_define(
                sections@,
                n,
            ) by {
            lemma_find_first_index(sections@, section_named(n));
            if sections_define(sections@, n) {
                let k = first_index(sections@, section_named(n));
                assert(sections@[k].name@ == n);
            }
            if exists|j: int| 0 <= j < sections@.len() && (#[trigger] sections@[j]).name@ == n {
                let j = choose|j: int| 0 <= j < sections@.len() && (#[trigger] sections@[j]).name@ == n;
                assert(section_named(n)(sections@[j]));
            }
        }
    }
}

fn style_of(shape: &Shape, kind: Provenance) -> (res: Option<u32>)
    ensures
        res == own_style(*shape, kind),
{
    match kind {
        Provenance::StyleLine => shape.line_style,
        Provenance::StyleFill => shape.fill_style,
        _ => shape.text_style,
    }
}

/// The style of a kind that applies to a shape with the given master chain.
fn applied_style(shape: &Shape, masters: &Vec<(Provenance, &Shape)>, kind: Provenance) -> (res: Option<u32>)
    ensures
        res == effective_style(*shape, masters@, kind),
{
    match style_of(shape, kind) {
        Some(s) => Some(s),
        None => {
            let ghost p = master_styled(kind);
            let mut k: usize = 0;
            while k < masters.len()
                invariant
                    k <= masters@.len(),
                    p == master_styled(kind),
                    own_style(*shape, kind).is_none(),
                    forall|j: int| 0 <= j < k ==> !p(#[trigger] masters@[j]),
                decreases masters.len() - k,
            {
                let found = style_of(masters[k].1, kind);
                if found.is_some() {
                    proof {
                        lemma_find_first_skip(masters@, p, k as int);
                        assert(masters@.skip(k as int)[0] == masters@[k as int]);
                        assert(p(masters@[k as int]));
                        assert(find_first(masters@, p) == Some(masters@[k as int]));
                        assert(found == own_style(*masters@[k as int].1, kind));
                    }
                    return found;
                }
                k = k + 1;
            }
            proof {
                lemma_find_first_index(masters@, p);
            }
            None
        },
    }
}

fn first_master_with_text<'a>(masters: &Vec<(Provenance, &'a Shape)>) -> (res: Option<&'a Shape>)
    ensures
        match find_first(masters@, master_with_text()) {
            Some(m) => res == Some(m.1),
            None => res.is_none(),
        },
{
    let ghost p = master_with_text();
    let mut k: usize = 0;
    while k < masters.len()
        invariant
            k <= masters@.len(),
            p == master_with_text(),
            forall|j: int| 0 <= j < k ==> !p(#[trigger] masters@[j]),
        decreases masters.len() - k,
    {
        if masters[k].1.text.is_some() {
            proof {
                lemma_find_first_skip(masters@, p, k as int);
                assert(masters@.skip(k as int)[0] == masters@[k as int]);
                assert(p(masters@[k as int]));
            }
            return Some(masters[k].1);
        }
        k = k + 1;
    }
    proof {
        lemma_find_first_index(masters@, p);
    }
    None
}

impl<'a> Resolver<'a> {
    /// The line, fill and text style chains of a shape, each starting at the
    /// shape's own style of that kind or else that of its nearest master.
    pub fn style_chains(&self, shape: &Shape, masters: &Vec<(Provenance, &'a Shape)>) -> (res: Result<
        Vec<(Provenance, Vec<&'a Sheet>)>,
        ResolveError,
    >)
        ensures
            res matches Ok(v) ==> style_chains_ok(self.package.style_sheets@, *shape, masters@, v@),
            res is Err ==> styles_cycle(self.package.style_sheets@, *shape, masters@),
            res matches Err(e) ==> e is Cycle,
            res matches Err(ResolveError::Cycle(m)) ==> styles_cycle_reported(
                self.package.style_sheets@,
                *shape,
                masters@,
                m@,
            ),
    {
        let line = self.style_chain(applied_style(shape, masters, Provenance::StyleLine))?;
        let fill = self.style_chain(applied_style(shape, masters, Provenance::StyleFill))?;
        let text = self.style_chain(applied_style(shape, masters, Provenance::StyleText))?;
        let mut out: Vec<(Provenance, Vec<&'a Sheet>)> = Vec::new();
        out.push((Provenance::StyleLine, line));
        out.push((Provenance::StyleFill, fill));
        out.push((Provenance::StyleText, text));
        Ok(out)
    }

    /// The names of every cell any layer of the shape defines, once each.
    fn layer_cell_names(
        &self,
        shape: &'a Shape,
        masters: &Vec<(Provenance, &'a Shape)>,
        styles: &Vec<(Provenance, Vec<&'a Sheet>)>,
        page: &'a Sheet,
    ) -> (res: Vec<String>)
        ensures
            unique_strs(res@),
            forall|n: Seq<char>|
                #[trigger] strs(res@).contains(n) <==> layer_cell_name(
                    *shape,
                    masters@,
                    styles@,
                    *page,
                    self.package.document_sheet,
                    self.defaults@,
                    n,
                ),
    {
        let mut names: Vec<String> = Vec::new();
        add_cell_names(&mut names, &shape.cells);
        let mut k: usize = 0;
        while k < masters.len()
            invariant
                k <= masters@.len(),
                unique_strs(names@),
                forall|n: Seq<char>|
                    #[trigger] strs(names@).contains(n) <==> cells_define(shape.cells@, n) || exists|
                        j: int,
                    | 0 <= j < k && cells_define((#[trigger] masters@[j]).1.cells@, n),
            decreases masters.len() - k,
        {
            let ghost prev = strs(names@);
            let master: &'a Shape = masters[k].1;
            add_cell_names(&mut names, &master.cells);
            proof {
                assert forall|n: Seq<char>|
                    #[trigger] strs(names@).contains(n) <==> cells_define(shape.cells@, n) || exists|
                        j: int,
                    | 0 <= j < k + 1 && cells_define((#[trigger] masters@[j]).1.cells@, n) by {
                    if exists|j: int| 0 <= j < k + 1 && cells_define((#[trigger] masters@[j]).1.cells@, n) {
                        let j = choose|j: int|
                            0 <= j < k + 1 && cells_define((#[trigger] masters@[j]).1.cells@, n);
                        if j < k {
                            assert(prev.contains(n));
                        }
                    }
                }
            }
            k = k + 1;
        }
        let mut e: usize = 0;
        while e < styles.len()
            invariant
                e <= styles@.len(),
                unique_strs(names@),
                forall|n: Seq<char>|
                    #[trigger] strs(names@).contains(n) <==> cells_define(shape.cells@, n) || (exists|
                        j: int,
                    | 0 <= j < masters@.len() && cells_define((#[trigger] masters@[j]).1.cells@, n))
                        || exists|a: int, t: int|
                        0 <= a < e && 0 <= t < styles@[a].1@.len() && cells_define(
                            (#[trigger] styles@[a].1@[t]).cells@,
                            n,
                        ),
            decreases styles.len() - e,
        {
            let chain = &styles[e].1;
            let mut t: usize = 0;
            while t < chain.len()
                invariant
                    e < styles@.len(),
                    chain == &styles@[e as int].1,
                    t <= chain@.len(),
                    unique_strs(names@),
                    forall|n: Seq<char>|
                        #[trigger] strs(names@).contains(n) <==> cells_define(shape.cells@, n) || (
                        exists|j: int|
                            0 <= j < masters@.len() && cells_define(
                                (#[trigger] masters@[j]).1.cells@,
                                n,
                            )) || (exists|a: int, u: int|
                            0 <= a < e && 0 <= u < styles@[a].1@.len() && cells_define(
                                (#[trigger] styles@[a].1@[u]).cells@,
                                n,
                            )) || exists|u: int|
                            0 <= u < t && cells_define((#[trigger] chain@[u]).cells@, n),
                decreases chain.len() - t,
            {
                let ghost prev = strs(names@);
                let sheet: &'a Sheet = chain[t];
                add_cell_names(&mut names, &sheet.cells);
                proof {
                    assert forall|n: Seq<char>|
                        #[trigger] strs(names@).contains(n) <==> cells_define(shape.cells@, n) || (
                        exists|j: int|
                            0 <= j < masters@.len() && cells_define(
                                (#[trigger] masters@[j]).1.cells@,
                                n,
                            )) || (exists|a: int, u: int|
                            0 <= a < e && 0 <= u < styles@[a].1@.len() && cells_define(
                                (#[trigger] styles@[a].1@[u]).cells@,
                                n,
                            )) || exists|u: int|
                            0 <= u < t + 1 && cells_define((#[trigger] chain@[u]).cells@, n) by {
                        if exists|u: int| 0 <= u < t + 1 && cells_define((#[trigger] chain@[u]).cells@, n) {
                            let u = choose|u: int|
                                0 <= u < t + 1 && cells_define((#[trigger] chain@[u]).cells@, n);
                            if u < t {
                                assert(prev.contains(n));
                            }
                        }
                    }
                }
                t = t + 1;
            }
            proof {
                assert forall|n: Seq<char>|
                    #[trigger] strs(names@).contains(n) <==> cells_define(shape.cells@, n) || (exists|
                        j: int,
                    | 0 <= j < masters@.len() && cells_define((#[trigger] masters@[j]).1.cells@, n))
                        || exists|a: int, u: int|
                        0 <= a < e + 1 && 0 <= u < styles@[a].1@.len() && cells_define(
                            (#[trigger] styles@[a].1@[u]).cells@,
                            n,
                        ) by {
                    if exists|a: int, u: int|
                        0 <= a < e + 1 && 0 <= u < styles@[a].1@.len() && cells_define(
                            (#[trigger] styles@[a].1@[u]).cells@,
                            n,
                        ) {
                        let (a, u) = choose|a: int, u: int|
                            0 <= a < e + 1 && 0 <= u < styles@[a].1@.len() && cells_define(
                                (#[trigger] styles@[a].1@[u]).cells@,
                                n,
                            );
                        if a == e {
                            assert(chain@[u] == styles@[a].1@[u]);
                        }
                    }
                    if exists|u: int| 0 <= u < chain@.len() && cells_define((#[trigger] chain@[u]).cells@, n) {
                        let u = choose|u: int|
                            0 <= u < chain@.len() && cells_define((#[trigger] chain@[u]).cells@, n);
                        assert(styles@[e as int].1@[u] == chain@[u]);
                    }
                }
            }
            e = e + 1;
        }
        add_cell_names(&mut names, &page.cells);
        match &self.package.document_sheet {
            Some(d) => add_cell_names(&mut names, &d.cells),
            None => {},
        }
        add_cell_names(&mut names, &self.defaults);
        names
    }

    /// The names of every section any layer of the shape defines, once each.
    fn layer_section_names(
        &self,
        shape: &'a Shape,
        masters: &Vec<(Provenance, &'a Shape)>,
        styles: &Vec<(Provenance, Vec<&'a Sheet>)>,
        page: &'a Sheet,
    ) -> (res: Vec<String>)
        ensures
            unique_strs(res@),
            forall|n: Seq<char>|
                #[trigger] strs(res@).contains(n) <==> layer_section_name(
                    *shape,
                    masters@,
                    styles@,
                    *page,
                    self.package.document_sheet,
                    n,
                ),
    {
        let mut names: Vec<String> = Vec::new();
        add_section_names(&mut names, &shape.sections);
        let mut k: usize = 0;
        while k < masters.len()
            invariant
                k <= masters@.len(),
                unique_strs(names@),
                forall|n: Seq<char>|
                    #[trigger] strs(names@).contains(n) <==> sections_define(shape.sections@, n)
                        || exists|j: int|
                        0 <= j < k && sections_define((#[trigger] masters@[j]).1.sections@, n),
            decreases masters.len() - k,
        {
            let ghost prev = strs(names@);
            let master: &'a Shape = masters[k].1;
            add_section_names(&mut names, &master.sections);
            proof {
                assert forall|n: Seq<char>|
                    #[trigger] strs(names@).contains(n) <==> sections_define(shape.sections@, n)
                        || exists|j: int|
                        0 <= j < k + 1 && sections_define((#[trigger] masters@[j]).1.sections@, n) by {
                    if exists|j: int|
                        0 <= j < k + 1 && sections_define((#[trigger] masters@[j]).1.sections@, n) {
                        let j = choose|j: int|
                            0 <= j < k + 1 && sections_define((#[trigger] masters@[j]).1.sections@, n);
                        if j < k {
                            assert(prev.contains(n));
                        }
                    }
                }
            }
            k = k + 1;
        }
        let mut e: usize = 0;
        while e < styles.len()
            invariant
                e <= styles@.len(),
                unique_strs(names@),
                forall|n: Seq<char>|
                    #[trigger] strs(names@).contains(n) <==> sections_define(shape.sections@, n) || (
                    exists|j: int|
                        0 <= j < masters@.len() && sections_define(
                            (#[trigger] masters@[j]).1.sections@,
                            n,
                        )) || exists|a: int, t: int|
                        0 <= a < e && 0 <= t < styles@[a].1@.len() && sections_define(
                            (#[trigger] styles@[a].1@[t]).sections@,
                            n,
                        ),
            decreases styles.len() - e,
        {
            let chain = &styles[e].1;
            let mut t: usize = 0;
            while t < chain.len()
                invariant
                    e < styles@.len(),
                    chain == &styles@[e as int].1,
                    t <= chain@.len(),
                    unique_strs(names@),
                    forall|n: Seq<char>|
                        #[trigger] strs(names@).contains(n) <==> sections_define(shape.sections@, n)
                            || (exists|j: int|
                            0 <= j < masters@.len() && sections_define(
                                (#[trigger] masters@[j]).1.sections@,
                                n,
                            )) || (exists|a: int, u: int|
                            0 <= a < e && 0 <= u < styles@[a].1@.len() && sections_define(
                                (#[trigger] styles@[a].1@[u]).sections@,
                                n,
                            )) || exists|u: int|
                            0 <= u < t && sections_define((#[trigger] chain@[u]).sections@, n),
                decreases chain.len() - t,
            {
                let ghost prev = strs(names@);
                let sheet: &'a Sheet = chain[t];
                add_section_names(&mut names, &sheet.sections);
                proof {
                    assert forall|n: Seq<char>|
                        #[trigger] strs(names@).contains(n) <==> sections_define(shape.sections@, n)
                            || (exists|j: int|
                            0 <= j < masters@.len() && sections_define(
                                (#[trigger] masters@[j]).1.sections@,
                                n,
                            )) || (exists|a: int, u: int|
                            0 <= a < e && 0 <= u < styles@[a].1@.len() && sections_define(
                                (#[trigger] styles@[a].1@[u]).sections@,
                                n,
                            )) || exists|u: int|
                            0 <= u < t + 1 && sections_define((#[trigger] chain@[u]).sections@, n) by {
                        if exists|u: int|
                            0 <= u < t + 1 && sections_define((#[trigger] chain@[u]).sections@, n) {
                            let u = choose|u: int|
                                0 <= u < t + 1 && sections_define((#[trigger] chain@[u]).sections@, n);
                            if u < t {
                                assert(prev.contains(n));
                            }
                        }
                    }
                }
                t = t + 1;
            }
            proof {
                assert forall|n: Seq<char>|
                    #[trigger] strs(names@).contains(n) <==> sections_define(shape.sections@, n) || (
                    exists|j: int|
                        0 <= j < masters@.len() && sections_define(
                            (#[trigger] masters@[j]).1.sections@,
                            n,
                        )) || exists|a: int, u: int|
                        0 <= a < e + 1 && 0 <= u < styles@[a].1@.len() && sections_define(
                            (#[trigger] styles@[a].1@[u]).sections@,
                            n,
                        ) by {
                    if exists|a: int, u: int|
                        0 <= a < e + 1 && 0 <= u < styles@[a].1@.len() && sections_define(
                            (#[trigger] styles@[a].1@[u]).sections@,
                            n,
                        ) {
                        let (a, u) = choose|a: int, u: int|
                            0 <= a < e + 1 && 0 <= u < styles@[a].1@.len() && sections_define(
                                (#[trigger] styles@[a].1@[u]).sections@,
                                n,
                            );
                        if a == e {
                            assert(chain@[u] == styles@[a].1@[u]);
                        }
                    }
                    if exists|u: int|
                        0 <= u < chain@.len() && sections_define((#[trigger] chain@[u]).sections@, n) {
                        let u = choose|u: int|
                            0 <= u < chain@.len() && sections_define((#[trigger] chain@[u]).sections@, n);
                        assert(styles@[e as int].1@[u] == chain@[u]);
                    }
                }
            }
            e = e + 1;
        }
        add_section_names(&mut names, &page.sections);
        match &self.package.document_sheet {
            Some(d) => add_section_names(&mut names, &d.sections),
            None => {},
        }
        names
    }

    /// Every cell and section of `shape` on `page`, resolved through its
    /// master and style chains; a deleted shape resolves to an empty deleted shape.
    pub fn resolve_shape_ref(&self, shape: &'a Shape, enclosing: Option<u32>, page: &'a Sheet) -> (res: Result<
        ResolvedShape,
        ResolveError,
    >)
        ensures
            shape.del ==> (res matches Ok(r) && r.deleted && r.cells@.len() == 0
                && r.sections@.len() == 0),
            res matches Ok(r) ==> shape.del || resolves_to(
                *self.package,
                self.defaults@,
                *shape,
                enclosing,
                *page,
                r,
            ),
            res is Err ==> !shape.del && resolution_fails(*self.package, *shape, enclosing),
            res matches Err(e) ==> e is Cycle || e is MissingMaster,
            res matches Err(e) ==> resolution_error(*self.package, *shape, enclosing, e),
    {
        if shape.del {
            return Ok(ResolvedShape { deleted: true, cells: Vec::new(), sections: Vec::new() });
        }
        let masters = match self.master_chain(shape, enclosing) {
            Ok(m) => m,
            Err(e) => {
                proof {
                    if e is MissingMaster {
                        let m = e->MissingMaster_0;
                        assert(master_missing(*self.package, *shape, enclosing, m));
                    }
                }
                return Err(e);
            },
        };
        let styles = match self.style_chains(shape, &masters) {
            Ok(v) => v,
            Err(e) => {
                proof {
                    assert(is_master_chain(*self.package, *shape, enclosing, masters@));
                }
                return Err(e);
            },
        };
        let names = sorted_strs(self.layer_cell_names(shape, &masters, &styles, page));
        let mut cells: Vec<(String, Lookup)> = Vec::new();
        let mut k: usize = 0;
        while k < names.len()
            invariant
                k <= names@.len(),
                unique_strs(names@),
                ascending(strs(names@)),
                cells@.len() == k,
                forall|t: int| 0 <= t < k ==> (#[trigger] cells@[t]).0@ == names@[t]@,
                forall|t: int|
                    0 <= t < k ==> (#[trigger] cells@[t]).1 == spec_resolve_cell(
                        *shape,
                        masters@,
                        styles@,
                        *page,
                        self.package.document_sheet,
                        self.defaults@,
                        cells@[t].0@,
                    ),
            decreases names.len() - k,
        {
            let lookup = self.resolve_cell(shape, &masters, &styles, page, names[k].as_str());
            cells.push((names[k].clone(), lookup));
            k = k + 1;
        }
        let section_names = sorted_strs(self.layer_section_names(shape, &masters, &styles, page));
        let mut sections: Vec<ResolvedSection> = Vec::new();
        let mut j: usize = 0;
        while j < section_names.len()
            invariant
                j <= section_names@.len(),
                unique_strs(section_names@),
                ascending(strs(section_names@)),
                sections@.len() == j,
                forall|t: int| 0 <= t < j ==> (#[trigger] sections@[t]).name@ == section_names@[t]@,
                forall|t: int|
                    0 <= t < j ==> section_matches(
                        #[trigger] sections@[t],
                        spec_section_sources(
                            *shape,
                            masters@,
                            styles@,
                            *page,
                            self.package.document_sheet,
                            sections@[t].name@,
                        ),
                        sections@[t].name@,
                    ),
            decreases section_names.len() - j,
        {
            let section = self.resolve_section(
                shape,
                &masters,
                &styles,
                page,
                section_names[j].as_str(),
            );
            sections.push(section);
            j = j + 1;
        }
        let res = ResolvedShape { deleted: false, cells, sections };
        proof {
            let cn = res.cells@.map_values(|c: (String, Lookup)| c.0);
            assert(strs(cn) =~= strs(names@)) by {
                assert forall|t: int| 0 <= t < strs(cn).len() implies strs(cn)[t] == strs(names@)[t] by {
                    assert(res.cells@[t].0@ == names@[t]@);
                }
            }
            let sn = res.sections@.map_values(|s: ResolvedSection| s.name);
            assert(strs(sn) =~= strs(section_names@)) by {
                assert forall|t: int| 0 <= t < strs(sn).len() implies strs(sn)[t] == strs(
                    section_names@,
                )[t] by {
                    assert(res.sections@[t].name@ == section_names@[t]@);
                }
            }
            assert forall|t: int| 0 <= t < res.cells@.len() implies layer_cell_name(
                *shape,
                masters@,
                styles@,
                *page,
                self.package.document_sheet,
                self.defaults@,
                (#[trigger] res.cells@[t]).0@,
            ) by {
                assert(strs(names@)[t] == names@[t]@);
                assert(strs(names@).contains(names@[t]@));
            }
            assert forall|n: Seq<char>|
                #[trigger] layer_cell_name(
                    *shape,
                    masters@,
                    styles@,
                    *page,
                    self.package.document_sheet,
                    self.defaults@,
                    n,
                ) implies exists|t: int| 0 <= t < res.cells@.len() && (#[trigger] res.cells@[t]).0@ == n by {
                assert(strs(names@).contains(n));
                let t = choose|t: int| 0 <= t < strs(names@).len() && strs(names@)[t] == n;
                assert(res.cells@[t].0@ == n);
            }
            assert forall|t: int| 0 <= t < res.sections@.len() implies layer_section_name(
                *shape,
                masters@,
                styles@,
                *page,
                self.package.document_sheet,
                (#[trigger] res.sections@[t]).name@,
            ) by {
                assert(strs(section_names@)[t] == section_names@[t]@);
                assert(strs(section_names@).contains(section_names@[t]@));
            }
            assert forall|n: Seq<char>|
                #[trigger] layer_section_name(
                    *shape,
                    masters@,
                    styles@,
                    *page,
                    self.package.document_sheet,
                    n,
                ) implies exists|t: int|
                0 <= t < res.sections@.len() && (#[trigger] res.sections@[t]).name@ == n by {
                assert(strs(section_names@).contains(n));
                let t = choose|t: int|
                    0 <= t < strs(section_names@).len() && strs(section_names@)[t] == n;
                assert(res.sections@[t].name@ == n);
            }
            assert(is_master_chain(*self.package, *shape, enclosing, masters@) && style_chains_ok(
                self.package.style_sheets@,
                *shape,
                masters@,
                styles@,
            ) && shape_matches(
                res,
                *shape,
                masters@,
                styles@,
                *page,
                self.package.document_sheet,
                self.defaults@,
            ));
            assert(resolves_to(*self.package, self.defaults@, *shape, enclosing, *page, res));
        }
        Ok(res)
    }

    /// The resolved shape with page-local ID `shape_id` on the page part
    /// `page_part`: the first such shape in pre-order, inheriting through the
    /// master of its nearest enclosing group when it names only a master shape.
    pub fn resolve_shape(&self, page_part: &str, shape_id: u32) -> (res: Result<
        ResolvedShape,
        ResolveError,
    >)
        ensures
            spec_sheet_at(self.package.page_contents@, page_part@).is_none() ==> (res matches Err(
                ResolveError::MissingPage(p),
            ) && p@ == page_part@),
            spec_sheet_at(self.package.page_contents@, page_part@) matches Some(contents) ==> {
                let page = spec_page_sheet(*self.package, page_part@, contents);
                match find_first(with_enclosing(contents.shapes@, None), entry_with_id(shape_id)) {
                    None => res matches Err(e) && e == ResolveError::MissingShape(shape_id),
                    Some(entry) => {
                        let shape = entry.0;
                        &&& shape.del ==> (res matches Ok(r) && r.deleted && r.cells@.len() == 0
                            && r.sections@.len() == 0)
                        &&& res matches Ok(r) ==> shape.del || resolves_to(
                            *self.package,
                            self.defaults@,
                            shape,
                            entry.1,
                            page,
                            r,
                        )
                        &&& res is Err ==> !shape.del && resolution_fails(
                            *self.package,
                            shape,
                            entry.1,
                        )
                        &&& res matches Err(e) ==> resolution_error(*self.package, shape, entry.1, e)
                    },
                }
            },
    {
        let package: &'a VsdxPackage = self.package;
        let contents: &'a Sheet = match sheet_at(&package.page_contents, page_part) {
            Some(c) => c,
            None => {
                return Err(ResolveError::MissingPage(owned(page_part)));
            },
        };
        let (shape, enclosing) = match find_shape_with_enclosing(contents, shape_id) {
            Some(e) => e,
            None => {
                return Err(ResolveError::MissingShape(shape_id));
            },
        };
        let page: &'a Sheet = match id_at(&package.page_part_ids, page_part) {
            Some(id) => match catalog_sheet(&package.page_sheets, id) {
                Some(s) => s,
                None => contents,
            },
            None => contents,
        };
        self.resolve_shape_ref(shape, enclosing, page)
    }

    /// The text tokens of `shape` with the run properties their markers resolve to.
    pub fn resolve_text(&self, shape: &'a Shape, page: &'a Sheet) -> (res: Result<
        Vec<ResolvedTextToken>,
        ResolveError,
    >)
        ensures
            res matches Ok(tokens) ==> exists|r: ResolvedShape|
                #![trigger r.deleted]
                (shape.del ==> r.deleted && r.cells@.len() == 0 && r.sections@.len() == 0) && (
                shape.del || resolves_to(*self.package, self.defaults@, *shape, None, *page, r))
                    && tokens@.len() == text_tokens(*shape).len() && forall|i: int|
                    0 <= i < tokens@.len() ==> token_matches(
                        text_tokens(*shape)[i],
                        #[trigger] tokens@[i],
                        r,
                    ),
            res is Err ==> !shape.del && resolution_fails(*self.package, *shape, None),
            res matches Err(e) ==> resolution_error(*self.package, *shape, None, e),
    {
        let resolved = self.resolve_shape_ref(shape, None, page)?;
        let mut out: Vec<ResolvedTextToken> = Vec::new();
        match &shape.text {
            Some(tokens) => {
                let mut i: usize = 0;
                while i < tokens.len()
                    invariant
                        i <= tokens@.len(),
                        text_tokens(*shape) == tokens@,
                        out@.len() == i,
                        forall|t: int|
                            0 <= t < i ==> token_matches(tokens@[t], #[trigger] out@[t], resolved),
                    decreases tokens.len() - i,
                {
                    let token = match &tokens[i] {
                        TextToken::Literal(value) => ResolvedTextToken::Literal(value.clone()),
                        TextToken::CharacterRun(index) => ResolvedTextToken::CharacterRun {
                            index: *index,
                            properties: row_properties(&resolved, "Character", *index),
                        },
                        TextToken::ParagraphRun(index) => ResolvedTextToken::ParagraphRun {
                            index: *index,
                            properties: row_properties(&resolved, "Paragraph", *index),
                        },
                        TextToken::Tab(index) => ResolvedTextToken::Tab {
                            index: *index,
                            properties: row_properties(&resolved, "Tabs", *index),
                        },
                        TextToken::Field(index) => ResolvedTextToken::Field {
                            index: *index,
                            properties: row_properties(&resolved, "Field", *index),
                        },
                    };
                    out.push(token);
                    i = i + 1;
                }
            },
            None => {},
        }
        proof {
            if !shape.del {
                assert(resolves_to(*self.package, self.defaults@, *shape, None, *page, resolved));
            }
            assert((shape.del ==> resolved.deleted && resolved.cells@.len() == 0
                && resolved.sections@.len() == 0) && (shape.del || resolves_to(
                *self.package,
                self.defaults@,
                *shape,
                None,
                *page,
                resolved,
            )) && out@.len() == text_tokens(*shape).len() && forall|i: int|
                0 <= i < out@.len() ==> token_matches(
                    text_tokens(*shape)[i],
                    #[trigger] out@[i],
                    resolved,
                ));
        }
        Ok(out)
    }

    /// The text tokens a shape shows, with the run properties their markers
    /// resolve to in `resolved` (the shape's own resolution): the shape's own
    /// text when it has a text element, else the text of the nearest master in
    /// its chain that has one. The page is not consulted again: `resolved`
    /// already carries its rows.
    pub fn resolve_text_in_context(
        &self,
        shape: &'a Shape,
        _page: &'a Sheet,
        resolved: &ResolvedShape,
    ) -> (res: Result<Vec<ResolvedTextToken>, ResolveError>)
        ensures
            res matches Ok(tokens) ==> exists|masters: Seq<(Provenance, &'a Shape)>|
                #[trigger] is_master_chain(*self.package, *shape, None, masters) && tokens@.len()
                    == shown_text(*shape, masters).len() && forall|i: int|
                    0 <= i < tokens@.len() ==> token_matches(
                        shown_text(*shape, masters)[i],
                        #[trigger] tokens@[i],
                        *resolved,
                    ),
            res is Err ==> master_chain_fails(*self.package, *shape, None),
            res matches Err(ResolveError::MissingMaster(m)) ==> master_missing(
                *self.package,
                *shape,
                None,
                m,
            ),
            res matches Err(ResolveError::Cycle(m)) ==> master_cycle_reported(
                *self.package,
                *shape,
                None,
                m@,
            ),
    {
        let masters = match self.master_chain(shape, None) {
            Ok(m) => m,
            Err(e) => {
                proof {
                    if e is MissingMaster {
                        let m = e->MissingMaster_0;
                        assert(master_missing(*self.package, *shape, None, m));
                    }
                }
                return Err(e);
            },
        };
        let source: &'a Shape = match &shape.text {
            Some(_) => shape,
            None => match first_master_with_text(&masters) {
                Some(m) => m,
                None => shape,
            },
        };
        assert(text_tokens(*source) == shown_text(*shape, masters@));
        let mut out: Vec<ResolvedTextToken> = Vec::new();
        match &source.text {
            Some(tokens) => {
                let mut i: usize = 0;
                while i < tokens.len()
                    invariant
                        i <= tokens@.len(),
                        text_tokens(*source) == tokens@,
                        out@.len() == i,
                        forall|t: int|
                            0 <= t < i ==> token_matches(tokens@[t], #[trigger] out@[t], *resolved),
                    decreases tokens.len() - i,
                {
                    let token = match &tokens[i] {
                        TextToken::Literal(value) => ResolvedTextToken::Literal(value.clone()),
                        TextToken::CharacterRun(index) => ResolvedTextToken::CharacterRun {
                            index: *index,
                            properties: row_properties(resolved, "Character", *index),
                        },
                        TextToken::ParagraphRun(index) => ResolvedTextToken::ParagraphRun {
                            index: *index,
                            properties: row_properties(resolved, "Paragraph", *index),
                        },
                        TextToken::Tab(index) => ResolvedTextToken::Tab {
                            index: *index,
                            properties: row_properties(resolved, "Tabs", *index),
                        },
                        TextToken::Field(index) => ResolvedTextToken::Field {
                            index: *index,
                            properties: row_properties(resolved, "Field", *index),
                        },
                    };
                    out.push(token);
                    i = i + 1;
                }
            },
            None => {},
        }
        assert(is_master_chain(*self.package, *shape, None, masters@));
        Ok(out)
    }
}

} // verus!
