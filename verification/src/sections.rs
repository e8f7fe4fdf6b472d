//! Section resolution: rows merge across the inheritance layers by key, a
//! deleted section stops inheritance from the layers behind it, and a
//! deleted row or cell hides what those layers define.

use vstd::prelude::*;

use crate::inheritance::{styles_for, Resolver};
use crate::names::{ascending, push_unique, sorted_strs, strs, unique_strs};
use crate::resolve_model::{
    copy_row_type, found, row_key, spec_found, spec_row_key, Lookup, Provenance, ResolvedRow,
    ResolvedSection,
};
use crate::seqs::{
    find_first, first_index, lemma_find_first_index, lemma_find_first_skip, lemma_find_first_some,
};
use crate::sheet::{cell_named, find_cell, find_section, section_named, Cell, Row, Section, Shape, Sheet};
use crate::text::{owned, str_eq};

verus! {

/// Sections whose rows the text style chain also supplies.
pub open spec fn is_text_section(name: Seq<char>) -> bool {
    name == "Character"@ || name == "Paragraph"@ || name == "Tabs"@ || name == "Field"@
}

/// The section each layer defines under `name`, nearest layer first: the
/// shape, its masters, the text style chain (for text sections), the page and
/// the document.
pub open spec fn spec_section_sources(
    shape: Shape,
    masters: Seq<(Provenance, &Shape)>,
    styles: Seq<(Provenance, Vec<&Sheet>)>,
    page: Sheet,
    document: Option<Sheet>,
    name: Seq<char>,
) -> Seq<(Provenance, Option<Section>)> {
    seq![(Provenance::Local, find_first(shape.sections@, section_named(name)))] + masters.map_values(
        |m: (Provenance, &Shape)| (m.0, find_first(m.1.sections@, section_named(name))),
    ) + (if is_text_section(name) {
        match find_first(styles, styles_for(Provenance::StyleText)) {
            Some(e) => e.1@.map_values(
                |s: &Sheet| (e.0, find_first(s.sections@, section_named(name))),
            ),
            None => Seq::empty(),
        }
    } else {
        Seq::empty()
    }) + seq![
        (Provenance::Page, find_first(page.sections@, section_named(name))),
        (
            Provenance::Document,
            match document {
                Some(d) => find_first(d.sections@, section_named(name)),
                None => None,
            },
        ),
    ]
}

/// The text sections are `Character`, `Paragraph`, `Tabs` and `Field`: for
/// each of them, and only for them, the sections of the text style chain
/// (nearest style first, with `StyleText` provenance) stand between the
/// masters' sections and the page's; every other section goes from the
/// masters straight to the page and the document.
pub proof fn lemma_text_sections_consult_text_styles(
    shape: Shape,
    masters: Seq<(Provenance, &Shape)>,
    styles: Seq<(Provenance, Vec<&Sheet>)>,
    page: Sheet,
    document: Option<Sheet>,
    name: Seq<char>,
)
    ensures
        ({
            let src = spec_section_sources(shape, masters, styles, page, document, name);
            let listed = name == "Tabs"@ || name == "Field"@ || name == "Character"@ || name
                == "Paragraph"@;
            let text = find_first(styles, styles_for(Provenance::StyleText));
            &&& src[0] == (Provenance::Local, find_first(shape.sections@, section_named(name)))
            &&& forall|m: int|
                0 <= m < masters.len() ==> #[trigger] src[1 + m] == (
                    masters[m].0,
                    find_first(masters[m].1.sections@, section_named(name)),
                )
            &&& listed ==> (text matches Some(e) ==> {
                &&& src.len() == masters.len() + e.1@.len() + 3
                &&& forall|k: int|
                    0 <= k < e.1@.len() ==> #[trigger] src[1 + masters.len() + k] == (
                        Provenance::StyleText,
                        find_first(e.1@[k].sections@, section_named(name)),
                    )
                &&& src[(1 + masters.len() + e.1@.len()) as int].0 == Provenance::Page
            })
            &&& !(listed && text is Some) ==> src.len() == masters.len() + 3 && src[(1
                + masters.len()) as int].0 == Provenance::Page
        }),
{
    let text = find_first(styles, styles_for(Provenance::StyleText));
    if text is Some {
        lemma_find_first_some(styles, styles_for(Provenance::StyleText));
    }
}

/// Style `k` of the text style chain is the nearest to define a section of
/// the name, it is not deleted, and it has a row under `key`.
pub open spec fn text_style_supplies(
    styles: Seq<(Provenance, Vec<&Sheet>)>,
    name: Seq<char>,
    k: int,
    key: Seq<char>,
) -> bool {
    match find_first(styles, styles_for(Provenance::StyleText)) {
        Some(e) => {
            &&& 0 <= k < e.1@.len()
            &&& forall|j: int|
                0 <= j < k ==> find_first((#[trigger] e.1@[j]).sections@, section_named(name)) is None
            &&& match find_first(e.1@[k].sections@, section_named(name)) {
                Some(sec) => !sec.del && section_has_key(sec, key),
                None => false,
            }
        },
        None => false,
    }
}

/// A row that the text style chain alone defines for a text section shows in
/// the resolved section. Here the shape and its masters define no section of
/// that name, the text styles nearer than style `k` define none either, and
/// style `k` defines one, not deleted, with a row under `key`; then a
/// resolution of the section (any result meeting `resolve_section`'s
/// contract) has a row under `key`.
pub proof fn lemma_text_style_rows_resolve(
    res: ResolvedSection,
    shape: Shape,
    masters: Seq<(Provenance, &Shape)>,
    styles: Seq<(Provenance, Vec<&Sheet>)>,
    page: Sheet,
    document: Option<Sheet>,
    name: Seq<char>,
    k: int,
    key: Seq<char>,
)
    requires
        name == "Tabs"@ || name == "Field"@ || name == "Character"@ || name == "Paragraph"@,
        section_matches(res, spec_section_sources(shape, masters, styles, page, document, name), name),
        find_first(shape.sections@, section_named(name)) is None,
        forall|m: int|
            0 <= m < masters.len() ==> find_first(
                (#[trigger] masters[m]).1.sections@,
                section_named(name),
            ) is None,
        text_style_supplies(styles, name, k, key),
    ensures
        !res.deleted,
        exists|t: int| 0 <= t < res.rows@.len() && (#[trigger] res.rows@[t]).key@ == key,
{
    let src = spec_section_sources(shape, masters, styles, page, document, name);
    lemma_text_sections_consult_text_styles(shape, masters, styles, page, document, name);
    let e = find_first(styles, styles_for(Provenance::StyleText)).unwrap();
    let p = 1 + masters.len() + k;
    let d = deleted_source();
    lemma_find_first_index(src, d);
    let f = first_index(src, d);
    assert forall|j: int| 0 <= j <= p implies !d(#[trigger] src[j]) by {
        if j == 0 {
        } else if j < 1 + masters.len() {
            assert(src[1 + (j - 1)] == src[j]);
            assert(find_first(masters[j - 1].1.sections@, section_named(name)) is None);
        } else {
            assert(src[1 + masters.len() + (j - 1 - masters.len())] == src[j]);
            assert(j - 1 - masters.len() <= k);
            if j - 1 - masters.len() < k {
                assert(find_first(e.1@[j - 1 - masters.len()].sections@, section_named(name)) is None);
            }
        }
    }
    if f <= p {
        assert(d(src[f]));
        assert(false);
    }
    let live = live_sources(src);
    assert(live[p] == src[p]);
    assert(src[1 + masters.len() + k] == src[p]);
    assert(key_listed(live, key));
}

/// The sections a source list refers to.
pub open spec fn deref_sections(v: Seq<(Provenance, Option<&Section>)>) -> Seq<
    (Provenance, Option<Section>),
> {
    v.map_values(
        |e: (Provenance, Option<&Section>)|
            (
                e.0,
                match e.1 {
                    Some(s) => Some(*s),
                    None => None,
                },
            ),
    )
}

/// The rows a row-source list refers to.
pub open spec fn deref_rows(v: Seq<(Provenance, Option<&Row>)>) -> Seq<(Provenance, Option<Row>)> {
    v.map_values(
        |e: (Provenance, Option<&Row>)|
            (
                e.0,
                match e.1 {
                    Some(r) => Some(*r),
                    None => None,
                },
            ),
    )
}

/// A layer whose section carries `Del`.
pub open spec fn deleted_source() -> spec_fn((Provenance, Option<Section>)) -> bool {
    |e: (Provenance, Option<Section>)| e.1.is_some() && e.1.unwrap().del
}

/// The layers in front of the first deleted section.
pub open spec fn live_sources(src: Seq<(Provenance, Option<Section>)>) -> Seq<
    (Provenance, Option<Section>),
> {
    src.take(first_index(src, deleted_source()))
}

/// A section has a row with the given key.
pub open spec fn section_has_key(section: Section, key: Seq<char>) -> bool {
    exists|j: int| 0 <= j < section.rows@.len() && #[trigger] spec_row_key(section.rows@[j]) == key
}

/// Some layer's section has a row with the given key.
pub open spec fn key_listed(src: Seq<(Provenance, Option<Section>)>, key: Seq<char>) -> bool {
    exists|i: int|
        0 <= i < src.len() && (#[trigger] src[i]).1.is_some() && section_has_key(
            src[i].1.unwrap(),
            key,
        )
}

/// Matches a row by key.
pub open spec fn row_keyed(key: Seq<char>) -> spec_fn(Row) -> bool {
    |r: Row| spec_row_key(r) == key
}

/// The row each layer defines under `key`.
pub open spec fn row_sources(src: Seq<(Provenance, Option<Section>)>, key: Seq<char>) -> Seq<
    (Provenance, Option<Row>),
> {
    src.map_values(
        |e: (Provenance, Option<Section>)|
            (
                e.0,
                match e.1 {
                    Some(sec) => find_first(sec.rows@, row_keyed(key)),
                    None => None,
                },
            ),
    )
}

/// A layer that defines the row.
pub open spec fn has_row() -> spec_fn((Provenance, Option<Row>)) -> bool {
    |e: (Provenance, Option<Row>)| e.1.is_some()
}

/// A layer whose row is not deleted and defines the named cell.
pub open spec fn row_defines(name: Seq<char>) -> spec_fn((Provenance, Option<Row>)) -> bool {
    |e: (Provenance, Option<Row>)|
        e.1.is_some() && !e.1.unwrap().del && find_first(e.1.unwrap().cells@, cell_named(name)).is_some()
}

/// How a row cell resolves: the first layer whose live row defines it decides.
pub open spec fn spec_row_cell(rows: Seq<(Provenance, Option<Row>)>, name: Seq<char>) -> Lookup {
    match find_first(rows, row_defines(name)) {
        Some(e) => spec_found(find_first(e.1.unwrap().cells@, cell_named(name)).unwrap(), e.0),
        None => Lookup::Absent,
    }
}

/// The cells of a resolved row are exactly the names that some live row
/// defines, once each and in name order, each resolved by the first live row
/// that defines it.
pub open spec fn cells_match(cells: Seq<(String, Lookup)>, rows: Seq<(Provenance, Option<Row>)>) -> bool {
    &&& strs(cells.map_values(|c: (String, Lookup)| c.0)).no_duplicates()
    &&& ascending(strs(cells.map_values(|c: (String, Lookup)| c.0)))
    &&& forall|k: int|
        0 <= k < cells.len() ==> find_first(rows, row_defines((#[trigger] cells[k]).0@)).is_some()
            && cells[k].1 == spec_row_cell(rows, cells[k].0@)
    &&& forall|n: Seq<char>|
        #[trigger] find_first(rows, row_defines(n)).is_some() ==> exists|k: int|
            0 <= k < cells.len() && (#[trigger] cells[k]).0@ == n
}

/// A resolved row agrees with the rows its layers define under one key: the
/// nearest layer's row decides deletion and row type, and cells merge across
/// live rows.
pub open spec fn row_matches_rows(r: ResolvedRow, rows: Seq<(Provenance, Option<Row>)>) -> bool {
    let row = find_first(rows, has_row()).unwrap().1.unwrap();
    &&& find_first(rows, has_row()).is_some()
    &&& r.deleted == row.del
    &&& row.del ==> r.row_type.is_none() && r.cells@.len() == 0
    &&& !row.del ==> r.row_type == row.row_type && cells_match(r.cells@, rows)
}

/// A resolved row agrees with the layers' rows under its key.
pub open spec fn row_matches(r: ResolvedRow, src: Seq<(Provenance, Option<Section>)>) -> bool {
    row_matches_rows(r, row_sources(src, r.key@))
}

/// A resolved section agrees with its layers: deleted when the shape's own
/// section is deleted; otherwise one row per key defined in front of the first
/// deleted section, in key order, each matching those layers.
pub open spec fn section_matches(
    res: ResolvedSection,
    src: Seq<(Provenance, Option<Section>)>,
    name: Seq<char>,
) -> bool {
    &&& res.name@ == name
    &&& if first_index(src, deleted_source()) == 0 {
        res.deleted && res.rows@.len() == 0
    } else {
        let live = live_sources(src);
        &&& !res.deleted
        &&& strs(res.rows@.map_values(|r: ResolvedRow| r.key)).no_duplicates()
        &&& ascending(strs(res.rows@.map_values(|r: ResolvedRow| r.key)))
        &&& forall|k: int|
            0 <= k < res.rows@.len() ==> key_listed(live, (#[trigger] res.rows@[k]).key@)
                && row_matches(res.rows@[k], live)
        &&& forall|key: Seq<char>|
            #[trigger] key_listed(live, key) ==> exists|k: int|
                0 <= k < res.rows@.len() && (#[trigger] res.rows@[k]).key@ == key
    }
}


/// Whether rows of this section are also inherited through the text style chain.
fn text_section(name: &str) -> (res: bool)
    ensures
        res == is_text_section(name@),
{
    str_eq(name, "Character") || str_eq(name, "Paragraph") || str_eq(name, "Tabs") || str_eq(
        name,
        "Field",
    )
}

/// Adds the key of every row of `section` to `keys`.
fn add_row_keys(keys: &mut Vec<String>, section: &Section)
    requires
        unique_strs(old(keys)@),
    ensures
        unique_strs(final(keys)@),
        forall|key: Seq<char>|
            #[trigger] strs(final(keys)@).contains(key) <==> strs(old(keys)@).contains(key)
                || section_has_key(*section, key),
{
    let ghost before = strs(keys@);
    let mut i: usize = 0;
    while i < section.rows.len()
        invariant
            i <= section.rows@.len(),
            unique_strs(keys@),
            forall|key: Seq<char>|
                #[trigger] strs(keys@).contains(key) <==> before.contains(key) || exists|j: int|
                    0 <= j < i && #[trigger] spec_row_key(section.rows@[j]) == key,
        decreases section.rows.len() - i,
    {
        let key = row_key(&section.rows[i]);
        let ghost prev = strs(keys@);
        push_unique(keys, key.as_str());
        proof {
            assert forall|k: Seq<char>|
                #[trigger] strs(keys@).contains(k) <==> before.contains(k) || exists|j: int|
                    0 <= j < i + 1 && #[trigger] spec_row_key(section.rows@[j]) == k by {
                assert(strs(keys@).to_set().contains(k) == strs(keys@).contains(k));
                assert(prev.to_set().contains(k) == prev.contains(k));
                if exists|j: int| 0 <= j < i + 1 && #[trigger] spec_row_key(section.rows@[j]) == k {
                    let j = choose|j: int| 0 <= j < i + 1 && #[trigger] spec_row_key(section.rows@[j]) == k;
                    if j < i {
                        assert(prev.contains(k));
                    }
                }
            }
        }
        i = i + 1;
    }
}

/// The first row of `section` with the given key.
fn find_row_keyed<'b>(section: &'b Section, key: &str) -> (res: Option<&'b Row>)
    ensures
        res.is_some() == find_first(section.rows@, row_keyed(key@)).is_some(),
        res matches Some(r) ==> find_first(section.rows@, row_keyed(key@)) == Some(*r),
{
    let ghost p = row_keyed(key@);
    let mut i: usize = 0;
    while i < section.rows.len()
        invariant
            i <= section.rows@.len(),
            p == row_keyed(key@),
            forall|j: int| 0 <= j < i ==> !p(#[trigger] section.rows@[j]),
        decreases section.rows.len() - i,
    {
        let k = row_key(&section.rows[i]);
        if str_eq(k.as_str(), key) {
            proof {
                lemma_find_first_skip(section.rows@, p, i as int);
            }
            return Some(&section.rows[i]);
        }
        i = i + 1;
    }
    proof {
        lemma_find_first_index(section.rows@, p);
    }
    None
}

/// The first layer that deletes the section, or the number of layers.
fn first_deleted(sources: &Vec<(Provenance, Option<&Section>)>) -> (res: usize)
    ensures
        res == first_index(deref_sections(sources@), deleted_source()),
        res <= sources@.len(),
{
    let ghost d = deref_sections(sources@);
    let ghost p = deleted_source();
    let mut i: usize = 0;
    while i < sources.len()
        invariant
            i <= sources@.len(),
            d == deref_sections(sources@),
            d.len() == sources@.len(),
            p == deleted_source(),
            forall|j: int| 0 <= j < i ==> !p(#[trigger] d[j]),
        decreases sources.len() - i,
    {
        let deleted = match sources[i].1 {
            Some(section) => section.del,
            None => false,
        };
        assert(d[i as int] == (sources@[i as int].0, match sources@[i as int].1 {
            Some(s) => Some(*s),
            None => None,
        }));
        if deleted {
            proof {
                lemma_find_first_skip(d, p, i as int);
                assert(d.skip(i as int)[0] == d[i as int]);
            }
            return i;
        }
        i = i + 1;
    }
    proof {
        lemma_find_first_skip(d, p, i as int);
        assert(d.skip(i as int).len() == 0);
    }
    i
}

/// The row each of the first `end` layers defines under `key`.
fn rows_for_key<'b>(
    sources: &Vec<(Provenance, Option<&'b Section>)>,
    end: usize,
    key: &str,
) -> (res: Vec<(Provenance, Option<&'b Row>)>)
    requires
        end <= sources@.len(),
    ensures
        deref_rows(res@) =~= row_sources(deref_sections(sources@).take(end as int), key@),
{
    let ghost live = deref_sections(sources@).take(end as int);
    let mut out: Vec<(Provenance, Option<&'b Row>)> = Vec::new();
    let mut i: usize = 0;
    while i < end
        invariant
            i <= end <= sources@.len(),
            live == deref_sections(sources@).take(end as int),
            deref_rows(out@) =~= row_sources(live, key@).take(i as int),
        decreases end - i,
    {
        let row = match sources[i].1 {
            Some(section) => find_row_keyed(section, key),
            None => None,
        };
        let ghost before = out@;
        out.push((sources[i].0, row));
        proof {
            assert(live[i as int] == deref_sections(sources@)[i as int]);
            assert(deref_rows(out@) =~= deref_rows(before).push(
                (sources@[i as int].0, match row {
                    Some(r) => Some(*r),
                    None => None,
                }),
            ));
            assert(row_sources(live, key@).take(i + 1) =~= row_sources(live, key@).take(
                i as int,
            ).push(row_sources(live, key@)[i as int]));
        }
        i = i + 1;
    }
    assert(row_sources(live, key@).take(end as int) =~= row_sources(live, key@));
    out
}

/// Adds the name of every cell of `cells` to `names`.
pub fn add_cell_names(names: &mut Vec<String>, cells: &Vec<Cell>)
    requires
        unique_strs(old(names)@),
    ensures
        unique_strs(final(names)@),
        forall|n: Seq<char>|
            #[trigger] strs(final(names)@).contains(n) <==> strs(old(names)@).contains(n)
                || find_first(cells@, cell_named(n)).is_some(),
{
    let ghost before = strs(names@);
    let mut i: usize = 0;
    while i < cells.len()
        invariant
            i <= cells@.len(),
            unique_strs(names@),
            forall|n: Seq<char>|
                #[trigger] strs(names@).contains(n) <==> before.contains(n) || exists|j: int|
                    0 <= j < i && (#[trigger] cells@[j]).name@ == n,
        decreases cells.len() - i,
    {
        let ghost prev = strs(names@);
        push_unique(names, cells[i].name.as_str());
        proof {
            assert forall|n: Seq<char>|
                #[trigger] strs(names@).contains(n) <==> before.contains(n) || exists|j: int|
                    0 <= j < i + 1 && (#[trigger] cells@[j]).name@ == n by {
                assert(strs(names@).to_set().contains(n) == strs(names@).contains(n));
                assert(prev.to_set().contains(n) == prev.contains(n));
                if exists|j: int| 0 <= j < i + 1 && (#[trigger] cells@[j]).name@ == n {
                    let j = choose|j: int| 0 <= j < i + 1 && (#[trigger] cells@[j]).name@ == n;
                    if j < i {
                        assert(prev.contains(n));
                    }
                }
            }
        }
        i = i + 1;
    }
    proof {
        assert forall|n: Seq<char>|
            #[trigger] strs(names@).contains(n) <==> before.contains(n) || find_first(
                cells@,
                cell_named(n),
            ).is_some() by {
            lemma_find_first_index(cells@, cell_named(n));
            if find_first(cells@, cell_named(n)).is_some() {
                let k = first_index(cells@, cell_named(n));
                assert(cells@[k].name@ == n);
            }
            if exists|j: int| 0 <= j < cells@.len() && (#[trigger] cells@[j]).name@ == n {
                let j = choose|j: int| 0 <= j < cells@.len() && (#[trigger] cells@[j]).name@ == n;
                assert(cell_named(n)(cells@[j]));
            }
        }
    }
}

/// How the named cell resolves across the rows of one key.
fn row_cell(rows: &Vec<(Provenance, Option<&Row>)>, name: &str) -> (res: Lookup)
    ensures
        res == spec_row_cell(deref_rows(rows@), name@),
{
    let ghost d = deref_rows(rows@);
    let ghost p = row_defines(name@);
    let mut i: usize = 0;
    while i < rows.len()
        invariant
            i <= rows@.len(),
            d == deref_rows(rows@),
            d.len() == rows@.len(),
            p == row_defines(name@),
            forall|j: int| 0 <= j < i ==> !p(#[trigger] d[j]),
        decreases rows.len() - i,
    {
        assert(d[i as int] == (rows@[i as int].0, match rows@[i as int].1 {
            Some(r) => Some(*r),
            None => None,
        }));
        match rows[i].1 {
            Some(row) => {
                if !row.del {
                    match find_cell(&row.cells, name) {
                        Some(c) => {
                            proof {
                                lemma_find_first_skip(d, p, i as int);
                                assert(d.skip(i as int)[0] == d[i as int]);
                            }
                            return found(c, rows[i].0);
                        },
                        None => {},
                    }
                }
            },
            None => {},
        }
        i = i + 1;
    }
    proof {
        lemma_find_first_index(d, p);
    }
    Lookup::Absent
}

/// The resolved row for one key, from the rows each layer defines under it.
fn resolve_row(rows: &Vec<(Provenance, Option<&Row>)>, key: &str) -> (res: ResolvedRow)
    requires
        find_first(deref_rows(rows@), has_row()).is_some(),
    ensures
        res.key@ == key@,
        row_matches_rows(res, deref_rows(rows@)),
{
    let ghost d = deref_rows(rows@);
    let ghost p = has_row();
    proof {
        lemma_find_first_index(d, p);
    }
    let mut i: usize = 0;
    while i < rows.len() && rows[i].1.is_none()
        invariant
            i <= rows@.len(),
            d == deref_rows(rows@),
            d.len() == rows@.len(),
            p == has_row(),
            find_first(d, p).is_some(),
            forall|j: int| 0 <= j < i ==> !p(#[trigger] d[j]),
        decreases rows.len() - i,
    {
        assert(d[i as int].1.is_none());
        i = i + 1;
    }
    if i == rows.len() {
        proof {
            lemma_find_first_index(d, p);
        }
        assert(false);
        return ResolvedRow { key: owned(key), deleted: false, row_type: None, cells: Vec::new() };
    }
    let row: &Row = match rows[i].1 {
        Some(r) => r,
        None => {
            assert(false);
            return ResolvedRow {
                key: owned(key),
                deleted: false,
                row_type: None,
                cells: Vec::new(),
            };
        },
    };
    proof {
        assert(d[i as int].1 == Some(*row));
        lemma_find_first_skip(d, p, i as int);
        assert(d.skip(i as int)[0] == d[i as int]);
    }
    if row.del {
        return ResolvedRow { key: owned(key), deleted: true, row_type: None, cells: Vec::new() };
    }
    let mut names: Vec<String> = Vec::new();
    let mut k: usize = 0;
    while k < rows.len()
        invariant
            k <= rows@.len(),
            d == deref_rows(rows@),
            d.len() == rows@.len(),
            unique_strs(names@),
            forall|n: Seq<char>|
                #[trigger] strs(names@).contains(n) <==> exists|j: int|
                    0 <= j < k && #[trigger] row_defines(n)(d[j]),
        decreases rows.len() - k,
    {
        let ghost prev = strs(names@);
        assert(d[k as int] == (rows@[k as int].0, match rows@[k as int].1 {
            Some(r) => Some(*r),
            None => None,
        }));
        match rows[k].1 {
            Some(r) => {
                if !r.del {
                    add_cell_names(&mut names, &r.cells);
                }
            },
            None => {},
        }
        proof {
            assert forall|n: Seq<char>|
                #[trigger] strs(names@).contains(n) <==> exists|j: int|
                    0 <= j < k + 1 && #[trigger] row_defines(n)(d[j]) by {
                assert(row_defines(n)(d[k as int]) == (d[k as int].1.is_some() && !d[
                    k as int
                ].1.unwrap().del && find_first(d[k as int].1.unwrap().cells@, cell_named(n)).is_some()));
                if exists|j: int| 0 <= j < k + 1 && #[trigger] row_defines(n)(d[j]) {
                    let j = choose|j: int| 0 <= j < k + 1 && #[trigger] row_defines(n)(d[j]);
                    if j < k {
                        assert(prev.contains(n));
                    }
                }
                if strs(names@).contains(n) && !prev.contains(n) {
                    assert(row_defines(n)(d[k as int]));
                }
            }
        }
        k = k + 1;
    }
    let names = sorted_strs(names);
    let mut cells: Vec<(String, Lookup)> = Vec::new();
    let mut m: usize = 0;
    while m < names.len()
        invariant
            m <= names@.len(),
            d == deref_rows(rows@),
            d.len() == rows@.len(),
            unique_strs(names@),
            ascending(strs(names@)),
            forall|n: Seq<char>|
                #[trigger] strs(names@).contains(n) <==> exists|j: int|
                    0 <= j < rows@.len() && #[trigger] row_defines(n)(d[j]),
            cells@.len() == m,
            forall|t: int| 0 <= t < m ==> (#[trigger] cells@[t]).0@ == names@[t]@,
            forall|t: int|
                0 <= t < m ==> (#[trigger] cells@[t]).1 == spec_row_cell(d, cells@[t].0@),
        decreases names.len() - m,
    {
        let lookup = row_cell(rows, names[m].as_str());
        cells.push((names[m].clone(), lookup));
        m = m + 1;
    }
    proof {
        let cn = cells@.map_values(|c: (String, Lookup)| c.0);
        assert(strs(cn) =~= strs(names@)) by {
            assert forall|t: int| 0 <= t < strs(cn).len() implies strs(cn)[t] == strs(names@)[t] by {
                assert(cells@[t].0@ == names@[t]@);
            }
        }
        assert forall|t: int| 0 <= t < cells@.len() implies find_first(
            d,
            row_defines((#[trigger] cells@[t]).0@),
        ).is_some() && cells@[t].1 == spec_row_cell(d, cells@[t].0@) by {
            let n = cells@[t].0@;
            assert(strs(names@)[t] == n);
            assert(strs(names@).contains(n));
            let j = choose|j: int| 0 <= j < rows@.len() && #[trigger] row_defines(n)(d[j]);
            lemma_find_first_index(d, row_defines(n));
        }
        assert forall|n: Seq<char>| #[trigger] find_first(d, row_defines(n)).is_some() implies exists|
            t: int,
        | 0 <= t < cells@.len() && (#[trigger] cells@[t]).0@ == n by {
            lemma_find_first_index(d, row_defines(n));
            let j = first_index(d, row_defines(n));
            assert(row_defines(n)(d[j]));
            assert(strs(names@).contains(n));
            let t = choose|t: int| 0 <= t < strs(names@).len() && strs(names@)[t] == n;
            assert(cells@[t].0@ == n);
        }
    }
    ResolvedRow { key: owned(key), deleted: false, row_type: copy_row_type(row), cells }
}

impl<'a> Resolver<'a> {
    /// The section each layer defines under `name`, nearest layer first.
    fn section_sources(
        &self,
        shape: &'a Shape,
        masters: &Vec<(Provenance, &'a Shape)>,
        styles: &Vec<(Provenance, Vec<&'a Sheet>)>,
        page: &'a Sheet,
        name: &str,
    ) -> (res: Vec<(Provenance, Option<&'a Section>)>)
        ensures
            deref_sections(res@) =~= spec_section_sources(
                *shape,
                masters@,
                styles@,
                *page,
                self.package.document_sheet,
                name@,
            ),
    {
        let ghost a = seq![(Provenance::Local, find_first(shape.sections@, section_named(name@)))];
        let ghost b = masters@.map_values(
            |m: (Provenance, &Shape)| (m.0, find_first(m.1.sections@, section_named(name@))),
        );
        let mut out: Vec<(Provenance, Option<&'a Section>)> = Vec::new();
        out.push((Provenance::Local, find_section(&shape.sections, name)));
        assert(deref_sections(out@) =~= a);
        let mut k: usize = 0;
        while k < masters.len()
            invariant
                k <= masters@.len(),
                a == seq![(Provenance::Local, find_first(shape.sections@, section_named(name@)))],
                b == masters@.map_values(
                    |m: (Provenance, &Shape)| (m.0, find_first(m.1.sections@, section_named(name@))),
                ),
                deref_sections(out@) =~= a + b.take(k as int),
            decreases masters.len() - k,
        {
            let ghost before = out@;
            let master: &'a Shape = masters[k].1;
            out.push((masters[k].0, find_section(&master.sections, name)));
            proof {
                assert(b.take(k + 1) =~= b.take(k as int).push(b[k as int]));
                assert(deref_sections(out@) =~= deref_sections(before).push(b[k as int]));
            }
            k = k + 1;
        }
        assert(b.take(masters@.len() as int) =~= b);
        let ghost c = if is_text_section(name@) {
            match find_first(styles@, styles_for(Provenance::StyleText)) {
                Some(e) => e.1@.map_values(
                    |s: &Sheet| (e.0, find_first(s.sections@, section_named(name@))),
                ),
                None => Seq::empty(),
            }
        } else {
            Seq::empty()
        };
        if text_section(name) {
            let ghost q = styles_for(Provenance::StyleText);
            let mut j: usize = 0;
            while j < styles.len() && styles[j].0 != Provenance::StyleText
                invariant
                    j <= styles@.len(),
                    q == styles_for(Provenance::StyleText),
                    forall|t: int| 0 <= t < j ==> !q(#[trigger] styles@[t]),
                decreases styles.len() - j,
            {
                j = j + 1;
            }
            if j < styles.len() {
                proof {
                    lemma_find_first_skip(styles@, q, j as int);
                    assert(styles@.skip(j as int)[0] == styles@[j as int]);
                }
                let chain = &styles[j].1;
                let ghost cs = chain@.map_values(
                    |s: &Sheet| (styles@[j as int].0, find_first(s.sections@, section_named(name@))),
                );
                assert(c == cs);
                let mut i: usize = 0;
                while i < chain.len()
                    invariant
                        i <= chain@.len(),
                        chain == &styles@[j as int].1,
                        j < styles@.len(),
                        cs == chain@.map_values(
                            |s: &Sheet|
                                (styles@[j as int].0, find_first(s.sections@, section_named(name@))),
                        ),
                        deref_sections(out@) =~= a + b + cs.take(i as int),
                    decreases chain.len() - i,
                {
                    let ghost before = out@;
                    let sheet: &'a Sheet = chain[i];
                    out.push((styles[j].0, find_section(&sheet.sections, name)));
                    proof {
                        assert(cs.take(i + 1) =~= cs.take(i as int).push(cs[i as int]));
                        assert(deref_sections(out@) =~= deref_sections(before).push(cs[i as int]));
                    }
                    i = i + 1;
                }
                assert(cs.take(chain@.len() as int) =~= cs);
            } else {
                proof {
                    lemma_find_first_index(styles@, q);
                }
                assert(c =~= Seq::<(Provenance, Option<Section>)>::empty());
                assert(a + b + c =~= a + b);
            }
        } else {
            assert(a + b + c =~= a + b);
        }
        let ghost before = out@;
        out.push((Provenance::Page, find_section(&page.sections, name)));
        let document = match &self.package.document_sheet {
            Some(d) => find_section(&d.sections, name),
            None => None,
        };
        out.push((Provenance::Document, document));
        assert(deref_sections(out@) =~= deref_sections(before).push(
            (Provenance::Page, find_first(page.sections@, section_named(name@))),
        ).push(
            (
                Provenance::Document,
                match self.package.document_sheet {
                    Some(d) => find_first(d.sections@, section_named(name@)),
                    None => None,
                },
            ),
        ));
        out
    }

    /// How the section `name` resolves for `shape`, given its master chain,
    /// its style chains and its page.
    pub fn resolve_section(
        &self,
        shape: &'a Shape,
        masters: &Vec<(Provenance, &'a Shape)>,
        styles: &Vec<(Provenance, Vec<&'a Sheet>)>,
        page: &'a Sheet,
        name: &str,
    ) -> (res: ResolvedSection)
        ensures
            section_matches(
                res,
                spec_section_sources(
                    *shape,
                    masters@,
                    styles@,
                    *page,
                    self.package.document_sheet,
                    name@,
                ),
                name@,
            ),
    {
        let sources = self.section_sources(shape, masters, styles, page, name);
        let ghost src = deref_sections(sources@);
        let end = first_deleted(&sources);
        if end == 0 {
            return ResolvedSection { name: owned(name), deleted: true, rows: Vec::new() };
        }
        let ghost live = live_sources(src);
        assert(live =~= src.take(end as int));
        let mut keys: Vec<String> = Vec::new();
        let mut i: usize = 0;
        while i < end
            invariant
                i <= end <= sources@.len(),
                src == deref_sections(sources@),
                src.len() == sources@.len(),
                live == src.take(end as int),
                unique_strs(keys@),
                forall|key: Seq<char>|
                    #[trigger] strs(keys@).contains(key) <==> key_listed(live.take(i as int), key),
            decreases end - i,
        {
            let ghost prev = strs(keys@);
            assert(src[i as int] == (sources@[i as int].0, match sources@[i as int].1 {
                Some(s) => Some(*s),
                None => None,
            }));
            match sources[i].1 {
                Some(section) => {
                    add_row_keys(&mut keys, section);
                },
                None => {},
            }
            proof {
                assert forall|key: Seq<char>|
                    #[trigger] strs(keys@).contains(key) <==> key_listed(live.take(i + 1), key) by {
                    let t = live.take(i + 1);
                    if key_listed(t, key) {
                        let w = choose|w: int|
                            0 <= w < t.len() && (#[trigger] t[w]).1.is_some() && section_has_key(
                                t[w].1.unwrap(),
                                key,
                            );
                        if w < i {
                            assert(live.take(i as int)[w] == t[w]);
                            assert(key_listed(live.take(i as int), key));
                        } else {
                            assert(t[w] == src[i as int]);
                        }
                    }
                    if prev.contains(key) {
                        let w = choose|w: int|
                            0 <= w < live.take(i as int).len() && (#[trigger] live.take(
                                i as int,
                            )[w]).1.is_some() && section_has_key(
                                live.take(i as int)[w].1.unwrap(),
                                key,
                            );
                        assert(t[w] == live.take(i as int)[w]);
                    }
                    if strs(keys@).contains(key) && !prev.contains(key) {
                        assert(t[i as int] == src[i as int]);
                    }
                }
            }
            i = i + 1;
        }
        assert(live.take(end as int) =~= live);
        let keys = sorted_strs(keys);
        let mut rows: Vec<ResolvedRow> = Vec::new();
        let mut k: usize = 0;
        while k < keys.len()
            invariant
                k <= keys@.len(),
                end <= sources@.len(),
                src == deref_sections(sources@),
                live == src.take(end as int),
                unique_strs(keys@),
                ascending(strs(keys@)),
                forall|key: Seq<char>| #[trigger] strs(keys@).contains(key) <==> key_listed(live, key),
                rows@.len() == k,
                forall|t: int| 0 <= t < k ==> (#[trigger] rows@[t]).key@ == keys@[t]@,
                forall|t: int| 0 <= t < k ==> row_matches(#[trigger] rows@[t], live),
            decreases keys.len() - k,
        {
            let key = keys[k].as_str();
            let row_sources_vec = rows_for_key(&sources, end, key);
            proof {
                assert(strs(keys@)[k as int] == keys@[k as int]@);
                assert(strs(keys@).contains(key@));
                let w = choose|w: int|
                    0 <= w < live.len() && (#[trigger] live[w]).1.is_some() && section_has_key(
                        live[w].1.unwrap(),
                        key@,
                    );
                let sec = live[w].1.unwrap();
                let j = choose|j: int|
                    0 <= j < sec.rows@.len() && #[trigger] spec_row_key(sec.rows@[j]) == key@;
                assert(row_keyed(key@)(sec.rows@[j]));
                lemma_find_first_index(sec.rows@, row_keyed(key@));
                let d = deref_rows(row_sources_vec@);
                assert(d[w] == row_sources(live, key@)[w]);
                assert(has_row()(d[w]));
                lemma_find_first_index(d, has_row());
            }
            let row = resolve_row(&row_sources_vec, key);
            rows.push(row);
            k = k + 1;
        }
        proof {
            let rk = rows@.map_values(|r: ResolvedRow| r.key);
            assert(strs(rk) =~= strs(keys@)) by {
                assert forall|t: int| 0 <= t < strs(rk).len() implies strs(rk)[t] == strs(keys@)[t] by {
                    assert(rows@[t].key@ == keys@[t]@);
                }
            }
            assert forall|t: int| 0 <= t < rows@.len() implies key_listed(
                live,
                (#[trigger] rows@[t]).key@,
            ) && row_matches(rows@[t], live) by {
                assert(strs(keys@)[t] == keys@[t]@);
                assert(strs(keys@).contains(keys@[t]@));
            }
            assert forall|key: Seq<char>| #[trigger] key_listed(live, key) implies exists|t: int|
                0 <= t < rows@.len() && (#[trigger] rows@[t]).key@ == key by {
                assert(strs(keys@).contains(key));
                let t = choose|t: int| 0 <= t < strs(keys@).len() && strs(keys@)[t] == key;
                assert(rows@[t].key@ == key);
            }
        }
        ResolvedSection { name: owned(name), deleted: false, rows }
    }
}

} // verus!
