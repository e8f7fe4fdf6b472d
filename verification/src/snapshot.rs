//! What a save checks and looks up in a session snapshot: that its pages are
//! the package's pages, the containers of the original shapes, and the
//! snapshot shapes by session ID.

use vstd::prelude::*;

use crate::edit_model::{DiagramSnapshot, EditError, PageSnapshot, ShapeSnapshot};
use crate::names::{contains_str, push_unique, strs, unique_strs};
use crate::package::{id_at, spec_id_at, VsdxPackage};
use crate::seqs::find_last;
use crate::sheet::{Shape, Sheet};
use crate::text::{owned, str_eq};
use crate::tree::flatten;

verus! {

/// The source part path of each snapshot page, in order.
pub open spec fn page_paths(pages: Seq<PageSnapshot>) -> Seq<Seq<char>> {
    pages.map_values(|p: PageSnapshot| p.source_part_path@)
}

/// The snapshot's pages name each of the package's page parts exactly once:
/// as many paths as distinct package pages, none twice, each a package page.
pub open spec fn page_order_matches(expected: Seq<String>, pages: Seq<PageSnapshot>) -> bool {
    let paths = page_paths(pages);
    &&& paths.len() == strs(expected).to_set().len()
    &&& paths.no_duplicates()
    &&& forall|i: int| 0 <= i < paths.len() ==> strs(expected).contains(#[trigger] paths[i])
}

proof fn lemma_no_duplicates_push(s: Seq<Seq<char>>, x: Seq<char>)
    ensures
        s.push(x).no_duplicates() <==> s.no_duplicates() && !s.contains(x),
{
    let t = s.push(x);
    if t.no_duplicates() {
        assert forall|a: int, b: int| 0 <= a < s.len() && 0 <= b < s.len() && a != b implies s[a]
            != s[b] by {
            assert(t[a] == s[a] && t[b] == s[b]);
        }
        if s.contains(x) {
            let k = choose|k: int| 0 <= k < s.len() && s[k] == x;
            assert(t[k] == t[s.len() as int]);
        }
    }
    if s.no_duplicates() && !s.contains(x) {
        assert forall|a: int, b: int| 0 <= a < t.len() && 0 <= b < t.len() && a != b implies t[a]
            != t[b] by {
            if a < s.len() && b < s.len() {
                assert(t[a] == s[a] && t[b] == s[b]);
            } else if a < s.len() {
                assert(s.contains(t[a]));
            } else {
                assert(s.contains(t[b]));
            }
        }
    }
}

proof fn lemma_push_to_set(s: Seq<Seq<char>>, x: Seq<char>)
    ensures
        s.push(x).to_set() == s.to_set().insert(x),
{
    let t = s.push(x);
    assert forall|y: Seq<char>| #[trigger] t.to_set().contains(y) <==> s.to_set().insert(x).contains(y) by {
        if t.contains(y) && y != x {
            let k = choose|k: int| 0 <= k < t.len() && t[k] == y;
            assert(s[k] == y);
        }
        if s.contains(y) {
            let k = choose|k: int| 0 <= k < s.len() && s[k] == y;
            assert(t[k] == y);
        }
        if y == x {
            assert(t[s.len() as int] == y);
        }
    }
    assert(t.to_set() =~= s.to_set().insert(x));
}

/// The snapshot's page part paths, in its page order, when its pages are the
/// package's pages, each once; refused otherwise.
pub fn page_part_paths_for_snapshot(package: &VsdxPackage, snapshot: &DiagramSnapshot) -> (res:
    Result<Vec<String>, EditError>)
    ensures
        res is Ok <==> page_order_matches(package.page_part_paths@, snapshot.pages@),
        res matches Ok(v) ==> strs(v@) == page_paths(snapshot.pages@),
        res matches Err(e) ==> (e matches EditError::InvalidState(m) && m@
            == "page order does not match the original package"@),
{
    let expected = &package.page_part_paths;
    let mut distinct: Vec<String> = Vec::new();
    let mut i: usize = 0;
    assert(strs(expected@.take(0)).to_set() =~= strs(distinct@).to_set());
    while i < expected.len()
        invariant
            i <= expected@.len(),
            unique_strs(distinct@),
            strs(distinct@).to_set() == strs(expected@.take(i as int)).to_set(),
        decreases expected.len() - i,
    {
        push_unique(&mut distinct, expected[i].as_str());
        proof {
            assert(strs(expected@.take(i + 1)) =~= strs(expected@.take(i as int)).push(
                expected@[i as int]@,
            ));
            lemma_push_to_set(strs(expected@.take(i as int)), expected@[i as int]@);
        }
        i = i + 1;
    }
    proof {
        assert(expected@.take(expected@.len() as int) =~= expected@);
        strs(distinct@).unique_seq_to_set();
    }
    let pages = &snapshot.pages;
    let ghost all = page_paths(pages@);
    let mut paths: Vec<String> = Vec::new();
    let mut distinct_paths = true;
    let mut known_paths = true;
    let mut k: usize = 0;
    while k < pages.len()
        invariant
            k <= pages@.len(),
            all == page_paths(pages@),
            strs(paths@) == all.take(k as int),
            distinct_paths == all.take(k as int).no_duplicates(),
            known_paths == (forall|j: int|
                0 <= j < k ==> strs(expected@).contains(#[trigger] all[j])),
        decreases pages.len() - k,
    {
        let path = pages[k].source_part_path.as_str();
        proof {
            assert(all[k as int] == path@);
            lemma_no_duplicates_push(all.take(k as int), path@);
            assert(all.take(k + 1) =~= all.take(k as int).push(path@));
        }
        if contains_str(&paths, path) {
            distinct_paths = false;
        }
        if !contains_str(expected, path) {
            known_paths = false;
        }
        paths.push(owned(path));
        proof {
            assert(strs(paths@) =~= all.take(k + 1));
        }
        k = k + 1;
    }
    assert(all.take(all.len() as int) =~= all);
    if paths.len() != distinct.len() || !distinct_paths || !known_paths {
        return Err(EditError::InvalidState(owned("page order does not match the original package")));
    }
    Ok(paths)
}

/// A snapshot whose page order the package accepts names exactly the
/// package's pages: the set of its page paths is the set of the package's
/// page paths.
pub proof fn lemma_page_order_is_a_permutation(expected: Seq<String>, pages: Seq<PageSnapshot>)
    requires
        page_order_matches(expected, pages),
    ensures
        page_paths(pages).to_set() == strs(expected).to_set(),
{
    let paths = page_paths(pages);
    let e = strs(expected);
    assert(paths.to_set().subset_of(e.to_set())) by {
        assert forall|x: Seq<char>| paths.to_set().contains(x) implies e.to_set().contains(x) by {
            let k = choose|k: int| 0 <= k < paths.len() && paths[k] == x;
            assert(e.contains(paths[k]));
        }
    }
    paths.unique_seq_to_set();
    vstd::set_lib::lemma_subset_equality(paths.to_set(), e.to_set());
}

/// The IDs of a list of shapes, in order.
pub open spec fn shape_ids(shapes: Seq<Shape>) -> Seq<u32> {
    shapes.map_values(|s: Shape| s.id)
}

/// A container entry read by value: its parent and the IDs it holds.
pub open spec fn entry_view(e: (Option<u32>, Vec<u32>)) -> (Option<u32>, Seq<u32>) {
    (e.0, e.1@)
}

/// The container of each shape in pre-order: the shape's ID and the IDs of
/// its nested shapes.
pub open spec fn nested_containers(flat: Seq<Shape>) -> Seq<(Option<u32>, Seq<u32>)> {
    flat.map_values(|s: Shape| (Some(s.id), shape_ids(s.shapes@)))
}

/// The shape containers of a sheet: the page itself first (no parent), then
/// every shape in pre-order.
pub open spec fn sheet_containers(shapes: Seq<Shape>) -> Seq<(Option<u32>, Seq<u32>)> {
    seq![(None, shape_ids(shapes))] + nested_containers(flatten(shapes))
}

fn shape_id_list(shapes: &Vec<Shape>) -> (res: Vec<u32>)
    ensures
        res@ == shape_ids(shapes@),
{
    let mut ids: Vec<u32> = Vec::new();
    let mut i: usize = 0;
    while i < shapes.len()
        invariant
            i <= shapes@.len(),
            ids@ == shape_ids(shapes@.take(i as int)),
        decreases shapes.len() - i,
    {
        ids.push(shapes[i].id);
        proof {
            assert(shape_ids(shapes@.take(i + 1)) =~= shape_ids(shapes@.take(i as int)).push(
                shapes@[i as int].id,
            ));
        }
        i = i + 1;
    }
    assert(shapes@.take(shapes@.len() as int) =~= shapes@);
    ids
}

fn push_containers(shapes: &Vec<Shape>, out: &mut Vec<(Option<u32>, Vec<u32>)>)
    ensures
        final(out)@.map_values(|e: (Option<u32>, Vec<u32>)| entry_view(e)) == old(out)@.map_values(
            |e: (Option<u32>, Vec<u32>)| entry_view(e),
        ) + nested_containers(flatten(shapes@)),
    decreases shapes@,
{
    let ghost whole = shapes@;
    let ghost start = out@.map_values(|e: (Option<u32>, Vec<u32>)| entry_view(e));
    let mut i: usize = shapes.len();
    // Listings are built from the last shape back, so each step prepends.
    let mut listing: Vec<(Option<u32>, Vec<u32>)> = Vec::new();
    assert(whole.skip(i as int) =~= Seq::<Shape>::empty());
    assert(listing@.map_values(|e: (Option<u32>, Vec<u32>)| entry_view(e)) =~= nested_containers(
        flatten(whole.skip(i as int)),
    ));
    while i > 0
        invariant
            i <= whole.len(),
            whole == shapes@,
            listing@.map_values(|e: (Option<u32>, Vec<u32>)| entry_view(e)) == nested_containers(
                flatten(whole.skip(i as int)),
            ),
        decreases i,
    {
        let shape = &shapes[i - 1];
        proof {
            let tail = whole.skip(i - 1);
            assert(tail[0] == whole[i - 1]);
            assert(tail.drop_first() =~= whole.skip(i as int));
            assert(flatten(tail) == seq![whole[i - 1]] + flatten(whole[i - 1].shapes@) + flatten(
                whole.skip(i as int),
            ));
            assert(decreases_to!(shapes@ => shapes@[i - 1]));
        }
        let mut front: Vec<(Option<u32>, Vec<u32>)> = Vec::new();
        front.push((Some(shape.id), shape_id_list(&shape.shapes)));
        push_containers(&shape.shapes, &mut front);
        let ghost f = front@;
        let ghost l = listing@;
        front.append(&mut listing);
        listing = front;
        proof {
            assert(listing@ == f + l);
            assert(listing@.map_values(|e: (Option<u32>, Vec<u32>)| entry_view(e)) =~= f.map_values(
                |e: (Option<u32>, Vec<u32>)| entry_view(e),
            ) + l.map_values(|e: (Option<u32>, Vec<u32>)| entry_view(e)));
            assert(nested_containers(flatten(whole.skip(i - 1))) =~= nested_containers(
                seq![whole[i - 1]],
            ) + nested_containers(flatten(whole[i - 1].shapes@)) + nested_containers(
                flatten(whole.skip(i as int)),
            ));
        }
        i = i - 1;
    }
    assert(whole.skip(0) =~= whole);
    let ghost o = out@;
    let ghost l = listing@;
    out.append(&mut listing);
    assert(out@.map_values(|e: (Option<u32>, Vec<u32>)| entry_view(e)) =~= o.map_values(
        |e: (Option<u32>, Vec<u32>)| entry_view(e),
    ) + l.map_values(|e: (Option<u32>, Vec<u32>)| entry_view(e)));
}

/// The shape containers of a sheet: the page first, under no parent, with
/// the IDs of its top-level shapes; then each shape in pre-order, under its
/// own ID, with the IDs of its nested shapes. Where two shapes share an ID,
/// the later entry is the one a lookup finds.
pub fn original_shape_containers(sheet: &Sheet) -> (res: Vec<(Option<u32>, Vec<u32>)>)
    ensures
        res@.map_values(|e: (Option<u32>, Vec<u32>)| entry_view(e)) == sheet_containers(
            sheet.shapes@,
        ),
{
    let mut out: Vec<(Option<u32>, Vec<u32>)> = Vec::new();
    out.push((None, shape_id_list(&sheet.shapes)));
    assert(out@.map_values(|e: (Option<u32>, Vec<u32>)| entry_view(e)) =~= seq![
        (None, shape_ids(sheet.shapes@)),
    ]);
    push_containers(&sheet.shapes, &mut out);
    out
}

/// Matches a container entry by its parent.
pub open spec fn container_under(parent: Option<u32>) -> spec_fn((Option<u32>, Vec<u32>)) -> bool {
    |e: (Option<u32>, Vec<u32>)| e.0 == parent
}

/// The entry a container lookup finds: the last one under `parent`.
pub open spec fn container_for(
    containers: Seq<(Option<u32>, Vec<u32>)>,
    parent: Option<u32>,
) -> Option<(Option<u32>, Vec<u32>)> {
    find_last(containers, container_under(parent))
}

/// The IDs held by the container under `parent`, as a map from parents finds
/// them: the last entry under that parent wins.
pub fn container_ids(containers: &Vec<(Option<u32>, Vec<u32>)>, parent: Option<u32>) -> (res: Option<
    &Vec<u32>,
>)
    ensures
        match container_for(containers@, parent) {
            Some(e) => res == Some(&e.1),
            None => res is None,
        },
{
    let ghost p = container_under(parent);
    let mut i: usize = containers.len();
    while i > 0
        invariant
            i <= containers@.len(),
            p == container_under(parent),
            forall|j: int| i <= j < containers@.len() ==> !p(#[trigger] containers@[j]),
        decreases i,
    {
        if containers[i - 1].0 == parent {
            proof {
                crate::seqs::lemma_find_last_take(containers@, p, i as int);
                assert(containers@.take(i as int).last() == containers@[i - 1]);
            }
            return Some(&containers[i - 1].1);
        }
        i = i - 1;
    }
    proof {
        crate::seqs::lemma_find_last_take(containers@, p, 0);
    }
    None
}

/// The order in which a stack walk visits snapshot shapes: the last pending
/// shape, then its children the same way, then the rest.
pub open spec fn stack_order(pending: Seq<ShapeSnapshot>) -> Seq<ShapeSnapshot>
    decreases pending,
{
    if pending.len() == 0 {
        Seq::empty()
    } else {
        proof {
            assert(decreases_to!(pending => pending[pending.len() - 1]));
        }
        let s = pending[pending.len() - 1];
        seq![s] + stack_order(s.children@) + stack_order(pending.drop_last())
    }
}

/// The snapshot shapes behind a list of references.
pub open spec fn derefs(s: Seq<&ShapeSnapshot>) -> Seq<ShapeSnapshot> {
    s.map_values(|r: &ShapeSnapshot| *r)
}

fn collect_snapshots<'a>(shapes: &'a Vec<ShapeSnapshot>, out: &mut Vec<&'a ShapeSnapshot>)
    ensures
        derefs(final(out)@) == derefs(old(out)@) + stack_order(shapes@),
    decreases shapes@,
{
    let ghost whole = shapes@;
    let ghost start = derefs(out@);
    let mut i: usize = shapes.len();
    assert(whole.take(i as int) =~= whole);
    assert(derefs(out@) + stack_order(whole.take(i as int)) =~= start + stack_order(whole));
    while i > 0
        invariant
            i <= whole.len(),
            whole == shapes@,
            derefs(out@) + stack_order(whole.take(i as int)) == start + stack_order(whole),
        decreases i,
    {
        let shape = &shapes[i - 1];
        let ghost before = derefs(out@);
        proof {
            let t = whole.take(i as int);
            assert(t[t.len() - 1] == whole[i - 1]);
            assert(t.drop_last() =~= whole.take(i - 1));
            assert(decreases_to!(shapes@ => shapes@[i - 1]));
        }
        out.push(shape);
        assert(derefs(out@) =~= before.push(*shape));
        collect_snapshots(&shape.children, out);
        proof {
            assert(stack_order(whole.take(i as int)) == seq![*shape] + stack_order(shape.children@)
                + stack_order(whole.take(i - 1)));
            assert(derefs(out@) + stack_order(whole.take(i - 1)) =~= before + stack_order(
                whole.take(i as int),
            ));
        }
        i = i - 1;
    }
    assert(whole.take(0) =~= Seq::<ShapeSnapshot>::empty());
    assert(derefs(out@) =~= start + stack_order(whole));
}

/// Every shape of a snapshot page, nested ones too, in the order a stack walk
/// visits them (last pending shape first).
pub fn snapshot_shapes(page: &PageSnapshot) -> (res: Vec<&ShapeSnapshot>)
    ensures
        derefs(res@) == stack_order(page.shapes@),
{
    let mut out: Vec<&ShapeSnapshot> = Vec::new();
    collect_snapshots(&page.shapes, &mut out);
    assert(derefs(Seq::<&ShapeSnapshot>::empty()) + stack_order(page.shapes@) =~= stack_order(
        page.shapes@,
    ));
    out
}

/// Matches a snapshot shape by its session ID.
pub open spec fn snapshot_with_id(id: Seq<char>) -> spec_fn(ShapeSnapshot) -> bool {
    |s: ShapeSnapshot| s.id@ == id
}

/// The snapshot shape with a session ID, as a map filled in walk order finds
/// it: the last one visited.
pub fn find_snapshot_shape<'a>(shapes: &Vec<&'a ShapeSnapshot>, id: &str) -> (res: Option<
    &'a ShapeSnapshot,
>)
    ensures
        match res {
            Some(s) => find_last(derefs(shapes@), snapshot_with_id(id@)) == Some(*s),
            None => find_last(derefs(shapes@), snapshot_with_id(id@)) is None,
        },
{
    let ghost p = snapshot_with_id(id@);
    let ghost d = derefs(shapes@);
    let mut i: usize = shapes.len();
    while i > 0
        invariant
            i <= shapes@.len(),
            d == derefs(shapes@),
            p == snapshot_with_id(id@),
            forall|j: int| i <= j < d.len() ==> !p(#[trigger] d[j]),
        decreases i,
    {
        let candidate: &ShapeSnapshot = shapes[i - 1];
        if str_eq(candidate.id.as_str(), id) {
            proof {
                crate::seqs::lemma_find_last_take(d, p, i as int);
                assert(d.take(i as int).last() == d[i - 1]);
            }
            return Some(candidate);
        }
        assert(d[i - 1] == *candidate);
        i = i - 1;
    }
    proof {
        crate::seqs::lemma_find_last_take(d, p, 0);
    }
    None
}

/// Every path has an ID in the catalogue.
pub open spec fn all_catalogued(entries: Seq<(String, u32)>, paths: Seq<Seq<char>>) -> bool {
    forall|i: int| 0 <= i < paths.len() ==> spec_id_at(entries, #[trigger] paths[i]) is Some
}

/// The catalogued ID of each path, in order.
pub open spec fn catalogued_ids(entries: Seq<(String, u32)>, paths: Seq<Seq<char>>) -> Seq<u32> {
    Seq::new(paths.len(), |i: int| spec_id_at(entries, paths[i]).unwrap())
}

/// The page IDs catalogued for some page part paths, in their order; refused
/// when a path has none.
pub fn page_ids_for(entries: &Vec<(String, u32)>, paths: &Vec<String>) -> (res: Result<
    Vec<u32>,
    EditError,
>)
    ensures
        res is Ok <==> all_catalogued(entries@, strs(paths@)),
        res matches Ok(v) ==> v@ == catalogued_ids(entries@, strs(paths@)),
        res matches Err(e) ==> (e matches EditError::InvalidState(m) && m@
            == "page is missing a source ID"@),
{
    let mut ids: Vec<u32> = Vec::new();
    let mut i: usize = 0;
    while i < paths.len()
        invariant
            i <= paths@.len(),
            ids@.len() == i,
            forall|j: int| 0 <= j < i ==> spec_id_at(entries@, #[trigger] strs(paths@)[j]) is Some,
            forall|j: int| 0 <= j < i ==> ids@[j] == spec_id_at(entries@, strs(paths@)[j]).unwrap(),
        decreases paths.len() - i,
    {
        assert(strs(paths@)[i as int] == paths@[i as int]@);
        match id_at(entries, paths[i].as_str()) {
            Some(id) => ids.push(id),
            None => {
                return Err(EditError::InvalidState(owned("page is missing a source ID")));
            },
        }
        i = i + 1;
    }
    assert(ids@ =~= catalogued_ids(entries@, strs(paths@)));
    Ok(ids)
}

fn same_ids(a: &Vec<u32>, b: &Vec<u32>) -> (res: bool)
    ensures
        res == (a@ == b@),
{
    if a.len() != b.len() {
        return false;
    }
    let mut i: usize = 0;
    while i < a.len()
        invariant
            i <= a@.len(),
            a@.len() == b@.len(),
            forall|j: int| 0 <= j < i ==> a@[j] == b@[j],
        decreases a.len() - i,
    {
        if a[i] != b[i] {
            return false;
        }
        i = i + 1;
    }
    assert(a@ =~= b@);
    true
}

/// Whether a save reorders the package's pages: the snapshot's page order,
/// as page IDs, when it differs from the package's own order. The snapshot
/// must name each package page once, and every page part must have an ID.
pub fn page_reorder(package: &VsdxPackage, snapshot: &DiagramSnapshot) -> (res: Result<
    Option<Vec<u32>>,
    EditError,
>)
    ensures
        !page_order_matches(package.page_part_paths@, snapshot.pages@) ==> (res matches Err(
            EditError::InvalidState(m),
        ) && m@ == "page order does not match the original package"@),
        page_order_matches(package.page_part_paths@, snapshot.pages@) ==> ({
            let entries = package.page_part_ids@;
            let desired = page_paths(snapshot.pages@);
            let original = strs(package.page_part_paths@);
            if !all_catalogued(entries, desired) || !all_catalogued(entries, original) {
                res matches Err(EditError::InvalidState(m)) && m@ == "page is missing a source ID"@
            } else if catalogued_ids(entries, desired) == catalogued_ids(entries, original) {
                res == Ok::<Option<Vec<u32>>, EditError>(None)
            } else {
                res matches Ok(Some(ids)) && ids@ == catalogued_ids(entries, desired)
            }
        }),
{
    let paths = match page_part_paths_for_snapshot(package, snapshot) {
        Ok(p) => p,
        Err(e) => return Err(e),
    };
    let desired = match page_ids_for(&package.page_part_ids, &paths) {
        Ok(v) => v,
        Err(e) => return Err(e),
    };
    let original = match page_ids_for(&package.page_part_ids, &package.page_part_paths) {
        Ok(v) => v,
        Err(e) => return Err(e),
    };
    if same_ids(&desired, &original) {
        Ok(None)
    } else {
        Ok(Some(desired))
    }
}

} // verus!
