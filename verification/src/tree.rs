//! Shape trees: the pre-order listing of nested shapes and searches by ID.

use std::collections::HashSet;
use vstd::prelude::*;

use crate::seqs::{find_first, lemma_find_first_skip};
use crate::sheet::{shape_with_id, Shape, Sheet};

verus! {

/// Every shape of a forest in pre-order: each shape, then its nested shapes,
/// then its later siblings.
pub open spec fn flatten(shapes: Seq<Shape>) -> Seq<Shape>
    decreases shapes,
{
    if shapes.len() == 0 {
        Seq::empty()
    } else {
        proof {
            assert(decreases_to!(shapes => shapes[0]));
            assert(decreases_to!(shapes[0] => shapes[0].shapes));
            assert(decreases_to!(shapes[0].shapes => shapes[0].shapes@));
        }
        seq![shapes[0]] + flatten(shapes[0].shapes@) + flatten(shapes.drop_first())
    }
}

/// The first shape with the given ID in pre-order, searching `shapes` and their descendants.
pub fn find_in_forest<'a>(shapes: &'a Vec<Shape>, id: u32) -> (res: Option<&'a Shape>)
    ensures
        res.is_some() == find_first(flatten(shapes@), shape_with_id(id)).is_some(),
        res matches Some(s) ==> find_first(flatten(shapes@), shape_with_id(id)) == Some(*s),
    decreases shapes@,
{
    let ghost p = shape_with_id(id);
    let ghost whole = shapes@;
    let mut i: usize = 0;
    assert(whole.skip(0) =~= whole);
    while i < shapes.len()
        invariant
            i <= shapes@.len(),
            whole == shapes@,
            p == shape_with_id(id),
            find_first(flatten(whole), p) == find_first(flatten(whole.skip(i as int)), p),
        decreases shapes.len() - i,
    {
        let shape = &shapes[i];
        let ghost tail = whole.skip(i as int);
        assert(tail[0] == shape);
        assert(tail.drop_first() =~= whole.skip(i + 1));
        let ghost a = seq![*shape];
        let ghost b = flatten(shape.shapes@);
        let ghost c = flatten(whole.skip(i + 1));
        assert(flatten(tail) == a + b + c);
        if shape.id == id {
            assert(flatten(tail)[0] == *shape);
            return Some(shape);
        }
        proof {
            assert(decreases_to!(shapes@ => shapes@[i as int]));
        }
        let nested = find_in_forest(&shape.shapes, id);
        proof {
            lemma_find_first_skip(flatten(tail), p, 1);
            assert(flatten(tail).skip(1) =~= b + c);
            lemma_find_first_concat(b, c, p);
        }
        if nested.is_some() {
            return nested;
        }
        i = i + 1;
    }
    assert(whole.skip(i as int) =~= Seq::<Shape>::empty());
    None
}

/// The first match in a concatenation is the first match of the front part,
/// or else the first match of the back part.
pub proof fn lemma_find_first_concat<T>(a: Seq<T>, b: Seq<T>, p: spec_fn(T) -> bool)
    ensures
        find_first(a + b, p) == (if find_first(a, p).is_some() {
            find_first(a, p)
        } else {
            find_first(b, p)
        }),
    decreases a.len(),
{
    if a.len() > 0 {
        assert((a + b)[0] == a[0]);
        assert((a + b).drop_first() =~= a.drop_first() + b);
        lemma_find_first_concat(a.drop_first(), b, p);
    } else {
        assert(a + b =~= b);
    }
}

/// The first shape of a sheet with the given page-local ID, in pre-order
/// (a shape before its nested shapes, nested shapes before later siblings).
pub fn find_shape_in<'a>(sheet: &'a Sheet, source_id: u32) -> (res: Option<&'a Shape>)
    ensures
        res.is_some() == find_first(flatten(sheet.shapes@), shape_with_id(source_id)).is_some(),
        res matches Some(s) ==> find_first(flatten(sheet.shapes@), shape_with_id(source_id))
            == Some(*s),
{
    find_in_forest(&sheet.shapes, source_id)
}


/// Every shape of a forest in pre-order, each with the master of its nearest
/// enclosing group that has one (`ctx` for the forest's own shapes).
pub open spec fn with_enclosing(shapes: Seq<Shape>, ctx: Option<u32>) -> Seq<(Shape, Option<u32>)>
    decreases shapes,
{
    if shapes.len() == 0 {
        Seq::empty()
    } else {
        proof {
            assert(decreases_to!(shapes => shapes[0]));
            assert(decreases_to!(shapes[0] => shapes[0].shapes));
            assert(decreases_to!(shapes[0].shapes => shapes[0].shapes@));
        }
        let s = shapes[0];
        let inner = if s.master.is_some() {
            s.master
        } else {
            ctx
        };
        seq![(s, ctx)] + with_enclosing(s.shapes@, inner) + with_enclosing(shapes.drop_first(), ctx)
    }
}

/// Matches a shape-and-enclosing-master entry by shape ID.
pub open spec fn entry_with_id(id: u32) -> spec_fn((Shape, Option<u32>)) -> bool {
    |e: (Shape, Option<u32>)| e.0.id == id
}

fn find_with_enclosing<'a>(shapes: &'a Vec<Shape>, ctx: Option<u32>, id: u32) -> (res: Option<
    (&'a Shape, Option<u32>),
>)
    ensures
        res.is_some() == find_first(with_enclosing(shapes@, ctx), entry_with_id(id)).is_some(),
        res matches Some(e) ==> find_first(with_enclosing(shapes@, ctx), entry_with_id(id))
            == Some((*e.0, e.1)),
    decreases shapes@,
{
    let ghost p = entry_with_id(id);
    let ghost whole = shapes@;
    let mut i: usize = 0;
    assert(whole.skip(0) =~= whole);
    while i < shapes.len()
        invariant
            i <= shapes@.len(),
            whole == shapes@,
            p == entry_with_id(id),
            find_first(with_enclosing(whole, ctx), p) == find_first(
                with_enclosing(whole.skip(i as int), ctx),
                p,
            ),
        decreases shapes.len() - i,
    {
        let shape = &shapes[i];
        let ghost tail = whole.skip(i as int);
        assert(tail[0] == shape);
        assert(tail.drop_first() =~= whole.skip(i + 1));
        let inner = if shape.master.is_some() {
            shape.master
        } else {
            ctx
        };
        let ghost a = seq![(*shape, ctx)];
        let ghost b = with_enclosing(shape.shapes@, inner);
        let ghost c = with_enclosing(whole.skip(i + 1), ctx);
        assert(with_enclosing(tail, ctx) == a + b + c);
        if shape.id == id {
            assert(with_enclosing(tail, ctx)[0] == (*shape, ctx));
            return Some((shape, ctx));
        }
        proof {
            assert(decreases_to!(shapes@ => shapes@[i as int]));
        }
        let nested = find_with_enclosing(&shape.shapes, inner, id);
        proof {
            lemma_find_first_skip(with_enclosing(tail, ctx), p, 1);
            assert(with_enclosing(tail, ctx).skip(1) =~= b + c);
            lemma_find_first_concat(b, c, p);
        }
        if nested.is_some() {
            return nested;
        }
        i = i + 1;
    }
    assert(whole.skip(i as int) =~= Seq::<Shape>::empty());
    None
}

/// The first shape of a sheet with the given page-local ID, in pre-order,
/// with the master of its nearest enclosing group that has one.
pub fn find_shape_with_enclosing<'a>(sheet: &'a Sheet, id: u32) -> (res: Option<(&'a Shape, Option<u32>)>)
    ensures
        res.is_some() == find_first(with_enclosing(sheet.shapes@, None), entry_with_id(id)).is_some(),
        res matches Some(e) ==> find_first(with_enclosing(sheet.shapes@, None), entry_with_id(id))
            == Some((*e.0, e.1)),
{
    find_with_enclosing(&sheet.shapes, None, id)
}

/// The IDs of the shapes in a list.
pub open spec fn ids_of(shapes: Seq<Shape>) -> Set<u32> {
    Set::new(|id: u32| exists|k: int| 0 <= k < shapes.len() && #[trigger] shapes[k].id == id)
}

/// The IDs of a concatenation are those of its parts.
pub proof fn lemma_ids_of_concat(a: Seq<Shape>, b: Seq<Shape>)
    ensures
        ids_of(a + b) == ids_of(a).union(ids_of(b)),
{
    let ab = a + b;
    assert forall|id: u32| ids_of(ab).contains(id) implies ids_of(a).union(ids_of(b)).contains(id) by {
        let k = choose|k: int| 0 <= k < ab.len() && #[trigger] ab[k].id == id;
        if k < a.len() {
            assert(a[k].id == id);
        } else {
            assert(b[k - a.len()].id == id);
        }
    }
    assert forall|id: u32| ids_of(a).union(ids_of(b)).contains(id) implies ids_of(ab).contains(id) by {
        if ids_of(a).contains(id) {
            let k = choose|k: int| 0 <= k < a.len() && #[trigger] a[k].id == id;
            assert(ab[k].id == id);
        } else {
            let k = choose|k: int| 0 <= k < b.len() && #[trigger] b[k].id == id;
            assert(ab[k + a.len()].id == id);
        }
    }
    assert(ids_of(ab) =~= ids_of(a).union(ids_of(b)));
}

/// The pre-order listing of a forest from its `i`-th shape on: that shape,
/// its nested shapes, then the listing from the next shape.
pub proof fn lemma_flatten_step(whole: Seq<Shape>, i: int)
    requires
        0 <= i < whole.len(),
    ensures
        flatten(whole.skip(i)) == seq![whole[i]] + flatten(whole[i].shapes@) + flatten(
            whole.skip(i + 1),
        ),
        ids_of(flatten(whole.skip(i))) == set![whole[i].id].union(ids_of(flatten(whole[i].shapes@))).union(
            ids_of(flatten(whole.skip(i + 1))),
        ),
{
    let tail = whole.skip(i);
    assert(tail[0] == whole[i]);
    assert(tail.drop_first() =~= whole.skip(i + 1));
    let a = seq![whole[i]];
    let b = flatten(whole[i].shapes@);
    let c = flatten(whole.skip(i + 1));
    assert(flatten(tail) == a + b + c);
    lemma_ids_of_concat(a + b, c);
    lemma_ids_of_concat(a, b);
    assert(ids_of(a) =~= set![whole[i].id]) by {
        assert(a[0].id == whole[i].id);
    }
}

fn largest_in(shapes: &Vec<Shape>) -> (res: u32)
    ensures
        forall|id: u32| ids_of(flatten(shapes@)).contains(id) ==> id <= res,
        res == 0 || ids_of(flatten(shapes@)).contains(res),
    decreases shapes@,
{
    let ghost whole = shapes@;
    let mut largest: u32 = 0;
    let mut i: usize = shapes.len();
    assert(whole.skip(i as int) =~= Seq::<Shape>::empty());
    assert(ids_of(flatten(whole.skip(i as int))) =~= Set::<u32>::empty());
    while i > 0
        invariant
            i <= whole.len(),
            whole == shapes@,
            forall|id: u32| ids_of(flatten(whole.skip(i as int))).contains(id) ==> id <= largest,
            largest == 0 || ids_of(flatten(whole.skip(i as int))).contains(largest),
        decreases i,
    {
        let shape = &shapes[i - 1];
        proof {
            lemma_flatten_step(whole, i - 1);
            assert(decreases_to!(shapes@ => shapes@[i - 1]));
        }
        let nested = largest_in(&shape.shapes);
        if shape.id > largest {
            largest = shape.id;
        }
        if nested > largest {
            largest = nested;
        }
        i = i - 1;
    }
    assert(whole.skip(0) =~= whole);
    largest
}

/// The largest shape ID of a sheet, at any depth, or zero when it has no shapes.
pub fn largest_shape_id(sheet: &Sheet) -> (res: u32)
    ensures
        forall|id: u32| ids_of(flatten(sheet.shapes@)).contains(id) ==> id <= res,
        res == 0 || ids_of(flatten(sheet.shapes@)).contains(res),
{
    largest_in(&sheet.shapes)
}

fn collect_ids(shapes: &Vec<Shape>, ids: &mut HashSet<u32>)
    ensures
        final(ids)@ == old(ids)@.union(ids_of(flatten(shapes@))),
    decreases shapes@,
{
    broadcast use vstd::std_specs::hash::group_hash_axioms;
    let ghost whole = shapes@;
    let ghost start = ids@;
    let mut i: usize = shapes.len();
    assert(whole.skip(i as int) =~= Seq::<Shape>::empty());
    assert(ids_of(flatten(whole.skip(i as int))) =~= Set::<u32>::empty());
    assert(start.union(Set::<u32>::empty()) =~= start);
    while i > 0
        invariant
            i <= whole.len(),
            whole == shapes@,
            ids@ == start.union(ids_of(flatten(whole.skip(i as int)))),
        decreases i,
    {
        let shape = &shapes[i - 1];
        proof {
            lemma_flatten_step(whole, i - 1);
            assert(decreases_to!(shapes@ => shapes@[i - 1]));
        }
        let ghost before = ids@;
        ids.insert(shape.id);
        let ghost middle = ids@;
        collect_ids(&shape.shapes, ids);
        proof {
            assert(ids@ =~= start.union(ids_of(flatten(whole.skip(i - 1)))));
        }
        i = i - 1;
    }
    assert(whole.skip(0) =~= whole);
}

/// The IDs of every shape of a sheet, at any depth.
pub fn sheet_shape_ids(sheet: &Sheet) -> (res: HashSet<u32>)
    ensures
        res@ == ids_of(flatten(sheet.shapes@)),
{
    broadcast use vstd::std_specs::hash::group_hash_axioms;
    let mut ids: HashSet<u32> = HashSet::new();
    collect_ids(&sheet.shapes, &mut ids);
    assert(Set::<u32>::empty().union(ids_of(flatten(sheet.shapes@))) =~= ids_of(flatten(sheet.shapes@)));
    ids
}

} // verus!
