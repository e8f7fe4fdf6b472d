//! Decisions a session makes on an update from a peer, over what it records
//! of its shapes before and after: which shapes the update removes, which
//! removals need the deleting shape's lock checked, that new shapes were
//! added through the session, and that save baselines and protected formulas
//! stay as they were while their shape survives.

use vstd::prelude::*;

use crate::edit_checks::{shape_id_prefix, spec_shape_id_prefix};
use crate::edit_model::EditError;
use crate::names::{contains_str, strs};
use crate::seqs::{find_first, first_index, lemma_find_first_index, lemma_find_first_skip};
use crate::text::{append, owned, str_eq};

verus! {

/// Where a session records a shape: its page, its parent and how it came
/// into the session.
#[derive(Debug)]
pub struct ShapePlace {
    pub page_id: Option<String>,
    pub parent_id: Option<String>,
    pub origin: Option<String>,
}

/// Matches an entry by its key.
pub open spec fn keyed<T>(key: Seq<char>) -> spec_fn((String, T)) -> bool {
    |e: (String, T)| e.0@ == key
}

/// The keys of some entries, in order.
pub open spec fn keys_of<T>(entries: Seq<(String, T)>) -> Seq<Seq<char>> {
    entries.map_values(|e: (String, T)| e.0@)
}

/// The position of the first entry with a key, or the number of entries.
fn index_of_key<T>(entries: &Vec<(String, T)>, key: &str) -> (res: usize)
    ensures
        res == first_index(entries@, keyed::<T>(key@)),
        res <= entries@.len(),
        res < entries@.len() ==> entries@[res as int].0@ == key@,
{
    let ghost p = keyed::<T>(key@);
    let mut i: usize = 0;
    while i < entries.len()
        invariant
            i <= entries@.len(),
            p == keyed::<T>(key@),
            forall|j: int| 0 <= j < i ==> !p(#[trigger] entries@[j]),
        decreases entries.len() - i,
    {
        if str_eq(entries[i].0.as_str(), key) {
            proof {
                lemma_find_first_skip(entries@, p, i as int);
                assert(p(entries@.skip(i as int)[0]));
            }
            return i;
        }
        i = i + 1;
    }
    proof {
        lemma_find_first_skip(entries@, p, i as int);
    }
    i
}

/// The keys of the shapes recorded before an update that it no longer
/// records, in their order.
pub open spec fn removed_ids(before: Seq<(String, ShapePlace)>, after: Seq<Seq<char>>) -> Seq<Seq<char>>
    decreases before.len(),
{
    if before.len() == 0 {
        Seq::empty()
    } else {
        let rest = removed_ids(before.drop_last(), after);
        let k = before.last().0@;
        if after.contains(k) {
            rest
        } else {
            rest.push(k)
        }
    }
}

/// The shapes an update removes: those recorded before it whose keys it no
/// longer records.
pub fn removed_shape_ids(before: &Vec<(String, ShapePlace)>, after: &Vec<String>) -> (res: Vec<String>)
    ensures
        strs(res@) == removed_ids(before@, strs(after@)),
{
    let mut out: Vec<String> = Vec::new();
    let mut i: usize = 0;
    while i < before.len()
        invariant
            i <= before@.len(),
            strs(out@) == removed_ids(before@.take(i as int), strs(after@)),
        decreases before.len() - i,
    {
        proof {
            assert(before@.take(i + 1).drop_last() =~= before@.take(i as int));
            assert(before@.take(i + 1).last() == before@[i as int]);
        }
        let key = before[i].0.as_str();
        if !contains_str(after, key) {
            let ghost s0 = out@;
            out.push(owned(key));
            proof {
                assert(strs(out@) =~= strs(s0).push(key@));
            }
        }
        i = i + 1;
    }
    proof {
        assert(before@.take(before@.len() as int) =~= before@);
    }
    out
}

/// The place recorded for a shape key.
pub open spec fn place_of(before: Seq<(String, ShapePlace)>, id: Seq<char>) -> Option<ShapePlace> {
    match find_first(before, keyed::<ShapePlace>(id)) {
        Some(e) => Some(e.1),
        None => None,
    }
}

/// A removed shape whose parent the update removes too goes with its parent.
pub open spec fn parent_removed(
    before: Seq<(String, ShapePlace)>,
    removed: Seq<Seq<char>>,
    id: Seq<char>,
) -> bool {
    place_of(before, id) matches Some(p) && p.parent_id matches Some(q) && removed.contains(q@)
}

/// A removed shape that must be authorized on its page but has no page recorded.
pub open spec fn pageless(before: Seq<(String, ShapePlace)>, removed: Seq<Seq<char>>, id: Seq<char>) -> bool {
    !parent_removed(before, removed, id) && !(place_of(before, id) matches Some(p) && p.page_id is Some)
}

/// The (page, shape) pairs whose deletion must be authorized, for the first
/// `n` removed shapes: each whose parent is not removed too.
pub open spec fn deletions(before: Seq<(String, ShapePlace)>, removed: Seq<Seq<char>>, n: int) -> Seq<
    (Seq<char>, Seq<char>),
>
    decreases n,
{
    if n <= 0 {
        Seq::empty()
    } else {
        let rest = deletions(before, removed, n - 1);
        let id = removed[n - 1];
        if parent_removed(before, removed, id) {
            rest
        } else {
            rest.push((place_of(before, id).unwrap().page_id.unwrap()@, id))
        }
    }
}

/// The pairs' characters.
pub open spec fn pair_views(v: Seq<(String, String)>) -> Seq<(Seq<char>, Seq<char>)> {
    v.map_values(|e: (String, String)| (e.0@, e.1@))
}

/// The refusal for a removed shape with no page recorded.
pub open spec fn pageless_message(id: Seq<char>) -> Seq<char> {
    "remote update deletes shape "@ + id + " with no page to authorize its removal"@
}

/// The removals whose lock must be checked, as (page, shape) pairs in the
/// order of `removed`: every removed shape except one whose parent is
/// removed too. The first such shape with no page recorded refuses the update.
pub fn deletions_to_authorize(before: &Vec<(String, ShapePlace)>, removed: &Vec<String>) -> (res: Result<
    Vec<(String, String)>,
    EditError,
>)
    ensures
        ({
            let r = strs(removed@);
            let p = |id: Seq<char>| pageless(before@, r, id);
            &&& res is Ok <==> (forall|i: int| 0 <= i < r.len() ==> !pageless(before@, r, #[trigger] r[i]))
            &&& res matches Ok(v) ==> pair_views(v@) == deletions(before@, r, r.len() as int)
            &&& res matches Err(e) ==> (e matches EditError::InvalidState(m) && 0 <= first_index(r, p)
                < r.len() && m@ == pageless_message(r[first_index(r, p)]))
        }),
{
    let ghost r = strs(removed@);
    let ghost p = |id: Seq<char>| pageless(before@, r, id);
    let mut out: Vec<(String, String)> = Vec::new();
    let mut i: usize = 0;
    while i < removed.len()
        invariant
            i <= removed@.len(),
            r == strs(removed@),
            p == (|id: Seq<char>| pageless(before@, r, id)),
            forall|j: int| 0 <= j < i ==> !p(#[trigger] r[j]),
            pair_views(out@) == deletions(before@, r, i as int),
        decreases removed.len() - i,
    {
        let id = removed[i].as_str();
        assert(r[i as int] == id@);
        let at = index_of_key(before, id);
        proof {
            lemma_find_first_index(before@, keyed::<ShapePlace>(id@));
            if at < before@.len() {
                lemma_find_first_skip(before@, keyed::<ShapePlace>(id@), at as int);
                assert(before@.skip(at as int)[0] == before@[at as int]);
            } else {
                lemma_find_first_skip(before@, keyed::<ShapePlace>(id@), at as int);
            }
        }
        let mut parent_gone = false;
        if at < before.len() {
            match &before[at].1.parent_id {
                Some(q) => {
                    parent_gone = contains_str(removed, q.as_str());
                },
                None => {},
            }
        }
        if !parent_gone {
            let page = if at < before.len() {
                match &before[at].1.page_id {
                    Some(pg) => Some(pg.clone()),
                    None => None,
                }
            } else {
                None
            };
            match page {
                Some(pg) => {
                    let ghost o0 = out@;
                    out.push((pg, owned(id)));
                    proof {
                        assert(pair_views(out@) =~= pair_views(o0).push(
                            (before@[at as int].1.page_id.unwrap()@, id@),
                        ));
                    }
                },
                None => {
                    proof {
                        assert(p(r[i as int]));
                        lemma_find_first_index(r, p);
                        assert(first_index(r, p) == i);
                        reveal_strlit("remote update deletes shape ");
                        reveal_strlit(" with no page to authorize its removal");
                    }
                    let mut message = owned("remote update deletes shape ");
                    append(&mut message, id);
                    append(&mut message, " with no page to authorize its removal");
                    return Err(EditError::InvalidState(message));
                },
            }
        }
        i = i + 1;
    }
    Ok(out)
}

/// An entry recorded after an update that was not recorded before and did
/// not come in through the session.
pub open spec fn unprovenanced(before: Seq<(String, ShapePlace)>, e: (String, ShapePlace)) -> bool {
    !keys_of(before).contains(e.0@) && !(e.1.origin matches Some(o) && o@ == "added"@)
}

/// The refusal for a shape a peer added outside the session.
pub open spec fn unprovenanced_message(key: Seq<char>) -> Seq<char> {
    "remote update adds shape "@ + key + " without session provenance"@
}

fn has_key(entries: &Vec<(String, ShapePlace)>, key: &str) -> (res: bool)
    ensures
        res == keys_of(entries@).contains(key@),
{
    let at = index_of_key(entries, key);
    proof {
        lemma_find_first_index(entries@, keyed::<ShapePlace>(key@));
        if at < entries@.len() {
            assert(keys_of(entries@)[at as int] == key@);
        } else {
            if keys_of(entries@).contains(key@) {
                let k = choose|k: int| 0 <= k < keys_of(entries@).len() && keys_of(entries@)[k] == key@;
                assert(keyed::<ShapePlace>(key@)(entries@[k]));
            }
        }
    }
    at < entries.len()
}

/// Every shape an update records that was not recorded before must have
/// been added through the session; the first that was not refuses it.
pub fn check_new_shapes(before: &Vec<(String, ShapePlace)>, after: &Vec<(String, ShapePlace)>) -> (res:
    Result<(), EditError>)
    ensures
        ({
            let p = |e: (String, ShapePlace)| unprovenanced(before@, e);
            &&& res is Ok <==> (forall|i: int| 0 <= i < after@.len() ==> !unprovenanced(before@, #[trigger] after@[i]))
            &&& res matches Err(e) ==> (e matches EditError::InvalidState(m) && 0 <= first_index(after@, p)
                < after@.len() && m@ == unprovenanced_message(after@[first_index(after@, p)].0@))
        }),
{
    let ghost p = |e: (String, ShapePlace)| unprovenanced(before@, e);
    let mut i: usize = 0;
    while i < after.len()
        invariant
            i <= after@.len(),
            p == (|e: (String, ShapePlace)| unprovenanced(before@, e)),
            forall|j: int| 0 <= j < i ==> !p(#[trigger] after@[j]),
        decreases after.len() - i,
    {
        let key = after[i].0.as_str();
        let added = match &after[i].1.origin {
            Some(o) => {
                proof {
                    reveal_strlit("added");
                }
                str_eq(o.as_str(), "added")
            },
            None => false,
        };
        if !added && !has_key(before, key) {
            proof {
                assert(p(after@[i as int]));
                lemma_find_first_index(after@, p);
                assert(first_index(after@, p) == i);
                reveal_strlit("remote update adds shape ");
                reveal_strlit(" without session provenance");
            }
            let mut message = owned("remote update adds shape ");
            append(&mut message, key);
            append(&mut message, " without session provenance");
            return Err(EditError::InvalidState(message));
        }
        i = i + 1;
    }
    Ok(())
}

/// Which recorded formulas an update may not touch.
#[derive(Debug, Clone, Copy, PartialEq, Eq, Structural)]
pub enum FormulaGuard {
    /// The formula each seeded cell had in the package, which a save diffs against.
    Baseline,
    /// The formula of a cell that a lock or a guard protects.
    Protected,
}

/// The formula an update records under a key.
pub open spec fn formula_at(after: Seq<(String, String)>, key: Seq<char>) -> Option<Seq<char>> {
    match find_first(after, keyed::<String>(key)) {
        Some(e) => Some(e.1@),
        None => None,
    }
}

/// An entry recorded before an update that the update changes, or drops
/// while the entry's shape (the key before its first `/`) survives.
pub open spec fn formula_fault(
    after: Seq<(String, String)>,
    removed: Seq<Seq<char>>,
    e: (String, String),
) -> bool {
    match formula_at(after, e.0@) {
        Some(f) => f != e.1@,
        None => !removed.contains(spec_shape_id_prefix(e.0@)),
    }
}

/// The refusal for a guarded formula an update changes or drops.
pub open spec fn formula_fault_message(guard: FormulaGuard, key: Seq<char>, changed: bool) -> Seq<char> {
    match guard {
        FormulaGuard::Baseline => if changed {
            "remote update changes the save baseline of "@ + key
        } else {
            "remote update removes the save baseline of "@ + key + " while its shape survives"@
        },
        FormulaGuard::Protected => if changed {
            "remote update changes protected cell "@ + key
        } else {
            "remote update removes protected cell "@ + key + " while its shape survives"@
        },
    }
}

/// Every guarded formula recorded before an update must be recorded after
/// it unchanged, unless the update removes the formula's shape; the first
/// that is not refuses the update, as changed or as dropped.
pub fn check_kept_formulas(
    before: &Vec<(String, String)>,
    after: &Vec<(String, String)>,
    removed: &Vec<String>,
    guard: FormulaGuard,
) -> (res: Result<(), EditError>)
    ensures
        ({
            let r = strs(removed@);
            let p = |e: (String, String)| formula_fault(after@, r, e);
            &&& res is Ok <==> (forall|i: int| 0 <= i < before@.len() ==> !formula_fault(after@, r, #[trigger] before@[i]))
            &&& res matches Err(e) ==> {
                let k = first_index(before@, p);
                &&& 0 <= k < before@.len()
                &&& e matches EditError::InvalidState(m) && m@ == formula_fault_message(
                    guard,
                    before@[k].0@,
                    formula_at(after@, before@[k].0@) is Some,
                )
            }
        }),
{
    let ghost r = strs(removed@);
    let ghost p = |e: (String, String)| formula_fault(after@, r, e);
    let mut i: usize = 0;
    while i < before.len()
        invariant
            i <= before@.len(),
            r == strs(removed@),
            p == (|e: (String, String)| formula_fault(after@, r, e)),
            forall|j: int| 0 <= j < i ==> !p(#[trigger] before@[j]),
        decreases before.len() - i,
    {
        let key = before[i].0.as_str();
        let at = index_of_key(after, key);
        proof {
            lemma_find_first_index(after@, keyed::<String>(key@));
            lemma_find_first_skip(after@, keyed::<String>(key@), at as int);
            if at < after@.len() {
                assert(after@.skip(at as int)[0] == after@[at as int]);
            }
        }
        let changed = at < after.len();
        let fault = if changed {
            !str_eq(after[at].1.as_str(), before[i].1.as_str())
        } else {
            !contains_str(removed, shape_id_prefix(key))
        };
        if fault {
            proof {
                assert(p(before@[i as int]));
                lemma_find_first_index(before@, p);
                assert(first_index(before@, p) == i);
            }
            let mut message = match guard {
                FormulaGuard::Baseline => if changed {
                    owned("remote update changes the save baseline of ")
                } else {
                    owned("remote update removes the save baseline of ")
                },
                FormulaGuard::Protected => if changed {
                    owned("remote update changes protected cell ")
                } else {
                    owned("remote update removes protected cell ")
                },
            };
            append(&mut message, key);
            if !changed {
                append(&mut message, " while its shape survives");
            }
            proof {
                reveal_strlit("remote update changes the save baseline of ");
                reveal_strlit("remote update removes the save baseline of ");
                reveal_strlit("remote update changes protected cell ");
                reveal_strlit("remote update removes protected cell ");
                reveal_strlit(" while its shape survives");
            }
            return Err(EditError::InvalidState(message));
        }
        i = i + 1;
    }
    Ok(())
}

/// The characters of an optional string.
pub open spec fn opt_chars(s: Option<String>) -> Option<Seq<char>> {
    match s {
        Some(v) => Some(v@),
        None => None,
    }
}

/// Two places record the same page, parent and origin.
pub open spec fn same_place(a: ShapePlace, b: ShapePlace) -> bool {
    &&& opt_chars(a.page_id) == opt_chars(b.page_id)
    &&& opt_chars(a.parent_id) == opt_chars(b.parent_id)
    &&& opt_chars(a.origin) == opt_chars(b.origin)
}

fn same_opt(a: &Option<String>, b: &Option<String>) -> (res: bool)
    ensures
        res == (opt_chars(*a) == opt_chars(*b)),
{
    match (a, b) {
        (Some(x), Some(y)) => str_eq(x.as_str(), y.as_str()),
        (None, None) => true,
        _ => false,
    }
}

/// Entry `i` of the shapes recorded before an update is still recorded after
/// it, with another page, parent or origin, or (as `sources_match[i]` says)
/// another source ID.
pub open spec fn identity_changed(
    before: Seq<(String, ShapePlace)>,
    after: Seq<(String, ShapePlace)>,
    sources_match: Seq<bool>,
    i: int,
) -> bool {
    match place_of(after, before[i].0@) {
        Some(q) => !same_place(before[i].1, q) || !sources_match[i],
        None => false,
    }
}

/// The refusal for a shape whose recorded identity an update changes.
pub open spec fn identity_message(key: Seq<char>) -> Seq<char> {
    "remote update changes the identity of shape "@ + key
}

/// Every shape recorded both before and after an update must keep its page,
/// parent, origin and source ID; the first that does not refuses the update.
/// Whether the source IDs, numbers the session stores, still match is
/// `sources_match[i]` for entry `i` of `before`.
pub fn check_identities(
    before: &Vec<(String, ShapePlace)>,
    after: &Vec<(String, ShapePlace)>,
    sources_match: &Vec<bool>,
) -> (res: Result<(), EditError>)
    requires
        sources_match@.len() == before@.len(),
    ensures
        res is Ok <==> (forall|i: int|
            0 <= i < before@.len() ==> !#[trigger] identity_changed(before@, after@, sources_match@, i)),
        res matches Err(e) ==> exists|i: int|
            0 <= i < before@.len() && #[trigger] identity_changed(before@, after@, sources_match@, i)
                && (forall|j: int| 0 <= j < i ==> !identity_changed(before@, after@, sources_match@, j))
                && (e matches EditError::InvalidState(m) && m@ == identity_message(before@[i].0@)),
{
    let mut i: usize = 0;
    while i < before.len()
        invariant
            i <= before@.len(),
            sources_match@.len() == before@.len(),
            forall|j: int| 0 <= j < i ==> !#[trigger] identity_changed(before@, after@, sources_match@, j),
        decreases before.len() - i,
    {
        let key = before[i].0.as_str();
        let at = index_of_key(after, key);
        proof {
            lemma_find_first_index(after@, keyed::<ShapePlace>(key@));
            lemma_find_first_skip(after@, keyed::<ShapePlace>(key@), at as int);
            if at < after@.len() {
                assert(after@.skip(at as int)[0] == after@[at as int]);
            }
        }
        if at < after.len() {
            let a = &before[i].1;
            let b = &after[at].1;
            let same = same_opt(&a.page_id, &b.page_id) && same_opt(&a.parent_id, &b.parent_id)
                && same_opt(&a.origin, &b.origin);
            if !same || !sources_match[i] {
                proof {
                    assert(identity_changed(before@, after@, sources_match@, i as int));
                    reveal_strlit("remote update changes the identity of shape ");
                }
                let mut message = owned("remote update changes the identity of shape ");
                append(&mut message, key);
                return Err(EditError::InvalidState(message));
            }
        }
        i = i + 1;
    }
    Ok(())
}

} // verus!
