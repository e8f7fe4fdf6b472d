//! Decisions a merge of concurrent edits makes on the session's shape
//! records: which duplicate entries of an order are dropped, and whether
//! every parent chain ends.

use vstd::prelude::*;

use crate::edit_model::EditError;
use crate::materialize::MAX_SHAPE_NESTING;
use crate::names::{contains_str, strs};
use crate::seqs::{find_first, first_index, lemma_find_first_index, lemma_find_first_skip};
use crate::text::{append, owned, str_eq};

verus! {

/// Whether entry `i` of an order fails the first test: it must name a known
/// shape and does not.
pub open spec fn unknown_at(order: Seq<Option<(String, bool)>>, i: int, require_known: bool) -> bool {
    order[i] matches Some(e) && require_known && !e.1
}

/// Entry `j` of an order names `id`.
pub open spec fn names_at(order: Seq<Option<(String, bool)>>, j: int, id: Seq<char>) -> bool {
    order[j] matches Some(e) && e.0@ == id
}

/// A later entry than `i` names `id` and passes the first test.
pub open spec fn named_later(
    order: Seq<Option<(String, bool)>>,
    i: int,
    id: Seq<char>,
    require_known: bool,
) -> bool {
    exists|j: int|
        #![trigger order[j]]
        i < j < order.len() && names_at(order, j, id) && !unknown_at(order, j, require_known)
}

/// Entry `i` of an order is dropped: it names an unknown shape where known
/// ones are required, or a later entry that stays names the same ID.
pub open spec fn dropped_at(order: Seq<Option<(String, bool)>>, i: int, require_known: bool) -> bool {
    match order[i] {
        Some(e) => unknown_at(order, i, require_known) || named_later(order, i, e.0@, require_known),
        None => false,
    }
}

/// The entries of an order that a merge drops, as indices from the last back:
/// each entry names an ID (with whether that shape still exists); an entry is
/// dropped when shapes must exist and its shape does not, or when a later
/// entry that was not dropped for that reason names the same ID. Entries that
/// name nothing are left alone.
pub fn order_removals(order: &Vec<Option<(String, bool)>>, require_known: bool) -> (res: Vec<usize>)
    ensures
        forall|k: int| 0 <= k < res@.len() ==> res@[k] < order@.len() && dropped_at(
            order@,
            #[trigger] res@[k] as int,
            require_known,
        ),
        forall|k: int, l: int| 0 <= k < l < res@.len() ==> #[trigger] res@[l] < #[trigger] res@[k],
        forall|i: int|
            0 <= i < order@.len() && #[trigger] dropped_at(order@, i, require_known) ==> res@.contains(
                i as usize,
            ),
{
    let mut seen: Vec<String> = Vec::new();
    let mut removals: Vec<usize> = Vec::new();
    let mut i: usize = order.len();
    while i > 0
        invariant
            i <= order@.len(),
            forall|x: Seq<char>|
                #![trigger strs(seen@).contains(x)]
                strs(seen@).contains(x) <==> named_later(order@, i - 1, x, require_known),
            forall|k: int| 0 <= k < removals@.len() ==> i <= removals@[k] < order@.len() && dropped_at(
                order@,
                #[trigger] removals@[k] as int,
                require_known,
            ),
            forall|k: int, l: int| 0 <= k < l < removals@.len() ==> #[trigger] removals@[l] < #[trigger] removals@[k],
            forall|j: int|
                i <= j < order@.len() && #[trigger] dropped_at(order@, j, require_known) ==> removals@.contains(
                    j as usize,
                ),
        decreases i,
    {
        let ghost before = strs(seen@);
        let ghost removed_before = removals@;
        proof {
            lemma_named_later_step(order@, i - 1, require_known);
        }
        match &order[i - 1] {
            None => {},
            Some(entry) => {
                let id = entry.0.as_str();
                let unknown = require_known && !entry.1;
                if unknown || contains_str(&seen, id) {
                    removals.push(i - 1);
                }
                if !unknown {
                    if !contains_str(&seen, id) {
                        let ghost s0 = seen@;
                        let new_id = owned(id);
                        seen.push(new_id);
                        proof {
                            lemma_strs_push(s0, new_id);
                        }
                    }
                }
            },
        }
        proof {
            assert forall|j: int|
                i - 1 <= j < order@.len() && #[trigger] dropped_at(order@, j, require_known) implies removals@.contains(
                j as usize,
            ) by {
                if j >= i {
                    let k = choose|k: int| 0 <= k < removed_before.len() && removed_before[k] == j as usize;
                    assert(removals@[k] == j as usize);
                } else {
                    assert(removals@.last() == j as usize);
                }
            }
        }
        i = i - 1;
    }
    removals
}

proof fn lemma_named_later_step(order: Seq<Option<(String, bool)>>, i: int, require_known: bool)
    requires
        0 <= i < order.len(),
    ensures
        forall|x: Seq<char>|
            #![trigger named_later(order, i - 1, x, require_known)]
            named_later(order, i - 1, x, require_known) <==> named_later(order, i, x, require_known)
                || (names_at(order, i, x) && !unknown_at(order, i, require_known)),
{
    assert forall|x: Seq<char>|
        #![trigger named_later(order, i - 1, x, require_known)]
        named_later(order, i - 1, x, require_known) implies named_later(order, i, x, require_known)
            || (names_at(order, i, x) && !unknown_at(order, i, require_known)) by {
        let j = choose|j: int|
            #![trigger order[j]]
            i - 1 < j < order.len() && names_at(order, j, x) && !unknown_at(order, j, require_known);
        if j != i {
            assert(named_later(order, i, x, require_known));
        }
    }
    assert forall|x: Seq<char>|
        #![trigger named_later(order, i - 1, x, require_known)]
        named_later(order, i, x, require_known) || (names_at(order, i, x) && !unknown_at(
            order,
            i,
            require_known,
        )) implies named_later(order, i - 1, x, require_known) by {
        if named_later(order, i, x, require_known) {
            let j = choose|j: int|
                #![trigger order[j]]
                i < j < order.len() && names_at(order, j, x) && !unknown_at(order, j, require_known);
            assert(i - 1 < j);
        } else {
            assert(names_at(order, i, x));
        }
    }
}

proof fn lemma_strs_push(s: Seq<String>, v: String)
    ensures
        forall|x: Seq<char>| #[trigger] strs(s.push(v)).contains(x) <==> strs(s).contains(x) || x == v@,
{
    assert(strs(s.push(v)) =~= strs(s).push(v@));
    assert forall|x: Seq<char>| #[trigger] strs(s.push(v)).contains(x) implies strs(s).contains(x) || x == v@ by {
        let k = choose|k: int| 0 <= k < strs(s.push(v)).len() && strs(s.push(v))[k] == x;
        if k < s.len() {
            assert(strs(s)[k] == x);
        }
    }
    assert forall|x: Seq<char>| strs(s).contains(x) || x == v@ implies #[trigger] strs(s.push(v)).contains(x) by {
        if strs(s).contains(x) {
            let k = choose|k: int| 0 <= k < strs(s).len() && strs(s)[k] == x;
            assert(strs(s.push(v))[k] == x);
        } else {
            assert(strs(s.push(v))[s.len() as int] == x);
        }
    }
}

/// Once the dropped entries of an order are gone, no two of the entries that
/// stay name the same ID.
pub proof fn lemma_kept_entries_are_distinct(
    order: Seq<Option<(String, bool)>>,
    require_known: bool,
    i: int,
    j: int,
)
    requires
        0 <= i < j < order.len(),
        order[i] is Some,
        order[j] is Some,
        !dropped_at(order, i, require_known),
        !dropped_at(order, j, require_known),
    ensures
        order[i].unwrap().0@ != order[j].unwrap().0@,
{
    if order[i].unwrap().0@ == order[j].unwrap().0@ {
        assert(named_later(order, i, order[i].unwrap().0@, require_known));
    }
}

/// The indices of the entries among the first `n` of an order that a merge
/// keeps, in order.
pub open spec fn kept_indices(order: Seq<Option<(String, bool)>>, require_known: bool, n: int) -> Seq<
    int,
>
    decreases n,
{
    if n <= 0 {
        Seq::empty()
    } else {
        let before = kept_indices(order, require_known, n - 1);
        if dropped_at(order, n - 1, require_known) {
            before
        } else {
            before.push(n - 1)
        }
    }
}

/// An order once a merge has dropped its duplicate and unknown entries.
pub open spec fn normalized(order: Seq<Option<(String, bool)>>, require_known: bool) -> Seq<
    Option<(String, bool)>,
> {
    kept_indices(order, require_known, order.len() as int).map_values(|i: int| order[i])
}

/// An order with the entries a merge drops taken out, the others in their
/// order (see [`order_removals`]).
pub fn normalize_order(order: &Vec<Option<(String, bool)>>, require_known: bool) -> (res: Vec<
    Option<(String, bool)>,
>)
    ensures
        res@ == normalized(order@, require_known),
{
    let removals = order_removals(order, require_known);
    let n = order.len();
    let mut dropped: Vec<bool> = Vec::new();
    let mut i: usize = 0;
    while i < n
        invariant
            i <= n,
            n == order@.len(),
            dropped@.len() == i,
            forall|j: int| 0 <= j < i ==> !(#[trigger] dropped@[j]),
        decreases n - i,
    {
        dropped.push(false);
        i = i + 1;
    }
    let mut t: usize = 0;
    while t < removals.len()
        invariant
            t <= removals@.len(),
            n == order@.len(),
            dropped@.len() == n,
            forall|k: int| 0 <= k < removals@.len() ==> removals@[k] < order@.len() && dropped_at(
                order@,
                #[trigger] removals@[k] as int,
                require_known,
            ),
            forall|j: int|
                0 <= j < n ==> (#[trigger] dropped@[j] <==> exists|k: int|
                    0 <= k < t && removals@[k] == j as usize),
        decreases removals@.len() - t,
    {
        let r = removals[t];
        dropped.set(r, true);
        proof {
            assert forall|j: int| 0 <= j < n implies (#[trigger] dropped@[j] <==> exists|k: int|
                0 <= k < t + 1 && removals@[k] == j as usize) by {
                if j == r as int {
                    assert(removals@[t as int] == j as usize);
                }
            }
        }
        t = t + 1;
    }
    proof {
        assert forall|j: int| 0 <= j < n implies (#[trigger] dropped@[j] <==> dropped_at(
            order@,
            j,
            require_known,
        )) by {
            if dropped_at(order@, j, require_known) {
                assert(removals@.contains(j as usize));
            }
        }
    }
    let mut out: Vec<Option<(String, bool)>> = Vec::new();
    let mut i: usize = 0;
    while i < n
        invariant
            i <= n,
            n == order@.len(),
            dropped@.len() == n,
            forall|j: int| 0 <= j < n ==> (#[trigger] dropped@[j] <==> dropped_at(order@, j, require_known)),
            out@ == kept_indices(order@, require_known, i as int).map_values(|j: int| order@[j]),
        decreases n - i,
    {
        if !dropped[i] {
            let entry = match &order[i] {
                Some(e) => Some((e.0.clone(), e.1)),
                None => None,
            };
            out.push(entry);
        }
        i = i + 1;
    }
    out
}

proof fn lemma_kept_indices(order: Seq<Option<(String, bool)>>, require_known: bool, n: int)
    requires
        0 <= n <= order.len(),
    ensures
        forall|k: int|
            0 <= k < kept_indices(order, require_known, n).len() ==> 0 <= #[trigger] kept_indices(
                order,
                require_known,
                n,
            )[k] < n,
        forall|k: int, l: int|
            0 <= k < l < kept_indices(order, require_known, n).len() ==> #[trigger] kept_indices(
                order,
                require_known,
                n,
            )[k] < #[trigger] kept_indices(order, require_known, n)[l],
        forall|i: int|
            0 <= i < n ==> (kept_indices(order, require_known, n).contains(i) <==> !#[trigger] dropped_at(
                order,
                i,
                require_known,
            )),
    decreases n,
{
    if n > 0 {
        lemma_kept_indices(order, require_known, n - 1);
        let before = kept_indices(order, require_known, n - 1);
        let after = kept_indices(order, require_known, n);
        assert forall|i: int| 0 <= i < n implies (after.contains(i) <==> !#[trigger] dropped_at(
            order,
            i,
            require_known,
        )) by {
            if after.contains(i) {
                let k = choose|k: int| 0 <= k < after.len() && after[k] == i;
                if i < n - 1 {
                    assert(before[k] == i);
                }
            }
            if !dropped_at(order, i, require_known) {
                if i < n - 1 {
                    let k = choose|k: int| 0 <= k < before.len() && before[k] == i;
                    assert(after[k] == i);
                } else {
                    assert(after[after.len() - 1] == i);
                }
            }
        }
    }
}

proof fn lemma_last_naming(order: Seq<Option<(String, bool)>>, require_known: bool, i: int, id: Seq<char>)
    requires
        0 <= i < order.len(),
        names_at(order, i, id),
        !unknown_at(order, i, require_known),
    ensures
        exists|j: int|
            #![trigger order[j]]
            i <= j < order.len() && names_at(order, j, id) && !dropped_at(order, j, require_known),
    decreases order.len() - i,
{
    if named_later(order, i, id, require_known) {
        let j = choose|j: int|
            #![trigger order[j]]
            i < j < order.len() && names_at(order, j, id) && !unknown_at(order, j, require_known);
        lemma_last_naming(order, require_known, j, id);
    } else {
        assert(!dropped_at(order, i, require_known));
    }
}

/// What a merge leaves of an order: the entries that stay keep their
/// relative order, and exactly the dropped ones are gone; entries that name
/// nothing all stay; no two entries that stay name the same ID; where shapes
/// must exist, every entry that stays names one that does; and every ID that
/// an acceptable entry names is still named, by its last acceptable entry.
pub proof fn lemma_normalized_order(order: Seq<Option<(String, bool)>>, require_known: bool)
    ensures
        ({
            let kept = kept_indices(order, require_known, order.len() as int);
            let out = normalized(order, require_known);
            &&& out.len() == kept.len()
            &&& forall|k: int| 0 <= k < out.len() ==> 0 <= #[trigger] kept[k] < order.len() && out[k]
                == order[kept[k]]
            &&& forall|k: int, l: int| 0 <= k < l < kept.len() ==> #[trigger] kept[k] < #[trigger] kept[l]
            &&& forall|i: int|
                0 <= i < order.len() ==> (kept.contains(i) <==> !#[trigger] dropped_at(
                    order,
                    i,
                    require_known,
                ))
            &&& forall|i: int| 0 <= i < order.len() && #[trigger] order[i] is None ==> kept.contains(i)
            &&& forall|k: int, l: int|
                0 <= k < l < out.len() && #[trigger] out[k] is Some && #[trigger] out[l] is Some
                    ==> out[k].unwrap().0@ != out[l].unwrap().0@
            &&& require_known ==> forall|k: int|
                0 <= k < out.len() && #[trigger] out[k] is Some ==> out[k].unwrap().1
            &&& forall|i: int|
                0 <= i < order.len() && #[trigger] order[i] is Some && !unknown_at(order, i, require_known)
                    ==> exists|k: int|
                    0 <= k < out.len() && kept[k] >= i && #[trigger] out[k] == order[kept[k]]
                        && names_at(order, kept[k], order[i].unwrap().0@)
        }),
{
    let n = order.len() as int;
    let kept = kept_indices(order, require_known, n);
    let out = normalized(order, require_known);
    lemma_kept_indices(order, require_known, n);
    assert forall|i: int| 0 <= i < order.len() && #[trigger] order[i] is None implies kept.contains(i) by {
        assert(!dropped_at(order, i, require_known));
    }
    assert forall|k: int, l: int|
        0 <= k < l < out.len() && #[trigger] out[k] is Some && #[trigger] out[l] is Some implies out[k].unwrap().0@
        != out[l].unwrap().0@ by {
        assert(kept.contains(kept[k]));
        assert(kept.contains(kept[l]));
        lemma_kept_entries_are_distinct(order, require_known, kept[k], kept[l]);
    }
    assert forall|k: int| require_known && 0 <= k < out.len() && #[trigger] out[k] is Some implies out[k].unwrap().1 by {
        assert(kept.contains(kept[k]));
        assert(!dropped_at(order, kept[k], require_known));
        assert(out[k] == order[kept[k]]);
        assert(!unknown_at(order, kept[k], require_known));
    }
    assert forall|i: int|
        0 <= i < order.len() && #[trigger] order[i] is Some && !unknown_at(order, i, require_known) implies exists|k: int|
        0 <= k < out.len() && kept[k] >= i && #[trigger] out[k] == order[kept[k]] && names_at(
            order,
            kept[k],
            order[i].unwrap().0@,
        ) by {
        let id = order[i].unwrap().0@;
        lemma_last_naming(order, require_known, i, id);
        let j = choose|j: int|
            #![trigger order[j]]
            i <= j < order.len() && names_at(order, j, id) && !dropped_at(order, j, require_known);
        assert(kept.contains(j));
        let k = choose|k: int| 0 <= k < kept.len() && kept[k] == j;
        assert(out[k] == order[kept[k]]);
    }
}

/// Matches a shape record by its ID.
pub open spec fn record_for(id: Seq<char>) -> spec_fn((String, Option<String>)) -> bool {
    |e: (String, Option<String>)| e.0@ == id
}

/// The parent a shape's record names: none when the shape has no record or
/// its record names no parent.
pub open spec fn parent_of(records: Seq<(String, Option<String>)>, id: Seq<char>) -> Option<Seq<char>> {
    match find_first(records, record_for(id)) {
        Some(e) => match e.1 {
            Some(p) => Some(p@),
            None => None,
        },
        None => None,
    }
}

/// The `n`-th step up a shape's parent chain (the shape itself at step zero).
pub open spec fn ancestor(records: Seq<(String, Option<String>)>, start: Seq<char>, n: nat) -> Option<
    Seq<char>,
>
    decreases n,
{
    if n == 0 {
        Some(start)
    } else {
        match ancestor(records, start, (n - 1) as nat) {
            Some(c) => parent_of(records, c),
            None => None,
        }
    }
}

/// Step `k` of the chain comes back to a shape an earlier step reached.
pub open spec fn repeats_at(records: Seq<(String, Option<String>)>, start: Seq<char>, k: nat) -> bool {
    exists|j: nat| j < k && #[trigger] ancestor(records, start, j) == ancestor(records, start, k)
}

/// What is wrong with a parent chain.
#[derive(Debug, Clone, Copy, PartialEq, Eq, Structural)]
pub enum ChainFault {
    /// The chain comes back to a shape it already passed.
    Cycle,
    /// The chain passes more shapes than the nesting limit.
    TooDeep,
}

/// The fault of a parent chain, walked from step `k`: a step that repeats an
/// earlier one is a cycle; a step beyond the nesting limit is too deep; a
/// chain that runs out of parents first is sound.
pub open spec fn chain_fault_from(
    records: Seq<(String, Option<String>)>,
    start: Seq<char>,
    k: nat,
) -> Option<ChainFault>
    decreases MAX_SHAPE_NESTING - k,
{
    match ancestor(records, start, k) {
        None => None,
        Some(_) => if repeats_at(records, start, k) {
            Some(ChainFault::Cycle)
        } else if k >= MAX_SHAPE_NESTING {
            Some(ChainFault::TooDeep)
        } else {
            chain_fault_from(records, start, k + 1)
        },
    }
}

fn parent_in<'a>(records: &'a Vec<(String, Option<String>)>, id: &str) -> (res: Option<&'a String>)
    ensures
        match res {
            Some(p) => parent_of(records@, id@) == Some(p@),
            None => parent_of(records@, id@) is None,
        },
{
    let ghost p = record_for(id@);
    let mut i: usize = 0;
    while i < records.len()
        invariant
            i <= records@.len(),
            p == record_for(id@),
            forall|j: int| 0 <= j < i ==> !p(#[trigger] records@[j]),
        decreases records.len() - i,
    {
        if str_eq(records[i].0.as_str(), id) {
            proof {
                lemma_find_first_skip(records@, p, i as int);
                assert(records@.skip(i as int)[0] == records@[i as int]);
                assert(p(records@.skip(i as int)[0]));
            }
            return match &records[i].1 {
                Some(parent) => Some(parent),
                None => None,
            };
        }
        i = i + 1;
    }
    proof {
        lemma_find_first_index(records@, p);
    }
    None
}

/// The fault of a shape's parent chain, if it has one.
pub fn chain_fault(records: &Vec<(String, Option<String>)>, start: &str) -> (res: Option<ChainFault>)
    ensures
        res == chain_fault_from(records@, start@, 0),
{
    let mut current: String = owned(start);
    let mut seen: Vec<String> = Vec::new();
    let ghost mut k: nat = 0;
    loop
        invariant
            k <= MAX_SHAPE_NESTING,
            seen@.len() == k,
            ancestor(records@, start@, k) == Some(current@),
            forall|j: int| 0 <= j < k ==> ancestor(records@, start@, j as nat) == Some(#[trigger] strs(seen@)[j]),
            chain_fault_from(records@, start@, 0) == chain_fault_from(records@, start@, k),
        decreases MAX_SHAPE_NESTING - k,
    {
        if contains_str(&seen, current.as_str()) {
            proof {
                let j = choose|j: int| 0 <= j < strs(seen@).len() && strs(seen@)[j] == current@;
                assert(ancestor(records@, start@, j as nat) == ancestor(records@, start@, k));
                assert(repeats_at(records@, start@, k));
            }
            return Some(ChainFault::Cycle);
        }
        proof {
            assert forall|j: nat| j < k implies #[trigger] ancestor(records@, start@, j) != ancestor(
                records@,
                start@,
                k,
            ) by {
                assert(strs(seen@)[j as int] != current@);
            }
            assert(!repeats_at(records@, start@, k));
        }
        if seen.len() >= MAX_SHAPE_NESTING {
            return Some(ChainFault::TooDeep);
        }
        let ghost s0 = seen@;
        seen.push(current.clone());
        proof {
            assert(strs(seen@) =~= strs(s0).push(current@));
        }
        match parent_in(records, current.as_str()) {
            None => {
                proof {
                    assert(ancestor(records@, start@, k + 1) is None);
                    assert(chain_fault_from(records@, start@, k + 1) is None);
                    assert(chain_fault_from(records@, start@, k) is None);
                }
                return None;
            },
            Some(parent) => {
                let next = parent.clone();
                proof {
                    assert(ancestor(records@, start@, k + 1) == Some(next@));
                    k = k + 1;
                }
                current = next;
            },
        }
    }
}

/// Matches a shape record whose parent chain is at fault.
pub open spec fn faulty_record(records: Seq<(String, Option<String>)>) -> spec_fn((String, Option<String>)) -> bool {
    |e: (String, Option<String>)| chain_fault_from(records, e.0@, 0) is Some
}

/// Checks that every shape's parent chain ends within the nesting limit,
/// looking at the records in order; the first shape whose chain loops or
/// runs too deep is reported.
pub fn validate_parent_chains(records: &Vec<(String, Option<String>)>) -> (res: Result<(), EditError>)
    ensures
        res is Ok <==> (forall|i: int|
            0 <= i < records@.len() ==> chain_fault_from(records@, (#[trigger] records@[i]).0@, 0) is None),
        res is Ok ==> forall|i: int|
            0 <= i < records@.len() ==> chain_ends_within_limit(records@, (#[trigger] records@[i]).0@),
        res matches Err(e) ==> {
            let i = first_index(records@, faulty_record(records@));
            let id = records@[i].0@;
            &&& 0 <= i < records@.len()
            &&& chain_fault_from(records@, id, 0) == Some(ChainFault::Cycle) ==> (e matches EditError::InvalidState(m)
                && m@ == "shape "@ + id + " has a cyclic parent chain"@)
            &&& chain_fault_from(records@, id, 0) == Some(ChainFault::TooDeep) ==> (e matches EditError::InvalidState(m)
                && m@ == "shape nesting exceeds maximum depth"@)
        },
{
    let ghost p = faulty_record(records@);
    let mut i: usize = 0;
    while i < records.len()
        invariant
            i <= records@.len(),
            p == faulty_record(records@),
            forall|j: int| 0 <= j < i ==> !p(#[trigger] records@[j]),
        decreases records.len() - i,
    {
        let id = records[i].0.as_str();
        match chain_fault(records, id) {
            None => {},
            Some(fault) => {
                proof {
                    assert(p(records@[i as int]));
                    lemma_find_first_index(records@, p);
                    assert(first_index(records@, p) == i);
                }
                let mut message: String = owned("shape ");
                match fault {
                    ChainFault::Cycle => {
                        append(&mut message, id);
                        append(&mut message, " has a cyclic parent chain");
                        proof {
                            reveal_strlit("shape ");
                            reveal_strlit(" has a cyclic parent chain");
                        }
                    },
                    ChainFault::TooDeep => {
                        message = owned("shape nesting exceeds maximum depth");
                    },
                }
                return Err(EditError::InvalidState(message));
            },
        }
        i = i + 1;
    }
    proof {
        assert forall|i: int| 0 <= i < records@.len() implies chain_ends_within_limit(
            records@,
            (#[trigger] records@[i]).0@,
        ) by {
            assert(!p(records@[i]));
            lemma_chain_walk_ends(records@, records@[i].0@);
        }
    }
    Ok(())
}

/// The first `k` steps of a shape's parent chain each reach a shape, and no
/// two of them reach the same one.
pub open spec fn distinct_steps(records: Seq<(String, Option<String>)>, start: Seq<char>, k: nat) -> bool {
    &&& forall|j: nat| j < k ==> #[trigger] ancestor(records, start, j) is Some
    &&& forall|i: nat, j: nat|
        #![trigger ancestor(records, start, i), ancestor(records, start, j)]
        i < j < k ==> ancestor(records, start, i) != ancestor(records, start, j)
}

/// Walking up from `start` runs out of parents after `n` distinct steps, `n`
/// at most the nesting limit.
pub open spec fn chain_ends_within_limit(records: Seq<(String, Option<String>)>, start: Seq<char>) -> bool {
    exists|n: nat|
        1 <= n <= MAX_SHAPE_NESTING && distinct_steps(records, start, n) && #[trigger] ancestor(
            records,
            start,
            n,
        ) is None
}

/// Walking up a shape's parent chain ends within the nesting limit, in one
/// of three ways. A sound chain runs out of parents after `n` distinct steps,
/// `n` at most the limit. A cyclic chain reaches, after `k` distinct steps
/// (`k` at most the limit), a shape it already passed. A chain that is too
/// deep passes one shape more than the limit, all distinct.
pub proof fn lemma_chain_walk_ends(records: Seq<(String, Option<String>)>, start: Seq<char>)
    ensures
        chain_fault_from(records, start, 0) is None ==> chain_ends_within_limit(records, start),
        chain_fault_from(records, start, 0) == Some(ChainFault::Cycle) ==> exists|k: nat|
            1 <= k <= MAX_SHAPE_NESTING && distinct_steps(records, start, k)
                && #[trigger] ancestor(records, start, k) is Some && repeats_at(records, start, k),
        chain_fault_from(records, start, 0) == Some(ChainFault::TooDeep) ==> distinct_steps(
            records,
            start,
            (MAX_SHAPE_NESTING + 1) as nat,
        ),
{
    lemma_chain_walk_from(records, start, 0);
}

proof fn lemma_chain_walk_from(records: Seq<(String, Option<String>)>, start: Seq<char>, k: nat)
    requires
        k <= MAX_SHAPE_NESTING,
        distinct_steps(records, start, k),
    ensures
        chain_fault_from(records, start, k) is None ==> chain_ends_within_limit(records, start),
        chain_fault_from(records, start, k) == Some(ChainFault::Cycle) ==> exists|m: nat|
            1 <= m <= MAX_SHAPE_NESTING && distinct_steps(records, start, m)
                && #[trigger] ancestor(records, start, m) is Some && repeats_at(records, start, m),
        chain_fault_from(records, start, k) == Some(ChainFault::TooDeep) ==> distinct_steps(
            records,
            start,
            (MAX_SHAPE_NESTING + 1) as nat,
        ),
    decreases MAX_SHAPE_NESTING - k,
{
    assert(ancestor(records, start, 0) == Some(start));
    if ancestor(records, start, k) is None {
        assert(k != 0);
    } else if repeats_at(records, start, k) {
        let j = choose|j: nat| j < k && #[trigger] ancestor(records, start, j) == ancestor(records, start, k);
        assert(k != 0);
    } else {
        assert forall|i: nat, j: nat|
            #![trigger ancestor(records, start, i), ancestor(records, start, j)]
            i < j < k + 1 implies ancestor(records, start, i) != ancestor(records, start, j) by {
            if j == k {
                if ancestor(records, start, i) == ancestor(records, start, k) {
                    assert(repeats_at(records, start, k));
                }
            }
        }
        assert(distinct_steps(records, start, k + 1));
        if k < MAX_SHAPE_NESTING {
            lemma_chain_walk_from(records, start, k + 1);
        }
    }
}

} // verus!
