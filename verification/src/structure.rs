//! The structural edits that a save derives for one shape container: which
//! original shapes were deleted, and the moves that turn the surviving
//! originals, followed by the shapes added in the session, into the order the
//! session shows.

use vstd::prelude::*;

use crate::edit_checks::{all_xml_chars, validate_story_text};
use crate::edit_model::{EditError, ParseLimits, ShapeSnapshot};
use crate::markup::{shape_markup, shape_xml};
use crate::seqs::find_last;
use crate::snapshot::{derefs, find_snapshot_shape, snapshot_with_id};
use crate::seqs::{find_first, first_index, lemma_find_first_index, lemma_find_first_skip};
use crate::sheet::StructuralEdit;
use crate::snapshot::{container_for, container_ids};
use crate::text::{append, decimal, decimal_string, owned, str_eq};

verus! {

/// One shape of a session container, as the structural diff sees it.
#[derive(Debug)]
pub struct StructuralShapeEntry {
    /// The session's key for the shape.
    pub id: String,
    /// The session key of the shape's parent, for a nested shape.
    pub parent_id: Option<String>,
    /// The page-local ID of the shape in the package.
    pub source_id: u32,
    /// Whether the shape came from the package rather than being added in the session.
    pub is_original: bool,
}

/// Names what `<str as Debug>::fmt` writes for a string: the string quoted,
/// with quotes, backslashes and non-printable characters escaped.
pub uninterp spec fn debug_quoted(s: Seq<char>) -> Seq<char>;

/// `format!("{:?}", s)`: the quoted, escaped form of a string.
#[verifier::external_body]
fn debug_string(s: &str) -> (res: String)
    ensures
        res@ == debug_quoted(s@),
{
    format!("{:?}", s)
}

/// Some original entry of `desired` stands for the package shape `id`.
pub open spec fn desired_original(desired: Seq<StructuralShapeEntry>, id: u32) -> bool {
    exists|k: int|
        0 <= k < desired.len() && #[trigger] desired[k].is_original && desired[k].source_id == id
}

/// The first `n` original IDs that some original entry still stands for, in original order.
pub open spec fn kept_originals(originals: Seq<u32>, desired: Seq<StructuralShapeEntry>, n: int) -> Seq<u32>
    decreases n,
{
    if n <= 0 {
        Seq::empty()
    } else {
        kept_originals(originals, desired, n - 1) + if desired_original(desired, originals[n - 1]) {
            seq![originals[n - 1]]
        } else {
            Seq::empty()
        }
    }
}

/// A deletion for each of the first `n` original IDs that no original entry stands for.
pub open spec fn deletions(
    page_id: u32,
    originals: Seq<u32>,
    desired: Seq<StructuralShapeEntry>,
    n: int,
) -> Seq<StructuralEdit>
    decreases n,
{
    if n <= 0 {
        Seq::empty()
    } else {
        deletions(page_id, originals, desired, n - 1) + if desired_original(
            desired,
            originals[n - 1],
        ) {
            Seq::empty()
        } else {
            seq![StructuralEdit::DeleteShape { page_id, shape_id: originals[n - 1] }]
        }
    }
}

/// Matches an allocation for the session key `key`.
pub open spec fn allocation_for(key: Seq<char>) -> spec_fn((String, u32)) -> bool {
    |a: (String, u32)| a.0@ == key
}

/// The source ID allocated to the added shape with session key `key`: the first allocation for it.
pub open spec fn allocated_source(added: Seq<(String, u32)>, key: Seq<char>) -> Option<u32> {
    match find_first(added, allocation_for(key)) {
        Some(a) => Some(a.1),
        None => None,
    }
}

/// Matches an added entry that has no allocated source ID.
pub open spec fn unallocated(added: Seq<(String, u32)>) -> spec_fn(StructuralShapeEntry) -> bool {
    |e: StructuralShapeEntry| !e.is_original && allocated_source(added, e.id@) is None
}

/// The package ID an entry stands for: its own for an original, the allocated one for an added shape.
pub open spec fn entry_source(e: StructuralShapeEntry, added: Seq<(String, u32)>) -> u32 {
    if e.is_original {
        e.source_id
    } else {
        match allocated_source(added, e.id@) {
            Some(x) => x,
            None => 0,
        }
    }
}

/// The package IDs of the first `n` entries, in the session's order.
pub open spec fn desired_sources(
    desired: Seq<StructuralShapeEntry>,
    added: Seq<(String, u32)>,
    n: int,
) -> Seq<u32>
    decreases n,
{
    if n <= 0 {
        Seq::empty()
    } else {
        desired_sources(desired, added, n - 1).push(entry_source(desired[n - 1], added))
    }
}

/// The allocated IDs of the added shapes among the first `n` entries, in the session's order.
pub open spec fn appended_sources(
    desired: Seq<StructuralShapeEntry>,
    added: Seq<(String, u32)>,
    n: int,
) -> Seq<u32>
    decreases n,
{
    if n <= 0 {
        Seq::empty()
    } else {
        appended_sources(desired, added, n - 1) + if desired[n - 1].is_original {
            Seq::empty()
        } else {
            seq![entry_source(desired[n - 1], added)]
        }
    }
}

/// The container before any move: the kept originals, then the added shapes.
pub open spec fn initial_order(
    originals: Seq<u32>,
    desired: Seq<StructuralShapeEntry>,
    added: Seq<(String, u32)>,
) -> Seq<u32> {
    kept_originals(originals, desired, originals.len() as int) + appended_sources(
        desired,
        added,
        desired.len() as int,
    )
}

/// Matches the ID `x`.
pub open spec fn is_id(x: u32) -> spec_fn(u32) -> bool {
    |y: u32| y == x
}

/// The moves that bring `order` to `target` from position `index` on, with
/// the ID that could not be found if the plan stops: at each position that
/// does not hold the wanted ID yet, move that ID in front of the current
/// occupant (or to the end), then go on with the next position.
pub open spec fn reorder_plan(page_id: u32, order: Seq<u32>, target: Seq<u32>, index: int) -> (
    Seq<StructuralEdit>,
    Option<u32>,
)
    decreases target.len() - index,
{
    if index < 0 || index >= target.len() {
        (Seq::empty(), None)
    } else if index < order.len() && order[index] == target[index] {
        reorder_plan(page_id, order, target, index + 1)
    } else {
        let x = target[index];
        let edit = StructuralEdit::ReorderShape {
            page_id,
            shape_id: x,
            before_shape_id: if index < order.len() {
                Some(order[index])
            } else {
                None
            },
        };
        let from = first_index(order, is_id(x));
        if from >= order.len() {
            (seq![edit], Some(x))
        } else {
            let next = order.remove(from).insert(index, x);
            let rest = reorder_plan(page_id, next, target, index + 1);
            (seq![edit] + rest.0, rest.1)
        }
    }
}

/// The message for an added shape that has no allocated source ID.
pub open spec fn unallocated_message(key: Seq<char>) -> Seq<char> {
    "added shape "@ + debug_quoted(key) + " is missing its allocated source ID"@
}

/// The message for a wanted shape that its container does not hold.
pub open spec fn absent_message(id: u32) -> Seq<char> {
    "shape "@ + decimal(id as nat) + " is requested in order but is absent from its container"@
}

proof fn lemma_desired_sources_len(
    desired: Seq<StructuralShapeEntry>,
    added: Seq<(String, u32)>,
    n: int,
)
    requires
        n >= 0,
    ensures
        desired_sources(desired, added, n).len() == n,
        forall|j: int|
            0 <= j < n ==> #[trigger] desired_sources(desired, added, n)[j] == entry_source(
                desired[j],
                added,
            ),
    decreases n,
{
    if n > 0 {
        lemma_desired_sources_len(desired, added, n - 1);
    }
}

fn has_original_entry(desired: &Vec<StructuralShapeEntry>, id: u32) -> (res: bool)
    ensures
        res == desired_original(desired@, id),
{
    let mut k: usize = 0;
    while k < desired.len()
        invariant
            k <= desired@.len(),
            forall|j: int|
                0 <= j < k ==> !(#[trigger] desired@[j].is_original && desired@[j].source_id == id),
        decreases desired.len() - k,
    {
        if desired[k].is_original && desired[k].source_id == id {
            assert(desired@[k as int].is_original);
            return true;
        }
        k = k + 1;
    }
    false
}

fn allocated_source_exec(added: &Vec<(String, u32)>, key: &str) -> (res: Option<u32>)
    ensures
        res == allocated_source(added@, key@),
{
    let ghost p = allocation_for(key@);
    let mut i: usize = 0;
    while i < added.len()
        invariant
            i <= added@.len(),
            p == allocation_for(key@),
            forall|j: int| 0 <= j < i ==> !p(#[trigger] added@[j]),
        decreases added.len() - i,
    {
        if str_eq(added[i].0.as_str(), key) {
            proof {
                lemma_find_first_skip(added@, p, i as int);
                assert(added@.skip(i as int)[0] == added@[i as int]);
            }
            return Some(added[i].1);
        }
        i = i + 1;
    }
    proof {
        lemma_find_first_index(added@, p);
    }
    None
}

fn position(order: &Vec<u32>, x: u32) -> (res: Option<usize>)
    ensures
        match res {
            Some(f) => f == first_index(order@, is_id(x)) && f < order@.len(),
            None => first_index(order@, is_id(x)) == order@.len(),
        },
{
    let ghost p = is_id(x);
    proof {
        lemma_find_first_index(order@, p);
    }
    let mut i: usize = 0;
    while i < order.len()
        invariant
            i <= order@.len(),
            p == is_id(x),
            forall|j: int| 0 <= j < i ==> !p(#[trigger] order@[j]),
        decreases order.len() - i,
    {
        if order[i] == x {
            proof {
                lemma_find_first_skip(order@, p, i as int);
                assert(order@.skip(i as int)[0] == x);
                assert(first_index(order@.skip(i as int), p) == 0);
            }
            return Some(i);
        }
        i = i + 1;
    }
    proof {
        lemma_find_first_skip(order@, p, i as int);
        assert(order@.skip(i as int) =~= Seq::<u32>::empty());
    }
    None
}

/// Appends to `edits` what a save must do to one container of a page: a
/// deletion for each original shape that no longer has an original entry
/// (in original order), then the moves that turn the kept originals followed
/// by the added shapes into the order of `desired`. `added` holds the source
/// IDs allocated to added shapes, by session key.
pub fn structural_container_edits(
    page_id: u32,
    originals: &Vec<u32>,
    desired: &Vec<StructuralShapeEntry>,
    added: &Vec<(String, u32)>,
    edits: &mut Vec<StructuralEdit>,
) -> (res: Result<(), EditError>)
    requires
        find_first(desired@, unallocated(added@)) is None ==> desired_sources(
            desired@,
            added@,
            desired@.len() as int,
        ).no_duplicates(),
    ensures
        ({
            let dels = deletions(page_id, originals@, desired@, originals@.len() as int);
            match find_first(desired@, unallocated(added@)) {
                Some(e) => {
                    &&& final(edits)@ == old(edits)@ + dels
                    &&& res matches Err(EditError::InvalidState(m)) && m@ == unallocated_message(
                        e.id@,
                    )
                },
                None => {
                    let plan = reorder_plan(
                        page_id,
                        initial_order(originals@, desired@, added@),
                        desired_sources(desired@, added@, desired@.len() as int),
                        0,
                    );
                    &&& final(edits)@ == old(edits)@ + dels + plan.0
                    &&& match plan.1 {
                        None => res is Ok,
                        Some(x) => (res matches Err(EditError::InvalidState(m)) && m@
                            == absent_message(x)),
                    }
                },
            }
        }),
{
    let ghost base = edits@;
    let n = originals.len();
    let mut i: usize = 0;
    while i < n
        invariant
            n == originals@.len(),
            i <= n,
            edits@ == base + deletions(page_id, originals@, desired@, i as int),
            base == old(edits)@,
        decreases n - i,
    {
        let id = originals[i];
        if !has_original_entry(desired, id) {
            edits.push(StructuralEdit::DeleteShape { page_id, shape_id: id });
        }
        i = i + 1;
    }
    let ghost after_deletes = edits@;
    let mut order: Vec<u32> = Vec::new();
    let mut i: usize = 0;
    while i < n
        invariant
            n == originals@.len(),
            i <= n,
            order@ == kept_originals(originals@, desired@, i as int),
            base == old(edits)@,
            after_deletes == base + deletions(page_id, originals@, desired@, n as int),
            edits@ == after_deletes,
        decreases n - i,
    {
        let id = originals[i];
        if has_original_entry(desired, id) {
            order.push(id);
        }
        i = i + 1;
    }
    let ghost kept = order@;
    let ghost p = unallocated(added@);
    let m = desired.len();
    let mut target: Vec<u32> = Vec::new();
    let mut k: usize = 0;
    while k < m
        invariant
            m == desired@.len(),
            k <= m,
            n == originals@.len(),
            p == unallocated(added@),
            kept == kept_originals(originals@, desired@, n as int),
            order@ == kept + appended_sources(desired@, added@, k as int),
            target@ == desired_sources(desired@, added@, k as int),
            forall|j: int| 0 <= j < k ==> !p(#[trigger] desired@[j]),
            edits@ == after_deletes,
            base == old(edits)@,
            after_deletes == base + deletions(page_id, originals@, desired@, n as int),
        decreases m - k,
    {
        let entry = &desired[k];
        if entry.is_original {
            target.push(entry.source_id);
        } else {
            match allocated_source_exec(added, entry.id.as_str()) {
                Some(source) => {
                    order.push(source);
                    target.push(source);
                },
                None => {
                    proof {
                        assert(p(desired@[k as int]));
                        lemma_find_first_skip(desired@, p, k as int);
                        assert(desired@.skip(k as int)[0] == desired@[k as int]);
                    }
                    let mut message = owned("added shape ");
                    let quoted = debug_string(entry.id.as_str());
                    append(&mut message, quoted.as_str());
                    append(&mut message, " is missing its allocated source ID");
                    assert(message@ == unallocated_message(desired@[k as int].id@));
                    assert(find_first(desired@, p) == Some(desired@[k as int]));
                    return Err(EditError::InvalidState(message));
                },
            }
        }
        proof {
            assert(order@ =~= kept + appended_sources(desired@, added@, k + 1));
        }
        k = k + 1;
    }
    proof {
        lemma_find_first_index(desired@, p);
        lemma_desired_sources_len(desired@, added@, m as int);
    }
    let ghost order0 = order@;
    assert(order0 == initial_order(originals@, desired@, added@));
    let ghost goal = reorder_plan(page_id, order0, target@, 0);
    let ghost mut pushed: Seq<StructuralEdit> = Seq::empty();
    let mut index: usize = 0;
    while index < m
        invariant
            m == desired@.len(),
            target@.len() == m,
            target@.no_duplicates(),
            index <= m,
            index <= order@.len(),
            order@.take(index as int) == target@.take(index as int),
            base == old(edits)@,
            after_deletes == base + deletions(page_id, originals@, desired@, originals@.len() as int),
            find_first(desired@, unallocated(added@)) is None,
            target@ == desired_sources(desired@, added@, m as int),
            order0 == initial_order(originals@, desired@, added@),
            goal == reorder_plan(page_id, order0, target@, 0),
            edits@ == after_deletes + pushed,
            goal.0 == pushed + reorder_plan(page_id, order@, target@, index as int).0,
            goal.1 == reorder_plan(page_id, order@, target@, index as int).1,
        decreases m - index,
    {
        let x = target[index];
        if index < order.len() && order[index] == x {
            proof {
                assert(order@.take(index + 1) =~= target@.take(index + 1));
            }
            index = index + 1;
            continue;
        }
        let before = if index < order.len() {
            Some(order[index])
        } else {
            None
        };
        let edit = StructuralEdit::ReorderShape { page_id, shape_id: x, before_shape_id: before };
        edits.push(edit);
        proof {
            pushed = pushed.push(edit);
        }
        match position(&order, x) {
            None => {
                proof {
                    assert(goal.0 =~= pushed);
                }
                let mut message = owned("shape ");
                let digits = decimal_string(x);
                append(&mut message, digits.as_str());
                append(&mut message, " is requested in order but is absent from its container");
                return Err(EditError::InvalidState(message));
            },
            Some(from) => {
                proof {
                    lemma_find_first_index(order@, is_id(x));
                    assert(is_id(x)(order@[from as int]));
                    if from <= index {
                        if from < index {
                            assert(order@.take(index as int)[from as int] == x);
                            assert(target@[from as int] == target@[index as int]);
                        }
                    }
                }
                let ghost old_order = order@;
                order.remove(from);
                order.insert(index, x);
                proof {
                    assert(order@ == old_order.remove(from as int).insert(index as int, x));
                    assert forall|j: int| 0 <= j < index + 1 implies order@[j] == target@[j] by {
                        if j < index {
                            assert(old_order.take(index as int)[j] == target@.take(index as int)[j]);
                        }
                    }
                    assert(order@.take(index + 1) =~= target@.take(index + 1));
                    let rest = reorder_plan(page_id, order@, target@, index + 1);
                    assert(goal.0 =~= pushed + rest.0);
                }
                index = index + 1;
            },
        }
    }
    Ok(())
}


/// The container after a move: `shape` taken out, then put back in front of
/// `before`, or at the end when there is none.
pub open spec fn apply_move(order: Seq<u32>, shape: u32, before: Option<u32>) -> Seq<u32> {
    let rest = order.remove(first_index(order, is_id(shape)));
    match before {
        Some(b) => rest.insert(first_index(rest, is_id(b)), shape),
        None => rest.push(shape),
    }
}

/// The container after the moves among `edits`, applied in turn.
pub open spec fn apply_moves(order: Seq<u32>, edits: Seq<StructuralEdit>) -> Seq<u32>
    decreases edits.len(),
{
    if edits.len() == 0 {
        order
    } else {
        let next = match edits[0] {
            StructuralEdit::ReorderShape { shape_id, before_shape_id, .. } => apply_move(
                order,
                shape_id,
                before_shape_id,
            ),
            _ => order,
        };
        apply_moves(next, edits.drop_first())
    }
}

proof fn lemma_kept_members(originals: Seq<u32>, desired: Seq<StructuralShapeEntry>, n: int)
    requires
        0 <= n <= originals.len(),
    ensures
        forall|t: int|
            0 <= t < kept_originals(originals, desired, n).len() ==> desired_original(
                desired,
                #[trigger] kept_originals(originals, desired, n)[t],
            ) && exists|i: int|
                0 <= i < n && originals[i] == kept_originals(originals, desired, n)[t],
        originals.no_duplicates() ==> kept_originals(originals, desired, n).no_duplicates(),
    decreases n,
{
    if n > 0 {
        lemma_kept_members(originals, desired, n - 1);
        let prev = kept_originals(originals, desired, n - 1);
        let cur = kept_originals(originals, desired, n);
        assert forall|t: int| 0 <= t < cur.len() implies desired_original(
            desired,
            #[trigger] cur[t],
        ) && exists|i: int| 0 <= i < n && originals[i] == cur[t] by {
            if t < prev.len() {
                assert(cur[t] == prev[t]);
                let i = choose|i: int| 0 <= i < n - 1 && originals[i] == prev[t];
                assert(0 <= i < n && originals[i] == cur[t]);
            } else {
                assert(cur[t] == originals[n - 1]);
            }
        }
        if originals.no_duplicates() && desired_original(desired, originals[n - 1]) {
            assert forall|a: int, b: int| 0 <= a < b < cur.len() implies cur[a] != cur[b] by {
                if b < prev.len() {
                    assert(cur[a] == prev[a] && cur[b] == prev[b]);
                } else {
                    assert(cur[a] == prev[a]);
                    let i = choose|i: int| 0 <= i < n - 1 && originals[i] == prev[a];
                    assert(originals[i] != originals[n - 1]);
                }
            }
        } else if originals.no_duplicates() {
            assert(cur =~= prev);
        }
    }
}

/// Some added entry among the first `n` has the package ID `x`.
pub open spec fn added_entry_source(
    desired: Seq<StructuralShapeEntry>,
    added: Seq<(String, u32)>,
    n: int,
    x: u32,
) -> bool {
    exists|j: int|
        0 <= j < n && !desired[j].is_original && #[trigger] desired_sources(
            desired,
            added,
            desired.len() as int,
        )[j] == x
}

proof fn lemma_appended_members(
    desired: Seq<StructuralShapeEntry>,
    added: Seq<(String, u32)>,
    n: int,
)
    requires
        0 <= n <= desired.len(),
    ensures
        forall|t: int|
            0 <= t < appended_sources(desired, added, n).len() ==> added_entry_source(
                desired,
                added,
                n,
                #[trigger] appended_sources(desired, added, n)[t],
            ),
        desired_sources(desired, added, desired.len() as int).no_duplicates()
            ==> appended_sources(desired, added, n).no_duplicates(),
    decreases n,
{
    lemma_desired_sources_len(desired, added, desired.len() as int);
    let d = desired_sources(desired, added, desired.len() as int);
    if n > 0 {
        lemma_appended_members(desired, added, n - 1);
        let prev = appended_sources(desired, added, n - 1);
        let cur = appended_sources(desired, added, n);
        assert forall|t: int| 0 <= t < cur.len() implies added_entry_source(
            desired,
            added,
            n,
            #[trigger] cur[t],
        ) by {
            if t < prev.len() {
                assert(cur[t] == prev[t]);
                assert(added_entry_source(desired, added, n - 1, prev[t]));
                let j = choose|j: int| 0 <= j < n - 1 && !desired[j].is_original && d[j] == prev[t];
                assert(0 <= j < n && !desired[j].is_original && d[j] == cur[t]);
            } else {
                assert(cur[t] == d[n - 1]);
            }
        }
        if d.no_duplicates() && !desired[n - 1].is_original {
            assert forall|a: int, b: int| 0 <= a < b < cur.len() implies cur[a] != cur[b] by {
                if b < prev.len() {
                    assert(cur[a] == prev[a] && cur[b] == prev[b]);
                } else {
                    assert(cur[a] == prev[a]);
                        assert(added_entry_source(desired, added, n - 1, prev[a]));
                    let j = choose|j: int| 0 <= j < n - 1 && !desired[j].is_original && d[j] == prev[a];
                    assert(d[j] != d[n - 1]);
                }
            }
        } else if d.no_duplicates() {
            assert(cur =~= prev);
        }
    } else {
        assert(appended_sources(desired, added, n) =~= Seq::<u32>::empty());
        assert(appended_sources(desired, added, n).len() == 0);
    }
}

proof fn lemma_plan_reaches(page_id: u32, order: Seq<u32>, target: Seq<u32>, index: int)
    requires
        0 <= index <= target.len(),
        index <= order.len(),
        order.no_duplicates(),
        target.no_duplicates(),
        order.take(index) == target.take(index),
        forall|j: int| 0 <= j < order.len() ==> target.contains(#[trigger] order[j]),
        reorder_plan(page_id, order, target, index).1 is None,
    ensures
        apply_moves(order, reorder_plan(page_id, order, target, index).0) == target,
    decreases target.len() - index,
{
    let plan = reorder_plan(page_id, order, target, index);
    if index == target.len() {
        assert(order.to_set().subset_of(target.to_set())) by {
            assert forall|x: u32| order.to_set().contains(x) implies target.to_set().contains(x) by {
                let j = choose|j: int| 0 <= j < order.len() && order[j] == x;
                assert(target.contains(order[j]));
            }
        }
        order.unique_seq_to_set();
        target.unique_seq_to_set();
        vstd::set_lib::lemma_len_subset(order.to_set(), target.to_set());
        assert forall|j: int| 0 <= j < target.len() implies order[j] == target[j] by {
            assert(order.take(index)[j] == order[j]);
            assert(target.take(index)[j] == target[j]);
            assert(order.take(index)[j] == target.take(index)[j]);
        }
        assert(order =~= target);
        assert(plan.0 =~= Seq::<StructuralEdit>::empty());
    } else if index < order.len() && order[index] == target[index] {
        assert(order.take(index + 1) =~= target.take(index + 1)) by {
            assert forall|j: int| 0 <= j < index + 1 implies order[j] == target[j] by {
                if j < index {
                    assert(order.take(index)[j] == order[j]);
                    assert(target.take(index)[j] == target[j]);
                    assert(order.take(index)[j] == target.take(index)[j]);
                }
            }
        }
        lemma_plan_reaches(page_id, order, target, index + 1);
    } else {
        let x = target[index];
        let p = is_id(x);
        let from = first_index(order, p);
        lemma_find_first_index(order, p);
        assert(from < order.len());
        assert(p(order[from]));
        assert(order[from] == x);
        if from < index {
            assert(order.take(index)[from] == order[from]);
            assert(target.take(index)[from] == target[from]);
            assert(order.take(index)[from] == target.take(index)[from]);
            assert(target[from] == target[index]);
        }
        assert(from > index);
        let b = order[index];
        let rest = order.remove(from);
        assert(rest[index] == b);
        let q = is_id(b);
        assert forall|j: int| 0 <= j < index implies !q(#[trigger] rest[j]) by {
            assert(rest[j] == order[j]);
        }
        lemma_find_first_skip(rest, q, index);
        assert(rest.skip(index)[0] == b);
        assert(first_index(rest, q) == index);
        let next = rest.insert(index, x);
        assert(apply_move(order, x, Some(b)) == next);
        let sub = reorder_plan(page_id, next, target, index + 1);
        assert(plan.0 == seq![
            StructuralEdit::ReorderShape { page_id, shape_id: x, before_shape_id: Some(b) },
        ] + sub.0);
        // the moved container keeps the same elements, without repeats
        assert forall|j: int| 0 <= j < next.len() implies next[j] == (if j < index {
            order[j]
        } else if j == index {
            x
        } else if j <= from {
            order[j - 1]
        } else {
            order[j]
        }) by {}
        assert(next.len() == order.len());
        assert forall|a: int, c: int| 0 <= a < c < next.len() implies next[a] != next[c] by {}
        assert forall|j: int| 0 <= j < next.len() implies target.contains(#[trigger] next[j]) by {
            if j == index {
                assert(target[index] == x);
            } else if j < index {
                assert(target.contains(order[j]));
            } else if j <= from {
                assert(target.contains(order[j - 1]));
            } else {
                assert(target.contains(order[j]));
            }
        }
        assert(next.take(index + 1) =~= target.take(index + 1)) by {
            assert forall|j: int| 0 <= j < index + 1 implies next[j] == target[j] by {
                if j < index {
                    assert(order.take(index)[j] == order[j]);
                    assert(target.take(index)[j] == target[j]);
                    assert(order.take(index)[j] == target.take(index)[j]);
                }
            }
        }
        lemma_plan_reaches(page_id, next, target, index + 1);
        let all = plan.0;
        assert(all[0] == StructuralEdit::ReorderShape { page_id, shape_id: x, before_shape_id: Some(b) });
        assert(all.drop_first() =~= sub.0);
    }
}

/// When a container's originals are distinct and the session's order names
/// each shape once, and the save finds every wanted shape, the moves it emits
/// turn the kept originals followed by the added shapes into exactly the
/// session's order.
pub proof fn lemma_moves_reach_session_order(
    page_id: u32,
    originals: Seq<u32>,
    desired: Seq<StructuralShapeEntry>,
    added: Seq<(String, u32)>,
)
    requires
        originals.no_duplicates(),
        find_first(desired, unallocated(added)) is None,
        desired_sources(desired, added, desired.len() as int).no_duplicates(),
        reorder_plan(
            page_id,
            initial_order(originals, desired, added),
            desired_sources(desired, added, desired.len() as int),
            0,
        ).1 is None,
    ensures
        apply_moves(
            initial_order(originals, desired, added),
            reorder_plan(
                page_id,
                initial_order(originals, desired, added),
                desired_sources(desired, added, desired.len() as int),
                0,
            ).0,
        ) == desired_sources(desired, added, desired.len() as int),
{
    let d = desired_sources(desired, added, desired.len() as int);
    let kept = kept_originals(originals, desired, originals.len() as int);
    let app = appended_sources(desired, added, desired.len() as int);
    let order = initial_order(originals, desired, added);
    lemma_desired_sources_len(desired, added, desired.len() as int);
    lemma_kept_members(originals, desired, originals.len() as int);
    lemma_appended_members(desired, added, desired.len() as int);
    assert(order == kept + app);
    // every kept original is the source of an original entry, so it is wanted
    assert forall|t: int| 0 <= t < kept.len() implies exists|j: int|
        0 <= j < desired.len() && desired[j].is_original && #[trigger] kept[t] == d[j] by {
        assert(desired_original(desired, kept[t]));
        let j = choose|j: int|
            0 <= j < desired.len() && #[trigger] desired[j].is_original && desired[j].source_id
                == kept[t];
        assert(d[j] == entry_source(desired[j], added));
    }
    assert forall|j: int| 0 <= j < order.len() implies d.contains(#[trigger] order[j]) by {
        if j < kept.len() {
            assert(order[j] == kept[j]);
            let i = choose|i: int|
                0 <= i < desired.len() && desired[i].is_original && kept[j] == d[i];
            assert(d[i] == order[j]);
        } else {
            assert(order[j] == app[j - kept.len()]);
            assert(added_entry_source(desired, added, desired.len() as int, app[j - kept.len()]));
            let i = choose|i: int|
                0 <= i < desired.len() && !desired[i].is_original && d[i] == app[j - kept.len()];
            assert(d[i] == order[j]);
        }
    }
    assert forall|a: int, c: int| 0 <= a < c < order.len() implies order[a] != order[c] by {
        if c < kept.len() {
            assert(order[a] == kept[a] && order[c] == kept[c]);
        } else if a >= kept.len() {
            assert(order[a] == app[a - kept.len()] && order[c] == app[c - kept.len()]);
        } else {
            let i1 = choose|i: int|
                0 <= i < desired.len() && desired[i].is_original && kept[a] == d[i];
            assert(added_entry_source(desired, added, desired.len() as int, app[c - kept.len()]));
            let i2 = choose|i: int|
                0 <= i < desired.len() && !desired[i].is_original && d[i] == app[c - kept.len()];
            assert(order[a] == d[i1] && order[c] == d[i2]);
            assert(i1 != i2);
        }
    }
    assert(order.take(0) =~= d.take(0));
    lemma_plan_reaches(page_id, order, d, 0);
}

/// Matches a session entry by its session key.
pub open spec fn entry_keyed(id: Seq<char>) -> spec_fn(StructuralShapeEntry) -> bool {
    |e: StructuralShapeEntry| e.id@ == id
}

/// The package ID of an entry's parent, when the entry is nested under an
/// original shape: its parent key names the first entry with that key, and
/// that entry is original.
pub open spec fn parent_source(desired: Seq<StructuralShapeEntry>, e: StructuralShapeEntry) -> Option<u32> {
    match e.parent_id {
        None => None,
        Some(pid) => match find_first(desired, entry_keyed(pid@)) {
            Some(p) => if p.is_original {
                Some(p.source_id)
            } else {
                None
            },
            None => None,
        },
    }
}

/// Where an original entry claims to sit: its parent's package ID and its own.
pub open spec fn identity(desired: Seq<StructuralShapeEntry>, e: StructuralShapeEntry) -> (Option<u32>, u32) {
    (parent_source(desired, e), e.source_id)
}

/// The original entry `i` sits where the package has it: the package
/// container under its parent holds its ID.
pub open spec fn identity_in_package(
    desired: Seq<StructuralShapeEntry>,
    containers: Seq<(Option<u32>, Vec<u32>)>,
    i: int,
) -> bool {
    match container_for(containers, parent_source(desired, desired[i])) {
        Some(c) => c.1@.contains(desired[i].source_id),
        None => false,
    }
}

/// An original entry before `n` claims the place `key`.
pub open spec fn claimed_before(desired: Seq<StructuralShapeEntry>, n: int, key: (Option<u32>, u32)) -> bool {
    exists|j: int| 0 <= j < n && (#[trigger] desired[j]).is_original && identity(desired, desired[j]) == key
}

/// An original entry before `i` claims the same place.
pub open spec fn identity_repeated(desired: Seq<StructuralShapeEntry>, i: int) -> bool {
    claimed_before(desired, i, identity(desired, desired[i]))
}

fn find_entry<'a>(desired: &'a Vec<StructuralShapeEntry>, id: &str) -> (res: Option<&'a StructuralShapeEntry>)
    ensures
        match res {
            Some(e) => find_first(desired@, entry_keyed(id@)) == Some(*e),
            None => find_first(desired@, entry_keyed(id@)) is None,
        },
{
    let ghost p = entry_keyed(id@);
    let mut i: usize = 0;
    while i < desired.len()
        invariant
            i <= desired@.len(),
            p == entry_keyed(id@),
            forall|j: int| 0 <= j < i ==> !p(#[trigger] desired@[j]),
        decreases desired.len() - i,
    {
        if str_eq(desired[i].id.as_str(), id) {
            proof {
                lemma_find_first_skip(desired@, p, i as int);
                assert(desired@.skip(i as int)[0] == desired@[i as int]);
                assert(p(desired@[i as int]));
            }
            return Some(&desired[i]);
        }
        i = i + 1;
    }
    proof {
        lemma_find_first_index(desired@, p);
    }
    None
}

fn parent_source_of(desired: &Vec<StructuralShapeEntry>, e: &StructuralShapeEntry) -> (res: Option<u32>)
    ensures
        res == parent_source(desired@, *e),
{
    match &e.parent_id {
        None => None,
        Some(pid) => match find_entry(desired, pid.as_str()) {
            Some(p) => if p.is_original {
                Some(p.source_id)
            } else {
                None
            },
            None => None,
        },
    }
}

fn holds_id(ids: &Vec<u32>, id: u32) -> (res: bool)
    ensures
        res == ids@.contains(id),
{
    let mut i: usize = 0;
    while i < ids.len()
        invariant
            i <= ids@.len(),
            forall|j: int| 0 <= j < i ==> ids@[j] != id,
        decreases ids.len() - i,
    {
        if ids[i] == id {
            return true;
        }
        i = i + 1;
    }
    false
}

/// Checks that every original entry of a session page sits where the package
/// has it, and that no two original entries claim the same place: the
/// package container under the entry's original parent (the page itself for
/// a top-level entry) must hold the entry's package ID, and each (parent, ID)
/// pair may be claimed once.
pub fn check_original_identities(
    desired: &Vec<StructuralShapeEntry>,
    containers: &Vec<(Option<u32>, Vec<u32>)>,
) -> (res: Result<(), EditError>)
    ensures
        res is Ok <==> (forall|i: int|
            0 <= i < desired@.len() && (#[trigger] desired@[i]).is_original ==> identity_in_package(
                desired@,
                containers@,
                i,
            ) && !identity_repeated(desired@, i)),
        res matches Err(e) ==> (e matches EditError::InvalidState(m) && m@
            == "original shape identity does not match the source package"@),
{
    let mut claimed: Vec<(Option<u32>, u32)> = Vec::new();
    let mut i: usize = 0;
    while i < desired.len()
        invariant
            i <= desired@.len(),
            forall|k: int| 0 <= k < claimed@.len() ==> claimed_before(desired@, i as int, #[trigger] claimed@[k]),
            forall|j: int|
                0 <= j < i && (#[trigger] desired@[j]).is_original ==> claimed@.contains(
                    identity(desired@, desired@[j]),
                ),
            forall|j: int|
                0 <= j < i && (#[trigger] desired@[j]).is_original ==> identity_in_package(
                    desired@,
                    containers@,
                    j,
                ) && !identity_repeated(desired@, j),
        decreases desired.len() - i,
    {
        let entry = &desired[i];
        if entry.is_original {
            let parent = parent_source_of(desired, entry);
            let key = (parent, entry.source_id);
            assert(key == identity(desired@, desired@[i as int]));
            let placed = match container_ids(containers, parent) {
                Some(ids) => holds_id(ids, entry.source_id),
                None => false,
            };
            let mut repeated = false;
            let mut k: usize = 0;
            while k < claimed.len()
                invariant
                    k <= claimed@.len(),
                    repeated == (exists|t: int| 0 <= t < k && claimed@[t] == key),
                decreases claimed.len() - k,
            {
                if claimed[k].0 == key.0 && claimed[k].1 == key.1 {
                    repeated = true;
                }
                k = k + 1;
            }
            if !placed || repeated {
                proof {
                    if repeated {
                        let t = choose|t: int| 0 <= t < claimed@.len() && claimed@[t] == key;
                        let j = choose|j: int|
                            0 <= j < i && (#[trigger] desired@[j]).is_original && identity(
                                desired@,
                                desired@[j],
                            ) == claimed@[t];
                        assert(identity_repeated(desired@, i as int));
                    }
                }
                return Err(EditError::InvalidState(
                    owned("original shape identity does not match the source package"),
                ));
            }
            proof {
                assert(!identity_repeated(desired@, i as int)) by {
                    if identity_repeated(desired@, i as int) {
                        let j = choose|j: int|
                            0 <= j < i && (#[trigger] desired@[j]).is_original && identity(
                                desired@,
                                desired@[j],
                            ) == identity(desired@, desired@[i as int]);
                        assert(claimed@.contains(identity(desired@, desired@[j])));
                    }
                }
            }
            let ghost before = claimed@;
            claimed.push(key);
            proof {
                assert forall|j: int|
                    0 <= j < i + 1 && (#[trigger] desired@[j]).is_original implies claimed@.contains(
                    identity(desired@, desired@[j]),
                ) by {
                    if j < i {
                        let t = choose|t: int| 0 <= t < before.len() && before[t] == identity(
                            desired@,
                            desired@[j],
                        );
                        assert(claimed@[t] == before[t]);
                    } else {
                        assert(claimed@[before.len() as int] == key);
                    }
                }
                assert forall|t: int| 0 <= t < claimed@.len() implies claimed_before(
                    desired@,
                    i + 1,
                    #[trigger] claimed@[t],
                ) by {
                    if t < before.len() {
                        assert(claimed@[t] == before[t]);
                        assert(claimed_before(desired@, i as int, before[t]));
                    } else {
                        assert(desired@[i as int].is_original);
                    }
                }
            }
        }
        i = i + 1;
    }
    Ok(())
}

/// The refusal for an added shape that the snapshot does not show.
pub open spec fn unseen_added_message(key: Seq<char>) -> Seq<char> {
    "added shape "@ + debug_quoted(key) + " is missing from snapshot"@
}

/// The markup a save writes for a shape added in the session: the shape as
/// the snapshot shows it (the last of the page's snapshot shapes with its
/// key), with its story text where that is not empty. An added shape may not
/// be nested, must be in the snapshot, and its story text, where the session
/// has stories, must be writable.
pub fn added_shape_markup(
    entry: &StructuralShapeEntry,
    shapes: &Vec<&ShapeSnapshot>,
    story: Option<&str>,
    limits: &ParseLimits,
) -> (res: Result<String, EditError>)
    ensures
        entry.parent_id is Some ==> (res matches Err(EditError::InvalidState(m)) && m@
            == "added shapes cannot have a parent"@),
        entry.parent_id is None && find_last(derefs(shapes@), snapshot_with_id(entry.id@)) is None
            ==> (res matches Err(EditError::InvalidState(m)) && m@ == unseen_added_message(entry.id@)),
        entry.parent_id is None && find_last(derefs(shapes@), snapshot_with_id(entry.id@)) is Some
            ==> match story {
            Some(t) => if t.len() > limits.max_xml_text_bytes {
                res matches Err(EditError::InvalidState(m)) && m@ == "shape text exceeds maximum length"@
            } else if !all_xml_chars(t@) {
                res matches Err(EditError::InvalidState(m)) && m@
                    == "shape text contains a character forbidden by XML 1.0"@
            } else {
                res matches Ok(x) && x@ == shape_markup(
                    find_last(derefs(shapes@), snapshot_with_id(entry.id@)).unwrap(),
                    if t@.len() == 0 {
                        None
                    } else {
                        Some(t@)
                    },
                )
            },
            None => res matches Ok(x) && x@ == shape_markup(
                find_last(derefs(shapes@), snapshot_with_id(entry.id@)).unwrap(),
                None,
            ),
        },
{
    if entry.parent_id.is_some() {
        return Err(EditError::InvalidState(owned("added shapes cannot have a parent")));
    }
    let snapshot = match find_snapshot_shape(shapes, entry.id.as_str()) {
        Some(s) => s,
        None => {
            let mut message = owned("added shape ");
            let quoted = debug_string(entry.id.as_str());
            append(&mut message, quoted.as_str());
            append(&mut message, " is missing from snapshot");
            proof {
                reveal_strlit("added shape ");
                reveal_strlit(" is missing from snapshot");
            }
            return Err(EditError::InvalidState(message));
        },
    };
    match story {
        Some(t) => {
            match validate_story_text(t, limits) {
                Ok(()) => {},
                Err(e) => return Err(e),
            }
            if t.unicode_len() == 0 {
                Ok(shape_xml(snapshot, None))
            } else {
                Ok(shape_xml(snapshot, Some(t)))
            }
        },
        None => Ok(shape_xml(snapshot, None)),
    }
}

} // verus!
