//! First-match search over sequences, the shape of every ShapeSheet lookup:
//! the first element that satisfies a predicate decides.

use vstd::prelude::*;

verus! {

/// The first element of `s` that satisfies `p`, if any.
pub open spec fn find_first<T>(s: Seq<T>, p: spec_fn(T) -> bool) -> Option<T>
    decreases s.len(),
{
    if s.len() == 0 {
        None
    } else if p(s[0]) {
        Some(s[0])
    } else {
        find_first(s.drop_first(), p)
    }
}

/// The position of the first element of `s` that satisfies `p`, or `s.len()`.
pub open spec fn first_index<T>(s: Seq<T>, p: spec_fn(T) -> bool) -> int
    decreases s.len(),
{
    if s.len() == 0 {
        0
    } else if p(s[0]) {
        0
    } else {
        1 + first_index(s.drop_first(), p)
    }
}

/// Skipping a prefix with no match leaves the first match unchanged.
pub proof fn lemma_find_first_skip<T>(s: Seq<T>, p: spec_fn(T) -> bool, i: int)
    requires
        0 <= i <= s.len(),
        forall|j: int| 0 <= j < i ==> !p(#[trigger] s[j]),
    ensures
        find_first(s, p) == find_first(s.skip(i), p),
        first_index(s, p) == i + first_index(s.skip(i), p),
    decreases i,
{
    if i > 0 {
        assert(!p(s[0]));
        let t = s.drop_first();
        assert forall|j: int| 0 <= j < i - 1 implies !p(#[trigger] t[j]) by {
            assert(t[j] == s[j + 1]);
        }
        lemma_find_first_skip(t, p, i - 1);
        assert(t.skip(i - 1) =~= s.skip(i));
    } else {
        assert(s.skip(0) =~= s);
    }
}

/// The first match is found at `first_index` and nothing before it matches.
pub proof fn lemma_find_first_index<T>(s: Seq<T>, p: spec_fn(T) -> bool)
    ensures
        0 <= first_index(s, p) <= s.len(),
        forall|j: int| 0 <= j < first_index(s, p) ==> !p(#[trigger] s[j]),
        first_index(s, p) < s.len() ==> p(s[first_index(s, p)]) && find_first(s, p) == Some(
            s[first_index(s, p)],
        ),
        first_index(s, p) == s.len() ==> find_first(s, p).is_none(),
        find_first(s, p).is_none() <==> (forall|j: int| 0 <= j < s.len() ==> !p(#[trigger] s[j])),
    decreases s.len(),
{
    if s.len() > 0 && !p(s[0]) {
        let t = s.drop_first();
        lemma_find_first_index(t, p);
        assert forall|j: int| 0 <= j < first_index(s, p) implies !p(#[trigger] s[j]) by {
            if j > 0 {
                assert(s[j] == t[j - 1]);
            }
        }
        if find_first(s, p).is_none() {
            assert forall|j: int| 0 <= j < s.len() implies !p(#[trigger] s[j]) by {
                if j > 0 {
                    assert(s[j] == t[j - 1]);
                }
            }
        } else {
            let k = first_index(t, p);
            assert(s[k + 1] == t[k]);
        }
        if (forall|j: int| 0 <= j < s.len() ==> !p(#[trigger] s[j])) {
            assert forall|j: int| 0 <= j < t.len() implies !p(#[trigger] t[j]) by {
                assert(t[j] == s[j + 1]);
            }
        }
    }
}

/// A found element is an element of the sequence that satisfies the predicate.
pub proof fn lemma_find_first_some<T>(s: Seq<T>, p: spec_fn(T) -> bool)
    requires
        find_first(s, p).is_some(),
    ensures
        p(find_first(s, p).unwrap()),
        s.contains(find_first(s, p).unwrap()),
{
    lemma_find_first_index(s, p);
}


/// The last element of `s` that satisfies `p`, if any.
pub open spec fn find_last<T>(s: Seq<T>, p: spec_fn(T) -> bool) -> Option<T>
    decreases s.len(),
{
    if s.len() == 0 {
        None
    } else if p(s.last()) {
        Some(s.last())
    } else {
        find_last(s.drop_last(), p)
    }
}

/// Dropping a suffix with no match leaves the last match unchanged.
pub proof fn lemma_find_last_take<T>(s: Seq<T>, p: spec_fn(T) -> bool, i: int)
    requires
        0 <= i <= s.len(),
        forall|j: int| i <= j < s.len() ==> !p(#[trigger] s[j]),
    ensures
        find_last(s, p) == find_last(s.take(i), p),
    decreases s.len() - i,
{
    if i < s.len() {
        assert(!p(s.last()));
        let t = s.drop_last();
        assert forall|j: int| i <= j < t.len() implies !p(#[trigger] t[j]) by {
            assert(t[j] == s[j]);
        }
        lemma_find_last_take(t, p, i);
        assert(t.take(i) =~= s.take(i));
    } else {
        assert(s.take(i) =~= s);
    }
}

} // verus!
