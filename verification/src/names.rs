//! Duplicate-free name collections: the sets of cell names, section names
//! and row keys that resolution walks.

use vstd::prelude::*;

use crate::formula_lex::chars_of;
use crate::text::str_eq;

verus! {

/// The characters of each string.
pub open spec fn strs(v: Seq<String>) -> Seq<Seq<char>> {
    v.map_values(|s: String| s@)
}

/// The strings' characters, with no string twice.
pub open spec fn unique_strs(v: Seq<String>) -> bool {
    strs(v).no_duplicates()
}

/// Whether `v` holds a string with the characters of `s`.
pub fn contains_str(v: &Vec<String>, s: &str) -> (res: bool)
    ensures
        res == strs(v@).contains(s@),
{
    let mut i: usize = 0;
    while i < v.len()
        invariant
            i <= v@.len(),
            forall|j: int| 0 <= j < i ==> v@[j]@ != s@,
        decreases v.len() - i,
    {
        if str_eq(v[i].as_str(), s) {
            assert(strs(v@)[i as int] == s@);
            return true;
        }
        i = i + 1;
    }
    assert forall|j: int| 0 <= j < strs(v@).len() implies strs(v@)[j] != s@ by {
        assert(strs(v@)[j] == v@[j]@);
    }
    false
}

/// Adds `s` unless a string with its characters is already present.
pub fn push_unique(v: &mut Vec<String>, s: &str)
    requires
        unique_strs(old(v)@),
    ensures
        unique_strs(final(v)@),
        strs(final(v)@).to_set() == strs(old(v)@).to_set().insert(s@),
        forall|k: Seq<char>| strs(old(v)@).contains(k) ==> strs(final(v)@).contains(k),
{
    let ghost before = strs(v@);
    if !contains_str(v, s) {
        v.push(s.to_owned());
        proof {
            assert(strs(v@) =~= before.push(s@));
            assert forall|a: int, b: int|
                0 <= a < strs(v@).len() && 0 <= b < strs(v@).len() && a != b implies strs(
                v@,
            )[a] != strs(v@)[b] by {
                if a < before.len() && b < before.len() {
                } else if a < before.len() {
                    assert(before.contains(strs(v@)[a]));
                } else {
                    assert(before.contains(strs(v@)[b]));
                }
            }
            assert(strs(v@).to_set() =~= before.to_set().insert(s@)) by {
                assert forall|k: Seq<char>| #[trigger] strs(v@).to_set().contains(k) <==> before.to_set().insert(
                    s@,
                ).contains(k) by {
                    if strs(v@).contains(k) && k != s@ {
                        let i = choose|i: int| 0 <= i < strs(v@).len() && strs(v@)[i] == k;
                        assert(before[i] == k);
                    }
                    if before.contains(k) {
                        let i = choose|i: int| 0 <= i < before.len() && before[i] == k;
                        assert(strs(v@)[i] == k);
                    }
                    if k == s@ {
                        assert(strs(v@)[before.len() as int] == k);
                    }
                }
            }
            assert forall|k: Seq<char>| before.contains(k) implies strs(v@).contains(k) by {
                let i = choose|i: int| 0 <= i < before.len() && before[i] == k;
                assert(strs(v@)[i] == k);
            }
        }
    } else {
        assert(strs(v@).to_set() =~= before.to_set().insert(s@)) by {
            assert forall|k: Seq<char>| #[trigger] strs(v@).to_set().contains(k) <==> before.to_set().insert(
                s@,
            ).contains(k) by {}
        }
    }
}

/// `a` sorts before `b` in the order of `String`'s `Ord`: byte order of the
/// UTF-8 encodings, which is the order of the characters' scalar values,
/// with a proper prefix first.
pub open spec fn str_less(a: Seq<char>, b: Seq<char>) -> bool
    decreases a.len(),
{
    if a.len() == 0 {
        b.len() > 0
    } else if b.len() == 0 {
        false
    } else if a[0] != b[0] {
        (a[0] as int) < (b[0] as int)
    } else {
        str_less(a.drop_first(), b.drop_first())
    }
}

/// The strings are in strictly increasing order.
pub open spec fn ascending(s: Seq<Seq<char>>) -> bool {
    forall|i: int, j: int| 0 <= i < j < s.len() ==> str_less(#[trigger] s[i], #[trigger] s[j])
}

/// No string sorts before itself.
pub proof fn lemma_str_less_irreflexive(a: Seq<char>)
    ensures
        !str_less(a, a),
    decreases a.len(),
{
    if a.len() > 0 {
        lemma_str_less_irreflexive(a.drop_first());
    }
}

/// The string order is transitive.
pub proof fn lemma_str_less_transitive(a: Seq<char>, b: Seq<char>, c: Seq<char>)
    requires
        str_less(a, b),
        str_less(b, c),
    ensures
        str_less(a, c),
    decreases a.len(),
{
    if a.len() > 0 && b.len() > 0 && c.len() > 0 && a[0] == b[0] && b[0] == c[0] {
        lemma_str_less_transitive(a.drop_first(), b.drop_first(), c.drop_first());
    }
}

/// Of two different strings, one sorts before the other.
pub proof fn lemma_str_less_total(a: Seq<char>, b: Seq<char>)
    requires
        a != b,
    ensures
        str_less(a, b) || str_less(b, a),
    decreases a.len(),
{
    if a.len() > 0 && b.len() > 0 {
        if a[0] == b[0] {
            if a.drop_first() == b.drop_first() {
                assert(a =~= seq![a[0]] + a.drop_first());
                assert(b =~= seq![b[0]] + b.drop_first());
            }
            lemma_str_less_total(a.drop_first(), b.drop_first());
        } else {
            assert((a[0] as int) != (b[0] as int));
        }
    } else if a.len() == 0 && b.len() == 0 {
        assert(a =~= b);
    }
}

/// Whether `a` sorts before `b` in `String`'s order.
pub fn str_lt(a: &str, b: &str) -> (res: bool)
    ensures
        res == str_less(a@, b@),
{
    let x = chars_of(a);
    let y = chars_of(b);
    let mut i: usize = 0;
    assert(a@.skip(0) =~= a@);
    assert(b@.skip(0) =~= b@);
    while i < x.len() && i < y.len() && x[i] == y[i]
        invariant
            i <= x@.len(),
            i <= y@.len(),
            x@ == a@,
            y@ == b@,
            str_less(a@, b@) == str_less(a@.skip(i as int), b@.skip(i as int)),
        decreases x.len() - i,
    {
        proof {
            assert(a@.skip(i as int).drop_first() =~= a@.skip(i + 1));
            assert(b@.skip(i as int).drop_first() =~= b@.skip(i + 1));
        }
        i = i + 1;
    }
    proof {
        assert(a@.skip(i as int).len() == 0 || a@.skip(i as int)[0] == a@[i as int]);
        assert(b@.skip(i as int).len() == 0 || b@.skip(i as int)[0] == b@[i as int]);
    }
    if i == x.len() {
        i < y.len()
    } else if i == y.len() {
        false
    } else {
        let cx = x[i];
        let cy = y[i];
        proof {
            assert(a@.skip(i as int)[0] == cx);
            assert(b@.skip(i as int)[0] == cy);
            assert(cx != cy);
            assert(str_less(a@.skip(i as int), b@.skip(i as int)) == ((cx as int) < (cy as int)));
        }
        cx < cy
    }
}

/// Inserts `x` into an ascending list where it is not yet present, keeping
/// the list ascending.
fn insert_sorted(out: &mut Vec<String>, x: String)
    requires
        ascending(strs(old(out)@)),
        !strs(old(out)@).contains(x@),
    ensures
        ascending(strs(final(out)@)),
        forall|y: Seq<char>| #[trigger] strs(final(out)@).contains(y) <==> strs(old(out)@).contains(y) || y == x@,
{
    let ghost before = strs(out@);
    let mut p: usize = 0;
    while p < out.len() && str_lt(out[p].as_str(), x.as_str())
        invariant
            p <= out@.len(),
            before == strs(out@),
            forall|j: int| 0 <= j < p ==> str_less(#[trigger] before[j], x@),
        decreases out.len() - p,
    {
        assert(before[p as int] == out@[p as int]@);
        p = p + 1;
    }
    let ghost xv = x@;
    proof {
        if p < before.len() {
            assert(before[p as int] == out@[p as int]@);
            assert(before[p as int] != xv);
            lemma_str_less_total(before[p as int], xv);
        }
    }
    out.insert(p, x);
    proof {
        let after = strs(out@);
        assert(after =~= before.insert(p as int, xv));
        assert forall|i: int, j: int| 0 <= i < j < after.len() implies str_less(
            #[trigger] after[i],
            #[trigger] after[j],
        ) by {
            if j < p {
            } else if j == p {
                assert(after[i] == before[i]);
            } else if i == p {
                assert(after[j] == before[j - 1]);
                if j - 1 > p {
                    assert(str_less(before[p as int], before[j - 1]));
                    lemma_str_less_transitive(xv, before[p as int], before[j - 1]);
                }
            } else if i < p {
                assert(after[i] == before[i]);
                assert(after[j] == before[j - 1]);
            } else {
                assert(after[i] == before[i - 1]);
                assert(after[j] == before[j - 1]);
            }
        }
        assert forall|y: Seq<char>| #[trigger] after.contains(y) <==> before.contains(y) || y == xv by {
            if after.contains(y) {
                let k = choose|k: int| 0 <= k < after.len() && after[k] == y;
                if k < p {
                    assert(before[k] == y);
                } else if k > p {
                    assert(before[k - 1] == y);
                }
            }
            if before.contains(y) {
                let k = choose|k: int| 0 <= k < before.len() && before[k] == y;
                if k < p {
                    assert(after[k] == y);
                } else {
                    assert(after[k + 1] == y);
                }
            }
            if y == xv {
                assert(after[p as int] == y);
            }
        }
    }
}

/// The strings of a duplicate-free list in `String`'s order.
pub fn sorted_strs(v: Vec<String>) -> (res: Vec<String>)
    requires
        unique_strs(v@),
    ensures
        unique_strs(res@),
        ascending(strs(res@)),
        forall|y: Seq<char>| #[trigger] strs(res@).contains(y) <==> strs(v@).contains(y),
{
    let mut out: Vec<String> = Vec::new();
    let mut i: usize = 0;
    while i < v.len()
        invariant
            i <= v@.len(),
            unique_strs(v@),
            ascending(strs(out@)),
            forall|y: Seq<char>| #[trigger] strs(out@).contains(y) <==> strs(v@.take(i as int)).contains(y),
        decreases v.len() - i,
    {
        proof {
            assert(strs(v@.take(i + 1)) =~= strs(v@.take(i as int)).push(v@[i as int]@));
            if strs(out@).contains(v@[i as int]@) {
                let t0 = strs(v@.take(i as int));
                let k = choose|k: int| 0 <= k < t0.len() && t0[k] == v@[i as int]@;
                assert(strs(v@)[k] == strs(v@)[i as int]);
            }
        }
        let x = v[i].clone();
        insert_sorted(&mut out, x);
        proof {
            assert forall|y: Seq<char>| #[trigger] strs(out@).contains(y) <==> strs(v@.take(i + 1)).contains(y) by {
                let t = strs(v@.take(i as int));
                if t.contains(y) {
                    let k = choose|k: int| 0 <= k < t.len() && t[k] == y;
                    assert(strs(v@.take(i + 1))[k] == y);
                }
                let t1 = strs(v@.take(i + 1));
                if y == v@[i as int]@ {
                    assert(t1[i as int] == y);
                }
                if t1.contains(y) {
                    let k = choose|k: int| 0 <= k < t1.len() && t1[k] == y;
                    if k < i {
                        assert(t[k] == y);
                    }
                }
            }
        }
        i = i + 1;
    }
    proof {
        assert(v@.take(v@.len() as int) =~= v@);
        let s = strs(out@);
        assert forall|a: int, b: int| 0 <= a < s.len() && 0 <= b < s.len() && a != b implies s[a] != s[b] by {
            if a < b {
                assert(str_less(s[a], s[b]));
                if s[a] == s[b] {
                    lemma_str_less_irreflexive(s[a]);
                }
            } else {
                assert(str_less(s[b], s[a]));
                if s[a] == s[b] {
                    lemma_str_less_irreflexive(s[a]);
                }
            }
        }
    }
    out
}

} // verus!
