//! Sorted lists of distinct strings, in code-point order: the shape in which
//! ordered sets and maps keyed by strings are kept here.

use vstd::prelude::*;
use crate::classify::{chars_le, lemma_chars_le_total, lemma_chars_le_transitive};
use crate::producer::string_views;
use crate::text::str_eq;

verus! {

/// Strict code-point order on strings.
pub open spec fn chars_lt(a: Seq<char>, b: Seq<char>) -> bool {
    chars_le(a, b) && a != b
}

/// Every string strictly before the next.
pub open spec fn strictly_sorted(v: Seq<Seq<char>>) -> bool {
    forall|i: int, j: int| 0 <= i < j < v.len() ==> chars_lt(#[trigger] v[i], #[trigger] v[j])
}

/// Code-point order is antisymmetric.
pub proof fn lemma_chars_le_antisymmetric(a: Seq<char>, b: Seq<char>)
    requires
        chars_le(a, b),
        chars_le(b, a),
    ensures
        a == b,
    decreases a.len(),
{
    if a.len() > 0 && b.len() > 0 {
        if a[0] == b[0] {
            lemma_chars_le_antisymmetric(a.drop_first(), b.drop_first());
            assert(a =~= seq![a[0]] + a.drop_first());
            assert(b =~= seq![b[0]] + b.drop_first());
        }
    } else {
        assert(a.len() == 0 && b.len() == 0);
        assert(a =~= b);
    }
}

/// Strict order chains through the non-strict one.
pub proof fn lemma_chars_lt_chain(a: Seq<char>, b: Seq<char>, c: Seq<char>)
    ensures
        chars_lt(a, b) && chars_le(b, c) ==> chars_lt(a, c),
        chars_le(a, b) && chars_lt(b, c) ==> chars_lt(a, c),
        !chars_le(a, b) ==> chars_lt(b, a),
{
    lemma_chars_le_total(a, b);
    if chars_le(a, b) && chars_le(b, c) {
        lemma_chars_le_transitive(a, b, c);
        if a == c {
            lemma_chars_le_antisymmetric(a, b);
            lemma_chars_le_antisymmetric(b, c);
        }
    }
    if !chars_le(a, b) && a == b {
        lemma_chars_le_total(a, a);
    }
}

/// Where a string belongs in a sorted list, and whether it is already there.
pub fn locate(v: &Vec<String>, s: &str) -> (r: (usize, bool))
    requires
        strictly_sorted(string_views(v@)),
    ensures
        r.0 <= v@.len(),
        forall|k: int| 0 <= k < r.0 ==> chars_lt(#[trigger] string_views(v@)[k], s@),
        r.1 ==> r.0 < v@.len() && v@[r.0 as int]@ == s@,
        !r.1 ==> forall|k: int| r.0 <= k < v@.len() ==> chars_lt(s@, #[trigger] string_views(v@)[k]),
{
    let ghost sv = string_views(v@);
    let mut i: usize = 0;
    while i < v.len()
        invariant
            sv == string_views(v@),
            strictly_sorted(sv),
            i <= v@.len(),
            forall|k: int| 0 <= k < i ==> chars_lt(#[trigger] sv[k], s@),
        decreases v@.len() - i,
    {
        assert(sv[i as int] == v@[i as int]@);
        if str_eq(v[i].as_str(), s) {
            return (i, true);
        }
        if crate::classify::str_le(s, v[i].as_str()) {
            proof {
                assert(chars_lt(s@, sv[i as int]));
                assert forall|k: int| i <= k < v@.len() implies chars_lt(s@, #[trigger] sv[k]) by {
                    if k > i {
                        assert(chars_lt(sv[i as int], sv[k]));
                        lemma_chars_lt_chain(s@, sv[i as int], sv[k]);
                    }
                }
            }
            return (i, false);
        }
        proof {
            lemma_chars_lt_chain(s@, sv[i as int], s@);
        }
        i = i + 1;
    }
    (i, false)
}

/// Inserting a string where it belongs keeps a sorted list sorted.
pub proof fn lemma_insert_sorted(v: Seq<Seq<char>>, p: int, s: Seq<char>)
    requires
        strictly_sorted(v),
        0 <= p <= v.len(),
        forall|k: int| 0 <= k < p ==> chars_lt(#[trigger] v[k], s),
        forall|k: int| p <= k < v.len() ==> chars_lt(s, #[trigger] v[k]),
    ensures
        strictly_sorted(v.insert(p, s)),
{
    let w = v.insert(p, s);
    assert forall|i: int, j: int| 0 <= i < j < w.len() implies chars_lt(#[trigger] w[i], #[trigger] w[j]) by {
        if j < p {
            assert(w[i] == v[i] && w[j] == v[j]);
        } else if j == p {
            assert(w[i] == v[i]);
        } else if i == p {
            assert(w[j] == v[j - 1]);
        } else if i < p {
            assert(w[i] == v[i] && w[j] == v[j - 1]);
            lemma_chars_lt_chain(v[i], s, v[j - 1]);
        } else {
            assert(w[i] == v[i - 1] && w[j] == v[j - 1]);
        }
    }
}

/// Add a string to a sorted set of strings, where it is not yet present.
pub fn insert_sorted(v: &mut Vec<String>, s: String)
    requires
        strictly_sorted(string_views(old(v)@)),
    ensures
        strictly_sorted(string_views(final(v)@)),
        string_views(final(v)@).to_set() == string_views(old(v)@).to_set().insert(s@),
{
    let (p, found) = locate(v, s.as_str());
    let ghost sv = string_views(v@);
    if found {
        proof {
            assert(sv[p as int] == s@);
            assert(sv.to_set().insert(s@) =~= sv.to_set());
        }
        return;
    }
    proof {
        lemma_insert_sorted(sv, p as int, s@);
    }
    v.insert(p, s);
    proof {
        assert(string_views(v@) =~= sv.insert(p as int, s@));
        lemma_insert_to_set(sv, p as int, s@);
    }
}

/// Inserting into a sequence adds one element to its set.
pub proof fn lemma_insert_to_set<A>(sv: Seq<A>, p: int, x: A)
    requires
        0 <= p <= sv.len(),
    ensures
        sv.insert(p, x).to_set() == sv.to_set().insert(x),
{
    let w = sv.insert(p, x);
    assert forall|y: A| w.to_set().contains(y) <==> sv.to_set().insert(x).contains(y) by {
        if w.contains(y) {
            let k = choose|k: int| 0 <= k < w.len() && w[k] == y;
            if k < p { assert(sv[k] == y); } else if k > p { assert(sv[k - 1] == y); }
        }
        if sv.contains(y) {
            let k = choose|k: int| 0 <= k < sv.len() && sv[k] == y;
            if k < p { assert(w[k] == y); } else { assert(w[k + 1] == y); }
        }
        if y == x {
            assert(w[p] == y);
        }
    }
    assert(w.to_set() =~= sv.to_set().insert(x));
}

} // verus!
