//! Vectors of strings kept in strict dictionary order.
//!
//! Such a vector holds no string twice and has one order only, so it stands
//! for a finite set of strings and can be walked in a way that never changes.

use crate::text::{chars_of, compare, lemma_lex_irreflexive, lemma_lex_transitive, lex_less,
    strictly_sorted, Precedence};
use vstd::prelude::*;

verus! {

/// The strings of `v`, each by its view.
pub open spec fn views(v: Seq<String>) -> Seq<Seq<char>> {
    Seq::new(v.len(), |i: int| v[i]@)
}

/// `at` is where `key` belongs among the sorted strings `s`: what stands
/// before `at` comes before `key`, and `key` comes before what stands from
/// `at` on.
pub open spec fn is_gap(s: Seq<Seq<char>>, key: Seq<char>, at: int) -> bool {
    &&& 0 <= at <= s.len()
    &&& forall|j: int| 0 <= j < at ==> lex_less(#[trigger] s[j], key)
    &&& forall|j: int| at <= j < s.len() ==> lex_less(key, #[trigger] s[j])
}

/// A string put into its gap keeps the order, and adds itself to the set.
pub proof fn lemma_insert_at_gap(s: Seq<Seq<char>>, key: Seq<char>, at: int)
    requires
        strictly_sorted(s),
        is_gap(s, key, at),
    ensures
        strictly_sorted(s.insert(at, key)),
        s.insert(at, key).to_set() == s.to_set().insert(key),
        !s.contains(key),
{
    let t = s.insert(at, key);
    assert forall|i: int, j: int| 0 <= i < j < t.len() implies lex_less(
        #[trigger] t[i],
        #[trigger] t[j],
    ) by {
        if j < at {
            assert(t[i] == s[i] && t[j] == s[j]);
        } else if j == at {
            assert(t[i] == s[i]);
        } else if i < at {
            assert(t[i] == s[i] && t[j] == s[j - 1]);
            lemma_lex_transitive(s[i], key, s[j - 1]);
        } else if i == at {
            assert(t[j] == s[j - 1]);
        } else {
            assert(t[i] == s[i - 1] && t[j] == s[j - 1]);
        }
    }
    assert forall|x: Seq<char>| t.to_set().contains(x) <==> s.to_set().insert(key).contains(
        x,
    ) by {
        if t.contains(x) {
            let i = choose|i: int| 0 <= i < t.len() && t[i] == x;
            if i < at {
                assert(s[i] == x);
            } else if i > at {
                assert(s[i - 1] == x);
            }
        }
        if s.contains(x) {
            let i = choose|i: int| 0 <= i < s.len() && s[i] == x;
            if i < at {
                assert(t[i] == x);
            } else {
                assert(t[i + 1] == x);
            }
        }
        if x == key {
            assert(t[at] == x);
        }
    }
    assert(t.to_set() =~= s.to_set().insert(key));
    if s.contains(key) {
        let i = choose|i: int| 0 <= i < s.len() && s[i] == key;
        lemma_lex_irreflexive(key);
    }
}

/// The members of the first `n + 1` elements are those of the first `n` and
/// the element at `n`.
pub proof fn lemma_prefix_set_step(s: Seq<Seq<char>>, n: int)
    requires
        0 <= n < s.len(),
    ensures
        s.take(n + 1).to_set() == s.take(n).to_set().insert(s[n]),
{
    let a = s.take(n + 1);
    let b = s.take(n);
    assert forall|x: Seq<char>| a.to_set().contains(x) <==> b.to_set().insert(s[n]).contains(
        x,
    ) by {
        if a.contains(x) {
            let i = choose|i: int| 0 <= i < a.len() && a[i] == x;
            if i < n {
                assert(b[i] == x);
            }
        }
        if b.contains(x) {
            let i = choose|i: int| 0 <= i < b.len() && b[i] == x;
            assert(a[i] == x);
        }
        if x == s[n] {
            assert(a[n] == x);
        }
    }
    assert(a.to_set() =~= b.to_set().insert(s[n]));
}

/// The members of a sequence with one more element at its end are those of
/// the sequence and the element.
pub proof fn lemma_push_set(s: Seq<Seq<char>>, x: Seq<char>)
    ensures
        s.push(x).to_set() == s.to_set().insert(x),
{
    let t = s.push(x);
    assert(t.take(s.len() as int) =~= s);
    lemma_prefix_set_step(t, s.len() as int);
    assert(t.take(s.len() as int + 1) =~= t);
}

/// Finds `key` among the sorted strings `keys` by halving. The result is the
/// index at which `key` stands, with `true`, or the gap into which it belongs,
/// with `false`.
pub fn locate(keys: &Vec<String>, key: &Vec<char>) -> (r: (usize, bool))
    requires
        strictly_sorted(views(keys@)),
    ensures
        r.1 <==> views(keys@).contains(key@),
        r.1 ==> r.0 < keys.len() && keys@[r.0 as int]@ == key@,
        !r.1 ==> is_gap(views(keys@), key@, r.0 as int),
{
    let ghost s = views(keys@);
    let mut lo: usize = 0;
    let mut hi: usize = keys.len();
    while lo < hi
        invariant
            s == views(keys@),
            strictly_sorted(s),
            lo <= hi <= keys.len(),
            forall|j: int| 0 <= j < lo ==> lex_less(#[trigger] s[j], key@),
            forall|j: int| hi <= j < s.len() ==> lex_less(key@, #[trigger] s[j]),
        decreases hi - lo,
    {
        let mid: usize = lo + (hi - lo) / 2;
        let probe = chars_of(keys[mid].as_str());
        assert(probe@ == s[mid as int]);
        match compare(&probe, key) {
            Precedence::Before => {
                assert forall|j: int| 0 <= j < mid + 1 implies lex_less(#[trigger] s[j], key@) by {
                    if j < mid {
                        lemma_lex_transitive(s[j], s[mid as int], key@);
                    }
                }
                lo = mid + 1;
            },
            Precedence::After => {
                assert forall|j: int| mid <= j < s.len() implies lex_less(key@, #[trigger] s[j]) by {
                    if j > mid {
                        lemma_lex_transitive(key@, s[mid as int], s[j]);
                    }
                }
                hi = mid;
            },
            Precedence::Same => {
                assert(s[mid as int] == key@);
                return (mid, true);
            },
        }
    }
    proof {
        if s.contains(key@) {
            let i = choose|i: int| 0 <= i < s.len() && s[i] == key@;
            lemma_lex_irreflexive(key@);
        }
    }
    (lo, false)
}

} // verus!
