//! Stable ascending sort by a byte-string key, as a mathematical function on
//! sequences, with the facts that characterise it.

use crate::order::{lemma_lex_le_reflexive, lemma_lex_le_total, lemma_lex_le_transitive, lex_le};
use vstd::prelude::*;

verus! {

/// `s` with `x` put behind the last element whose key comes no later than
/// the key of `x`.
pub open spec fn stable_insert<T>(s: Seq<T>, x: T, key: spec_fn(T) -> Seq<u8>) -> Seq<T>
    decreases s.len(),
{
    if s.len() == 0 {
        seq![x]
    } else if lex_le(key(s.last()), key(x)) {
        s.push(x)
    } else {
        stable_insert(s.drop_last(), x, key).push(s.last())
    }
}

/// `s` in ascending order of `key`, elements with equal keys in the order in
/// which `s` has them.
pub open spec fn stable_sort<T>(s: Seq<T>, key: spec_fn(T) -> Seq<u8>) -> Seq<T>
    decreases s.len(),
{
    if s.len() == 0 {
        s
    } else {
        stable_insert(stable_sort(s.drop_last(), key), s.last(), key)
    }
}

/// No element of `s` is followed by one with an earlier key.
pub open spec fn sorted_by<T>(s: Seq<T>, key: spec_fn(T) -> Seq<u8>) -> bool {
    forall|i: int, j: int| 0 <= i <= j < s.len() ==> lex_le(#[trigger] key(s[i]), #[trigger] key(s[j]))
}

/// The test "has key `k`".
pub open spec fn key_is<T>(key: spec_fn(T) -> Seq<u8>, k: Seq<u8>) -> spec_fn(T) -> bool {
    |x: T| key(x) == k
}

/// Where `x` lands: at index `j`, if everything from `j` on has a later key
/// and the element before `j`, if any, has not.
pub proof fn lemma_insert_at<T>(s: Seq<T>, x: T, key: spec_fn(T) -> Seq<u8>, j: int)
    requires
        0 <= j <= s.len(),
        forall|i: int| j <= i < s.len() ==> !lex_le(#[trigger] key(s[i]), key(x)),
        j > 0 ==> lex_le(key(s[j - 1]), key(x)),
    ensures
        stable_insert(s, x, key) == s.insert(j, x),
    decreases s.len(),
{
    if s.len() == 0 {
        assert(s.insert(j, x) =~= seq![x]);
    } else if j == s.len() {
        assert(s.insert(j, x) =~= s.push(x));
    } else {
        assert(!lex_le(key(s[s.len() - 1]), key(x)));
        let d = s.drop_last();
        assert forall|i: int| j <= i < d.len() implies !lex_le(#[trigger] key(d[i]), key(x)) by {
            assert(d[i] == s[i]);
        }
        lemma_insert_at(d, x, key, j);
        assert(d.insert(j, x).push(s.last()) =~= s.insert(j, x));
    }
}

/// Inserting adds exactly one element.
pub proof fn lemma_insert_permutes<T>(s: Seq<T>, x: T, key: spec_fn(T) -> Seq<u8>)
    ensures
        stable_insert(s, x, key).len() == s.len() + 1,
        stable_insert(s, x, key).to_multiset() == s.to_multiset().insert(x),
    decreases s.len(),
{
    broadcast use vstd::seq_lib::to_multiset_build;

    if s.len() == 0 {
        assert(seq![x] =~= s.push(x));
    } else if lex_le(key(s.last()), key(x)) {
    } else {
        let d = s.drop_last();
        lemma_insert_permutes(d, x, key);
        assert(s =~= d.push(s.last()));
        assert(d.to_multiset().insert(x).insert(s.last()) =~= d.to_multiset().insert(
            s.last(),
        ).insert(x));
    }
}

/// Inserting into a sorted sequence leaves it sorted.
pub proof fn lemma_insert_sorted<T>(s: Seq<T>, x: T, key: spec_fn(T) -> Seq<u8>)
    requires
        sorted_by(s, key),
    ensures
        sorted_by(stable_insert(s, x, key), key),
    decreases s.len(),
{
    let r = stable_insert(s, x, key);
    if s.len() == 0 {
        lemma_lex_le_reflexive(key(x));
    } else if lex_le(key(s.last()), key(x)) {
        assert forall|i: int, j: int| 0 <= i <= j < r.len() implies lex_le(
            #[trigger] key(r[i]),
            #[trigger] key(r[j]),
        ) by {
            if j < s.len() {
                assert(r[i] == s[i] && r[j] == s[j]);
            } else if i < s.len() {
                assert(r[i] == s[i]);
                assert(lex_le(key(s[i]), key(s[s.len() - 1])));
                lemma_lex_le_transitive(key(s[i]), key(s.last()), key(x));
            } else {
                lemma_lex_le_reflexive(key(x));
            }
        }
    } else {
        let d = s.drop_last();
        assert forall|i: int, j: int| 0 <= i <= j < d.len() implies lex_le(
            #[trigger] key(d[i]),
            #[trigger] key(d[j]),
        ) by {
            assert(d[i] == s[i] && d[j] == s[j]);
        }
        lemma_insert_sorted(d, x, key);
        lemma_insert_permutes(d, x, key);
        let q = stable_insert(d, x, key);
        lemma_lex_le_total(key(s.last()), key(x));
        assert forall|i: int, j: int| 0 <= i <= j < r.len() implies lex_le(
            #[trigger] key(r[i]),
            #[trigger] key(r[j]),
        ) by {
            if j < q.len() {
                assert(r[i] == q[i] && r[j] == q[j]);
            } else if i < q.len() {
                assert(r[i] == q[i]);
                // q[i] is x or an element of d; both come no later than the last of s
                assert(q.to_multiset().count(q[i]) > 0) by {
                    q.to_multiset_ensures();
                    assert(q.contains(q[i]));
                }
                if q[i] == x {
                } else {
                    assert(d.to_multiset().count(q[i]) > 0);
                    d.to_multiset_ensures();
                    assert(d.contains(q[i]));
                    let k = choose|k: int| 0 <= k < d.len() && d[k] == q[i];
                    assert(d[k] == s[k]);
                    assert(lex_le(key(s[k]), key(s[s.len() - 1])));
                }
            } else {
                lemma_lex_le_reflexive(key(s.last()));
            }
        }
    }
}

/// The result of sorting is in ascending order and holds exactly the elements
/// that went in.
pub proof fn lemma_sort_sorts<T>(s: Seq<T>, key: spec_fn(T) -> Seq<u8>)
    ensures
        sorted_by(stable_sort(s, key), key),
        stable_sort(s, key).len() == s.len(),
        stable_sort(s, key).to_multiset() == s.to_multiset(),
    decreases s.len(),
{
    broadcast use vstd::seq_lib::to_multiset_build;

    if s.len() > 0 {
        let d = s.drop_last();
        lemma_sort_sorts(d, key);
        lemma_insert_sorted(stable_sort(d, key), s.last(), key);
        lemma_insert_permutes(stable_sort(d, key), s.last(), key);
        assert(s =~= d.push(s.last()));
    }
}

/// Sorting leaves a sorted sequence as it is.
pub proof fn lemma_sort_keeps_sorted<T>(s: Seq<T>, key: spec_fn(T) -> Seq<u8>)
    requires
        sorted_by(s, key),
    ensures
        stable_sort(s, key) == s,
    decreases s.len(),
{
    if s.len() > 0 {
        let d = s.drop_last();
        assert forall|i: int, j: int| 0 <= i <= j < d.len() implies lex_le(
            #[trigger] key(d[i]),
            #[trigger] key(d[j]),
        ) by {
            assert(d[i] == s[i] && d[j] == s[j]);
        }
        lemma_sort_keeps_sorted(d, key);
        if d.len() > 0 {
            assert(d.last() == s[s.len() - 2]);
            assert(lex_le(key(s[s.len() - 2]), key(s[s.len() - 1])));
        }
        assert(d.push(s.last()) =~= s);
        if d.len() == 0 {
            assert(seq![s.last()] =~= s);
        }
    }
}

/// Sorting twice gives what sorting once gives.
pub proof fn lemma_sort_idempotent<T>(s: Seq<T>, key: spec_fn(T) -> Seq<u8>)
    ensures
        stable_sort(stable_sort(s, key), key) == stable_sort(s, key),
{
    lemma_sort_sorts(s, key);
    lemma_sort_keeps_sorted(stable_sort(s, key), key);
}

/// Inserting `x` puts it behind every element that has its key and moves no
/// two elements of one key past each other.
pub proof fn lemma_insert_stable<T>(s: Seq<T>, x: T, key: spec_fn(T) -> Seq<u8>, k: Seq<u8>)
    ensures
        stable_insert(s, x, key).filter(key_is(key, k)) == if key(x) == k {
            s.filter(key_is(key, k)).push(x)
        } else {
            s.filter(key_is(key, k))
        },
    decreases s.len(),
{
    let p = key_is(key, k);
    s.lemma_filter_push(x, p);
    if s.len() == 0 {
        assert(seq![x] =~= s.push(x));
    } else if lex_le(key(s.last()), key(x)) {
    } else {
        let d = s.drop_last();
        lemma_insert_stable(d, x, key, k);
        assert(s =~= d.push(s.last()));
        d.lemma_filter_push(s.last(), p);
        stable_insert(d, x, key).lemma_filter_push(s.last(), p);
        if key(x) == k && key(s.last()) == k {
            lemma_lex_le_reflexive(k);
        }
    }
}

/// Sorting is stable: the elements of any one key come out in the order in
/// which they went in.
pub proof fn lemma_sort_stable<T>(s: Seq<T>, key: spec_fn(T) -> Seq<u8>, k: Seq<u8>)
    ensures
        stable_sort(s, key).filter(key_is(key, k)) == s.filter(key_is(key, k)),
    decreases s.len(),
{
    if s.len() > 0 {
        let d = s.drop_last();
        lemma_sort_stable(d, key, k);
        lemma_insert_stable(stable_sort(d, key), s.last(), key, k);
        assert(s =~= d.push(s.last()));
        d.lemma_filter_push(s.last(), key_is(key, k));
    }
}

} // verus!
