//! Ordered association lists keyed by text: the mathematical model behind
//! a course's sections and a selection's courses.
//!
//! An entry is a pair of a key and a value. A well-formed list holds each key
//! at most once, and an entry keeps the position at which its key first came.

use vstd::prelude::*;

verus! {

/// Some entry of `s` has the key `k`.
pub open spec fn has_key<V>(s: Seq<(Seq<char>, V)>, k: Seq<char>) -> bool {
    exists|i: int| 0 <= i < s.len() && (#[trigger] s[i]).0 == k
}

/// A position at which `s` holds the key `k`; the only one where the keys
/// of `s` are distinct.
pub open spec fn key_index<V>(s: Seq<(Seq<char>, V)>, k: Seq<char>) -> int {
    choose|i: int| 0 <= i < s.len() && (#[trigger] s[i]).0 == k
}

/// No key occurs twice in `s`.
pub open spec fn distinct_keys<V>(s: Seq<(Seq<char>, V)>) -> bool {
    forall|i: int, j: int|
        0 <= i < j < s.len() ==> (#[trigger] s[i]).0 != (#[trigger] s[j]).0
}

/// The value stored under `k`, if any.
pub open spec fn lookup<V>(s: Seq<(Seq<char>, V)>, k: Seq<char>) -> Option<V> {
    if has_key(s, k) {
        Some(s[key_index(s, k)].1)
    } else {
        None
    }
}

/// `s` with `v` stored under `k`: in place where the key is present, at the
/// end where it is new.
pub open spec fn put<V>(s: Seq<(Seq<char>, V)>, k: Seq<char>, v: V) -> Seq<(Seq<char>, V)> {
    if has_key(s, k) {
        s.update(key_index(s, k), (k, v))
    } else {
        s.push((k, v))
    }
}

/// `s` after storing every entry of `xs`, first to last.
pub open spec fn put_all<V>(s: Seq<(Seq<char>, V)>, xs: Seq<(Seq<char>, V)>) -> Seq<
    (Seq<char>, V),
>
    decreases xs.len(),
{
    if xs.len() == 0 {
        s
    } else {
        put(put_all(s, xs.drop_last()), xs.last().0, xs.last().1)
    }
}

/// `s` without the entry under `k`; the other entries keep their order.
pub open spec fn without<V>(s: Seq<(Seq<char>, V)>, k: Seq<char>) -> Seq<(Seq<char>, V)> {
    if has_key(s, k) {
        s.remove(key_index(s, k))
    } else {
        s
    }
}

/// In a list of distinct keys, a position that holds `k` is `key_index`.
pub proof fn lemma_key_index_unique<V>(s: Seq<(Seq<char>, V)>, k: Seq<char>, i: int)
    requires
        distinct_keys(s),
        0 <= i < s.len(),
        s[i].0 == k,
    ensures
        has_key(s, k),
        key_index(s, k) == i,
{
    let j = key_index(s, k);
    assert(0 <= j < s.len() && s[j].0 == k);
    if j < i {
        assert(s[j].0 != s[i].0);
    } else if i < j {
        assert(s[i].0 != s[j].0);
    }
}

/// Storing an entry keeps the keys distinct and leaves the other keys alone.
pub proof fn lemma_put<V>(s: Seq<(Seq<char>, V)>, k: Seq<char>, v: V)
    requires
        distinct_keys(s),
    ensures
        distinct_keys(put(s, k, v)),
        has_key(put(s, k, v), k),
        lookup(put(s, k, v), k) == Some(v),
        forall|q: Seq<char>| q != k ==> has_key(put(s, k, v), q) == has_key(s, q),
        forall|q: Seq<char>| q != k ==> lookup(put(s, k, v), q) == lookup(s, q),
{
    let t = put(s, k, v);
    if has_key(s, k) {
        let i = key_index(s, k);
        assert(0 <= i < s.len() && s[i].0 == k);
        assert forall|a: int, b: int| 0 <= a < b < t.len() implies (#[trigger] t[a]).0 != (
        #[trigger] t[b]).0 by {
            assert(t[a].0 == s[a].0);
            assert(t[b].0 == s[b].0);
        }
        assert(t[i].0 == k);
        lemma_key_index_unique(t, k, i);
        assert forall|q: Seq<char>| q != k implies has_key(t, q) == has_key(s, q) && lookup(t, q)
            == lookup(s, q) by {
            if has_key(s, q) {
                let j = key_index(s, q);
                assert(s[j].0 == q);
                assert(t[j] == s[j]);
                lemma_key_index_unique(t, q, j);
            }
            if has_key(t, q) {
                let j = key_index(t, q);
                assert(t[j].0 == q);
                assert(j != i);
                assert(s[j] == t[j]);
                lemma_key_index_unique(s, q, j);
            }
        }
    } else {
        let n = s.len() as int;
        assert forall|a: int, b: int| 0 <= a < b < t.len() implies (#[trigger] t[a]).0 != (
        #[trigger] t[b]).0 by {
            if b < n {
                assert(t[a] == s[a] && t[b] == s[b]);
            } else {
                assert(t[a] == s[a]);
                assert(t[b].0 == k);
            }
        }
        assert(t[n].0 == k);
        lemma_key_index_unique(t, k, n);
        assert forall|q: Seq<char>| q != k implies has_key(t, q) == has_key(s, q) && lookup(t, q)
            == lookup(s, q) by {
            if has_key(s, q) {
                let j = key_index(s, q);
                assert(s[j].0 == q);
                assert(t[j] == s[j]);
                lemma_key_index_unique(t, q, j);
            }
            if has_key(t, q) {
                let j = key_index(t, q);
                assert(t[j].0 == q);
                assert(j != n);
                assert(s[j] == t[j]);
                lemma_key_index_unique(s, q, j);
            }
        }
    }
}

/// Storing a whole list keeps the keys distinct.
pub proof fn lemma_put_all_distinct<V>(s: Seq<(Seq<char>, V)>, xs: Seq<(Seq<char>, V)>)
    requires
        distinct_keys(s),
    ensures
        distinct_keys(put_all(s, xs)),
    decreases xs.len(),
{
    if xs.len() > 0 {
        lemma_put_all_distinct(s, xs.drop_last());
        lemma_put(put_all(s, xs.drop_last()), xs.last().0, xs.last().1);
    }
}

/// After storing a list of distinct keys, each of its entries is found
/// under its key.
pub proof fn lemma_put_all_lookup<V>(s: Seq<(Seq<char>, V)>, xs: Seq<(Seq<char>, V)>)
    requires
        distinct_keys(s),
        distinct_keys(xs),
    ensures
        distinct_keys(put_all(s, xs)),
        forall|j: int|
            0 <= j < xs.len() ==> lookup(put_all(s, xs), (#[trigger] xs[j]).0) == Some(xs[j].1),
    decreases xs.len(),
{
    lemma_put_all_distinct(s, xs);
    if xs.len() > 0 {
        let rest = xs.drop_last();
        let t = put_all(s, rest);
        assert forall|a: int, b: int| 0 <= a < b < rest.len() implies (#[trigger] rest[a]).0 != (
        #[trigger] rest[b]).0 by {
            assert(rest[a] == xs[a] && rest[b] == xs[b]);
        }
        lemma_put_all_lookup(s, rest);
        lemma_put(t, xs.last().0, xs.last().1);
        assert forall|j: int| 0 <= j < xs.len() implies lookup(
            put_all(s, xs),
            (#[trigger] xs[j]).0,
        ) == Some(xs[j].1) by {
            if j < rest.len() {
                assert(rest[j] == xs[j]);
                assert(xs[j].0 != xs[xs.len() - 1].0);
            }
        }
    }
}

/// Storing an entry that is already there changes nothing.
pub proof fn lemma_put_present<V>(s: Seq<(Seq<char>, V)>, k: Seq<char>, v: V)
    requires
        lookup(s, k) == Some(v),
    ensures
        put(s, k, v) == s,
{
    let i = key_index(s, k);
    assert(0 <= i < s.len() && s[i].0 == k);
    assert(s[i] == (k, v));
    assert(put(s, k, v) =~= s);
}

/// Storing a list of distinct keys a second time changes nothing.
pub proof fn lemma_put_all_absorbed<V>(s: Seq<(Seq<char>, V)>, xs: Seq<(Seq<char>, V)>)
    requires
        distinct_keys(s),
        distinct_keys(xs),
    ensures
        put_all(put_all(s, xs), xs) == put_all(s, xs),
{
    let t = put_all(s, xs);
    lemma_put_all_lookup(s, xs);
    lemma_put_all_held(t, xs, xs.len() as int);
    assert(xs.take(xs.len() as int) =~= xs);
}

/// Storing entries that are all there already changes nothing.
pub proof fn lemma_put_all_held<V>(t: Seq<(Seq<char>, V)>, xs: Seq<(Seq<char>, V)>, n: int)
    requires
        0 <= n <= xs.len(),
        forall|j: int| 0 <= j < xs.len() ==> lookup(t, (#[trigger] xs[j]).0) == Some(xs[j].1),
    ensures
        put_all(t, xs.take(n)) == t,
    decreases n,
{
    if n > 0 {
        lemma_put_all_held(t, xs, n - 1);
        assert(xs.take(n).drop_last() =~= xs.take(n - 1));
        assert(xs.take(n).last() == xs[n - 1]);
        lemma_put_present(t, xs[n - 1].0, xs[n - 1].1);
    } else {
        assert(xs.take(0) =~= Seq::empty());
    }
}

/// A list of distinct keys stored into the empty list is the list itself.
pub proof fn lemma_put_all_onto_empty<V>(xs: Seq<(Seq<char>, V)>)
    requires
        distinct_keys(xs),
    ensures
        put_all(Seq::empty(), xs) == xs,
    decreases xs.len(),
{
    if xs.len() > 0 {
        let rest = xs.drop_last();
        assert forall|a: int, b: int| 0 <= a < b < rest.len() implies (#[trigger] rest[a]).0 != (
        #[trigger] rest[b]).0 by {
            assert(rest[a] == xs[a] && rest[b] == xs[b]);
        }
        lemma_put_all_onto_empty(rest);
        if has_key(rest, xs.last().0) {
            let i = key_index(rest, xs.last().0);
            assert(rest[i] == xs[i]);
            assert(xs[i].0 != xs[xs.len() - 1].0);
        }
        assert(put(rest, xs.last().0, xs.last().1) =~= xs);
    } else {
        assert(xs =~= Seq::empty());
    }
}

/// Removing a key keeps the keys distinct and removes exactly that key.
pub proof fn lemma_without<V>(s: Seq<(Seq<char>, V)>, k: Seq<char>)
    requires
        distinct_keys(s),
    ensures
        distinct_keys(without(s, k)),
        !has_key(without(s, k), k),
        forall|q: Seq<char>| q != k ==> lookup(without(s, k), q) == lookup(s, q),
{
    let t = without(s, k);
    if has_key(s, k) {
        let i = key_index(s, k);
        assert(0 <= i < s.len() && s[i].0 == k);
        assert forall|a: int| 0 <= a < t.len() implies #[trigger] t[a] == s[if a < i {
            a
        } else {
            a + 1
        }] by {}
        assert forall|a: int, b: int| 0 <= a < b < t.len() implies (#[trigger] t[a]).0 != (
        #[trigger] t[b]).0 by {
            let a2 = if a < i { a } else { a + 1 };
            let b2 = if b < i { b } else { b + 1 };
            assert(t[a] == s[a2] && t[b] == s[b2]);
            assert(s[a2].0 != s[b2].0);
        }
        if has_key(t, k) {
            let j = key_index(t, k);
            let j2 = if j < i { j } else { j + 1 };
            assert(t[j] == s[j2]);
            lemma_key_index_unique(s, k, j2);
        }
        assert forall|q: Seq<char>| q != k implies lookup(t, q) == lookup(s, q) by {
            if has_key(s, q) {
                let j = key_index(s, q);
                assert(s[j].0 == q);
                let j2 = if j < i { j } else { j - 1 };
                assert(t[j2] == s[j]);
                lemma_key_index_unique(t, q, j2);
            }
            if has_key(t, q) {
                let j = key_index(t, q);
                assert(t[j].0 == q);
                let j2 = if j < i { j } else { j + 1 };
                assert(t[j] == s[j2]);
                lemma_key_index_unique(s, q, j2);
            }
        }
    }
}

} // verus!
