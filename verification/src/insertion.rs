//! What inserting values, and overwriting them, does to the entries.

use vstd::prelude::*;
use vstd::std_specs::cmp::PartialEqSpec;
use crate::model::{
    Entries, distinct_keys, eq_is_equivalence, find, first_at, has_key, holds_key, keys_of,
    lemma_find, lemma_find_is, lemma_find_same_keys, values_of, with_replaced, with_values,
};

verus! {

/// A key that no entry holds has no values, and there is nothing to overwrite under it.
pub proof fn lemma_absent_key<K: Eq, V>(entries: Entries<K, V>, key: K, vals: Seq<V>)
    requires
        !has_key(entries, key),
    ensures
        values_of(entries, key) == Seq::<V>::empty(),
        with_replaced(entries, key, vals) == entries,
{
}

/// An empty collection holds no key.
pub proof fn lemma_empty_has_no_key<K: Eq, V>(key: K)
    ensures
        !has_key(Seq::<(K, Seq<V>)>::empty(), key),
{
}

/// Inserting under a key that is present changes no key and moves none; inserting under a
/// key that is absent adds that key behind all the others.
pub proof fn lemma_insert_keeps_order<K: Eq, V>(entries: Entries<K, V>, key: K, vals: Seq<V>)
    ensures
        has_key(entries, key) ==> keys_of(with_values(entries, key, vals)) == keys_of(entries),
        !has_key(entries, key) ==> keys_of(with_values(entries, key, vals)) == keys_of(
            entries,
        ).push(key),
{
    lemma_find(entries, key);
}

/// A key that was present before an insertion is found at the same index after it.
pub proof fn lemma_insert_keeps_positions<K: Eq, V>(
    entries: Entries<K, V>,
    key: K,
    vals: Seq<V>,
    k: K,
)
    requires
        has_key(entries, k),
    ensures
        find(with_values(entries, key, vals), k) == find(entries, k),
{
    let after = with_values(entries, key, vals);
    lemma_insert_keeps_order(entries, key, vals);
    if has_key(entries, key) {
        lemma_find_same_keys(entries, after, k);
    } else {
        lemma_find(entries, k);
        let i = find(entries, k).unwrap();
        assert(after[i] == entries[i]);
        assert forall|j: int| 0 <= j < i implies !holds_key(after, j, k) by {
            assert(after[j] == entries[j]);
            assert(!holds_key(entries, j, k));
        }
        lemma_find_is(after, k, i);
    }
}

/// The keys that are present after an insertion: those present before it and, where the
/// inserted key was absent, whatever that key equals.
pub proof fn lemma_insert_has_key<K: Eq, V>(entries: Entries<K, V>, key: K, vals: Seq<V>, k: K)
    ensures
        has_key(with_values(entries, key, vals), k) <==> has_key(entries, k) || (!has_key(
            entries,
            key,
        ) && key.eq_spec(&k)),
{
    let after = with_values(entries, key, vals);
    lemma_find(entries, key);
    if has_key(entries, k) {
        let i = choose|i: int| holds_key(entries, i, k);
        assert(holds_key(after, i, k));
    }
    if !has_key(entries, key) && key.eq_spec(&k) {
        assert(holds_key(after, entries.len() as int, k));
    }
    if has_key(after, k) {
        let i = choose|i: int| holds_key(after, i, k);
        if i < entries.len() {
            assert(holds_key(entries, i, k));
        }
    }
}

/// Inserted values are appended to the values of every key equal to the one inserted under.
pub proof fn lemma_insert_appends_values<K: Eq, V>(
    entries: Entries<K, V>,
    key: K,
    vals: Seq<V>,
    k: K,
)
    requires
        eq_is_equivalence::<K>(),
        key.eq_spec(&k),
    ensures
        values_of(with_values(entries, key, vals), k) == values_of(entries, k) + vals,
{
    let after = with_values(entries, key, vals);
    lemma_find(entries, key);
    lemma_find(entries, k);
    assert forall|i: int| holds_key(entries, i, key) == holds_key(entries, i, k) by {
        if 0 <= i < entries.len() {
            assert(k.eq_spec(&key));
            if entries[i].0.eq_spec(&key) {
                assert(entries[i].0.eq_spec(&k));
            }
            if entries[i].0.eq_spec(&k) {
                assert(entries[i].0.eq_spec(&key));
            }
        }
    }
    match find(entries, key) {
        Some(i) => {
            assert(first_at(entries, i, k));
            lemma_insert_keeps_positions(entries, key, vals, k);
        },
        None => {
            assert forall|j: int| 0 <= j < entries.len() implies !holds_key(after, j, k) by {
                assert(after[j] == entries[j]);
                assert(!holds_key(entries, j, k));
            }
            lemma_find_is(after, k, entries.len() as int);
            assert(Seq::<V>::empty() + vals == vals);
        },
    }
}

/// An insertion leaves alone the values of every key unequal to the one inserted under.
pub proof fn lemma_insert_keeps_other_values<K: Eq, V>(
    entries: Entries<K, V>,
    key: K,
    vals: Seq<V>,
    k: K,
)
    requires
        eq_is_equivalence::<K>(),
        !key.eq_spec(&k),
    ensures
        values_of(with_values(entries, key, vals), k) == values_of(entries, k),
{
    let after = with_values(entries, key, vals);
    lemma_find(entries, key);
    lemma_find(entries, k);
    lemma_insert_has_key(entries, key, vals, k);
    if has_key(entries, k) {
        lemma_insert_keeps_positions(entries, key, vals, k);
        let j = find(entries, k).unwrap();
        if let Some(i) = find(entries, key) {
            if i == j {
                assert(key.eq_spec(&entries[i].0));
                assert(key.eq_spec(&k));
            }
        }
    }
}

/// An insertion never makes two keys equal.
pub proof fn lemma_insert_keeps_distinct<K: Eq, V>(entries: Entries<K, V>, key: K, vals: Seq<V>)
    requires
        distinct_keys(entries),
    ensures
        distinct_keys(with_values(entries, key, vals)),
{
    let after = with_values(entries, key, vals);
    lemma_find(entries, key);
    assert forall|i: int, j: int| 0 <= i < j < after.len() implies !holds_key(
        after,
        i,
        after[j].0,
    ) by {
        if j < entries.len() {
            assert(after[i].0 == entries[i].0 && after[j].0 == entries[j].0);
            assert(!holds_key(entries, i, entries[j].0));
        } else {
            assert(after[i] == entries[i]);
            assert(!holds_key(entries, i, key));
        }
    }
}

/// Inserting `first` and then `second` under one key is inserting `first + second` at once.
pub proof fn lemma_insert_twice<K: Eq, V>(
    entries: Entries<K, V>,
    key: K,
    first: Seq<V>,
    second: Seq<V>,
)
    requires
        eq_is_equivalence::<K>(),
    ensures
        with_values(with_values(entries, key, first), key, second) == with_values(
            entries,
            key,
            first + second,
        ),
{
    let once = with_values(entries, key, first);
    lemma_find(entries, key);
    match find(entries, key) {
        Some(i) => {
            lemma_insert_keeps_positions(entries, key, first, key);
            assert((entries[i].1 + first) + second == entries[i].1 + (first + second));
        },
        None => {
            assert forall|j: int| 0 <= j < entries.len() implies !holds_key(once, j, key) by {
                assert(once[j] == entries[j]);
                assert(!holds_key(entries, j, key));
            }
            assert(key.eq_spec(&key));
            lemma_find_is(once, key, entries.len() as int);
        },
    }
}

/// After the first insertion into an empty collection the key has exactly the inserted
/// values, and it is the only key.
pub proof fn lemma_insert_into_empty<K: Eq, V>(key: K, vals: Seq<V>)
    requires
        eq_is_equivalence::<K>(),
    ensures
        values_of(with_values(Seq::empty(), key, vals), key) == vals,
        with_values(Seq::<(K, Seq<V>)>::empty(), key, vals).len() == 1,
{
    let none = Seq::<(K, Seq<V>)>::empty();
    assert(key.eq_spec(&key));
    lemma_insert_appends_values(none, key, vals, key);
    lemma_find(none, key);
    assert(Seq::<V>::empty() + vals == vals);
}

/// Inserting `v1` and then `v2` under one key into an empty collection leaves that key with
/// `[v1, v2]`, and it is still the only key.
pub proof fn lemma_insert_same_key_twice<K: Eq, V>(key: K, v1: V, v2: V)
    requires
        eq_is_equivalence::<K>(),
    ensures
        ({
            let twice = with_values(with_values(Seq::empty(), key, seq![v1]), key, seq![v2]);
            &&& values_of(twice, key) == seq![v1, v2]
            &&& twice.len() == 1
            &&& twice == with_values(Seq::empty(), key, seq![v1, v2])
        }),
{
    assert(seq![v1] + seq![v2] == seq![v1, v2]);
    lemma_insert_twice(Seq::empty(), key, seq![v1], seq![v2]);
    lemma_insert_into_empty(key, seq![v1, v2]);
}

/// Overwriting values changes no key and moves none.
pub proof fn lemma_replace_keeps_keys<K: Eq, V>(entries: Entries<K, V>, key: K, vals: Seq<V>)
    ensures
        keys_of(with_replaced(entries, key, vals)) == keys_of(entries),
{
    lemma_find(entries, key);
}

/// What is written under a present key is what is read under it afterwards.
pub proof fn lemma_replace_sets_values<K: Eq, V>(entries: Entries<K, V>, key: K, vals: Seq<V>)
    requires
        has_key(entries, key),
    ensures
        values_of(with_replaced(entries, key, vals), key) == vals,
{
    lemma_find(entries, key);
    lemma_replace_keeps_keys(entries, key, vals);
    lemma_find_same_keys(entries, with_replaced(entries, key, vals), key);
}

/// Overwriting leaves alone the values of every key unequal to the one written under.
pub proof fn lemma_replace_keeps_other_values<K: Eq, V>(
    entries: Entries<K, V>,
    key: K,
    vals: Seq<V>,
    k: K,
)
    requires
        eq_is_equivalence::<K>(),
        !key.eq_spec(&k),
    ensures
        values_of(with_replaced(entries, key, vals), k) == values_of(entries, k),
{
    lemma_find(entries, key);
    lemma_find(entries, k);
    lemma_replace_keeps_keys(entries, key, vals);
    lemma_find_same_keys(entries, with_replaced(entries, key, vals), k);
    if let Some(i) = find(entries, key) {
        if find(entries, k) == Some(i) {
            assert(key.eq_spec(&entries[i].0));
            assert(key.eq_spec(&k));
        }
    }
}

/// Entries with the same keys are alike in whether their keys are distinct.
pub proof fn lemma_same_keys_distinct<K: Eq, V>(a: Entries<K, V>, b: Entries<K, V>)
    requires
        keys_of(a) == keys_of(b),
        distinct_keys(a),
    ensures
        distinct_keys(b),
{
    assert(a.len() == keys_of(a).len() && b.len() == keys_of(b).len());
    assert forall|i: int, j: int| 0 <= i < j < b.len() implies !holds_key(b, i, b[j].0) by {
        assert(a[i].0 == keys_of(a)[i] && b[i].0 == keys_of(b)[i]);
        assert(a[j].0 == keys_of(a)[j] && b[j].0 == keys_of(b)[j]);
        assert(!holds_key(a, i, a[j].0));
    }
}

/// Under each key, entries with the same keys hold the values of the same index.
pub proof fn lemma_same_keys_values<K: Eq, V>(a: Entries<K, V>, b: Entries<K, V>, key: K)
    requires
        keys_of(a) == keys_of(b),
    ensures
        values_of(b, key) == match find(a, key) {
            Some(i) => b[i].1,
            None => Seq::empty(),
        },
{
    lemma_find_same_keys(a, b, key);
}

} // verus!
