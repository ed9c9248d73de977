//! The mathematical model of a one-to-many collection.
//!
//! A collection is modelled as a sequence of entries in the order in which their keys were
//! first inserted. An entry pairs a key with the sequence of the values inserted under it.
//! Keys are compared with `eq_spec`, the specification of `==` on the key type; nothing here
//! assumes that equal keys are identical.

use vstd::prelude::*;
use vstd::std_specs::cmp::PartialEqSpec;

verus! {

/// The entries of a collection, oldest key first.
pub type Entries<K, V> = Seq<(K, Seq<V>)>;

/// Equality on `K` is reflexive, symmetric and transitive, as `Eq` asks of it.
pub open spec fn eq_is_equivalence<K: Eq>() -> bool {
    &&& forall|a: K| #[trigger] a.eq_spec(&a)
    &&& forall|a: K, b: K| #[trigger] a.eq_spec(&b) ==> b.eq_spec(&a)
    &&& forall|a: K, b: K, c: K| #[trigger] a.eq_spec(&b) && #[trigger] b.eq_spec(&c) ==> a.eq_spec(&c)
}

/// The keys of the entries, in order.
pub open spec fn keys_of<K: Eq, V>(entries: Entries<K, V>) -> Seq<K> {
    entries.map_values(|e: (K, Seq<V>)| e.0)
}

/// The entry at index `i` exists and its key equals `key`.
pub open spec fn holds_key<K: Eq, V>(entries: Entries<K, V>, i: int, key: K) -> bool {
    0 <= i < entries.len() && entries[i].0.eq_spec(&key)
}

/// Some entry has a key equal to `key`.
pub open spec fn has_key<K: Eq, V>(entries: Entries<K, V>, key: K) -> bool {
    exists|i: int| holds_key(entries, i, key)
}

/// The entry at index `i` is the first one whose key equals `key`.
pub open spec fn first_at<K: Eq, V>(entries: Entries<K, V>, i: int, key: K) -> bool {
    &&& holds_key(entries, i, key)
    &&& forall|j: int| 0 <= j < i ==> !holds_key(entries, j, key)
}

/// The index of the first entry whose key equals `key`, if there is one. This is the entry
/// that a scan from the front stops at.
pub open spec fn find<K: Eq, V>(entries: Entries<K, V>, key: K) -> Option<int> {
    if has_key(entries, key) {
        Some(choose|i: int| first_at(entries, i, key))
    } else {
        None
    }
}

/// The values stored under `key`: those of the entry that `find` gives, or none at all.
pub open spec fn values_of<K: Eq, V>(entries: Entries<K, V>, key: K) -> Seq<V> {
    match find(entries, key) {
        Some(i) => entries[i].1,
        None => Seq::empty(),
    }
}

/// The entries after `vals` have been inserted under `key`: appended to the values of the
/// entry that `find` gives, or else placed in a new entry at the end.
pub open spec fn with_values<K: Eq, V>(entries: Entries<K, V>, key: K, vals: Seq<V>) -> Entries<
    K,
    V,
> {
    match find(entries, key) {
        Some(i) => entries.update(i, (entries[i].0, entries[i].1 + vals)),
        None => entries.push((key, vals)),
    }
}

/// The entries after the values under `key` have been overwritten with `vals`. Without an
/// entry for `key` there is nothing to overwrite.
pub open spec fn with_replaced<K: Eq, V>(entries: Entries<K, V>, key: K, vals: Seq<V>) -> Entries<
    K,
    V,
> {
    match find(entries, key) {
        Some(i) => entries.update(i, (entries[i].0, vals)),
        None => entries,
    }
}

/// The entries after every entry of `other` has been inserted, front to back.
pub open spec fn merged<K: Eq, V>(entries: Entries<K, V>, other: Entries<K, V>) -> Entries<K, V> {
    other.fold_left(entries, |acc: Entries<K, V>, e: (K, Seq<V>)| with_values(acc, e.0, e.1))
}

/// No entry's key equals the key of a later entry.
pub open spec fn distinct_keys<K: Eq, V>(entries: Entries<K, V>) -> bool {
    forall|i: int, j: int| 0 <= i < j < entries.len() ==> !holds_key(entries, i, entries[j].0)
}

/// Among the first `i + 1` entries, some key equals `key`; so one of them is the first.
proof fn lemma_first_exists<K: Eq, V>(entries: Entries<K, V>, i: int, key: K)
    requires
        holds_key(entries, i, key),
    ensures
        exists|p: int| 0 <= p <= i && first_at(entries, p, key),
    decreases i,
{
    if exists|j: int| 0 <= j < i && holds_key(entries, j, key) {
        let j = choose|j: int| 0 <= j < i && holds_key(entries, j, key);
        lemma_first_exists(entries, j, key);
    } else {
        assert(first_at(entries, i, key));
    }
}

/// What `find` returns: the first index that holds the key, or `None` when no index does.
pub proof fn lemma_find<K: Eq, V>(entries: Entries<K, V>, key: K)
    ensures
        match find(entries, key) {
            Some(i) => first_at(entries, i, key),
            None => forall|i: int| !holds_key(entries, i, key),
        },
{
    if has_key(entries, key) {
        let i = choose|i: int| holds_key(entries, i, key);
        lemma_first_exists(entries, i, key);
    }
}

/// The first index that holds the key is what `find` returns.
pub proof fn lemma_find_is<K: Eq, V>(entries: Entries<K, V>, key: K, i: int)
    requires
        first_at(entries, i, key),
    ensures
        find(entries, key) == Some(i),
{
    lemma_find(entries, key);
}

/// `find` looks at the keys only: entries with the same keys give the same index.
pub proof fn lemma_find_same_keys<K: Eq, V>(a: Entries<K, V>, b: Entries<K, V>, key: K)
    requires
        keys_of(a) == keys_of(b),
    ensures
        find(a, key) == find(b, key),
{
    assert(a.len() == keys_of(a).len() && b.len() == keys_of(b).len());
    assert forall|i: int| holds_key(a, i, key) == holds_key(b, i, key) by {
        if 0 <= i < a.len() {
            assert(a[i].0 == keys_of(a)[i] && b[i].0 == keys_of(b)[i]);
        }
    }
    lemma_find(a, key);
    lemma_find(b, key);
    if let Some(i) = find(a, key) {
        assert(holds_key(b, i, key));
        lemma_find_is(b, key, i);
    }
}

} // verus!
