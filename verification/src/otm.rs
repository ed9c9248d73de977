//! The collection itself: entries held in a vector and found by a scan from the front.

use vstd::prelude::*;
use vstd::std_specs::cmp::PartialEqSpec;
use vstd::std_specs::iter::IteratorSpec;
use crate::insertion::{
    lemma_insert_keeps_distinct, lemma_replace_keeps_keys, lemma_replace_sets_values,
    lemma_same_keys_distinct, lemma_same_keys_values,
};
use crate::merging::{lemma_merge_keeps_distinct, lemma_merged_step};
use crate::model::{
    Entries, distinct_keys, find, has_key, holds_key, keys_of, lemma_find_is, merged, values_of,
    with_replaced, with_values,
};

verus! {

/// A one-to-many (OTM) collection stores keys associated with many values.
/// Values may occur more than once for each key.
///
/// Keys are told apart by `==` alone and looked up by a scan, so every keyed operation takes
/// time linear in the number of keys. Entries stay in the order in which their keys were
/// first inserted, and nothing is ever removed.
///
/// A collection owns its keys and values and does no locking of its own. It can be handed to
/// another thread where `K` and `V` can; to share one between threads, put it behind a lock.
pub struct OTM<K: Eq, V> {
    inner: Vec<(K, Vec<V>)>,
}

/// The entries that a vector of buckets stands for: each vector of values taken as a sequence.
spec fn entries_of<K, V>(buckets: Seq<(K, Vec<V>)>) -> Entries<K, V> {
    buckets.map_values(|e: (K, Vec<V>)| (e.0, e.1@))
}

/// Putting a bucket in place of another puts its entry in place of the other's.
proof fn lemma_entries_of_update<K, V>(buckets: Seq<(K, Vec<V>)>, i: int, bucket: (K, Vec<V>))
    requires
        0 <= i < buckets.len(),
    ensures
        entries_of(buckets.update(i, bucket)) == entries_of(buckets).update(
            i,
            (bucket.0, bucket.1@),
        ),
{
}

/// A bucket more at the end is an entry more at the end.
proof fn lemma_entries_of_push<K, V>(buckets: Seq<(K, Vec<V>)>, bucket: (K, Vec<V>))
    ensures
        entries_of(buckets.push(bucket)) == entries_of(buckets).push((bucket.0, bucket.1@)),
{
}

impl<K: Eq, V> View for OTM<K, V> {
    type V = Entries<K, V>;

    /// The entries, oldest key first.
    closed spec fn view(&self) -> Entries<K, V> {
        entries_of(self.inner@)
    }
}

impl<K: Eq, V> OTM<K, V> {
    /// No two entries hold equal keys.
    pub open spec fn well_formed(&self) -> bool {
        distinct_keys(self@)
    }

    /// Create a new empty collection.
    pub fn new() -> (otm: Self)
        ensures
            otm@ == Seq::<(K, Seq<V>)>::empty(),
            otm.well_formed(),
    {
        Self { inner: Vec::new() }
    }

    /// Scan for the first entry whose key equals `key`.
    fn position(&self, key: &K) -> (found: Option<usize>)
        ensures
            found matches Some(i) ==> i < self.inner.len(),
            K::obeys_eq_spec() ==> match found {
                Some(i) => find(self@, *key) == Some(i as int),
                None => find(self@, *key).is_none(),
            },
    {
        let mut i: usize = 0;
        while i < self.inner.len()
            invariant
                i <= self.inner.len(),
                K::obeys_eq_spec() ==> forall|j: int| 0 <= j < i ==> !holds_key(self@, j, *key),
            decreases self.inner.len() - i,
        {
            if &self.inner[i].0 == key {
                proof {
                    if K::obeys_eq_spec() {
                        lemma_find_is(self@, *key, i as int);
                    }
                }
                return Some(i);
            }
            i += 1;
        }
        None
    }

    /// Insert a new key-value pair into the collection.
    ///
    /// The value goes behind the values that the key has already; a key that is not there
    /// yet becomes the last one.
    pub fn insert(&mut self, key: K, val: V)
        ensures
            K::obeys_eq_spec() ==> final(self)@ == with_values(old(self)@, key, seq![val]),
            K::obeys_eq_spec() && old(self).well_formed() ==> final(self).well_formed(),
    {
        match self.position(&key) {
            Some(i) => {
                self.inner[i].1.push(val);
                proof {
                    assert(self.inner[i as int].1@ == old(self).inner[i as int].1@ + seq![val]);
                    lemma_entries_of_update(old(self).inner@, i as int, self.inner[i as int]);
                }
            },
            None => {
                let mut vals = Vec::new();
                vals.push(val);
                proof {
                    assert(vals@ == seq![val]);
                    lemma_entries_of_push(old(self).inner@, (key, vals));
                }
                self.inner.push((key, vals));
            },
        }
        proof {
            if K::obeys_eq_spec() && old(self).well_formed() {
                lemma_insert_keeps_distinct(old(self)@, key, seq![val]);
            }
        }
    }

    /// Get a list of values associated with a key. The returned slice is empty
    /// if no key exists.
    pub fn get(&self, key: K) -> (vals: &[V])
        ensures
            K::obeys_eq_spec() ==> vals@ == values_of(self@, key),
            K::obeys_eq_spec() && !has_key(self@, key) ==> vals@.len() == 0,
    {
        match self.position(&key) {
            Some(i) => self.inner[i].1.as_slice(),
            None => &[],
        }
    }

    /// This is identical to [`Self::get`], but it returns a mutable slice.
    ///
    /// What is written to the slice is what the key holds afterwards; no other key is
    /// touched, and no key is added where none was.
    pub fn get_mut(&mut self, key: K) -> (vals: &mut [V])
        ensures
            K::obeys_eq_spec() ==> vals@ == values_of(old(self)@, key),
            K::obeys_eq_spec() && !has_key(old(self)@, key) ==> vals@.len() == 0,
            K::obeys_eq_spec() ==> final(self)@ == with_replaced(old(self)@, key, final(vals)@),
            K::obeys_eq_spec() && has_key(old(self)@, key) ==> values_of(final(self)@, key)
                == final(vals)@,
            K::obeys_eq_spec() && old(self).well_formed() ==> final(self).well_formed(),
    {
        match self.position(&key) {
            Some(i) => {
                proof {
                    let ghost buckets = self.inner@;
                    let ghost before = self@;
                    assert forall|bucket: (K, Vec<V>)|
                        K::obeys_eq_spec() && bucket.0 == buckets[i as int].0 implies ({
                        let after = #[trigger] entries_of(buckets.update(i as int, bucket));
                        &&& after == with_replaced(before, key, bucket.1@)
                        &&& values_of(after, key) == bucket.1@
                        &&& distinct_keys(before) ==> distinct_keys(after)
                    }) by {
                        let after = with_replaced(before, key, bucket.1@);
                        lemma_entries_of_update(buckets, i as int, bucket);
                        lemma_replace_sets_values(before, key, bucket.1@);
                        lemma_replace_keeps_keys(before, key, bucket.1@);
                        if distinct_keys(before) {
                            lemma_same_keys_distinct(before, after);
                        }
                    }
                }
                self.inner[i].1.as_mut_slice()
            },
            None => &mut [],
        }
    }

    /// Insert all `vals` into `self` at `key`, including duplicates.
    ///
    /// The key is looked up once and the values are appended in their order. A key that is
    /// not there yet is added even where `vals` is empty.
    pub fn insert_many(&mut self, key: K, vals: Vec<V>)
        ensures
            K::obeys_eq_spec() ==> final(self)@ == with_values(old(self)@, key, vals@),
            K::obeys_eq_spec() && old(self).well_formed() ==> final(self).well_formed(),
    {
        let ghost added = vals@;
        let mut vals = vals;
        match self.position(&key) {
            Some(i) => {
                self.inner[i].1.append(&mut vals);
                proof {
                    lemma_entries_of_update(old(self).inner@, i as int, self.inner[i as int]);
                }
            },
            None => {
                proof {
                    lemma_entries_of_push(old(self).inner@, (key, vals));
                }
                self.inner.push((key, vals));
            },
        }
        proof {
            if K::obeys_eq_spec() && old(self).well_formed() {
                lemma_insert_keeps_distinct(old(self)@, key, added);
            }
        }
    }

    /// While consuming `other`, insert all of its entries into `self`,
    /// including duplicates.
    ///
    /// The entries of `other` are inserted front to back: values of a key that `self` has
    /// already go behind the values it has, and the other keys follow those of `self` in the
    /// order of `other`.
    pub fn merge(&mut self, other: Self)
        ensures
            K::obeys_eq_spec() ==> final(self)@ == merged(old(self)@, other@),
            K::obeys_eq_spec() && old(self).well_formed() ==> final(self).well_formed(),
    {
        proof {
            if old(self).well_formed() {
                lemma_merge_keeps_distinct(old(self)@, other@);
            }
        }
        for e in it: other.inner
            invariant
                it.seq() == other.inner@,
                K::obeys_eq_spec() ==> self@ == merged(old(self)@, other@.take(it.index())),
        {
            proof {
                lemma_merged_step(old(self)@, other@, it.index());
            }
            self.insert_many(e.0, e.1);
        }
        assert(other@.take(other@.len() as int) == other@);
    }

    /// Get the number of keys in a collection.
    pub fn num_keys(&self) -> (n: usize)
        ensures
            n == self@.len(),
    {
        self.inner.len()
    }
}

/// Consuming iteration: the entries themselves, oldest key first.
impl<K: Eq, V> IntoIterator for OTM<K, V> {
    type Item = (K, Vec<V>);

    type IntoIter = std::vec::IntoIter<(K, Vec<V>)>;

    fn into_iter(self) -> (iter: Self::IntoIter)
        ensures
            iter.remaining().map_values(|e: (K, Vec<V>)| (e.0, e.1@)) == self@,
            iter.decrease() is Some,
            iter.initial_value_relation(&iter),
    {
        self.inner.into_iter()
    }
}

/// Iteration by reference: each entry as it stands, oldest key first.
impl<'a, K: Eq, V> IntoIterator for &'a OTM<K, V> {
    type Item = &'a (K, Vec<V>);

    type IntoIter = std::slice::Iter<'a, (K, Vec<V>)>;

    fn into_iter(self) -> (iter: Self::IntoIter)
        ensures
            iter.remaining().map_values(|e: &(K, Vec<V>)| (e.0, e.1@)) == self@,
            iter.decrease() is Some,
            iter.initial_value_relation(&iter),
    {
        self.inner.iter()
    }
}

/// Iteration by mutable reference: each key with its values as a mutable slice, oldest key
/// first. The values can be overwritten in place; keys can be neither changed nor added.
impl<'a, K: Eq, V> IntoIterator for &'a mut OTM<K, V> {
    type Item = (&'a K, &'a mut [V]);

    type IntoIter = std::vec::IntoIter<(&'a K, &'a mut [V])>;

    fn into_iter(self) -> (iter: Self::IntoIter)
        ensures
            iter.remaining().len() == old(self)@.len(),
            iter.decrease() is Some,
            iter.initial_value_relation(&iter),
            forall|i: int|
                0 <= i < old(self)@.len() ==> {
                    let item = #[trigger] iter.remaining()[i];
                    *item.0 == old(self)@[i].0 && item.1@ == old(self)@[i].1
                },
            final(self)@ == Seq::new(
                old(self)@.len(),
                |i: int| (old(self)@[i].0, final(iter.remaining()[i].1)@),
            ),
            forall|key: K|
                values_of(final(self)@, key) == match #[trigger] find(old(self)@, key) {
                    Some(i) => final(iter.remaining()[i].1)@,
                    None => Seq::empty(),
                },
            old(self).well_formed() ==> final(self).well_formed(),
    {
        let ghost orig = self.inner@;
        let mut items: Vec<(&'a K, &'a mut [V])> = Vec::new();
        let mut rest: &'a mut [(K, Vec<V>)] = self.inner.as_mut_slice();
        let ghost whole = rest;
        while rest.len() > 0
            invariant
                items@.len() + rest@.len() == orig.len(),
                rest@ == orig.skip(items@.len() as int),
                forall|i: int|
                    0 <= i < items@.len() ==> *(#[trigger] items@[i]).0 == orig[i].0
                        && items@[i].1@ == orig[i].1@,
                entries_of(final(whole)@) == Seq::new(
                    items@.len(),
                    |i: int| (orig[i].0, final(items@[i].1)@),
                ) + entries_of(final(rest)@),
            decreases rest.len(),
        {
            let (head, tail) = rest.split_at_mut(1);
            match head.first_mut() {
                Some(e) => {
                    let (k, v) = e;
                    items.push((&*k, v.as_mut_slice()));
                },
                None => {},
            }
            rest = tail;
        }
        assert(final(rest)@ == rest@);
        let iter = items.into_iter();
        proof {
            let after = Seq::new(
                orig.len(),
                |i: int| (orig[i].0, final(iter.remaining()[i].1)@),
            );
            assert(iter.remaining() == items@);
            assert(entries_of(final(whole)@) == after);
            assert(keys_of(entries_of(orig)) == keys_of(after));
            assert forall|key: K|
                values_of(after, key) == match #[trigger] find(entries_of(orig), key) {
                    Some(i) => final(iter.remaining()[i].1)@,
                    None => Seq::empty(),
                } by {
                lemma_same_keys_values(entries_of(orig), after, key);
                crate::model::lemma_find(entries_of(orig), key);
            }
            if distinct_keys(entries_of(orig)) {
                lemma_same_keys_distinct(entries_of(orig), after);
            }
        }
        iter
    }
}

} // verus!
