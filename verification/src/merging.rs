//! What merging does to the entries.

use vstd::prelude::*;
use vstd::std_specs::cmp::PartialEqSpec;
use crate::insertion::{
    lemma_insert_appends_values, lemma_insert_has_key, lemma_insert_keeps_distinct,
    lemma_insert_keeps_order, lemma_insert_keeps_other_values,
};
use crate::model::{
    Entries, distinct_keys, eq_is_equivalence, find, has_key, holds_key, keys_of, lemma_find,
    lemma_find_is, merged, values_of, with_values,
};

verus! {

/// The entries of `other` whose keys `entries` does not hold: those that a merge into
/// `entries` has to make room for.
pub open spec fn newcomers<K: Eq, V>(entries: Entries<K, V>, other: Entries<K, V>) -> Entries<
    K,
    V,
> {
    other.filter(|e: (K, Seq<V>)| !has_key(entries, e.0))
}

/// Merging nothing changes nothing.
pub proof fn lemma_merge_nothing<K: Eq, V>(entries: Entries<K, V>)
    ensures
        merged(entries, Seq::empty()) == entries,
{
}

/// Merging is inserting the last entry of `other` after merging those before it.
pub proof fn lemma_merge_last<K: Eq, V>(entries: Entries<K, V>, other: Entries<K, V>)
    requires
        other.len() > 0,
    ensures
        merged(entries, other) == with_values(
            merged(entries, other.drop_last()),
            other.last().0,
            other.last().1,
        ),
{
}

/// Merging one entry more of `other` is one insertion more.
pub proof fn lemma_merged_step<K: Eq, V>(entries: Entries<K, V>, other: Entries<K, V>, n: int)
    requires
        0 <= n < other.len(),
    ensures
        merged(entries, other.take(n + 1)) == with_values(
            merged(entries, other.take(n)),
            other[n].0,
            other[n].1,
        ),
{
    assert(other.take(n + 1).drop_last() == other.take(n));
}

/// A merge keeps every key of `entries` where it is: whatever it adds comes behind them.
pub proof fn lemma_merge_keeps_order<K: Eq, V>(entries: Entries<K, V>, other: Entries<K, V>)
    ensures
        entries.len() <= merged(entries, other).len(),
        keys_of(merged(entries, other)).take(entries.len() as int) == keys_of(entries),
    decreases other.len(),
{
    if other.len() > 0 {
        let before = merged(entries, other.drop_last());
        lemma_merge_keeps_order(entries, other.drop_last());
        lemma_insert_keeps_order(before, other.last().0, other.last().1);
        assert(keys_of(before).push(other.last().0).take(entries.len() as int) == keys_of(
            before,
        ).take(entries.len() as int));
    } else {
        assert(keys_of(entries).take(entries.len() as int) == keys_of(entries));
    }
}

/// A merge never makes two keys equal.
pub proof fn lemma_merge_keeps_distinct<K: Eq, V>(entries: Entries<K, V>, other: Entries<K, V>)
    requires
        distinct_keys(entries),
    ensures
        distinct_keys(merged(entries, other)),
    decreases other.len(),
{
    if other.len() > 0 {
        lemma_merge_keeps_distinct(entries, other.drop_last());
        lemma_insert_keeps_distinct(
            merged(entries, other.drop_last()),
            other.last().0,
            other.last().1,
        );
    }
}

/// After a merge a key is present where either side held it.
pub proof fn lemma_merge_has_key<K: Eq, V>(entries: Entries<K, V>, other: Entries<K, V>, k: K)
    requires
        eq_is_equivalence::<K>(),
    ensures
        has_key(merged(entries, other), k) <==> has_key(entries, k) || has_key(other, k),
    decreases other.len(),
{
    if other.len() > 0 {
        let front = other.drop_last();
        let before = merged(entries, front);
        let key = other.last().0;
        lemma_merge_has_key(entries, front, k);
        lemma_insert_has_key(before, key, other.last().1, k);
        if has_key(front, k) {
            let i = choose|i: int| holds_key(front, i, k);
            assert(holds_key(other, i, k));
        }
        if key.eq_spec(&k) {
            assert(holds_key(other, other.len() - 1, k));
            if has_key(before, key) {
                let i = choose|i: int| holds_key(before, i, key);
                assert(holds_key(before, i, k));
            }
        }
        if has_key(other, k) {
            let i = choose|i: int| holds_key(other, i, k);
            if i < front.len() {
                assert(holds_key(front, i, k));
            }
        }
    }
}

/// After a merge a key has the values it had in `entries`, followed by those it had in
/// `other`.
pub proof fn lemma_merge_appends_values<K: Eq, V>(
    entries: Entries<K, V>,
    other: Entries<K, V>,
    k: K,
)
    requires
        eq_is_equivalence::<K>(),
        distinct_keys(other),
    ensures
        values_of(merged(entries, other), k) == values_of(entries, k) + values_of(other, k),
    decreases other.len(),
{
    if other.len() > 0 {
        let front = other.drop_last();
        let before = merged(entries, front);
        let key = other.last().0;
        let vals = other.last().1;
        let last = other.len() - 1;
        assert forall|i: int, j: int| 0 <= i < j < front.len() implies !holds_key(
            front,
            i,
            front[j].0,
        ) by {
            assert(!holds_key(other, i, other[j].0));
        }
        lemma_merge_appends_values(entries, front, k);
        lemma_find(front, k);
        lemma_find(other, k);
        if key.eq_spec(&k) {
            lemma_insert_appends_values(before, key, vals, k);
            assert forall|i: int| 0 <= i < last implies !holds_key(other, i, k) by {
                assert(!holds_key(other, i, other[last].0));
                assert(k.eq_spec(&key));
                if other[i].0.eq_spec(&k) {
                    assert(other[i].0.eq_spec(&key));
                }
            }
            lemma_find_is(other, k, last);
            assert forall|i: int| !holds_key(front, i, k) by {
                if 0 <= i < front.len() {
                    assert(!holds_key(other, i, k));
                }
            }
            assert(values_of(front, k) == Seq::<V>::empty());
            assert(values_of(entries, k) + Seq::<V>::empty() + vals == values_of(entries, k)
                + vals);
        } else {
            lemma_insert_keeps_other_values(before, key, vals, k);
            match find(front, k) {
                Some(i) => {
                    assert(holds_key(other, i, k));
                    assert forall|j: int| 0 <= j < i implies !holds_key(other, j, k) by {
                        assert(!holds_key(front, j, k));
                    }
                    lemma_find_is(other, k, i);
                },
                None => {
                    assert forall|i: int| !holds_key(other, i, k) by {
                        if 0 <= i < front.len() {
                            assert(!holds_key(front, i, k));
                        }
                    }
                },
            }
        }
    } else {
        assert(values_of(entries, k) + Seq::<V>::empty() == values_of(entries, k));
    }
}

/// However three collections are merged, first the left two or first the right two, the
/// result holds the same keys, and under each key the same values in the same order.
pub proof fn lemma_merge_associative<K: Eq, V>(
    a: Entries<K, V>,
    b: Entries<K, V>,
    c: Entries<K, V>,
    k: K,
)
    requires
        eq_is_equivalence::<K>(),
        distinct_keys(b),
        distinct_keys(c),
    ensures
        has_key(merged(merged(a, b), c), k) == has_key(merged(a, merged(b, c)), k),
        values_of(merged(merged(a, b), c), k) == values_of(merged(a, merged(b, c)), k),
{
    lemma_merge_has_key(merged(a, b), c, k);
    lemma_merge_has_key(a, b, k);
    lemma_merge_has_key(a, merged(b, c), k);
    lemma_merge_has_key(b, c, k);
    lemma_merge_keeps_distinct(b, c);
    lemma_merge_appends_values(merged(a, b), c, k);
    lemma_merge_appends_values(a, b, k);
    lemma_merge_appends_values(a, merged(b, c), k);
    lemma_merge_appends_values(b, c, k);
    assert((values_of(a, k) + values_of(b, k)) + values_of(c, k) == values_of(a, k) + (values_of(
        b,
        k,
    ) + values_of(c, k)));
}

/// The keys after a merge: those of `entries` in their order, then the keys that only
/// `other` held, in the order of `other`.
pub proof fn lemma_merge_appends_new_keys<K: Eq, V>(entries: Entries<K, V>, other: Entries<K, V>)
    requires
        eq_is_equivalence::<K>(),
        distinct_keys(other),
    ensures
        keys_of(merged(entries, other)) == keys_of(entries) + keys_of(newcomers(entries, other)),
    decreases other.len(),
{
    reveal(Seq::filter);
    if other.len() > 0 {
        let front = other.drop_last();
        let before = merged(entries, front);
        let key = other.last().0;
        let last = other.len() - 1;
        assert forall|i: int, j: int| 0 <= i < j < front.len() implies !holds_key(
            front,
            i,
            front[j].0,
        ) by {
            assert(!holds_key(other, i, other[j].0));
        }
        lemma_merge_appends_new_keys(entries, front);
        lemma_merge_has_key(entries, front, key);
        lemma_insert_keeps_order(before, key, other.last().1);
        assert(!has_key(front, key)) by {
            assert forall|i: int| !holds_key(front, i, key) by {
                if 0 <= i < front.len() {
                    assert(!holds_key(other, i, other[last].0));
                }
            }
        }
        if has_key(entries, key) {
            assert(newcomers(entries, other) == newcomers(entries, front));
        } else {
            assert(newcomers(entries, other) == newcomers(entries, front).push(other.last()));
            assert(keys_of(newcomers(entries, front).push(other.last())) == keys_of(
                newcomers(entries, front),
            ).push(key));
            assert((keys_of(entries) + keys_of(newcomers(entries, front))).push(key) == keys_of(
                entries,
            ) + keys_of(newcomers(entries, front)).push(key));
        }
    } else {
        assert(keys_of(newcomers(entries, other)) == Seq::<K>::empty());
        assert(keys_of(entries) + Seq::<K>::empty() == keys_of(entries));
    }
}

} // verus!
