//! Association lists: sequences of key–value entries, read by the value of
//! the first entry with a given key.

use vstd::prelude::*;

verus! {

/// The value of the first entry for `key`, if any.
pub open spec fn first_value<K, V>(entries: Seq<(K, V)>, key: K) -> Option<V>
    decreases entries.len(),
{
    if entries.len() == 0 {
        None
    } else if entries[0].0 == key {
        Some(entries[0].1)
    } else {
        first_value(entries.drop_first(), key)
    }
}

/// No key occurs twice.
pub open spec fn keys_unique<K, V>(entries: Seq<(K, V)>) -> bool {
    forall|i: int, j: int| 0 <= i < j < entries.len() ==> #[trigger] entries[i].0 != #[trigger] entries[j].0
}

/// The value found is that of the first entry for the key, or none when
/// no entry has it.
pub proof fn lemma_first_value_at<K, V>(entries: Seq<(K, V)>, key: K, i: int)
    requires
        0 <= i <= entries.len(),
        forall|k: int| 0 <= k < i ==> entries[k].0 != key,
        i < entries.len() ==> entries[i].0 == key,
    ensures
        first_value(entries, key) == if i < entries.len() { Some(entries[i].1) } else { None },
    decreases entries.len(),
{
    if entries.len() > 0 && i > 0 {
        lemma_first_value_at(entries.drop_first(), key, i - 1);
    }
}

/// A key held by some entry has a value.
pub proof fn lemma_first_value_some<K, V>(entries: Seq<(K, V)>, key: K, k: int)
    requires
        0 <= k < entries.len(),
        entries[k].0 == key,
    ensures
        first_value(entries, key) is Some,
    decreases entries.len(),
{
    if entries[0].0 != key {
        assert(entries.drop_first()[k - 1] == entries[k]);
        lemma_first_value_some(entries.drop_first(), key, k - 1);
    }
}

/// Appending an entry leaves the values of other keys; a key that had no
/// value gets the appended one.
pub proof fn lemma_first_value_push<K, V>(entries: Seq<(K, V)>, e: (K, V), other: K)
    ensures
        other != e.0 ==> first_value(entries.push(e), other) == first_value(entries, other),
        first_value(entries, e.0) is None ==> first_value(entries.push(e), e.0) == Some(e.1),
    decreases entries.len(),
{
    let p = entries.push(e);
    if entries.len() > 0 {
        assert(p.drop_first() =~= entries.drop_first().push(e));
        assert(p[0] == entries[0]);
        lemma_first_value_push(entries.drop_first(), e, other);
    } else {
        assert(p.drop_first() =~= Seq::<(K, V)>::empty());
        assert(p[0] == e);
        assert(first_value(p.drop_first(), other) is None);
    }
}

/// Replacing an entry by one with the same key leaves the values of other
/// keys; when it was the first entry for its key, the key gets the new value.
pub proof fn lemma_first_value_update<K, V>(entries: Seq<(K, V)>, i: int, e: (K, V), other: K)
    requires
        0 <= i < entries.len(),
        entries[i].0 == e.0,
    ensures
        other != e.0 ==> first_value(entries.update(i, e), other) == first_value(entries, other),
        (forall|k: int| 0 <= k < i ==> entries[k].0 != e.0) ==> first_value(entries.update(i, e), e.0) == Some(e.1),
    decreases entries.len(),
{
    let u = entries.update(i, e);
    if i > 0 {
        assert(u.drop_first() =~= entries.drop_first().update(i - 1, e));
        assert(u[0] == entries[0]);
        lemma_first_value_update(entries.drop_first(), i - 1, e, other);
        if forall|k: int| 0 <= k < i ==> entries[k].0 != e.0 {
            assert forall|k: int| 0 <= k < i - 1 implies entries.drop_first()[k].0 != e.0 by {
                assert(entries.drop_first()[k] == entries[k + 1]);
            }
        }
    } else {
        assert(u.drop_first() =~= entries.drop_first());
        assert(u[0] == e);
    }
}

/// Removing an entry leaves the values of the keys it does not hold.
pub proof fn lemma_first_value_remove<K, V>(entries: Seq<(K, V)>, i: int, other: K)
    requires
        0 <= i < entries.len(),
        entries[i].0 != other,
    ensures
        first_value(entries.remove(i), other) == first_value(entries, other),
    decreases entries.len(),
{
    let r = entries.remove(i);
    if i > 0 {
        assert(r.drop_first() =~= entries.drop_first().remove(i - 1));
        assert(r[0] == entries[0]);
        lemma_first_value_remove(entries.drop_first(), i - 1, other);
    } else {
        assert(r =~= entries.drop_first());
    }
}

} // verus!
