//! Key-value tables stored as parallel sequences of keys and values, and
//! the map they denote.
use vstd::prelude::*;

verus! {

/// The map denoted by parallel key and value sequences; a later entry wins.
pub open spec fn table<K, V>(keys: Seq<K>, vals: Seq<V>) -> Map<K, V>
    decreases keys.len(),
{
    if keys.len() == 0 || vals.len() == 0 {
        Map::empty()
    } else {
        table(keys.drop_last(), vals.drop_last()).insert(keys.last(), vals.last())
    }
}

/// No key occurs twice.
pub open spec fn distinct<K>(keys: Seq<K>) -> bool {
    forall|i: int, j: int| 0 <= i < keys.len() && 0 <= j < keys.len() && i != j ==> keys[i] != keys[j]
}

/// Appending an entry inserts it.
pub proof fn lemma_table_push<K, V>(keys: Seq<K>, vals: Seq<V>, k: K, v: V)
    requires
        keys.len() == vals.len(),
    ensures
        table(keys.push(k), vals.push(v)) == table(keys, vals).insert(k, v),
{
    assert(keys.push(k).drop_last() =~= keys);
    assert(vals.push(v).drop_last() =~= vals);
}

/// The table holds exactly the keys of its entries, each with its value.
pub proof fn lemma_table_get<K, V>(keys: Seq<K>, vals: Seq<V>, i: int)
    requires
        keys.len() == vals.len(),
        distinct(keys),
        0 <= i < keys.len(),
    ensures
        table(keys, vals).contains_key(keys[i]),
        table(keys, vals)[keys[i]] == vals[i],
    decreases keys.len(),
{
    if i < keys.len() - 1 {
        let ks = keys.drop_last();
        assert forall|a: int, b: int| 0 <= a < ks.len() && 0 <= b < ks.len() && a != b implies ks[a] != ks[b] by {
            assert(ks[a] == keys[a] && ks[b] == keys[b]);
        }
        lemma_table_get(ks, vals.drop_last(), i);
        assert(keys[i] != keys.last());
    }
}

/// A key with no entry is absent from the table.
pub proof fn lemma_table_absent<K, V>(keys: Seq<K>, vals: Seq<V>, k: K)
    requires
        keys.len() == vals.len(),
        forall|i: int| 0 <= i < keys.len() ==> keys[i] != k,
    ensures
        !table(keys, vals).contains_key(k),
    decreases keys.len(),
{
    if keys.len() > 0 {
        let ks = keys.drop_last();
        assert forall|i: int| 0 <= i < ks.len() implies ks[i] != k by {
            assert(ks[i] == keys[i]);
        }
        lemma_table_absent(ks, vals.drop_last(), k);
    }
}

/// Replacing an entry's value overwrites that key in the table.
pub proof fn lemma_table_update<K, V>(keys: Seq<K>, vals: Seq<V>, i: int, v: V)
    requires
        keys.len() == vals.len(),
        distinct(keys),
        0 <= i < keys.len(),
    ensures
        table(keys, vals.update(i, v)) == table(keys, vals).insert(keys[i], v),
    decreases keys.len(),
{
    let u = vals.update(i, v);
    if i == keys.len() - 1 {
        assert(u.drop_last() =~= vals.drop_last());
        assert(table(keys, vals.update(i, v)) =~= table(keys, vals).insert(keys[i], v));
    } else {
        let ks = keys.drop_last();
        assert forall|a: int, b: int| 0 <= a < ks.len() && 0 <= b < ks.len() && a != b implies ks[a] != ks[b] by {
            assert(ks[a] == keys[a] && ks[b] == keys[b]);
        }
        lemma_table_update(ks, vals.drop_last(), i, v);
        assert(u.drop_last() =~= vals.drop_last().update(i, v));
        assert(keys[i] != keys.last());
        assert(table(keys, vals.update(i, v)) =~= table(keys, vals).insert(keys[i], v));
    }
}

/// Every key of the table comes from an entry.
pub proof fn lemma_table_dom<K, V>(keys: Seq<K>, vals: Seq<V>, k: K)
    requires
        keys.len() == vals.len(),
        table(keys, vals).contains_key(k),
    ensures
        exists|i: int| 0 <= i < keys.len() && keys[i] == k,
    decreases keys.len(),
{
    if keys.last() != k {
        lemma_table_dom(keys.drop_last(), vals.drop_last(), k);
        let i = choose|i: int| 0 <= i < keys.len() - 1 && keys.drop_last()[i] == k;
        assert(keys[i] == k);
    } else {
        assert(keys[keys.len() - 1] == k);
    }
}

/// Adding a key not yet present keeps the keys distinct.
pub proof fn lemma_distinct_push<K>(keys: Seq<K>, k: K)
    requires
        distinct(keys),
        forall|i: int| 0 <= i < keys.len() ==> keys[i] != k,
    ensures
        distinct(keys.push(k)),
{
    assert forall|a: int, b: int| 0 <= a < keys.len() + 1 && 0 <= b < keys.len() + 1 && a != b implies keys.push(k)[a]
        != keys.push(k)[b] by {
        if a < keys.len() && b < keys.len() {
            assert(keys.push(k)[a] == keys[a] && keys.push(k)[b] == keys[b]);
        } else if a < keys.len() {
            assert(keys.push(k)[a] == keys[a]);
        } else {
            assert(keys.push(k)[b] == keys[b]);
        }
    }
}

} // verus!
