//! Walking maps from the lowest key to the highest.

use std::collections::BTreeMap;
use vstd::prelude::*;
use vstd::std_specs::btree::*;

verus! {

/// `keys` are the keys of `m`, lowest first.
pub open spec fn are_keys<V>(m: Map<u64, V>, keys: Seq<u64>) -> bool {
    &&& forall|i: int, j: int| 0 <= i < j < keys.len() ==> #[trigger] keys[i] < #[trigger] keys[j]
    &&& forall|i: int| 0 <= i < keys.len() ==> m.contains_key(#[trigger] keys[i])
    &&& forall|k: u64| #[trigger] m.contains_key(k) ==> keys.contains(k)
}

/// The values of `m` for keys from `from` on, lowest key first.
pub open spec fn values_from<V>(m: Map<u64, V>, from: int) -> Seq<V>
    decreases 0x1_0000_0000_0000_0000 - from,
{
    if from < 0 || from > u64::MAX {
        Seq::empty()
    } else if m.contains_key(from as u64) {
        seq![m[from as u64]] + values_from(m, from + 1)
    } else {
        values_from(m, from + 1)
    }
}

proof fn lemma_values_from<V>(m: Map<u64, V>, keys: Seq<u64>, i: int, from: int)
    requires
        are_keys(m, keys),
        0 <= i <= keys.len(),
        0 <= from <= 0x1_0000_0000_0000_0000,
        forall|j: int| 0 <= j < i ==> (#[trigger] keys[j]) < from,
        forall|j: int| i <= j < keys.len() ==> from <= #[trigger] keys[j],
    ensures
        values_from(m, from) == Seq::new((keys.len() - i) as nat, |j: int| m[keys[i + j]]),
    decreases 0x1_0000_0000_0000_0000 - from,
{
    let values = Seq::new((keys.len() - i) as nat, |j: int| m[keys[i + j]]);
    if from > u64::MAX {
        if i < keys.len() {
            assert(from <= keys[i]);
        }
        assert(values =~= Seq::empty());
    } else if m.contains_key(from as u64) {
        let n = choose|n: int| 0 <= n < keys.len() && keys[n] == from as u64;
        assert(n >= i);
        if i < n {
            assert(keys[i] < keys[n]);
        }
        lemma_values_from(m, keys, i + 1, from + 1);
        let rest = Seq::new((keys.len() - i - 1) as nat, |j: int| m[keys[i + 1 + j]]);
        assert(values =~= seq![m[from as u64]] + rest);
    } else {
        assert forall|j: int| i <= j < keys.len() implies from + 1 <= #[trigger] keys[j] by {
            assert(m.contains_key(keys[j]));
        }
        lemma_values_from(m, keys, i, from + 1);
    }
}

/// The values of a map in the order of its keys.
pub proof fn lemma_values_in_order<V>(m: Map<u64, V>, keys: Seq<u64>)
    requires
        are_keys(m, keys),
    ensures
        values_from(m, 0) == keys.map_values(|k: u64| m[k]),
{
    lemma_values_from(m, keys, 0, 0);
    assert(values_from(m, 0) =~= keys.map_values(|k: u64| m[k]));
}

/// The keys of a map, lowest first.
pub fn ordered_keys<V>(map: &BTreeMap<u64, V>) -> (r: Vec<u64>)
    ensures
        are_keys(map@, r@),
{
    broadcast use vstd::std_specs::btree::group_btree_axioms;

    let mut keys: Vec<u64> = Vec::new();
    let iter = map.iter();
    let ghost all = vstd::std_specs::iter::IteratorSpec::remaining(&iter);
    assert(all == vstd::std_specs::iter::IteratorSpec::remaining(&spec_btree_map_iter(map)));
    assert(increasing_seq(all.map_values(|kv: (&u64, &V)| *kv.0)));
    for entry in it: iter
        invariant
            it.seq() == all,
            keys@.len() == it.index(),
            forall|i: int| 0 <= i < keys@.len() ==> keys@[i] == *(#[trigger] all[i]).0,
    {
        keys.push(*entry.0);
    }
    assert(keys@ =~= all.map_values(|kv: (&u64, &V)| *kv.0));
    assert forall|i: int, j: int| 0 <= i < j < keys@.len() implies #[trigger] keys@[i]
        < #[trigger] keys@[j] by {
        assert(vstd::std_specs::cmp::OrdSpec::cmp_spec(&keys@[i], &keys@[j]) is Less);
    }
    assert forall|k: u64| #[trigger] map@.contains_key(k) implies keys@.contains(k) by {
        assert(all.contains((&k, &map@[k])));
        let i = choose|i: int| 0 <= i < all.len() && all[i] == (&k, &map@[k]);
        assert(keys@[i] == k);
    }
    assert forall|i: int| 0 <= i < keys@.len() implies map@.contains_key(#[trigger] keys@[i]) by {
        assert(map@.contains_key(*all[i].0));
    }
    keys
}

/// Each value of a map from `from` on is among its values in order.
pub proof fn lemma_values_hold<V>(m: Map<u64, V>, from: int, key: u64)
    requires
        0 <= from <= key,
        m.contains_key(key),
    ensures
        values_from(m, from).contains(m[key]),
    decreases key - from,
{
    let values = values_from(m, from);
    let rest = values_from(m, from + 1);
    if from == key {
        assert(values[0] == m[key]);
    } else {
        lemma_values_hold(m, from + 1, key);
        let k = choose|k: int| 0 <= k < rest.len() && rest[k] == m[key];
        if m.contains_key(from as u64) {
            assert(values[k + 1] == m[key]);
        } else {
            assert(values[k] == m[key]);
        }
    }
}

} // verus!
