use vstd::prelude::*;

verus! {

/// Mapping the values of a map commutes with inserting an entry.
pub proof fn lemma_map_values_insert<K, V, W>(m: Map<K, V>, k: K, v: V, f: spec_fn(V) -> W)
    ensures
        m.insert(k, v).map_values(f) == m.map_values(f).insert(k, f(v)),
{
    assert(m.insert(k, v).map_values(f) =~= m.map_values(f).insert(k, f(v)));
}

/// Mapping the values of a map commutes with removing a key.
pub proof fn lemma_map_values_remove<K, V, W>(m: Map<K, V>, k: K, f: spec_fn(V) -> W)
    ensures
        m.remove(k).map_values(f) == m.map_values(f).remove(k),
{
    assert(m.remove(k).map_values(f) =~= m.map_values(f).remove(k));
}

} // verus!

verus! {

/// A submap's entry is in the larger map with the same value.
pub proof fn lemma_submap_at<K, V>(m1: Map<K, V>, m2: Map<K, V>, k: K)
    requires
        m1.submap_of(m2),
        m1.contains_key(k),
    ensures
        m2.contains_key(k),
        m2[k] == m1[k],
{
    assert(m1.dom().contains(k));
    assert(m2.dom().contains(k));
    assert(m1[k] == m2[k]);
}

} // verus!
