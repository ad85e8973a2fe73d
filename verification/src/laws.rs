//! The container's laws, stated over its mathematical model and proved.
//!
//! Each law speaks of the two directions `key_map` and `val_map` that the
//! public operations' contracts pin down, so together with those contracts
//! it describes what any sequence of calls can observe.

use vstd::prelude::*;

use crate::assoc::flip;
use crate::assoc::index_of_first;
use crate::assoc::lemma_map_of_dom_len;
use crate::assoc::lemma_map_of_index;
use crate::element::Element;
use crate::kvmap::KeyValMap;

verus! {

/// Bijection, key to value: every bound key's value is itself bound, and
/// leads back to that key.
pub proof fn lemma_bijection_by_key<K: Element, V: Element>(m: KeyValMap<K, V>, k: K::V)
    requires
        m.well_formed(),
        m.key_map().dom().contains(k),
    ensures
        m.val_map().dom().contains(m.key_map()[k]),
        m.val_map()[m.key_map()[k]] == k,
{
    let s = m.entries();
    let i = index_of_first(s, k);
    assert(0 <= i < s.len() && s[i].0 == k);
    lemma_map_of_index(s, i);
    assert(flip(s)[i] == (s[i].1, s[i].0));
    lemma_map_of_index(flip(s), i);
}

/// Bijection, value to key: every bound value's key is itself bound, and
/// leads back to that value.
pub proof fn lemma_bijection_by_val<K: Element, V: Element>(m: KeyValMap<K, V>, v: V::V)
    requires
        m.well_formed(),
        m.val_map().dom().contains(v),
    ensures
        m.key_map().dom().contains(m.val_map()[v]),
        m.key_map()[m.val_map()[v]] == v,
{
    let s = m.entries();
    let f = flip(s);
    let i = index_of_first(f, v);
    assert(0 <= i < f.len() && f[i].0 == v);
    assert(f[i] == (s[i].1, s[i].0));
    lemma_map_of_index(f, i);
    lemma_map_of_index(s, i);
}

/// Round trip: after a successful insert of `k` and `v` — which, by
/// `insert`'s contract, turns a container `m` into a container `n` whose
/// two directions gain the pair — `k` leads to `v` and `v` leads to `k`.
pub proof fn lemma_round_trip<K: Element, V: Element>(
    m: KeyValMap<K, V>,
    n: KeyValMap<K, V>,
    k: K::V,
    v: V::V,
)
    requires
        n.key_map() == m.key_map().insert(k, v),
        n.val_map() == m.val_map().insert(v, k),
    ensures
        n.key_map().dom().contains(k),
        n.key_map()[k] == v,
        n.val_map().dom().contains(v),
        n.val_map()[v] == k,
{
}

/// Removal symmetry: inserting `k` and `v` into `m` (giving `n`) and then
/// removing by `k` — which, by `remove_by_key`'s contract, returns
/// `n.key_map()[k]` and takes the pair out of both directions (giving `p`)
/// — returns exactly `v` and leaves neither `k` nor `v` bound.
pub proof fn lemma_removal_symmetry<K: Element, V: Element>(
    m: KeyValMap<K, V>,
    n: KeyValMap<K, V>,
    p: KeyValMap<K, V>,
    k: K::V,
    v: V::V,
)
    requires
        !m.key_map().dom().contains(k),
        !m.val_map().dom().contains(v),
        n.key_map() == m.key_map().insert(k, v),
        n.val_map() == m.val_map().insert(v, k),
        p.key_map() == n.key_map().remove(k),
        p.val_map() == n.val_map().remove(n.key_map()[k]),
    ensures
        n.key_map()[k] == v,
        !p.key_map().dom().contains(k),
        !p.val_map().dom().contains(v),
{
}

/// Size symmetry: the two directions always bind the same number of
/// elements — one per entry, on each side.
pub proof fn lemma_size_symmetry<K: Element, V: Element>(m: KeyValMap<K, V>)
    requires
        m.well_formed(),
    ensures
        m.key_map().dom().len() == m.entries().len(),
        m.val_map().dom().len() == m.entries().len(),
{
    lemma_map_of_dom_len(m.entries());
    lemma_map_of_dom_len(flip(m.entries()));
    assert(flip(m.entries()).len() == m.entries().len());
}

} // verus!
