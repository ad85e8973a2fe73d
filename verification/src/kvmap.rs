//! The bidirectional one-to-one map.

use vstd::prelude::*;

use crate::assoc::distinct_firsts;
use crate::assoc::flip;
use crate::assoc::has_first;
use crate::assoc::index_of_first;
use crate::assoc::lemma_flip_push;
use crate::assoc::lemma_flip_remove;
use crate::assoc::lemma_index_of_first;
use crate::assoc::lemma_map_of_empty;
use crate::assoc::lemma_map_of_index;
use crate::assoc::lemma_map_of_push;
use crate::assoc::lemma_map_of_remove;
use crate::assoc::map_of;
use crate::element::Element;

verus! {

/// The one failure the container knows: an insert whose key or value is
/// already bound on its side.
#[derive(Debug, PartialEq, Eq, Structural)]
pub enum KeyValMapError {
    InsertError,
}

/// A bidirectional one-to-one map. Every key is paired with exactly one
/// value and every value with exactly one key; lookup and removal work from
/// either side. Each entry's key and value are stored once, side by side.
pub struct KeyValMap<K: Element, V: Element> {
    pairs: Vec<(K, V)>,
}

impl<K: Element, V: Element> KeyValMap<K, V> {
    /// The entries now present, as pairs of views, in insertion order.
    pub closed spec fn entries(self) -> Seq<(K::V, V::V)> {
        self.pairs@.map_values(|p: (K, V)| (p.0@, p.1@))
    }

    /// The key-to-value direction as a mathematical map.
    pub open spec fn key_map(self) -> Map<K::V, V::V> {
        map_of(self.entries())
    }

    /// The value-to-key direction as a mathematical map.
    pub open spec fn val_map(self) -> Map<V::V, K::V> {
        map_of(flip(self.entries()))
    }

    /// Validity: no key view and no value view occurs twice. Established by
    /// `new` and preserved by every operation; it makes both directions
    /// functions and mirror images of one another.
    pub open spec fn well_formed(self) -> bool {
        distinct_firsts(self.entries()) && distinct_firsts(flip(self.entries()))
    }

    /// An empty container: nothing is bound on either side.
    pub fn new() -> (r: Self)
        ensures
            r.well_formed(),
            r.entries() == Seq::<(K::V, V::V)>::empty(),
            r.key_map() == Map::<K::V, V::V>::empty(),
            r.val_map() == Map::<V::V, K::V>::empty(),
    {
        let r = KeyValMap { pairs: Vec::new() };
        proof {
            assert(r.entries() =~= Seq::<(K::V, V::V)>::empty());
            assert(flip(r.entries()) =~= Seq::<(V::V, K::V)>::empty());
            lemma_map_of_empty::<K::V, V::V>();
            lemma_map_of_empty::<V::V, K::V>();
        }
        r
    }

    /// Index of the entry whose key has `key`'s view, if one is present.
    fn position_of_key(&self, key: &K) -> (r: Option<usize>)
        ensures
            match r {
                Some(i) => i < self.entries().len() && self.entries()[i as int].0 == key@,
                None => !has_first(self.entries(), key@),
            },
    {
        let n = self.pairs.len();
        let mut i: usize = 0;
        while i < n
            invariant
                n == self.pairs@.len(),
                i <= n,
                forall|j: int| 0 <= j < i ==> (#[trigger] self.entries()[j]).0 != key@,
            decreases n - i,
        {
            if self.pairs[i].0.same_as(key) {
                assert(self.entries()[i as int].0 == key@);
                return Some(i);
            }
            i = i + 1;
        }
        None
    }

    /// Index of the entry whose value has `val`'s view, if one is present.
    fn position_of_val(&self, val: &V) -> (r: Option<usize>)
        ensures
            match r {
                Some(i) => i < self.entries().len() && self.entries()[i as int].1 == val@,
                None => !has_first(flip(self.entries()), val@),
            },
    {
        let n = self.pairs.len();
        let mut i: usize = 0;
        while i < n
            invariant
                n == self.pairs@.len(),
                i <= n,
                forall|j: int| 0 <= j < i ==> (#[trigger] self.entries()[j]).1 != val@,
            decreases n - i,
        {
            if self.pairs[i].1.same_as(val) {
                assert(self.entries()[i as int].1 == val@);
                return Some(i);
            }
            i = i + 1;
        }
        assert forall|j: int| 0 <= j < flip(self.entries()).len() implies (#[trigger] flip(
            self.entries(),
        )[j]).0 != val@ by {
            assert(flip(self.entries())[j] == (self.entries()[j].1, self.entries()[j].0));
        }
        None
    }

    /// Binds `key` to `val`. Succeeds exactly when neither `key` nor `val`
    /// is already bound on its side; on failure nothing changes and the one
    /// error kind is returned, without saying which side collided.
    pub fn insert(&mut self, key: K, val: V) -> (r: Result<(), KeyValMapError>)
        requires
            old(self).well_formed(),
        ensures
            final(self).well_formed(),
            (r is Ok) == (!old(self).key_map().dom().contains(key@) && !old(
                self,
            ).val_map().dom().contains(val@)),
            r is Ok ==> final(self).entries() == old(self).entries().push((key@, val@)),
            r is Ok ==> final(self).key_map() == old(self).key_map().insert(key@, val@),
            r is Ok ==> final(self).val_map() == old(self).val_map().insert(val@, key@),
            r is Err ==> *final(self) == *old(self) && r == Err::<(), KeyValMapError>(
                KeyValMapError::InsertError,
            ),
    {
        if self.contains_key(&key) || self.contains_val(&val) {
            return Err(KeyValMapError::InsertError);
        }
        proof {
            lemma_map_of_push(self.entries(), key@, val@);
            lemma_map_of_push(flip(self.entries()), val@, key@);
            lemma_flip_push(self.entries(), (key@, val@));
        }
        let ghost s = self.entries();
        self.pairs.push((key, val));
        proof {
            assert(self.entries() =~= s.push((key@, val@)));
        }
        Ok(())
    }

    /// The value paired with `key`: a copy of it, or nothing when `key` is
    /// not bound. Never mutates.
    pub fn get_by_key(&self, key: &K) -> (r: Option<V>)
        requires
            self.well_formed(),
        ensures
            (r is Some) == self.key_map().dom().contains(key@),
            r matches Some(v) ==> v@ == self.key_map()[key@],
    {
        match self.position_of_key(key) {
            None => None,
            Some(i) => {
                proof {
                    lemma_index_of_first(self.entries(), i as int);
                    lemma_map_of_index(self.entries(), i as int);
                }
                Some(self.pairs[i].1.dup())
            },
        }
    }

    /// The key paired with `val`: a copy of it, or nothing when `val` is
    /// not bound. Never mutates.
    pub fn get_by_val(&self, val: &V) -> (r: Option<K>)
        requires
            self.well_formed(),
        ensures
            (r is Some) == self.val_map().dom().contains(val@),
            r matches Some(k) ==> k@ == self.val_map()[val@],
    {
        match self.position_of_val(val) {
            None => None,
            Some(i) => {
                proof {
                    let f = flip(self.entries());
                    assert(f[i as int] == (self.entries()[i as int].1, self.entries()[i as int].0));
                    lemma_index_of_first(f, i as int);
                    lemma_map_of_index(f, i as int);
                }
                Some(self.pairs[i].0.dup())
            },
        }
    }

    /// Unbinds `key` and the value paired with it, returning that value,
    /// or returns nothing and changes nothing when `key` is not bound.
    pub fn remove_by_key(&mut self, key: &K) -> (r: Option<V>)
        requires
            old(self).well_formed(),
        ensures
            final(self).well_formed(),
            (r is Some) == old(self).key_map().dom().contains(key@),
            r matches Some(v) ==> v@ == old(self).key_map()[key@],
            r is Some ==> final(self).entries() == old(self).entries().remove(
                index_of_first(old(self).entries(), key@),
            ),
            r is Some ==> final(self).key_map() == old(self).key_map().remove(key@),
            r is Some ==> final(self).val_map() == old(self).val_map().remove(
                old(self).key_map()[key@],
            ),
            r is None ==> *final(self) == *old(self),
    {
        match self.position_of_key(key) {
            None => None,
            Some(i) => {
                proof {
                    let s = self.entries();
                    lemma_index_of_first(s, i as int);
                    lemma_map_of_index(s, i as int);
                    lemma_map_of_remove(s, i as int);
                    assert(flip(s)[i as int] == (s[i as int].1, s[i as int].0));
                    lemma_map_of_remove(flip(s), i as int);
                    lemma_flip_remove(s, i as int);
                }
                let ghost s = self.entries();
                let pair = self.pairs.remove(i);
                proof {
                    assert(self.entries() =~= s.remove(i as int));
                }
                Some(pair.1)
            },
        }
    }

    /// Unbinds `val` and the key paired with it, returning that key,
    /// or returns nothing and changes nothing when `val` is not bound.
    pub fn remove_by_val(&mut self, val: &V) -> (r: Option<K>)
        requires
            old(self).well_formed(),
        ensures
            final(self).well_formed(),
            (r is Some) == old(self).val_map().dom().contains(val@),
            r matches Some(k) ==> k@ == old(self).val_map()[val@],
            r is Some ==> final(self).entries() == old(self).entries().remove(
                index_of_first(flip(old(self).entries()), val@),
            ),
            r is Some ==> final(self).val_map() == old(self).val_map().remove(val@),
            r is Some ==> final(self).key_map() == old(self).key_map().remove(
                old(self).val_map()[val@],
            ),
            r is None ==> *final(self) == *old(self),
    {
        match self.position_of_val(val) {
            None => None,
            Some(i) => {
                proof {
                    let s = self.entries();
                    let f = flip(s);
                    assert(f[i as int] == (s[i as int].1, s[i as int].0));
                    lemma_index_of_first(f, i as int);
                    lemma_map_of_index(f, i as int);
                    lemma_map_of_remove(f, i as int);
                    lemma_map_of_remove(s, i as int);
                    lemma_flip_remove(s, i as int);
                }
                let ghost s = self.entries();
                let pair = self.pairs.remove(i);
                proof {
                    assert(self.entries() =~= s.remove(i as int));
                }
                Some(pair.0)
            },
        }
    }

    /// A snapshot copy of all keys now bound, one for each entry, in the
    /// container's own order.
    pub fn to_key_vec(&self) -> (r: Vec<K>)
        ensures
            r@.len() == self.entries().len(),
            forall|i: int| 0 <= i < r@.len() ==> (#[trigger] r@[i])@ == self.entries()[i].0,
    {
        let n = self.pairs.len();
        let mut out: Vec<K> = Vec::new();
        let mut i: usize = 0;
        while i < n
            invariant
                n == self.pairs@.len(),
                i <= n,
                out@.len() == i,
                forall|j: int| 0 <= j < i ==> (#[trigger] out@[j])@ == self.entries()[j].0,
            decreases n - i,
        {
            out.push(self.pairs[i].0.dup());
            i = i + 1;
        }
        out
    }

    /// A snapshot copy of all values now bound, one for each entry, in the
    /// container's own order.
    pub fn to_val_vec(&self) -> (r: Vec<V>)
        ensures
            r@.len() == self.entries().len(),
            forall|i: int| 0 <= i < r@.len() ==> (#[trigger] r@[i])@ == self.entries()[i].1,
    {
        let n = self.pairs.len();
        let mut out: Vec<V> = Vec::new();
        let mut i: usize = 0;
        while i < n
            invariant
                n == self.pairs@.len(),
                i <= n,
                out@.len() == i,
                forall|j: int| 0 <= j < i ==> (#[trigger] out@[j])@ == self.entries()[j].1,
            decreases n - i,
        {
            out.push(self.pairs[i].1.dup());
            i = i + 1;
        }
        out
    }

    /// Whether `key` is bound to some value.
    pub fn contains_key(&self, key: &K) -> (r: bool)
        ensures
            r == self.key_map().dom().contains(key@),
    {
        match self.position_of_key(key) {
            Some(i) => {
                proof {
                    let s = self.entries();
                    assert(0 <= i < s.len() && s[i as int].0 == key@);
                    assert(has_first(s, key@));
                }
                true
            },
            None => false,
        }
    }

    /// Whether `val` is bound to some key.
    pub fn contains_val(&self, val: &V) -> (r: bool)
        ensures
            r == self.val_map().dom().contains(val@),
    {
        match self.position_of_val(val) {
            Some(i) => {
                proof {
                    let f = flip(self.entries());
                    assert(f[i as int] == (self.entries()[i as int].1, self.entries()[i as int].0));
                    assert(0 <= i < f.len() && f[i as int].0 == val@);
                    assert(has_first(f, val@));
                }
                true
            },
            None => false,
        }
    }

    /// Whether `key` is bound to some value and `val` is bound to some key.
    /// The two checks are independent: this does not say that `key` and
    /// `val` are paired with each other.
    pub fn contains(&self, key: &K, val: &V) -> (r: bool)
        ensures
            r == (self.key_map().dom().contains(key@) && self.val_map().dom().contains(val@)),
    {
        self.contains_val(val) && self.contains_key(key)
    }
}

} // verus!
