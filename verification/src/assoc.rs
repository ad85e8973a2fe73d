//! Association sequences and the finite maps they denote.
//!
//! A `Seq<(A, B)>` whose first components are pairwise distinct denotes a
//! finite map from first components to the second components beside them.
//! The container's two directions are both instances of this one notion:
//! the key-to-value direction reads the sequence as it stands, and the
//! value-to-key direction reads it flipped.

use vstd::prelude::*;

verus! {

/// The first components of an association sequence, in order.
pub open spec fn firsts<A, B>(s: Seq<(A, B)>) -> Seq<A> {
    s.map_values(|p: (A, B)| p.0)
}

/// The same associations with each pair turned around.
pub open spec fn flip<A, B>(s: Seq<(A, B)>) -> Seq<(B, A)> {
    s.map_values(|p: (A, B)| (p.1, p.0))
}

/// No first component occurs twice.
pub open spec fn distinct_firsts<A, B>(s: Seq<(A, B)>) -> bool {
    forall|i: int, j: int|
        0 <= i < j < s.len() ==> (#[trigger] s[i]).0 != (#[trigger] s[j]).0
}

/// Some pair of `s` has `a` as its first component.
pub open spec fn has_first<A, B>(s: Seq<(A, B)>, a: A) -> bool {
    exists|i: int| 0 <= i < s.len() && (#[trigger] s[i]).0 == a
}

/// An index of a pair whose first component is `a` (meaningful only when
/// `has_first(s, a)` holds; unique when the first components are distinct).
pub open spec fn index_of_first<A, B>(s: Seq<(A, B)>, a: A) -> int {
    choose|i: int| 0 <= i < s.len() && (#[trigger] s[i]).0 == a
}

/// The finite map that an association sequence denotes.
pub open spec fn map_of<A, B>(s: Seq<(A, B)>) -> Map<A, B> {
    Map::new(|a: A| has_first(s, a), |a: A| s[index_of_first(s, a)].1)
}

/// When first components are distinct, the index of `s[i].0` is `i` itself.
pub proof fn lemma_index_of_first<A, B>(s: Seq<(A, B)>, i: int)
    requires
        distinct_firsts(s),
        0 <= i < s.len(),
    ensures
        has_first(s, s[i].0),
        index_of_first(s, s[i].0) == i,
{
    assert(has_first(s, s[i].0));
    let j = index_of_first(s, s[i].0);
    assert(0 <= j < s.len() && s[j].0 == s[i].0);
}

/// Each pair of a distinct association sequence is bound in its map.
pub proof fn lemma_map_of_index<A, B>(s: Seq<(A, B)>, i: int)
    requires
        distinct_firsts(s),
        0 <= i < s.len(),
    ensures
        map_of(s).dom().contains(s[i].0),
        map_of(s)[s[i].0] == s[i].1,
{
    lemma_index_of_first(s, i);
}

/// Appending a pair with a fresh first component binds it and nothing else.
pub proof fn lemma_map_of_push<A, B>(s: Seq<(A, B)>, a: A, b: B)
    requires
        distinct_firsts(s),
        !has_first(s, a),
    ensures
        distinct_firsts(s.push((a, b))),
        map_of(s.push((a, b))) == map_of(s).insert(a, b),
{
    let t = s.push((a, b));
    assert forall|i: int, j: int| 0 <= i < j < t.len() implies (#[trigger] t[i]).0
        != (#[trigger] t[j]).0 by {
        if j == s.len() {
            assert(t[i] == s[i]);
            if s[i].0 == a {
                assert(has_first(s, a));
            }
        } else {
            assert(t[i] == s[i] && t[j] == s[j]);
        }
    }
    assert forall|x: A| #[trigger] has_first(t, x) implies has_first(s, x) || x == a by {
        let i = choose|i: int| 0 <= i < t.len() && (#[trigger] t[i]).0 == x;
        if i < s.len() {
            assert(t[i] == s[i]);
            assert(has_first(s, x));
        }
    }
    assert forall|x: A| #[trigger] has_first(s, x) implies has_first(t, x) by {
        let i = choose|i: int| 0 <= i < s.len() && (#[trigger] s[i]).0 == x;
        assert(t[i] == s[i]);
        assert(0 <= i < t.len() && t[i].0 == x);
    }
    assert(has_first(t, a)) by {
        assert(0 <= s.len() < t.len() && t[s.len() as int].0 == a);
    }
    assert forall|x: A| #[trigger] has_first(t, x) implies map_of(t)[x] == map_of(s).insert(
        a,
        b,
    )[x] by {
        lemma_index_of_first(t, index_of_first(t, x));
        let i = index_of_first(t, x);
        assert(0 <= i < t.len() && t[i].0 == x);
        if x == a {
            if i < s.len() {
                assert(t[i] == s[i]);
                assert(has_first(s, a));
            }
            assert(t[i].1 == b);
        } else {
            assert(i < s.len());
            assert(t[i] == s[i]);
            lemma_map_of_index(s, i);
        }
    }
    assert(map_of(t) =~= map_of(s).insert(a, b));
}

/// Removing the pair at index `i` unbinds its first component and nothing else.
pub proof fn lemma_map_of_remove<A, B>(s: Seq<(A, B)>, i: int)
    requires
        distinct_firsts(s),
        0 <= i < s.len(),
    ensures
        distinct_firsts(s.remove(i)),
        map_of(s.remove(i)) == map_of(s).remove(s[i].0),
{
    let t = s.remove(i);
    s.remove_ensures(i);
    assert forall|p: int, q: int| 0 <= p < q < t.len() implies (#[trigger] t[p]).0
        != (#[trigger] t[q]).0 by {
        let p2: int = if p < i {
            p
        } else {
            p + 1
        };
        let q2: int = if q < i {
            q
        } else {
            q + 1
        };
        assert(t[p] == s[p2] && t[q] == s[q2]);
    }
    assert forall|x: A| #[trigger] has_first(t, x) implies has_first(s, x) && x != s[i].0 by {
        let j = choose|j: int| 0 <= j < t.len() && (#[trigger] t[j]).0 == x;
        let j2: int = if j < i {
            j
        } else {
            j + 1
        };
        assert(t[j] == s[j2]);
        assert(0 <= j2 < s.len() && s[j2].0 == x);
        assert(j2 != i);
        if x == s[i].0 {
            if j2 < i {
                assert(s[j2].0 != s[i].0);
            } else {
                assert(s[i].0 != s[j2].0);
            }
        }
    }
    assert forall|x: A| has_first(s, x) && x != s[i].0 implies #[trigger] has_first(t, x) by {
        let j = choose|j: int| 0 <= j < s.len() && (#[trigger] s[j]).0 == x;
        assert(j != i);
        let j2: int = if j < i {
            j
        } else {
            j - 1
        };
        assert(t[j2] == s[j]);
        assert(0 <= j2 < t.len() && t[j2].0 == x);
    }
    assert forall|x: A| #[trigger] has_first(t, x) implies map_of(t)[x] == map_of(s)[x] by {
        lemma_index_of_first(t, index_of_first(t, x));
        let j = index_of_first(t, x);
        assert(0 <= j < t.len() && t[j].0 == x);
        let j2: int = if j < i {
            j
        } else {
            j + 1
        };
        assert(t[j] == s[j2]);
        lemma_map_of_index(s, j2);
    }
    assert(map_of(t) =~= map_of(s).remove(s[i].0));
}

/// `flip` commutes with appending a pair.
pub proof fn lemma_flip_push<A, B>(s: Seq<(A, B)>, p: (A, B))
    ensures
        flip(s.push(p)) == flip(s).push((p.1, p.0)),
{
    assert(flip(s.push(p)) =~= flip(s).push((p.1, p.0)));
}

/// `flip` commutes with removal at an index.
pub proof fn lemma_flip_remove<A, B>(s: Seq<(A, B)>, i: int)
    requires
        0 <= i < s.len(),
    ensures
        flip(s.remove(i)) == flip(s).remove(i),
{
    s.remove_ensures(i);
    flip(s).remove_ensures(i);
    assert(flip(s.remove(i)) =~= flip(s).remove(i));
}

/// A distinct association sequence binds as many first components as it has
/// pairs: its map's domain has the sequence's length.
pub proof fn lemma_map_of_dom_len<A, B>(s: Seq<(A, B)>)
    requires
        distinct_firsts(s),
    ensures
        map_of(s).dom().len() == s.len(),
{
    let f = firsts(s);
    assert(f.len() == s.len());
    assert forall|i: int, j: int|
        0 <= i < f.len() && 0 <= j < f.len() && i != j implies f[i] != f[j] by {
        assert(f[i] == s[i].0 && f[j] == s[j].0);
        if i < j {
            assert(s[i].0 != s[j].0);
        } else {
            assert(s[j].0 != s[i].0);
        }
    }
    assert(f.no_duplicates());
    f.unique_seq_to_set();
    assert forall|x: A| #[trigger] has_first(s, x) implies f.to_set().contains(x) by {
        let i = choose|i: int| 0 <= i < s.len() && (#[trigger] s[i]).0 == x;
        assert(f[i] == x);
        assert(f.contains(x));
    }
    assert forall|x: A| #[trigger] f.to_set().contains(x) implies has_first(s, x) by {
        let i = choose|i: int| 0 <= i < f.len() && f[i] == x;
        assert(s[i].0 == x);
    }
    assert(map_of(s).dom() =~= f.to_set());
}

/// The empty association sequence denotes the empty map.
pub proof fn lemma_map_of_empty<A, B>()
    ensures
        map_of(Seq::<(A, B)>::empty()) == Map::<A, B>::empty(),
{
    assert(map_of(Seq::<(A, B)>::empty()) =~= Map::<A, B>::empty());
}

} // verus!
