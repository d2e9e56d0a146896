//! Association lists with unique keys, viewed as finite maps.
//!
//! Every index the fabric keeps (connections by id, subscriber sets by topic,
//! cells by lattice key) is a vector of key/value pairs whose keys are
//! pairwise distinct.  This module gives the common spec vocabulary: the map
//! such a sequence denotes, and how lookup, update, push and removal of one
//! entry act on that map.

use crate::ids::bytes_eq;
use vstd::prelude::*;

verus! {

/// The entries of a byte-keyed list, with both sides abstracted to views.
pub open spec fn pairs_view<V: View>(s: Seq<(Vec<u8>, V)>) -> Seq<(Seq<u8>, V::V)> {
    s.map_values(|p: (Vec<u8>, V)| (p.0@, p.1@))
}

/// Find the first entry with the given byte-string key.
pub fn find_bytes<V>(s: &Vec<(Vec<u8>, V)>, k: &[u8]) -> (r: Option<usize>)
    ensures
        match r {
            Some(i) => i < s@.len() && s@[i as int].0@ == k@,
            None => forall|j: int| 0 <= j < s@.len() ==> (#[trigger] s@[j]).0@ != k@,
        },
{
    let mut i: usize = 0;
    while i < s.len()
        invariant
            i <= s@.len(),
            forall|j: int| 0 <= j < i ==> (#[trigger] s@[j]).0@ != k@,
        decreases s@.len() - i,
    {
        if bytes_eq(s[i].0.as_slice(), k) {
            return Some(i);
        }
        i = i + 1;
    }
    None
}

/// The keys of an entry sequence, in order.
pub open spec fn al_keys<K, V>(s: Seq<(K, V)>) -> Seq<K> {
    s.map_values(|p: (K, V)| p.0)
}

/// No key occurs twice.
pub open spec fn al_unique<K, V>(s: Seq<(K, V)>) -> bool {
    forall|i: int, j: int| 0 <= i < j < s.len() ==> (#[trigger] s[i]).0 != (#[trigger] s[j]).0
}

/// The finite map an entry sequence denotes (later entries win).
pub open spec fn al_map<K, V>(s: Seq<(K, V)>) -> Map<K, V>
    decreases s.len(),
{
    if s.len() == 0 {
        Map::empty()
    } else {
        al_map(s.drop_last()).insert(s.last().0, s.last().1)
    }
}

/// A key is in the map exactly when some entry carries it.
pub proof fn lemma_al_contains<K, V>(s: Seq<(K, V)>, k: K)
    ensures
        al_map(s).contains_key(k) <==> exists|i: int| 0 <= i < s.len() && (#[trigger] s[i]).0 == k,
    decreases s.len(),
{
    if s.len() > 0 {
        lemma_al_contains(s.drop_last(), k);
        if s.last().0 == k {
            assert(s[s.len() - 1].0 == k);
        } else if al_map(s).contains_key(k) {
            let i = choose|i: int| 0 <= i < s.drop_last().len() && (#[trigger] s.drop_last()[i]).0 == k;
            assert(s[i].0 == k);
        } else {
            assert(forall|i: int| 0 <= i < s.drop_last().len() ==> (#[trigger] s.drop_last()[i]).0 != k);
            assert(forall|i: int| 0 <= i < s.len() - 1 ==> (#[trigger] s[i]).0 != k) by {
                assert(forall|i: int| 0 <= i < s.len() - 1 ==> s.drop_last()[i] == #[trigger] s[i]);
            }
        }
    }
}

/// With unique keys, the entry holding a key gives the map's value at it.
pub proof fn lemma_al_get<K, V>(s: Seq<(K, V)>, i: int)
    requires
        al_unique(s),
        0 <= i < s.len(),
    ensures
        al_map(s).contains_key(s[i].0),
        al_map(s)[s[i].0] == s[i].1,
    decreases s.len(),
{
    lemma_al_contains(s, s[i].0);
    if i < s.len() - 1 {
        assert(s.last().0 != s[i].0);
        assert(s.drop_last()[i] == s[i]);
        lemma_al_get(s.drop_last(), i);
    }
}

/// Replacing the value at one entry is insertion into the map.
pub proof fn lemma_al_update<K, V>(s: Seq<(K, V)>, i: int, v: V)
    requires
        al_unique(s),
        0 <= i < s.len(),
    ensures
        al_map(s.update(i, (s[i].0, v))) =~= al_map(s).insert(s[i].0, v),
        al_unique(s.update(i, (s[i].0, v))),
    decreases s.len(),
{
    let k = s[i].0;
    let t = s.update(i, (k, v));
    assert(al_unique(t)) by {
        assert(forall|a: int| 0 <= a < s.len() && a != i ==> (#[trigger] t[a]) == s[a]);
    }
    if i == s.len() - 1 {
        assert(t.drop_last() =~= s.drop_last());
        assert(t.last() == (k, v));
        assert(al_map(s.drop_last()).insert(k, s.last().1).insert(k, v) =~= al_map(
            s.drop_last(),
        ).insert(k, v));
    } else {
        assert(t.drop_last() =~= s.drop_last().update(i, (k, v)));
        assert(t.last() == s.last());
        assert(s.drop_last()[i] == s[i]);
        lemma_al_update(s.drop_last(), i, v);
        assert(s.last().0 != k);
        assert(al_map(s.drop_last()).insert(k, v).insert(s.last().0, s.last().1) =~= al_map(
            s.drop_last(),
        ).insert(s.last().0, s.last().1).insert(k, v));
    }
}

/// Appending an entry is insertion into the map.
pub proof fn lemma_al_push<K, V>(s: Seq<(K, V)>, k: K, v: V)
    ensures
        al_map(s.push((k, v))) =~= al_map(s).insert(k, v),
{
    assert(s.push((k, v)).drop_last() =~= s);
}

/// With unique keys, appending a fresh key keeps them unique.
pub proof fn lemma_al_push_unique<K, V>(s: Seq<(K, V)>, k: K, v: V)
    requires
        al_unique(s),
        forall|i: int| 0 <= i < s.len() ==> (#[trigger] s[i]).0 != k,
    ensures
        al_unique(s.push((k, v))),
{
    let t = s.push((k, v));
    assert(forall|i: int| 0 <= i < s.len() ==> (#[trigger] t[i]) == s[i]);
}

/// Removing one entry is removal of its key from the map.
pub proof fn lemma_al_remove<K, V>(s: Seq<(K, V)>, i: int)
    requires
        al_unique(s),
        0 <= i < s.len(),
    ensures
        al_map(s.remove(i)) =~= al_map(s).remove(s[i].0),
        al_unique(s.remove(i)),
    decreases s.len(),
{
    let k = s[i].0;
    let t = s.remove(i);
    assert(al_unique(t)) by {
        assert(forall|a: int| 0 <= a < i ==> (#[trigger] t[a]) == s[a]);
        assert(forall|a: int| i <= a < t.len() ==> (#[trigger] t[a]) == s[a + 1]);
    }
    if i == s.len() - 1 {
        assert(t =~= s.drop_last());
        assert(!al_map(s.drop_last()).contains_key(k)) by {
            lemma_al_contains(s.drop_last(), k);
            assert(forall|a: int| 0 <= a < s.len() - 1 ==> (#[trigger] s.drop_last()[a]) == s[a]);
        }
        assert(al_map(s.drop_last()) =~= al_map(s.drop_last()).insert(k, s.last().1).remove(k));
    } else {
        assert(t.drop_last() =~= s.drop_last().remove(i));
        assert(t.last() == s.last());
        assert(s.drop_last()[i] == s[i]);
        lemma_al_remove(s.drop_last(), i);
        assert(s.last().0 != k);
        assert(al_map(s.drop_last()).remove(k).insert(s.last().0, s.last().1) =~= al_map(
            s.drop_last(),
        ).insert(s.last().0, s.last().1).remove(k));
    }
}

/// Rewriting every value in place rewrites the map pointwise.
pub proof fn lemma_al_transform<K, V, W>(s: Seq<(K, V)>, f: spec_fn(V) -> W)
    ensures
        al_map(s.map_values(|p: (K, V)| (p.0, f(p.1)))) == Map::new(
            |k: K| al_map(s).contains_key(k),
            |k: K| f(al_map(s)[k]),
        ),
    decreases s.len(),
{
    let t = s.map_values(|p: (K, V)| (p.0, f(p.1)));
    let goal = Map::new(|k: K| al_map(s).contains_key(k), |k: K| f(al_map(s)[k]));
    if s.len() == 0 {
        assert(t.len() == 0);
        assert(al_map(t) =~= goal);
    } else {
        lemma_al_transform(s.drop_last(), f);
        assert(t.drop_last() =~= s.drop_last().map_values(|p: (K, V)| (p.0, f(p.1))));
        assert(t.last() == (s.last().0, f(s.last().1)));
        assert(al_map(t) =~= goal);
    }
}

/// With unique keys, distinct entries never collide in the map.
pub proof fn lemma_al_absent<K, V>(s: Seq<(K, V)>, k: K)
    requires
        forall|i: int| 0 <= i < s.len() ==> (#[trigger] s[i]).0 != k,
    ensures
        !al_map(s).contains_key(k),
{
    lemma_al_contains(s, k);
}

} // verus!
