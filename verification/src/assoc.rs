//! Association sequences: the bridge between vector-backed key/value storage
//! and its mathematical `Map` view.
//!
//! The containers in this crate store their entries in a `Vec` whose
//! projection to (key, value) pairs has pairwise-distinct keys. The
//! specification-level content of such a vector is [`assoc_map`]; the lemmas
//! here relate the sequence operations the containers perform (push, remove,
//! point lookup) to operations on that map.

use vstd::prelude::*;

verus! {

/// The map described by an association sequence; on duplicate keys the later
/// entry wins.
pub open spec fn assoc_map<K, V>(s: Seq<(K, V)>) -> Map<K, V>
    decreases s.len(),
{
    if s.len() == 0 {
        Map::empty()
    } else {
        assoc_map(s.drop_last()).insert(s.last().0, s.last().1)
    }
}

/// No two entries of the sequence share a key.
pub open spec fn keys_unique<K, V>(s: Seq<(K, V)>) -> bool {
    forall|i: int, j: int| 0 <= i < j < s.len() ==> s[i].0 != s[j].0
}

/// Some entry of the sequence has key `k`.
pub open spec fn has_key<K, V>(s: Seq<(K, V)>, k: K) -> bool {
    exists|i: int| 0 <= i < s.len() && s[i].0 == k
}

/// The domain of the association map is exactly the set of keys occurring in
/// the sequence, and it is finite.
pub proof fn lemma_assoc_map_dom<K, V>(s: Seq<(K, V)>)
    ensures
        assoc_map(s).dom().finite(),
        forall|k: K| #[trigger] assoc_map(s).contains_key(k) <==> has_key(s, k),
    decreases s.len(),
{
    if s.len() == 0 {
    } else {
        lemma_assoc_map_dom(s.drop_last());
        assert forall|k: K| #[trigger] assoc_map(s).contains_key(k) implies has_key(s, k) by {
            if k == s.last().0 {
                assert(s[s.len() - 1].0 == k);
            } else {
                let i = choose|i: int| 0 <= i < s.drop_last().len() && s.drop_last()[i].0 == k;
                assert(s[i].0 == k);
            }
        }
        assert forall|k: K| has_key(s, k) implies #[trigger] assoc_map(s).contains_key(k) by {
            let i = choose|i: int| 0 <= i < s.len() && s[i].0 == k;
            if i < s.len() - 1 {
                assert(s.drop_last()[i].0 == k);
            }
        }
    }
}

/// With distinct keys, the entry at any index gives the map's value at its
/// key.
pub proof fn lemma_assoc_map_index<K, V>(s: Seq<(K, V)>, i: int)
    requires
        keys_unique(s),
        0 <= i < s.len(),
    ensures
        assoc_map(s).contains_key(s[i].0),
        assoc_map(s)[s[i].0] == s[i].1,
    decreases s.len(),
{
    if i == s.len() - 1 {
    } else {
        assert(keys_unique(s.drop_last())) by {
            assert(forall|p: int, q: int|
                0 <= p < q < s.drop_last().len() ==> s[p].0 != s[q].0);
        }
        assert(s.drop_last()[i] == s[i]);
        lemma_assoc_map_index(s.drop_last(), i);
        assert(s[i].0 != s.last().0);
    }
}

/// With distinct keys, the map has exactly as many entries as the sequence.
pub proof fn lemma_assoc_map_len<K, V>(s: Seq<(K, V)>)
    requires
        keys_unique(s),
    ensures
        assoc_map(s).dom().len() == s.len(),
    decreases s.len(),
{
    if s.len() == 0 {
    } else {
        let rest = s.drop_last();
        assert(keys_unique(rest)) by {
            assert(forall|p: int, q: int| 0 <= p < q < rest.len() ==> s[p].0 != s[q].0);
        }
        lemma_assoc_map_len(rest);
        lemma_assoc_map_dom(rest);
        assert(!has_key(rest, s.last().0)) by {
            assert forall|i: int| 0 <= i < rest.len() implies rest[i].0 != s.last().0 by {
                assert(s[i].0 != s[s.len() - 1].0);
            }
        }
        assert(assoc_map(s).dom() =~= assoc_map(rest).dom().insert(s.last().0));
    }
}

/// Appending an entry inserts its pair into the map.
pub proof fn lemma_assoc_map_push<K, V>(s: Seq<(K, V)>, k: K, v: V)
    ensures
        assoc_map(s.push((k, v))) == assoc_map(s).insert(k, v),
{
    assert(s.push((k, v)).drop_last() =~= s);
}

/// With distinct keys, removing the entry at an index removes its key from
/// the map.
pub proof fn lemma_assoc_map_remove<K, V>(s: Seq<(K, V)>, i: int)
    requires
        keys_unique(s),
        0 <= i < s.len(),
    ensures
        assoc_map(s.remove(i)) == assoc_map(s).remove(s[i].0),
    decreases s.len(),
{
    lemma_assoc_map_dom(s.drop_last());
    if i == s.len() - 1 {
        assert(s.remove(i) =~= s.drop_last());
        assert(!has_key(s.drop_last(), s[i].0)) by {
            assert forall|p: int| 0 <= p < s.drop_last().len()
                implies s.drop_last()[p].0 != s[i].0 by {
                assert(s[p].0 != s[i].0);
            }
        }
        assert(assoc_map(s.drop_last()).insert(s[i].0, s[i].1).remove(s[i].0)
            =~= assoc_map(s.drop_last()));
    } else {
        let rest = s.drop_last();
        assert(keys_unique(rest)) by {
            assert(forall|p: int, q: int| 0 <= p < q < rest.len() ==> s[p].0 != s[q].0);
        }
        assert(rest[i] == s[i]);
        lemma_assoc_map_remove(rest, i);
        assert(s.remove(i).drop_last() =~= rest.remove(i));
        assert(s.remove(i).last() == s.last());
        assert(s[i].0 != s.last().0);
        assert(assoc_map(rest).remove(s[i].0).insert(s.last().0, s.last().1)
            =~= assoc_map(rest).insert(s.last().0, s.last().1).remove(s[i].0));
    }
}

/// Appending an entry makes exactly its key newly findable.
pub proof fn lemma_has_key_push<K, V>(s: Seq<(K, V)>, k0: K, v0: V)
    ensures
        forall|k: K| #[trigger] has_key(s.push((k0, v0)), k) <==> (has_key(s, k) || k == k0),
{
    let t = s.push((k0, v0));
    assert forall|k: K| #[trigger] has_key(t, k) implies has_key(s, k) || k == k0 by {
        let i = choose|i: int| 0 <= i < t.len() && t[i].0 == k;
        if i < s.len() {
            assert(s[i].0 == k);
        }
    }
    assert forall|k: K| has_key(s, k) || k == k0 implies #[trigger] has_key(t, k) by {
        if has_key(s, k) {
            let i = choose|i: int| 0 <= i < s.len() && s[i].0 == k;
            assert(t[i].0 == k);
        } else {
            assert(t[s.len() as int].0 == k);
        }
    }
}

/// With distinct keys, removing an entry makes exactly its key unfindable.
pub proof fn lemma_has_key_remove<K, V>(s: Seq<(K, V)>, i: int)
    requires
        keys_unique(s),
        0 <= i < s.len(),
    ensures
        forall|k: K| #[trigger] has_key(s.remove(i), k) <==> (has_key(s, k) && k != s[i].0),
{
    let t = s.remove(i);
    assert forall|k: K| #[trigger] has_key(t, k) implies has_key(s, k) && k != s[i].0 by {
        let p = choose|p: int| 0 <= p < t.len() && t[p].0 == k;
        let p0 = if p < i { p } else { p + 1 };
        assert(t[p] == s[p0]);
        assert(s[p0].0 == k);
    }
    assert forall|k: K| has_key(s, k) && k != s[i].0 implies #[trigger] has_key(t, k) by {
        let p0 = choose|p0: int| 0 <= p0 < s.len() && s[p0].0 == k;
        let p = if p0 < i { p0 } else { p0 - 1 };
        assert(p0 != i);
        assert(t[p] == s[p0]);
    }
}

/// With distinct keys, removing an entry keeps the keys distinct and leaves
/// no entry with the removed key behind.
pub proof fn lemma_keys_unique_remove<K, V>(s: Seq<(K, V)>, i: int)
    requires
        keys_unique(s),
        0 <= i < s.len(),
    ensures
        keys_unique(s.remove(i)),
        !has_key(s.remove(i), s[i].0),
{
    let t = s.remove(i);
    assert forall|p: int, q: int| 0 <= p < q < t.len() implies t[p].0 != t[q].0 by {
        let p0 = if p < i { p } else { p + 1 };
        let q0 = if q < i { q } else { q + 1 };
        assert(t[p] == s[p0] && t[q] == s[q0]);
    }
    assert forall|p: int| 0 <= p < t.len() implies t[p].0 != s[i].0 by {
        let p0 = if p < i { p } else { p + 1 };
        assert(t[p] == s[p0]);
    }
}

/// Appending an entry with an unused key keeps the keys distinct.
pub proof fn lemma_keys_unique_push<K, V>(s: Seq<(K, V)>, k: K, v: V)
    requires
        keys_unique(s),
        !has_key(s, k),
    ensures
        keys_unique(s.push((k, v))),
{
    let t = s.push((k, v));
    assert forall|p: int, q: int| 0 <= p < q < t.len() implies t[p].0 != t[q].0 by {
        if q < s.len() {
            assert(t[p] == s[p] && t[q] == s[q]);
        } else {
            assert(t[p] == s[p]);
            assert(!(0 <= p < s.len() && s[p].0 == k));
        }
    }
}

} // verus!
