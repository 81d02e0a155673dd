//! A map keyed by opaque identifiers, paired with the context that mints
//! them.
//!
//! An [`IdMap`] owns an [`IdContext`] whose family is the value type, so
//! `insert_new` can mint a fresh key and store a value under it in one step.
//! As long as every key was minted by the owned context (the [`IdMap::fresh`]
//! discipline, which only [`IdMap::insert`] with a foreign identifier can
//! break), a freshly minted key never collides with a stored one.

use vstd::prelude::*;
use crate::assoc::assoc_map;
use crate::assoc::has_key;
use crate::assoc::keys_unique;
use crate::assoc::lemma_assoc_map_dom;
use crate::assoc::lemma_assoc_map_index;
use crate::assoc::lemma_assoc_map_len;
use crate::assoc::lemma_assoc_map_push;
use crate::assoc::lemma_assoc_map_remove;
use crate::assoc::lemma_keys_unique_push;
use crate::assoc::lemma_keys_unique_remove;
use crate::ids::Id;
use crate::ids::IdContext;

verus! {

/// A map with [`Id`]s as opaque keys alongside an [`IdContext`] for
/// producing them.
pub struct IdMap<T> {
    context: IdContext<T>,
    entries: Vec<(u64, T)>,
}

impl<T> View for IdMap<T> {
    type V = Map<u64, T>;

    /// The stored entries, keyed by raw identifier.
    closed spec fn view(&self) -> Map<u64, T> {
        assoc_map(self.entries@)
    }
}

/// Some key of the map stores the given value.
pub open spec fn has_value<T>(m: Map<u64, T>, v: T) -> bool {
    exists|k: u64| #[trigger] m.contains_key(k) && m[k] == v
}

impl<T> IdMap<T> {
    /// Well-formedness: no two entries share a key. Constructors establish
    /// this and every method preserves it.
    pub closed spec fn wf(self) -> bool {
        keys_unique(self.entries@)
    }

    /// The raw value the next minted identifier will have.
    pub closed spec fn next_raw(self) -> u64 {
        self.context@
    }

    /// Every stored key was minted by the owned context: all keys lie below
    /// the counter, so a freshly minted key is never already present.
    pub open spec fn fresh(self) -> bool {
        forall|k: u64| #[trigger] self@.contains_key(k) ==> k < self.next_raw()
    }

    /// Creates an empty map whose context counts from zero.
    pub fn new() -> (r: Self)
        ensures
            r.wf(),
            r@ == Map::<u64, T>::empty(),
            r.next_raw() == 0,
            r.fresh(),
    {
        IdMap { context: IdContext::new(), entries: Vec::new() }
    }

    /// Creates an empty map with space reserved for `capacity` entries.
    pub fn with_capacity(capacity: usize) -> (r: Self)
        ensures
            r.wf(),
            r@ == Map::<u64, T>::empty(),
            r.next_raw() == 0,
            r.fresh(),
    {
        IdMap { context: IdContext::new(), entries: Vec::with_capacity(capacity) }
    }

    /// The index of the entry with the given key, if any.
    fn find_index(&self, key: u64) -> (r: Option<usize>)
        ensures
            match r {
                Some(i) => i < self.entries@.len() && self.entries@[i as int].0 == key,
                None => !has_key(self.entries@, key),
            },
    {
        let mut i: usize = 0;
        while i < self.entries.len()
            invariant
                i <= self.entries@.len(),
                forall|p: int| 0 <= p < i ==> self.entries@[p].0 != key,
            decreases self.entries@.len() - i,
        {
            if self.entries[i].0 == key {
                return Some(i);
            }
            i = i + 1;
        }
        None
    }

    /// The number of stored entries.
    pub fn len(&self) -> (r: usize)
        requires
            self.wf(),
        ensures
            r == self@.dom().len(),
    {
        proof {
            lemma_assoc_map_len(self.entries@);
        }
        self.entries.len()
    }

    /// Whether the map stores no entries.
    pub fn is_empty(&self) -> (r: bool)
        requires
            self.wf(),
        ensures
            r == (self@.dom().len() == 0),
    {
        proof {
            lemma_assoc_map_len(self.entries@);
        }
        self.entries.len() == 0
    }

    /// Whether an entry is stored under the given identifier.
    pub fn contains_id(&self, id: Id<T>) -> (r: bool)
        ensures
            r == self@.contains_key(id@),
    {
        proof {
            lemma_assoc_map_dom(self.entries@);
        }
        self.find_index(id.into_raw()).is_some()
    }

    /// The value stored under the given identifier, if any.
    pub fn get(&self, id: Id<T>) -> (r: Option<&T>)
        requires
            self.wf(),
        ensures
            match r {
                Some(v) => self@.contains_key(id@) && *v == self@[id@],
                None => !self@.contains_key(id@),
            },
    {
        proof {
            lemma_assoc_map_dom(self.entries@);
        }
        match self.find_index(id.into_raw()) {
            Some(i) => {
                proof {
                    lemma_assoc_map_index(self.entries@, i as int);
                }
                Some(&self.entries[i].1)
            }
            None => None,
        }
    }

    /// Mints the next identifier without storing anything under it.
    pub fn next_id(&mut self) -> (r: Id<T>)
        requires
            old(self).next_raw() < u64::MAX,
        ensures
            final(self).wf() == old(self).wf(),
            r@ == old(self).next_raw(),
            final(self)@ == old(self)@,
            final(self).next_raw() == old(self).next_raw() + 1,
            old(self).fresh() ==> final(self).fresh() && !old(self)@.contains_key(r@),
    {
        let mut context = self.context.clone();
        let id = context.next_id();
        self.context = context;
        proof {
            if old(self).fresh() {
                assert(!old(self)@.contains_key(id@));
                assert forall|k: u64| #[trigger] final(self)@.contains_key(k)
                    implies k < final(self).next_raw() by {
                    assert(old(self)@.contains_key(k));
                }
            }
        }
        id
    }

    /// Mints a fresh identifier and stores the value under it.
    pub fn insert_new(&mut self, value: T) -> (r: Id<T>)
        requires
            old(self).wf(),
            old(self).next_raw() < u64::MAX,
        ensures
            final(self).wf(),
            r@ == old(self).next_raw(),
            final(self)@ == old(self)@.insert(r@, value),
            final(self).next_raw() == old(self).next_raw() + 1,
            old(self).fresh() ==> final(self).fresh() && !old(self)@.contains_key(r@),
    {
        proof {
            lemma_assoc_map_dom(self.entries@);
        }
        let mut context = self.context.clone();
        let id = context.next_id();
        self.context = context;
        let key = id.into_raw();
        let ghost s0 = self.entries@;
        match self.find_index(key) {
            Some(i) => {
                // The key was inserted by hand before the context reached it;
                // replace the stored value, as a plain insert would.
                proof {
                    lemma_keys_unique_remove(s0, i as int);
                    lemma_assoc_map_remove(s0, i as int);
                }
                let _previous = self.entries.remove(i);
                proof {
                    lemma_keys_unique_push(s0.remove(i as int), key, value);
                    lemma_assoc_map_push(s0.remove(i as int), key, value);
                    assert(assoc_map(s0).remove(key).insert(key, value)
                        =~= assoc_map(s0).insert(key, value));
                }
                self.entries.push((key, value));
            }
            None => {
                proof {
                    lemma_keys_unique_push(s0, key, value);
                    lemma_assoc_map_push(s0, key, value);
                }
                self.entries.push((key, value));
            }
        }
        proof {
            lemma_assoc_map_dom(self.entries@);
            lemma_assoc_map_dom(s0);
            if old(self).fresh() {
                assert(!old(self)@.contains_key(id@));
                assert(final(self)@ =~= old(self)@.insert(id@, value));
                assert forall|k: u64| #[trigger] final(self)@.contains_key(k)
                    implies k < final(self).next_raw() by {
                    if k != id@ {
                        assert(old(self)@.contains_key(k));
                    }
                }
            }
        }
        id
    }

    /// Stores a value under the given identifier, returning the previously
    /// stored value if there was one. Inserting an identifier the owned
    /// context did not mint forfeits the freshness discipline.
    pub fn insert(&mut self, id: Id<T>, value: T) -> (r: Option<T>)
        requires
            old(self).wf(),
        ensures
            final(self).wf(),
            final(self)@ == old(self)@.insert(id@, value),
            final(self).next_raw() == old(self).next_raw(),
            match r {
                Some(v) => old(self)@.contains_key(id@) && v == old(self)@[id@],
                None => !old(self)@.contains_key(id@),
            },
            final(self).fresh() == (old(self).fresh() && id@ < old(self).next_raw()),
    {
        proof {
            lemma_assoc_map_dom(self.entries@);
        }
        let key = id.into_raw();
        let ghost s0 = self.entries@;
        let r = match self.find_index(key) {
            Some(i) => {
                proof {
                    lemma_assoc_map_index(s0, i as int);
                    lemma_keys_unique_remove(s0, i as int);
                    lemma_assoc_map_remove(s0, i as int);
                }
                let entry = self.entries.remove(i);
                proof {
                    assert(keys_unique(self.entries@));
                    assert(!has_key(self.entries@, key));
                    assert(assoc_map(self.entries@) == assoc_map(s0).remove(key));
                }
                Some(entry.1)
            }
            None => None,
        };
        let ghost s1 = self.entries@;
        proof {
            lemma_keys_unique_push(s1, key, value);
            lemma_assoc_map_push(s1, key, value);
        }
        self.entries.push((key, value));
        proof {
            assert(assoc_map(s1).insert(key, value) =~= assoc_map(s0).insert(key, value));
            lemma_assoc_map_dom(self.entries@);
            lemma_assoc_map_dom(s0);
            assert(final(self)@.dom() =~= old(self)@.dom().insert(id@));
            if old(self).fresh() && id@ < old(self).next_raw() {
                assert forall|k: u64| #[trigger] self@.contains_key(k)
                    implies k < self.next_raw() by {
                    if k != id@ {
                        assert(old(self)@.contains_key(k));
                    }
                }
            }
            if self.fresh() {
                assert forall|k: u64| #[trigger] old(self)@.contains_key(k)
                    implies k < old(self).next_raw() by {
                    assert(self@.contains_key(k));
                }
                assert(self@.contains_key(id@));
            }
        }
        r
    }

    /// Removes the entry stored under the given identifier, returning its
    /// value if there was one.
    pub fn remove(&mut self, id: Id<T>) -> (r: Option<T>)
        requires
            old(self).wf(),
        ensures
            final(self).wf(),
            final(self)@ == old(self)@.remove(id@),
            final(self).next_raw() == old(self).next_raw(),
            match r {
                Some(v) => old(self)@.contains_key(id@) && v == old(self)@[id@],
                None => !old(self)@.contains_key(id@),
            },
            old(self).fresh() ==> final(self).fresh(),
    {
        proof {
            lemma_assoc_map_dom(self.entries@);
        }
        let key = id.into_raw();
        match self.find_index(key) {
            Some(i) => {
                proof {
                    lemma_assoc_map_index(self.entries@, i as int);
                    lemma_keys_unique_remove(self.entries@, i as int);
                    lemma_assoc_map_remove(self.entries@, i as int);
                }
                let entry = self.entries.remove(i);
                proof {
                    lemma_assoc_map_dom(self.entries@);
                    if old(self).fresh() {
                        assert forall|k: u64| #[trigger] self@.contains_key(k)
                            implies k < self.next_raw() by {
                            assert(old(self)@.contains_key(k));
                        }
                    }
                }
                Some(entry.1)
            }
            None => {
                proof {
                    assert(old(self)@ =~= old(self)@.remove(id@));
                }
                None
            }
        }
    }

    /// Removes every entry and resets the context to count from zero.
    pub fn clear(&mut self)
        ensures
            final(self).wf(),
            final(self)@ == Map::<u64, T>::empty(),
            final(self).next_raw() == 0,
            final(self).fresh(),
    {
        self.context = IdContext::new();
        self.entries.clear();
    }

    /// Removes every entry, returning the stored values, and resets the
    /// context to count from zero.
    pub fn drain(&mut self) -> (r: Vec<T>)
        requires
            old(self).wf(),
        ensures
            final(self).wf(),
            final(self)@ == Map::<u64, T>::empty(),
            final(self).next_raw() == 0,
            final(self).fresh(),
            r@.len() == old(self)@.dom().len(),
            forall|i: int| 0 <= i < r@.len() ==> has_value(old(self)@, #[trigger] r@[i]),
    {
        proof {
            lemma_assoc_map_len(self.entries@);
            lemma_assoc_map_dom(self.entries@);
        }
        self.context = IdContext::new();
        let mut out: Vec<T> = Vec::new();
        let ghost s0 = self.entries@;
        while self.entries.len() > 0
            invariant
                keys_unique(s0),
                self.context@ == 0,
                s0 == old(self).entries@,
                self.entries@ == s0.take(self.entries@.len() as int),
                out@.len() + self.entries@.len() == s0.len(),
                forall|i: int| 0 <= i < out@.len() ==> out@[i] == s0[s0.len() - 1 - i].1,
            decreases self.entries@.len(),
        {
            let entry = self.entries.pop().unwrap();
            out.push(entry.1);
        }
        proof {
            assert(self.entries@ =~= Seq::<(u64, T)>::empty());
            assert forall|i: int| 0 <= i < out@.len()
                implies has_value(old(self)@, #[trigger] out@[i]) by {
                let j = s0.len() - 1 - i;
                lemma_assoc_map_index(s0, j);
                assert(old(self)@.contains_key(s0[j].0) && old(self)@[s0[j].0] == out@[i]);
            }
        }
        out
    }

    /// The greatest key of the sequence, or zero if there is none.
    pub open spec fn max_key(s: Seq<(u64, T)>) -> u64
        decreases s.len(),
    {
        if s.len() == 0 {
            0
        } else {
            let c = Self::max_key(s.drop_last());
            if s.last().0 >= c {
                s.last().0
            } else {
                c
            }
        }
    }

    /// Reconstructs a map from persisted (raw identifier, value) entries:
    /// later entries for a key overwrite earlier ones, and the context
    /// resumes one beyond the greatest key seen (at one if there is none),
    /// so subsequently minted identifiers never collide with stored ones.
    pub fn from_raw_parts(entries: Vec<(u64, T)>) -> (r: Self)
        requires
            forall|i: int| 0 <= i < entries@.len() ==> (#[trigger] entries@[i]).0 < u64::MAX,
        ensures
            r.wf(),
            r@ == assoc_map(entries@),
            r.next_raw() == Self::max_key(entries@) + 1,
            r.fresh(),
    {
        let ghost all = entries@;
        let mut current_id: u64 = 0;
        let mut i: usize = 0;
        while i < entries.len()
            invariant
                entries@ == all,
                forall|q: int| 0 <= q < all.len() ==> (#[trigger] all[q]).0 < u64::MAX,
                i <= all.len(),
                current_id == Self::max_key(all.take(i as int)),
                current_id < u64::MAX,
                forall|q: int| 0 <= q < i ==> (#[trigger] all[q]).0 <= current_id,
            decreases all.len() - i,
        {
            proof {
                assert(all.take(i + 1).drop_last() =~= all.take(i as int));
            }
            if entries[i].0 > current_id {
                current_id = entries[i].0;
            }
            i = i + 1;
        }
        proof {
            assert(all.take(all.len() as int) =~= all);
        }
        let mut rest = entries;
        let mut stored: Vec<(u64, T)> = Vec::new();
        let ghost mut t: int = 0;
        while rest.len() > 0
            invariant
                0 <= t <= all.len(),
                rest@ == all.skip(t),
                current_id < u64::MAX,
                forall|q: int| 0 <= q < all.len() ==> (#[trigger] all[q]).0 <= current_id,
                keys_unique(stored@),
                forall|q: int| 0 <= q < stored@.len()
                    ==> (#[trigger] stored@[q]).0 <= current_id,
                assoc_map(stored@) == assoc_map(all.take(t)),
            decreases rest@.len(),
        {
            let (k, v) = rest.remove(0);
            proof {
                assert((k, v) == all[t]);
                assert(rest@ =~= all.skip(t + 1));
                lemma_assoc_map_dom(stored@);
            }
            let ghost s0 = stored@;
            let mut w: usize = 0;
            while w < stored.len() && stored[w].0 != k
                invariant
                    w <= stored@.len(),
                    stored@ == s0,
                    forall|q: int| 0 <= q < w ==> (#[trigger] s0[q]).0 != k,
                decreases stored@.len() - w,
            {
                w = w + 1;
            }
            if w < stored.len() {
                proof {
                    lemma_keys_unique_remove(s0, w as int);
                    lemma_assoc_map_remove(s0, w as int);
                }
                let _replaced = stored.remove(w);
            } else {
                proof {
                    assert(!has_key(s0, k));
                }
            }
            let ghost s1 = stored@;
            proof {
                lemma_keys_unique_push(s1, k, v);
                lemma_assoc_map_push(s1, k, v);
            }
            stored.push((k, v));
            proof {
                assert(assoc_map(stored@) =~= assoc_map(s0).insert(k, v));
                lemma_assoc_map_push(all.take(t), k, v);
                assert(all.take(t + 1) =~= all.take(t).push((k, v)));
                t = t + 1;
            }
        }
        proof {
            assert(all.take(all.len() as int) =~= all);
        }
        let r = IdMap {
            context: IdContext::with_current_id(current_id + 1),
            entries: stored,
        };
        proof {
            lemma_assoc_map_dom(r.entries@);
            assert forall|k: u64| #[trigger] r@.contains_key(k)
                implies k < r.next_raw() by {
                let q = choose|q: int| 0 <= q < r.entries@.len() && r.entries@[q].0 == k;
            }
        }
        r
    }

    /// The identifiers of all stored entries, in storage order.
    pub fn ids(&self) -> (r: Vec<Id<T>>)
        requires
            self.wf(),
        ensures
            r@.len() == self@.dom().len(),
            forall|i: int| 0 <= i < r@.len() ==> self@.contains_key(#[trigger] r@[i]@),
            forall|k: u64| #[trigger] self@.contains_key(k)
                ==> exists|i: int| 0 <= i < r@.len() && r@[i]@ == k,
    {
        proof {
            lemma_assoc_map_dom(self.entries@);
            lemma_assoc_map_len(self.entries@);
        }
        let mut out: Vec<Id<T>> = Vec::new();
        let mut i: usize = 0;
        while i < self.entries.len()
            invariant
                i <= self.entries@.len(),
                out@.len() == i,
                forall|p: int| 0 <= p < i ==> out@[p]@ == self.entries@[p].0,
            decreases self.entries@.len() - i,
        {
            out.push(Id::from_raw(self.entries[i].0));
            i = i + 1;
        }
        proof {
            assert forall|k: u64| #[trigger] self@.contains_key(k)
                implies exists|p: int| 0 <= p < out@.len() && out@[p]@ == k by {
                let p = choose|p: int| 0 <= p < self.entries@.len() && self.entries@[p].0 == k;
                assert(out@[p]@ == k);
            }
        }
        out
    }
}

impl<T> Default for IdMap<T> {
    /// The default map is empty, with a context counting from zero.
    fn default() -> (r: IdMap<T>)
        ensures
            r.wf(),
            r@ == Map::<u64, T>::empty(),
            r.next_raw() == 0,
            r.fresh(),
    {
        IdMap::new()
    }
}

} // verus!
