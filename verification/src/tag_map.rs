//! The container: a hash map from key to value and tag beside an ordered map
//! from tag to key.

use vstd::prelude::*;
use vstd::laws_cmp::obeys_cmp;
use vstd::std_specs::hash::obeys_key_model;
use std::collections::{BTreeMap, HashMap};
use std::hash::Hash;
use crate::invariants::{
    lemma_delete_keeps_invariants, lemma_delete_min_tag_keeps_invariants,
    lemma_insert_keeps_consistent, lemma_insert_keeps_no_dangling,
    lemma_min_entry_carries_least_tag, lemma_update_is_insert,
};
use crate::model::TagMapView;
use crate::order::lemma_least_unique;
use crate::ordered_index::pop_first;

verus! {

/// Associations from key to value, each carrying a tag, with the entry of the
/// least tag at hand.
///
/// `main` maps a key to its value and tag; `tag` maps a tag to its key. A tag
/// leads to one key only: an `insert` under a tag that another key carries
/// takes the tag from that key, which keeps its entry but is no longer found
/// by `delete_min_tag`.
pub struct TagMap<K, V, T> {
    pub main: HashMap<K, (V, T)>,
    pub tag: BTreeMap<T, K>,
}

impl<K, V, T> View for TagMap<K, V, T> {
    type V = TagMapView<K, V, T>;

    open spec fn view(&self) -> TagMapView<K, V, T> {
        TagMapView { main: self.main@, tag: self.tag@ }
    }
}

impl<K, V, T> Default for TagMap<K, V, T> {
    fn default() -> (map: Self)
        ensures
            map@ == TagMapView::<K, V, T>::empty(),
    {
        TagMap { main: HashMap::new(), tag: BTreeMap::new() }
    }
}

impl<K, V, T> TagMap<K, V, T> {
    /// A container holds finitely many entries.
    pub proof fn lemma_finite(&self)
        ensures
            self@.finite(),
    {
        broadcast use vstd::std_specs::hash::group_hash_axioms;
        broadcast use vstd::std_specs::btree::group_btree_axioms;
    }
}

impl<K, V, T> TagMap<K, V, T> where K: Eq + Hash + Copy, T: Ord + Copy {
    /// An empty container.
    pub fn new() -> (map: Self)
        ensures
            map@ == TagMapView::<K, V, T>::empty(),
    {
        TagMap { main: HashMap::new(), tag: BTreeMap::new() }
    }

    /// Stores `value` and `tag` under `key` and returns what was stored under
    /// `key` before. The tag of that earlier entry leaves the secondary
    /// index, and `tag` then leads to `key`.
    pub fn insert(&mut self, key: K, value: V, tag: T) -> (previous: Option<(V, T)>)
        requires
            obeys_key_model::<K>(),
            obeys_cmp::<T>(),
        ensures
            final(self)@ == old(self)@.insert(key, value, tag),
            previous == old(self)@.entry(key),
            old(self)@.no_dangling() ==> final(self)@.no_dangling(),
            old(self)@.consistent() && old(self)@.tag_free_for(tag, key) ==> final(self)@.consistent(),
    {
        proof {
            if old(self)@.no_dangling() {
                lemma_insert_keeps_no_dangling(old(self)@, key, value, tag);
            }
            if old(self)@.consistent() && old(self)@.tag_free_for(tag, key) {
                lemma_insert_keeps_consistent(old(self)@, key, value, tag);
            }
        }
        let previous = self.main.insert(key, (value, tag));
        if let Some((_, t)) = previous {
            self.tag.remove(&t);
        }
        self.tag.insert(tag, key);
        previous
    }

    /// Removes the entry of `key` from both indices and returns its value and
    /// tag.
    pub fn delete(&mut self, key: K) -> (removed: Option<(V, T)>)
        requires
            obeys_key_model::<K>(),
            obeys_cmp::<T>(),
        ensures
            final(self)@ == old(self)@.delete(key),
            removed == old(self)@.entry(key),
            old(self)@.no_dangling() ==> final(self)@.no_dangling(),
            old(self)@.consistent() ==> final(self)@.consistent(),
    {
        proof {
            lemma_delete_keeps_invariants(old(self)@, key);
        }
        let removed = self.main.remove(&key);
        if let Some((_, t)) = removed {
            self.tag.remove(&t);
        }
        removed
    }

    /// Removes the least tag from the secondary index and the key it leads to
    /// from the primary one, and returns the key with the value and tag of its
    /// entry. Returns `None` where the secondary index is empty, and also
    /// where the key has no entry: the tag has left the secondary index all
    /// the same. Where no tag is without its entry, as in every container
    /// that was filled through these functions, `None` means empty.
    pub fn delete_min_tag(&mut self) -> (min: Option<(K, V, T)>)
        requires
            obeys_key_model::<K>(),
            obeys_cmp::<T>(),
        ensures
            old(self)@.least_tag_exists(),
            final(self)@ == old(self)@.delete_min_tag(),
            min == old(self)@.min_entry(),
            old(self)@.no_dangling() ==> final(self)@.no_dangling() && (min is Some
                <==> !old(self)@.tag.is_empty()),
            old(self)@.consistent() ==> final(self)@.consistent(),
    {
        match pop_first(&mut self.tag) {
            Some((least, key)) => {
                proof {
                    lemma_least_unique(old(self)@.tag.dom(), least, old(self)@.least_tag());
                    lemma_delete_min_tag_keeps_invariants(old(self)@);
                    if old(self)@.no_dangling() {
                        lemma_min_entry_carries_least_tag(old(self)@);
                    }
                }
                match self.main.remove(&key) {
                    Some((value, tag)) => Some((key, value, tag)),
                    None => None,
                }
            },
            None => None,
        }
    }

    /// The value stored under `key`.
    pub fn get(&self, key: &K) -> (value: Option<&V>)
        requires
            obeys_key_model::<K>(),
        ensures
            match value {
                Some(v) => self@.value(*key) == Some(*v),
                None => self@.value(*key) is None,
            },
    {
        match self.main.get(key) {
            Some((v, _)) => Some(v),
            None => None,
        }
    }

    /// Deletes the entry of `key`, then inserts `value` and `tag` under it.
    /// Returns what `delete` found.
    pub fn update(&mut self, key: K, value: V, tag: T) -> (previous: Option<(V, T)>)
        requires
            obeys_key_model::<K>(),
            obeys_cmp::<T>(),
        ensures
            final(self)@ == old(self)@.update(key, value, tag),
            previous == old(self)@.entry(key),
            old(self)@.no_dangling() ==> final(self)@.no_dangling(),
            old(self)@.consistent() && old(self)@.tag_free_for(tag, key) ==> final(self)@.consistent(),
    {
        proof {
            lemma_update_is_insert(old(self)@, key, value, tag);
            if old(self)@.no_dangling() {
                lemma_insert_keeps_no_dangling(old(self)@, key, value, tag);
            }
            if old(self)@.consistent() && old(self)@.tag_free_for(tag, key) {
                lemma_insert_keeps_consistent(old(self)@, key, value, tag);
            }
        }
        let previous = self.delete(key);
        self.insert(key, value, tag);
        previous
    }
}

} // verus!
