//! The two indices of a tag map as mathematical maps, and what each operation
//! makes of them.

use vstd::prelude::*;
use crate::order::least_in;

verus! {

/// What a tag map holds: the primary index from key to value and tag, and the
/// secondary index from tag to key.
#[verifier::ext_equal]
#[verifier::reject_recursive_types(K)]
#[verifier::reject_recursive_types(T)]
pub struct TagMapView<K, V, T> {
    pub main: Map<K, (V, T)>,
    pub tag: Map<T, K>,
}

impl<K, V, T> TagMapView<K, V, T> {
    /// Both indices empty.
    pub open spec fn empty() -> Self {
        TagMapView { main: Map::empty(), tag: Map::empty() }
    }

    /// The value and tag stored under `key`.
    pub open spec fn entry(self, key: K) -> Option<(V, T)> {
        self.main.get(key)
    }

    /// The value stored under `key`.
    pub open spec fn value(self, key: K) -> Option<V> {
        match self.main.get(key) {
            Some((value, _)) => Some(value),
            None => None,
        }
    }

    /// The secondary index once the tag of `key`'s entry has left it.
    pub open spec fn tag_released(self, key: K) -> Map<T, K> {
        if self.main.contains_key(key) {
            self.tag.remove(self.main[key].1)
        } else {
            self.tag
        }
    }

    /// `key` is stored with `value` and `tag`. The tag of an earlier entry of
    /// `key` leaves the secondary index; `tag` then leads to `key`, whatever
    /// it led to before.
    pub open spec fn insert(self, key: K, value: V, tag: T) -> Self {
        TagMapView {
            main: self.main.insert(key, (value, tag)),
            tag: self.tag_released(key).insert(tag, key),
        }
    }

    /// `key` leaves the primary index and the tag of its entry the secondary one.
    pub open spec fn delete(self, key: K) -> Self {
        TagMapView { main: self.main.remove(key), tag: self.tag_released(key) }
    }

    /// `key` is deleted, then inserted with `value` and `tag`.
    pub open spec fn update(self, key: K, value: V, tag: T) -> Self {
        self.delete(key).insert(key, value, tag)
    }

    /// Every tag of the secondary index leads to a key whose entry carries
    /// that tag.
    pub open spec fn no_dangling(self) -> bool {
        forall|t: T| #[trigger]
            self.tag.contains_key(t) ==> self.main.contains_key(self.tag[t])
                && self.main[self.tag[t]].1 == t
    }

    /// The tag of every entry leads back to the entry's key.
    pub open spec fn every_key_reachable(self) -> bool {
        forall|k: K| #[trigger]
            self.main.contains_key(k) ==> self.tag.contains_key(self.main[k].1)
                && self.tag[self.main[k].1] == k
    }

    /// The two indices hold the same associations.
    pub open spec fn consistent(self) -> bool {
        self.no_dangling() && self.every_key_reachable()
    }

    /// Both indices hold finitely many entries, as those of a container do.
    pub open spec fn finite(self) -> bool {
        self.main.dom().finite() && self.tag.dom().finite()
    }

    /// `tag` leads to no key other than `key`.
    pub open spec fn tag_free_for(self, tag: T, key: K) -> bool {
        self.tag.contains_key(tag) ==> self.tag[tag] == key
    }

    /// Some tag leads to `key`.
    pub open spec fn reachable(self, key: K) -> bool {
        exists|t: T| #[trigger] self.tag.contains_key(t) && self.tag[t] == key
    }
}

impl<K, V, T: Ord> TagMapView<K, V, T> {
    /// The least tag of the secondary index. Where the index has no least
    /// tag, nothing is known of this value.
    pub open spec fn least_tag(self) -> T {
        choose|t: T| least_in(self.tag.dom(), t)
    }

    /// The key that the least tag leads to, with the value and tag of its
    /// entry. There is none where the secondary index is empty, nor where the
    /// key has no entry.
    pub open spec fn min_entry(self) -> Option<(K, V, T)> {
        if self.tag.is_empty() {
            None
        } else {
            let key = self.tag[self.least_tag()];
            match self.main.get(key) {
                Some((value, tag)) => Some((key, value, tag)),
                None => None,
            }
        }
    }

    /// The least tag leaves the secondary index and the key it led to the
    /// primary one.
    pub open spec fn delete_min_tag(self) -> Self {
        if self.tag.is_empty() {
            self
        } else {
            let least = self.least_tag();
            TagMapView { main: self.main.remove(self.tag[least]), tag: self.tag.remove(least) }
        }
    }

    /// A secondary index that holds a tag has a least one.
    pub open spec fn least_tag_exists(self) -> bool {
        !self.tag.is_empty() ==> least_in(self.tag.dom(), self.least_tag())
    }

    /// What `n` calls of `delete_min_tag` leave.
    pub open spec fn drained(self, n: nat) -> Self
        decreases n,
    {
        if n == 0 {
            self
        } else {
            self.drained((n - 1) as nat).delete_min_tag()
        }
    }

    /// What one call leaves.
    pub open spec fn step(self, call: Call<K, V, T>) -> Self {
        match call {
            Call::Insert { key, value, tag } => self.insert(key, value, tag),
            Call::Delete { key } => self.delete(key),
            Call::Update { key, value, tag } => self.update(key, value, tag),
            Call::DeleteMinTag => self.delete_min_tag(),
        }
    }

    /// What a sequence of calls leaves, made in order.
    pub open spec fn run(self, calls: Seq<Call<K, V, T>>) -> Self
        decreases calls.len(),
    {
        if calls.len() == 0 {
            self
        } else {
            self.run(calls.drop_last()).step(calls.last())
        }
    }
}

/// One call that changes a tag map.
pub enum Call<K, V, T> {
    Insert { key: K, value: V, tag: T },
    Delete { key: K },
    Update { key: K, value: V, tag: T },
    DeleteMinTag,
}

impl<K, V, T> Call<K, V, T> {
    /// The tag that the call brings in.
    pub open spec fn new_tag(self) -> Option<T> {
        match self {
            Call::Insert { tag, .. } => Some(tag),
            Call::Update { tag, .. } => Some(tag),
            _ => None,
        }
    }

    /// The call stores an entry under `key`.
    pub open spec fn stores(self, key: K) -> bool {
        match self {
            Call::Insert { key: k, .. } => k == key,
            Call::Update { key: k, .. } => k == key,
            _ => false,
        }
    }
}

} // verus!
