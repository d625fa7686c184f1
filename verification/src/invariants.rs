//! What each operation keeps of the agreement between the two indices.

use vstd::prelude::*;
use crate::model::TagMapView;
use crate::order::{lemma_least_exists, totally_ordered};

verus! {

/// `insert` leaves no tag without its entry.
pub proof fn lemma_insert_keeps_no_dangling<K, V, T>(s: TagMapView<K, V, T>, key: K, value: V, tag: T)
    requires
        s.no_dangling(),
    ensures
        s.insert(key, value, tag).no_dangling(),
{
}

/// `insert` keeps the indices consistent where it takes the tag from no other
/// key.
pub proof fn lemma_insert_keeps_consistent<K, V, T>(s: TagMapView<K, V, T>, key: K, value: V, tag: T)
    requires
        s.consistent(),
        s.tag_free_for(tag, key),
    ensures
        s.insert(key, value, tag).consistent(),
{
}

/// `delete` leaves no tag without its entry, and keeps consistent indices
/// consistent.
pub proof fn lemma_delete_keeps_invariants<K, V, T>(s: TagMapView<K, V, T>, key: K)
    ensures
        s.no_dangling() ==> s.delete(key).no_dangling(),
        s.consistent() ==> s.delete(key).consistent(),
{
}

/// `update` leaves what `insert` leaves.
pub proof fn lemma_update_is_insert<K, V, T>(s: TagMapView<K, V, T>, key: K, value: V, tag: T)
    ensures
        s.update(key, value, tag) == s.insert(key, value, tag),
{
}

/// `delete_min_tag` leaves no tag without its entry, and keeps consistent
/// indices consistent.
pub proof fn lemma_delete_min_tag_keeps_invariants<K, V, T: Ord>(s: TagMapView<K, V, T>)
    requires
        s.least_tag_exists(),
    ensures
        s.no_dangling() ==> s.delete_min_tag().no_dangling(),
        s.consistent() ==> s.delete_min_tag().consistent(),
{
}

/// Where no tag is without its entry, `delete_min_tag` yields an entry as
/// long as the secondary index holds a tag, and the entry carries the least
/// tag.
pub proof fn lemma_min_entry_carries_least_tag<K, V, T: Ord>(s: TagMapView<K, V, T>)
    requires
        s.least_tag_exists(),
        s.no_dangling(),
    ensures
        s.min_entry() is Some <==> !s.tag.is_empty(),
        s.min_entry() matches Some(e) ==> e.2 == s.least_tag() && s.tag[e.2] == e.0 && s.main[e.0]
            == (e.1, e.2),
{
}

/// Finitely many tags in a total order have a least one.
pub proof fn lemma_least_tag_exists<K, V, T: Ord>(s: TagMapView<K, V, T>)
    requires
        totally_ordered::<T>(),
        s.tag.dom().finite(),
    ensures
        s.least_tag_exists(),
{
    if !s.tag.is_empty() {
        lemma_least_exists(s.tag.dom());
    }
}

} // verus!
