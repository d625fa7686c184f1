//! What holds of every tag map, over calls made one after another.

use vstd::prelude::*;
use vstd::set_lib::lemma_map_size;
use crate::invariants::{
    lemma_delete_keeps_invariants, lemma_delete_min_tag_keeps_invariants,
    lemma_insert_keeps_consistent, lemma_insert_keeps_no_dangling, lemma_least_tag_exists,
    lemma_min_entry_carries_least_tag, lemma_update_is_insert,
};
use crate::model::{Call, TagMapView};
use crate::order::{precedes, totally_ordered};

verus! {

/// The tags that the calls bring in are new: the secondary index holds none
/// of them at the start, and no two calls bring the same.
pub open spec fn tags_fresh<K, V, T>(start: TagMapView<K, V, T>, calls: Seq<Call<K, V, T>>) -> bool {
    &&& forall|i: int|
        0 <= i < calls.len() ==> (#[trigger] calls[i].new_tag() matches Some(t)
            ==> !start.tag.contains_key(t))
    &&& forall|i: int, j: int|
        0 <= i < j < calls.len() && calls[i].new_tag() is Some ==> #[trigger] calls[i].new_tag()
            != #[trigger] calls[j].new_tag()
}

/// `tag` was held at the start or brought in by one of the calls.
pub open spec fn tag_known<K, V, T>(start: TagMapView<K, V, T>, calls: Seq<Call<K, V, T>>, tag: T) -> bool {
    start.tag.contains_key(tag) || exists|i: int|
        0 <= i < calls.len() && #[trigger] calls[i].new_tag() == Some(tag)
}

/// Calls leave no tag in the secondary index but those held at the start or
/// brought in by a call, and keep finite indices finite.
pub proof fn lemma_run_holds_known_tags<K, V, T: Ord>(
    start: TagMapView<K, V, T>,
    calls: Seq<Call<K, V, T>>,
)
    requires
        start.finite(),
    ensures
        start.run(calls).finite(),
        forall|t: T| #[trigger] start.run(calls).tag.contains_key(t) ==> tag_known(start, calls, t),
    decreases calls.len(),
{
    if calls.len() > 0 {
        let earlier = calls.drop_last();
        let last = calls.len() - 1;
        lemma_run_holds_known_tags(start, earlier);
        let s = start.run(earlier);
        lemma_update_is_insert_of(s, calls.last());
        assert forall|t: T| #[trigger] start.run(calls).tag.contains_key(t) implies tag_known(
            start,
            calls,
            t,
        ) by {
            if s.tag.contains_key(t) {
                assert(tag_known(start, earlier, t));
                if !start.tag.contains_key(t) {
                    let i = choose|i: int|
                        0 <= i < earlier.len() && #[trigger] earlier[i].new_tag() == Some(t);
                    assert(calls[i].new_tag() == Some(t));
                }
            } else {
                assert(calls[last].new_tag() == Some(t));
            }
        }
    }
}

/// An `update` among the calls leaves what an `insert` of the same entry
/// leaves.
proof fn lemma_update_is_insert_of<K, V, T: Ord>(s: TagMapView<K, V, T>, call: Call<K, V, T>)
    ensures
        call matches Call::Update { key, value, tag } ==> s.step(call) == s.insert(key, value, tag),
{
    if let Call::Update { key, value, tag } = call {
        lemma_update_is_insert(s, key, value, tag);
    }
}

/// Calls that bring in new tags only keep the two indices consistent: the
/// tag of every key leads back to the key, and every tag leads to a key that
/// carries it.
pub proof fn lemma_fresh_tags_keep_consistent<K, V, T: Ord>(
    start: TagMapView<K, V, T>,
    calls: Seq<Call<K, V, T>>,
)
    requires
        totally_ordered::<T>(),
        start.finite(),
        start.consistent(),
        tags_fresh(start, calls),
    ensures
        start.run(calls).consistent(),
    decreases calls.len(),
{
    if calls.len() > 0 {
        let earlier = calls.drop_last();
        let last = calls.len() - 1;
        lemma_fresh_tags_keep_consistent(start, earlier);
        lemma_run_holds_known_tags(start, earlier);
        let s = start.run(earlier);
        lemma_update_is_insert_of(s, calls.last());
        match calls.last() {
            Call::Insert { key, value, tag } | Call::Update { key, value, tag } => {
                assert(calls[last].new_tag() == Some(tag));
                if s.tag.contains_key(tag) {
                    assert(tag_known(start, earlier, tag));
                    let i = choose|i: int|
                        0 <= i < earlier.len() && #[trigger] earlier[i].new_tag() == Some(tag);
                    assert(calls[i].new_tag() == calls[last].new_tag());
                }
                lemma_insert_keeps_consistent(s, key, value, tag);
            },
            Call::Delete { key } => {
                lemma_delete_keeps_invariants(s, key);
            },
            Call::DeleteMinTag => {
                lemma_least_tag_exists(s);
                lemma_delete_min_tag_keeps_invariants(s);
            },
        }
    }
}

/// Whatever the calls, no tag is left in the secondary index without an entry
/// that carries it.
pub proof fn lemma_calls_keep_no_dangling<K, V, T: Ord>(
    start: TagMapView<K, V, T>,
    calls: Seq<Call<K, V, T>>,
)
    requires
        totally_ordered::<T>(),
        start.finite(),
        start.no_dangling(),
    ensures
        start.run(calls).no_dangling(),
    decreases calls.len(),
{
    if calls.len() > 0 {
        let earlier = calls.drop_last();
        lemma_calls_keep_no_dangling(start, earlier);
        lemma_run_holds_known_tags(start, earlier);
        let s = start.run(earlier);
        lemma_update_is_insert_of(s, calls.last());
        match calls.last() {
            Call::Insert { key, value, tag } | Call::Update { key, value, tag } => {
                lemma_insert_keeps_no_dangling(s, key, value, tag);
            },
            Call::Delete { key } => {
                lemma_delete_keeps_invariants(s, key);
            },
            Call::DeleteMinTag => {
                lemma_least_tag_exists(s);
                lemma_delete_min_tag_keeps_invariants(s);
            },
        }
    }
}

/// Consistent indices hold as many tags as keys.
pub proof fn lemma_consistent_indices_same_size<K, V, T>(s: TagMapView<K, V, T>)
    requires
        s.finite(),
        s.consistent(),
    ensures
        s.tag.len() == s.main.len(),
{
    let key_of = |t: T| s.tag[t];
    assert(s.tag.dom().map(key_of) =~= s.main.dom()) by {
        assert forall|k: K| s.main.dom().contains(k) implies s.tag.dom().map(key_of).contains(
            k,
        ) by {
            assert(s.tag.dom().contains(s.main[k].1) && key_of(s.main[k].1) == k);
        }
    }
    lemma_map_size(s.tag.dom(), s.main.dom(), key_of);
}

/// Draining `n` entries from indices that hold at least `n` tags, none of
/// them without its entry, takes `n` tags away and leaves the rest as they
/// were.
pub proof fn lemma_drained<K, V, T: Ord>(s: TagMapView<K, V, T>, n: nat)
    requires
        totally_ordered::<T>(),
        s.finite(),
        s.no_dangling(),
        n <= s.tag.len(),
    ensures
        s.drained(n).finite(),
        s.drained(n).no_dangling(),
        s.drained(n).tag.len() == s.tag.len() - n,
        s.drained(n).tag.submap_of(s.tag),
        s.drained(n).main.submap_of(s.main),
        s.consistent() ==> s.drained(n).consistent(),
    decreases n,
{
    if n > 0 {
        let before = s.drained((n - 1) as nat);
        lemma_drained(s, (n - 1) as nat);
        lemma_least_tag_exists(before);
        lemma_delete_min_tag_keeps_invariants(before);
    }
}

/// After one call of `delete_min_tag` has taken the least tag, every tag that
/// a later call finds in the secondary index comes after it.
proof fn lemma_later_tags_come_after<K, V, T: Ord>(s: TagMapView<K, V, T>, i: nat, j: nat)
    requires
        totally_ordered::<T>(),
        s.finite(),
        s.no_dangling(),
        i < j <= s.tag.len(),
    ensures
        forall|t: T| #[trigger]
            s.drained(j).tag.contains_key(t) ==> precedes(s.drained(i).least_tag(), t),
    decreases j,
{
    let at_i = s.drained(i);
    lemma_drained(s, i);
    lemma_least_tag_exists(at_i);
    if j == i + 1 {
    } else {
        lemma_later_tags_come_after(s, i, (j - 1) as nat);
        lemma_drained(s, (j - 1) as nat);
        lemma_least_tag_exists(s.drained((j - 1) as nat));
    }
}

/// Repeated calls of `delete_min_tag` yield entries in strictly increasing
/// order of their tags.
pub proof fn lemma_drain_in_tag_order<K, V, T: Ord>(s: TagMapView<K, V, T>, i: nat, j: nat)
    requires
        totally_ordered::<T>(),
        s.finite(),
        s.no_dangling(),
        i < j < s.tag.len(),
    ensures
        match (s.drained(i).min_entry(), s.drained(j).min_entry()) {
            (Some(earlier), Some(later)) => precedes(earlier.2, later.2),
            _ => false,
        },
{
    lemma_drained(s, i);
    lemma_drained(s, j);
    lemma_least_tag_exists(s.drained(i));
    lemma_least_tag_exists(s.drained(j));
    lemma_min_entry_carries_least_tag(s.drained(i));
    lemma_min_entry_carries_least_tag(s.drained(j));
    lemma_later_tags_come_after(s, i, j);
}

/// As long as the secondary index holds a tag, `delete_min_tag` yields an
/// entry, and it is one of those stored at the start.
pub proof fn lemma_drain_yields_entries<K, V, T: Ord>(s: TagMapView<K, V, T>, n: nat)
    requires
        totally_ordered::<T>(),
        s.finite(),
        s.no_dangling(),
        n < s.tag.len(),
    ensures
        match s.drained(n).min_entry() {
            Some((key, value, tag)) => s.entry(key) == Some((value, tag)) && s.tag.contains_key(tag)
                && s.tag[tag] == key,
            None => false,
        },
{
    lemma_drained(s, n);
    lemma_least_tag_exists(s.drained(n));
    lemma_min_entry_carries_least_tag(s.drained(n));
}

/// Once `delete_min_tag` has yielded an entry for each tag that the secondary
/// index held, it yields nothing. Consistent indices hold one tag for each
/// key, and are empty by then.
pub proof fn lemma_drain_ends<K, V, T: Ord>(s: TagMapView<K, V, T>)
    requires
        totally_ordered::<T>(),
        s.finite(),
        s.no_dangling(),
    ensures
        s.drained(s.tag.len()).min_entry() is None,
        s.drained(s.tag.len()).tag.is_empty(),
        s.consistent() ==> s.tag.len() == s.main.len() && s.drained(s.main.len())
            == TagMapView::<K, V, T>::empty(),
{
    let end = s.drained(s.tag.len());
    lemma_drained(s, s.tag.len());
    end.tag.dom().lemma_len0_is_empty();
    if s.consistent() {
        lemma_consistent_indices_same_size(s);
        lemma_consistent_indices_same_size(end);
        end.main.dom().lemma_len0_is_empty();
        assert(end =~= TagMapView::<K, V, T>::empty());
    }
}

/// After inserts under tags that differ from one another, into empty
/// indices, `delete_min_tag` yields as many entries as keys were inserted, in
/// strictly increasing order of their tags, and nothing after that.
pub proof fn lemma_inserted_entries_drain_in_tag_order<K, V, T: Ord>(calls: Seq<Call<K, V, T>>)
    requires
        totally_ordered::<T>(),
        forall|i: int| 0 <= i < calls.len() ==> #[trigger] calls[i] is Insert,
        tags_fresh(TagMapView::<K, V, T>::empty(), calls),
    ensures
        ({
            let s = TagMapView::<K, V, T>::empty().run(calls);
            &&& s.consistent()
            &&& forall|key: K|
                s.main.contains_key(key) <==> exists|i: int|
                    0 <= i < calls.len() && (#[trigger] calls[i]).stores(key)
            &&& forall|i: nat, j: nat|
                i < j < s.main.len() ==> match (
                    #[trigger] s.drained(i).min_entry(),
                    #[trigger] s.drained(j).min_entry(),
                ) {
                    (Some(earlier), Some(later)) => precedes(earlier.2, later.2),
                    _ => false,
                }
            &&& s.drained(s.main.len()).min_entry() is None
        }),
{
    let empty = TagMapView::<K, V, T>::empty();
    let s = empty.run(calls);
    lemma_fresh_tags_keep_consistent(empty, calls);
    lemma_run_holds_known_tags(empty, calls);
    lemma_inserts_store_their_keys(calls);
    lemma_drain_ends(s);
    assert forall|i: nat, j: nat| i < j < s.main.len() implies match (
        #[trigger] s.drained(i).min_entry(),
        #[trigger] s.drained(j).min_entry(),
    ) {
        (Some(earlier), Some(later)) => precedes(earlier.2, later.2),
        _ => false,
    } by {
        lemma_drain_in_tag_order(s, i, j);
    }
}

/// A key inserted twice under different tags is stored once, under the second:
/// the second `insert` finds the value and tag of the first, and of the two
/// tags only the second is left in the secondary index. Where no tag was
/// without its entry before, the second tag is the only one that leads to the
/// key.
pub proof fn lemma_second_insert_replaces_first<K, V, T>(
    s: TagMapView<K, V, T>,
    key: K,
    first: (V, T),
    second: (V, T),
)
    requires
        first.1 != second.1,
    ensures
        ({
            let once = s.insert(key, first.0, first.1);
            let twice = once.insert(key, second.0, second.1);
            &&& once.entry(key) == Some(first)
            &&& twice.entry(key) == Some(second)
            &&& !twice.tag.contains_key(first.1)
            &&& twice.tag.contains_key(second.1) && twice.tag[second.1] == key
            &&& s.no_dangling() ==> forall|t: T| #[trigger]
                twice.tag.contains_key(t) && twice.tag[t] == key ==> t == second.1
        }),
{
}

/// `update` of a key that was inserted finds the inserted value and tag and
/// leaves the new value under the key; it leaves what `delete` followed by
/// `insert` leaves.
pub proof fn lemma_update_replaces_inserted<K, V, T>(
    s: TagMapView<K, V, T>,
    key: K,
    first: (V, T),
    second: (V, T),
)
    ensures
        ({
            let inserted = s.insert(key, first.0, first.1);
            let updated = inserted.update(key, second.0, second.1);
            &&& inserted.entry(key) == Some(first)
            &&& updated.value(key) == Some(second.0)
            &&& updated == inserted.delete(key).insert(key, second.0, second.1)
        }),
{
}

/// A deleted key stays away until it is stored again: it has no value, and
/// `delete_min_tag` does not yield it.
pub proof fn lemma_deleted_key_is_gone<K, V, T: Ord>(
    s: TagMapView<K, V, T>,
    key: K,
    calls: Seq<Call<K, V, T>>,
)
    requires
        forall|i: int| 0 <= i < calls.len() ==> !(#[trigger] calls[i]).stores(key),
    ensures
        s.delete(key).value(key) is None,
        s.delete(key).run(calls).value(key) is None,
        !(s.delete(key).run(calls).min_entry() matches Some(e) && e.0 == key),
    decreases calls.len(),
{
    if calls.len() > 0 {
        let earlier = calls.drop_last();
        lemma_deleted_key_is_gone(s, key, earlier);
    }
}

/// An `insert` under a tag that leads to another key takes the tag from that
/// key. The other key keeps its entry, but no tag leads to it any more: the
/// indices are no longer consistent, though still no tag is without its entry.
pub proof fn lemma_insert_takes_tag<K, V, T>(s: TagMapView<K, V, T>, key: K, value: V, tag: T)
    requires
        s.consistent(),
        s.tag.contains_key(tag),
        s.tag[tag] != key,
    ensures
        ({
            let holder = s.tag[tag];
            let after = s.insert(key, value, tag);
            &&& after.tag[tag] == key
            &&& after.entry(holder) is Some
            &&& after.entry(holder) == s.entry(holder)
            &&& !after.reachable(holder)
            &&& after.no_dangling()
            &&& !after.consistent()
        }),
{
}

/// A key that no tag leads to is not yielded by `delete_min_tag`, and no tag
/// leads to it until it is stored again.
pub proof fn lemma_unreachable_key_is_not_yielded<K, V, T: Ord>(
    s: TagMapView<K, V, T>,
    key: K,
    calls: Seq<Call<K, V, T>>,
)
    requires
        totally_ordered::<T>(),
        s.finite(),
        !s.reachable(key),
        forall|i: int| 0 <= i < calls.len() ==> !(#[trigger] calls[i]).stores(key),
    ensures
        !s.run(calls).reachable(key),
        !(s.run(calls).min_entry() matches Some(e) && e.0 == key),
    decreases calls.len(),
{
    if calls.len() > 0 {
        let earlier = calls.drop_last();
        lemma_unreachable_key_is_not_yielded(s, key, earlier);
        lemma_run_holds_known_tags(s, earlier);
        let before = s.run(earlier);
        lemma_update_is_insert_of(before, calls.last());
        lemma_least_tag_exists(before);
    }
    lemma_run_holds_known_tags(s, calls);
    lemma_least_tag_exists(s.run(calls));
}

/// After inserts alone into empty indices, the keys stored are the keys
/// inserted.
pub proof fn lemma_inserts_store_their_keys<K, V, T: Ord>(calls: Seq<Call<K, V, T>>)
    requires
        forall|i: int| 0 <= i < calls.len() ==> #[trigger] calls[i] is Insert,
    ensures
        forall|key: K|
            TagMapView::<K, V, T>::empty().run(calls).main.contains_key(key) <==> exists|i: int|
                0 <= i < calls.len() && (#[trigger] calls[i]).stores(key),
    decreases calls.len(),
{
    if calls.len() > 0 {
        let earlier = calls.drop_last();
        let last = calls.len() - 1;
        lemma_inserts_store_their_keys(earlier);
        let before = TagMapView::<K, V, T>::empty().run(earlier);
        let after = TagMapView::<K, V, T>::empty().run(calls);
        assert forall|key: K| after.main.contains_key(key) <==> exists|i: int|
            0 <= i < calls.len() && (#[trigger] calls[i]).stores(key) by {
            if after.main.contains_key(key) {
                if before.main.contains_key(key) {
                    let i = choose|i: int|
                        0 <= i < earlier.len() && (#[trigger] earlier[i]).stores(key);
                    assert(calls[i].stores(key));
                } else {
                    assert(calls[last].stores(key));
                }
            }
            if exists|i: int| 0 <= i < calls.len() && (#[trigger] calls[i]).stores(key) {
                let i = choose|i: int| 0 <= i < calls.len() && (#[trigger] calls[i]).stores(key);
                if i < last {
                    assert(earlier[i].stores(key));
                }
            }
        }
    }
}

} // verus!
