//! The one call into `BTreeMap` whose behaviour is taken on trust.

use vstd::prelude::*;
use vstd::laws_cmp::obeys_cmp;
use std::collections::BTreeMap;
use crate::order::least_in;

verus! {

/// `BTreeMap::pop_first`. Trusted, for a key type whose `Ord` is lawful: on
/// an empty map it returns `None` and leaves the map as it was; otherwise it
/// removes the entry whose key precedes every other key of the map, and
/// returns that key with its value.
#[verifier::external_body]
pub(crate) fn pop_first<T: Ord, K>(index: &mut BTreeMap<T, K>) -> (first: Option<(T, K)>)
    requires
        obeys_cmp::<T>(),
    ensures
        match first {
            Some((tag, key)) => {
                &&& least_in(old(index)@.dom(), tag)
                &&& old(index)@[tag] == key
                &&& final(index)@ == old(index)@.remove(tag)
            },
            None => old(index)@.is_empty() && final(index)@ == old(index)@,
        },
{
    index.pop_first()
}

} // verus!
