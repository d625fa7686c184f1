//! The order on tags, stated over the comparison that `Ord` gives a tag type.

use vstd::prelude::*;
use vstd::laws_cmp::{obeys_cmp, obeys_cmp_ord, obeys_partial_cmp_spec_properties};
use vstd::laws_eq::obeys_concrete_eq;
use vstd::std_specs::cmp::OrdSpec;

verus! {

/// `a` comes strictly before `b`.
pub open spec fn precedes<T: Ord>(a: T, b: T) -> bool {
    a.cmp_spec(&b) is Less
}

/// The comparison of `T` is lawful, and only identical values compare equal.
/// Under this, `precedes` is a strict total order on `T`.
pub open spec fn totally_ordered<T: Ord>() -> bool {
    obeys_cmp::<T>() && obeys_concrete_eq::<T>()
}

/// `t` is a member of `tags` that precedes every other member.
pub open spec fn least_in<T: Ord>(tags: Set<T>, t: T) -> bool {
    &&& tags.contains(t)
    &&& forall|u: T| #[trigger] tags.contains(u) && u != t ==> precedes(t, u)
}

/// No two values precede each other.
pub proof fn lemma_precedes_asymmetric<T: Ord>(a: T, b: T)
    requires
        obeys_cmp::<T>(),
    ensures
        !(precedes(a, b) && precedes(b, a)),
{
    reveal(obeys_cmp_ord);
    reveal(obeys_partial_cmp_spec_properties);
}

/// What precedes a value precedes all that the value precedes.
pub proof fn lemma_precedes_transitive<T: Ord>(a: T, b: T, c: T)
    requires
        obeys_cmp::<T>(),
        precedes(a, b),
        precedes(b, c),
    ensures
        precedes(a, c),
{
    reveal(obeys_cmp_ord);
    reveal(obeys_partial_cmp_spec_properties);
}

/// Of two different values, one precedes the other.
pub proof fn lemma_precedes_total<T: Ord>(a: T, b: T)
    requires
        totally_ordered::<T>(),
        a != b,
    ensures
        precedes(a, b) || precedes(b, a),
{
    reveal(obeys_cmp_ord);
    reveal(obeys_partial_cmp_spec_properties);
    reveal(obeys_concrete_eq);
}

/// A set has at most one least member.
pub proof fn lemma_least_unique<T: Ord>(tags: Set<T>, a: T, b: T)
    requires
        obeys_cmp::<T>(),
        least_in(tags, a),
        least_in(tags, b),
    ensures
        a == b,
{
    lemma_precedes_asymmetric(a, b);
}

/// A finite set with a member has a least member.
pub proof fn lemma_least_exists<T: Ord>(tags: Set<T>)
    requires
        totally_ordered::<T>(),
        tags.finite(),
        !tags.is_empty(),
    ensures
        exists|t: T| least_in(tags, t),
    decreases tags.len(),
{
    let a = tags.choose();
    let rest = tags.remove(a);
    if rest.is_empty() {
        assert(least_in(tags, a));
    } else {
        lemma_least_exists(rest);
        let m = choose|t: T| least_in(rest, t);
        lemma_precedes_total(a, m);
        if precedes(a, m) {
            assert forall|u: T| #[trigger] tags.contains(u) && u != a implies precedes(a, u) by {
                if u != m {
                    lemma_precedes_transitive(a, m, u);
                }
            }
            assert(least_in(tags, a));
        } else {
            assert(least_in(tags, m));
        }
    }
}

} // verus!
