//! What the service expects of the identities of nodes.

use std::hash::Hash;
use vstd::prelude::*;
use vstd::std_specs::cmp::{OrdSpec, PartialEqSpec, PartialOrdIs, PartialOrdSpec};

verus! {

/// Whether `==`, `<` and hashing on `K` mean what they should: `==` holds of identical values
/// alone, the comparison is a total order, and the type can key a hash map.
pub open spec fn lawful<K: Ord + Hash>() -> bool {
    &&& vstd::std_specs::hash::obeys_key_model::<K>()
    &&& vstd::laws_eq::obeys_concrete_eq::<K>()
    &&& vstd::laws_cmp::obeys_cmp::<K>()
}

/// Whether `a` stands above `b` in the order of `K`.
pub open spec fn above<K: Ord>(a: K, b: K) -> bool {
    a.is_gt(&b)
}

/// Of two different identities exactly one stands above the other.
pub proof fn lemma_above_total<K: Ord + Hash>(a: K, b: K)
    requires
        lawful::<K>(),
        a != b,
    ensures
        above(a, b) <==> !above(b, a),
{
    reveal(vstd::laws_eq::obeys_concrete_eq);
    reveal(vstd::laws_cmp::obeys_cmp_partial_ord);
    reveal(vstd::laws_cmp::obeys_cmp_ord);
    reveal(vstd::laws_cmp::obeys_partial_cmp_spec_properties);
    assert(a.partial_cmp_spec(&b) == Some(a.cmp_spec(&b)));
    assert(!a.eq_spec(&b));
}

/// Integers are lawful identities.
pub proof fn law_integers_are_lawful()
    ensures
        lawful::<u64>(),
        lawful::<u128>(),
{
    broadcast use vstd::std_specs::hash::group_hash_axioms;

}

/// An integer stands above those that are smaller.
pub proof fn law_larger_integer_is_above(a: u64, b: u64)
    ensures
        above(a, b) <==> a > b,
{
}

/// Whether `a` and `b` are the same identity.
pub fn same<K: Ord + Hash>(a: &K, b: &K) -> (res: bool)
    requires
        lawful::<K>(),
    ensures
        res == (*a == *b),
{
    reveal(vstd::laws_eq::obeys_concrete_eq);
    *a == *b
}

/// Whether `a` stands above `b`.
pub fn is_above<K: Ord + Hash>(a: &K, b: &K) -> (res: bool)
    requires
        lawful::<K>(),
    ensures
        res == above(*a, *b),
{
    reveal(vstd::laws_cmp::obeys_cmp_partial_ord);
    *a > *b
}

} // verus!
