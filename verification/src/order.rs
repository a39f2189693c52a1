//! The order on column indices.
//!
//! Column indices are compared, tested for equality and hashed. The library is
//! generic over their type, so everything it proves rests on that type
//! behaving lawfully: see [`lawful_index`].

use core::cmp::Ordering;
use std::hash::Hash;
use vstd::laws_cmp::obeys_cmp;
use vstd::laws_eq::obeys_concrete_eq;
use vstd::prelude::*;
use vstd::std_specs::cmp::PartialOrdSpec;
use vstd::std_specs::hash::obeys_key_model;

verus! {

/// Whether `T` can serve as a column index: its comparison operators agree
/// with one total order, its `==` is equality of values, and it hashes in a
/// way that lets it key a hash map.
pub open spec fn lawful_index<T: Ord + Hash>() -> bool {
    &&& obeys_cmp::<T>()
    &&& obeys_concrete_eq::<T>()
    &&& obeys_key_model::<T>()
}

/// `a` comes strictly before `b` in the order of `T`.
pub open spec fn precedes<T: Ord>(a: T, b: T) -> bool {
    a.partial_cmp_spec(&b) == Some(Ordering::Less)
}

/// For a lawful index type, [`precedes`] is a strict total order.
pub proof fn lemma_precedes_strict_total<T: Ord + Hash>()
    requires
        lawful_index::<T>(),
    ensures
        forall|a: T| !#[trigger] precedes(a, a),
        forall|a: T, b: T| #[trigger] precedes(a, b) ==> !precedes(b, a),
        forall|a: T, b: T, c: T|
            #[trigger] precedes(a, b) && #[trigger] precedes(b, c) ==> precedes(a, c),
        forall|a: T, b: T| a != b ==> #[trigger] precedes(a, b) || precedes(b, a),
{
    reveal(vstd::laws_cmp::obeys_partial_cmp_spec_properties);
    reveal(vstd::laws_cmp::obeys_cmp_partial_ord);
    reveal(vstd::laws_cmp::obeys_cmp_ord);
    reveal(vstd::laws_eq::obeys_concrete_eq);
}

/// Of three columns, if the second is not before the first and the third not
/// before the second, the third is not before the first.
pub proof fn lemma_not_before_chain<T: Ord + Hash>(x: T, y: T, z: T)
    requires
        lawful_index::<T>(),
        !precedes(y, x),
        !precedes(z, y),
    ensures
        !precedes(z, x),
{
    lemma_precedes_strict_total::<T>();
    if precedes(z, x) {
        if x == y {
        } else {
            assert(precedes(x, y));
            assert(precedes(z, y));
        }
    }
}

/// Tests whether `a` comes strictly before `b`.
pub fn is_before<T: Ord + Hash>(a: &T, b: &T) -> (r: bool)
    requires
        lawful_index::<T>(),
    ensures
        r == precedes(*a, *b),
{
    proof {
        reveal(vstd::laws_cmp::obeys_cmp_partial_ord);
    }
    *a < *b
}

/// `i32` is a lawful index type, ordered by `<`.
pub proof fn lemma_i32_lawful()
    ensures
        lawful_index::<i32>(),
        forall|a: i32, b: i32| #[trigger] precedes(a, b) <==> a < b,
{
    broadcast use vstd::laws_cmp::group_laws_cmp;
    broadcast use vstd::laws_eq::group_laws_eq;
    broadcast use vstd::std_specs::hash::group_hash_axioms;

}

/// `i64` is a lawful index type, ordered by `<`.
pub proof fn lemma_i64_lawful()
    ensures
        lawful_index::<i64>(),
        forall|a: i64, b: i64| #[trigger] precedes(a, b) <==> a < b,
{
    broadcast use vstd::laws_cmp::group_laws_cmp;
    broadcast use vstd::laws_eq::group_laws_eq;
    broadcast use vstd::std_specs::hash::group_hash_axioms;

}

/// `u32` is a lawful index type, ordered by `<`.
pub proof fn lemma_u32_lawful()
    ensures
        lawful_index::<u32>(),
        forall|a: u32, b: u32| #[trigger] precedes(a, b) <==> a < b,
{
    broadcast use vstd::laws_cmp::group_laws_cmp;
    broadcast use vstd::laws_eq::group_laws_eq;
    broadcast use vstd::std_specs::hash::group_hash_axioms;

}

/// `u64` is a lawful index type, ordered by `<`.
pub proof fn lemma_u64_lawful()
    ensures
        lawful_index::<u64>(),
        forall|a: u64, b: u64| #[trigger] precedes(a, b) <==> a < b,
{
    broadcast use vstd::laws_cmp::group_laws_cmp;
    broadcast use vstd::laws_eq::group_laws_eq;
    broadcast use vstd::std_specs::hash::group_hash_axioms;

}

/// `usize` is a lawful index type, ordered by `<`.
pub proof fn lemma_usize_lawful()
    ensures
        lawful_index::<usize>(),
        forall|a: usize, b: usize| #[trigger] precedes(a, b) <==> a < b,
{
    broadcast use vstd::laws_cmp::group_laws_cmp;
    broadcast use vstd::laws_eq::group_laws_eq;
    broadcast use vstd::std_specs::hash::group_hash_axioms;

}

} // verus!
