//! The hash maps that hold one row each.
//!
//! A row is an `FxHashMap` from column to value: std's `HashMap` with the
//! hasher of the `fxhash` crate. That hasher starts every hash from the same
//! state and works on nothing but the words written to it, so equal keys hash
//! alike in every map. What this file states of the map's methods rests on
//! that, and on a key type whose `Eq` and `Hash` agree.

use fxhash::FxHashMap;
use fxhash::FxHasher;
use std::hash::BuildHasherDefault;
use std::hash::Hash;
use vstd::prelude::*;
use vstd::std_specs::hash::obeys_key_model;

verus! {

/// `fxhash::FxHasher`, the hasher of the row maps. Nothing is said of it.
#[verifier::external_type_specification]
#[verifier::external_body]
pub struct ExFxHasher(FxHasher);

/// `std::hash::BuildHasherDefault`, which makes the row maps' hashers.
/// Nothing is said of it.
#[verifier::external_type_specification]
#[verifier::external_body]
#[verifier::reject_recursive_types(H)]
pub struct ExBuildHasherDefault<H>(BuildHasherDefault<H>);

/// `HashMap::insert` on an `FxHashMap`: afterwards the map holds `value` at
/// `column`, whatever it held there before, and is unchanged at every other
/// column.
#[verifier::external_body]
pub(crate) fn row_insert<T: Eq + Hash, U>(row: &mut FxHashMap<T, U>, column: T, value: U)
    requires
        obeys_key_model::<T>(),
    ensures
        final(row)@ == old(row)@.insert(column, value),
{
    row.insert(column, value);
}

/// `HashMap::iter` on an `FxHashMap`, with each cell copied out: every cell
/// of the map once. The order in which they come is left open.
#[verifier::external_body]
pub(crate) fn cells_of<T: Copy + Eq + Hash, U: Copy>(row: &FxHashMap<T, U>) -> (cells: Vec<(T, U)>)
    requires
        obeys_key_model::<T>(),
    ensures
        forall|j: int|
            0 <= j < cells@.len() ==> #[trigger] row@.contains_key(cells@[j].0) && row@[cells@[j].0]
                == cells@[j].1,
        forall|k: T| #[trigger]
            row@.contains_key(k) ==> exists|j: int| 0 <= j < cells@.len() && cells@[j].0 == k,
        forall|i: int, j: int| 0 <= i < j < cells@.len() ==> cells@[i].0 != cells@[j].0,
{
    row.iter().map(|(k, v)| (*k, *v)).collect()
}

} // verus!
