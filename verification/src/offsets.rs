//! The table from type identities to column offsets.
//!
//! The table is a hash map with the Fx hasher. Verus knows the view of such
//! a map and how it is created, but not what looking up and inserting do
//! with a hasher other than the standard one: the two functions of this
//! module state it, and are believed rather than proved. What they state
//! rests on the Fx hasher being deterministic: it starts from a fixed state
//! and mixes in nothing but the bytes of the key.
use fxhash::FxHashMap;
use vstd::prelude::*;

verus! {

/// The hasher [`fxhash::FxHasher`], of which nothing is stated.
#[verifier::external_type_specification]
#[verifier::external_body]
pub struct ExFxHasher(fxhash::FxHasher);

/// The hasher factory [`std::hash::BuildHasherDefault`], of which nothing is
/// stated.
#[verifier::external_type_specification]
#[verifier::external_body]
#[verifier::reject_recursive_types(H)]
pub struct ExBuildHasherDefault<H>(std::hash::BuildHasherDefault<H>);

/// Sets the offset recorded for `id`.
///
/// Calls `HashMap::insert` on a map with the Fx hasher, and claims that
/// afterwards the map holds `offset` under `id` and is otherwise unchanged.
#[verifier::external_body]
pub(crate) fn insert(table: &mut FxHashMap<u64, usize>, id: u64, offset: usize)
    ensures
        final(table)@ == old(table)@.insert(id, offset),
{
    table.insert(id, offset);
}

/// The offset recorded for `id`, if there is one.
///
/// Calls `HashMap::get` on a map with the Fx hasher, and claims that it finds
/// the value under `id` exactly when the map holds that key.
#[verifier::external_body]
pub(crate) fn get(table: &FxHashMap<u64, usize>, id: u64) -> (offset: Option<usize>)
    ensures
        offset == (if table@.contains_key(id) {
            Some(table@[id])
        } else {
            None
        }),
{
    table.get(&id).copied()
}

} // verus!
