//! The hash table that finds a vertex by its content.
//!
//! The table is the standard library's hash map under the FNV hasher of the
//! `fnv` crate, from the content of a vertex (its twelve bytes as one number)
//! to the key that was first seen with that content. What the map's methods
//! do under this hasher is not proved here: each is wrapped with the contract
//! that the standard library documents for a hasher that is deterministic,
//! which FNV is (it starts from a fixed state and folds in byte after byte).

use vstd::prelude::*;
use fnv::FnvHashMap;
use fnv::FnvHasher;
use std::hash::BuildHasherDefault;
use crate::key::VertexKey;

verus! {

/// `fnv::FnvHasher`, which Verus only carries through.
#[verifier::external_type_specification]
#[verifier::external_body]
pub struct ExFnvHasher(FnvHasher);

/// `std::hash::BuildHasherDefault`, which Verus only carries through.
#[verifier::external_type_specification]
#[verifier::external_body]
#[verifier::reject_recursive_types(H)]
pub struct ExBuildHasherDefault<H>(BuildHasherDefault<H>);

/// Looks `content` up with `HashMap::get`.
///
/// Trusted: the entry stored under `content` comes back if there is one,
/// and nothing otherwise.
#[verifier::external_body]
pub(crate) fn table_get<'a, 't>(
    table: &'t FnvHashMap<u128, VertexKey<'a>>,
    content: u128,
) -> (found: Option<&'t VertexKey<'a>>)
    ensures
        found == (if table@.contains_key(content) {
            Some(&table@[content])
        } else {
            None
        }),
{
    table.get(&content)
}

/// Stores `key` under `content` with `HashMap::insert`.
///
/// Trusted: afterwards the table maps `content` to `key` and is otherwise
/// as before.
#[verifier::external_body]
pub(crate) fn table_insert<'a>(
    table: &mut FnvHashMap<u128, VertexKey<'a>>,
    content: u128,
    key: VertexKey<'a>,
)
    ensures
        final(table)@ == old(table)@.insert(content, key),
{
    table.insert(content, key);
}

/// Counts the entries with `HashMap::len`.
///
/// Trusted: the count is the number of contents that the table holds a key
/// for.
#[verifier::external_body]
pub(crate) fn table_len<'a>(table: &FnvHashMap<u128, VertexKey<'a>>) -> (count: usize)
    ensures
        count == table@.dom().len(),
{
    table.len()
}

/// Copies the entries out with `HashMap::iter`, in the order in which the
/// map walks them.
///
/// Trusted: every entry comes out once and nothing else does. Nothing is
/// said of the order.
#[verifier::external_body]
pub(crate) fn table_entries<'a>(table: &FnvHashMap<u128, VertexKey<'a>>) -> (entries: Vec<
    (u128, VertexKey<'a>),
>)
    ensures
        forall|i: int|
            0 <= i < entries@.len() ==> table@.contains_key((#[trigger] entries@[i]).0)
                && table@[entries@[i].0] == entries@[i].1,
        forall|i: int, j: int|
            0 <= i < j < entries@.len() ==> (#[trigger] entries@[i]).0 != (#[trigger] entries@[j]).0,
        forall|content: u128| #[trigger]
            table@.contains_key(content) ==> exists|i: int|
                0 <= i < entries@.len() && (#[trigger] entries@[i]).0 == content,
{
    table.iter().map(|(content, key)| (*content, *key)).collect()
}

} // verus!
