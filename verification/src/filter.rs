//! Which rows a search may return.
use roaring::RoaringTreemap;
use std::collections::HashSet;
use vstd::prelude::*;

verus! {

/// A set of row ids that a search is restricted to.
pub trait RowIdFilter: Sync {
    /// The row may be returned.
    spec fn admits(&self, id: i64) -> bool;

    fn contains(&self, id: i64) -> (result: bool)
        ensures
            result == self.admits(id),
    ;
}

impl RowIdFilter for HashSet<i64> {
    open spec fn admits(&self, id: i64) -> bool {
        self@.contains(id)
    }

    fn contains(&self, id: i64) -> (result: bool) {
        broadcast use vstd::std_specs::hash::group_hash_axioms;

        HashSet::contains(self, &id)
    }
}

/// A compressed set of 64-bit integers.
#[verifier::external_type_specification]
#[verifier::external_body]
pub struct ExRoaringTreemap(RoaringTreemap);

/// The failure of a read.
#[verifier::external_type_specification]
#[verifier::external_body]
pub struct ExIoError(std::io::Error);

/// The integers that a treemap holds.
pub uninterp spec fn treemap_values(map: RoaringTreemap) -> Set<u64>;

/// What the serialized form of a treemap stands for; nothing for bytes that
/// are not one.
pub uninterp spec fn decoded_treemap(bytes: Seq<u8>) -> Option<Set<u64>>;

/// The bytes start with a count of zero.
pub open spec fn counts_nothing(bytes: Seq<u8>) -> bool {
    &&& bytes.len() >= 8
    &&& forall|i: int| 0 <= i < 8 ==> bytes[i] == 0
}

/// `RoaringTreemap::contains`: whether the treemap holds the integer.
#[verifier::external_body]
fn treemap_contains(map: &RoaringTreemap, value: u64) -> (found: bool)
    ensures
        found == treemap_values(*map).contains(value),
{
    map.contains(value)
}

/// `RoaringTreemap::deserialize_from` on a byte slice: what it returns depends
/// on the bytes alone. It starts by reading a count of eight bytes, so fewer
/// bytes are an error, and a count of zero is the empty treemap.
#[verifier::external_body]
fn deserialize_treemap(bytes: &[u8]) -> (result: Result<RoaringTreemap, std::io::Error>)
    ensures
        match result {
            Ok(map) => {
                &&& decoded_treemap(bytes@) == Some(treemap_values(map))
                &&& bytes@.len() >= 8
                &&& counts_nothing(bytes@) ==> treemap_values(map) == Set::<u64>::empty()
            },
            Err(_) => decoded_treemap(bytes@) is None && !counts_nothing(bytes@),
        },
{
    RoaringTreemap::deserialize_from(bytes)
}

/// The bytes of a filter are not a serialized treemap.
#[derive(Debug, Clone, Copy, PartialEq, Eq, Structural)]
pub struct InvalidFilter;

impl RowIdFilter for RoaringTreemap {
    open spec fn admits(&self, id: i64) -> bool {
        id >= 0 && treemap_values(*self).contains(id as u64)
    }

    fn contains(&self, id: i64) -> (result: bool) {
        id >= 0 && treemap_contains(self, id as u64)
    }
}

/// Reads a filter from its serialized form. Negative row ids are in no filter.
pub fn decode_roaring_filter(bytes: &[u8]) -> (filter: Result<RoaringTreemap, InvalidFilter>)
    ensures
        match filter {
            Ok(map) => decoded_treemap(bytes@) == Some(treemap_values(map)) && forall|id: i64|
                #[trigger] map.admits(id) == (id >= 0 && decoded_treemap(bytes@)->0.contains(
                    id as u64,
                )),
            Err(_) => decoded_treemap(bytes@) is None,
        },
        bytes@.len() < 8 ==> filter is Err,
        counts_nothing(bytes@) ==> (filter matches Ok(map) && forall|id: i64| !(
        #[trigger] map.admits(id))),
{
    match deserialize_treemap(bytes) {
        Ok(map) => Ok(map),
        Err(_) => Err(InvalidFilter),
    }
}

/// Whether a row passes an optional filter.
pub open spec fn row_allowed<F: RowIdFilter>(filter: Option<&F>, id: i64) -> bool {
    match filter {
        Some(f) => f.admits(id),
        None => true,
    }
}

/// Whether a row passes an optional filter.
pub fn is_row_allowed<F: RowIdFilter>(filter: Option<&F>, id: i64) -> (allowed: bool)
    ensures
        allowed == row_allowed(filter, id),
{
    match filter {
        Some(f) => f.contains(id),
        None => true,
    }
}

} // verus!
