//! The set of the hashes of the positions a game went through, kept in a
//! `hash_hasher::HashedSet<u64>` (a `std` hash set whose hasher reads the hash as it is).

use vstd::prelude::*;
use hash_hasher::{HashBuildHasher, HashedSet};

verus! {

/// A set of position hashes.
#[verifier::external_body]
pub struct PositionHashes {
    set: HashedSet<u64>,
}

/// The hashes that a `PositionHashes` holds.
pub uninterp spec fn hashes_of(s: PositionHashes) -> Set<u64>;

/// Creates an empty `HashedSet` with `HashedSet::with_capacity_and_hasher` (the capacity
/// does not change what the set holds).
#[verifier::external_body]
pub(crate) fn hashes_new(capacity: usize) -> (r: PositionHashes)
    ensures
        hashes_of(r) == Set::<u64>::empty(),
{
    PositionHashes { set: HashedSet::with_capacity_and_hasher(capacity, HashBuildHasher::default()) }
}

/// Calls `HashSet::insert`: afterwards the set also holds `x`.
#[verifier::external_body]
pub(crate) fn hashes_insert(s: &mut PositionHashes, x: u64) -> (r: bool)
    ensures
        hashes_of(*final(s)) == hashes_of(*old(s)).insert(x),
        r == !hashes_of(*old(s)).contains(x),
{
    s.set.insert(x)
}

/// Calls `HashSet::contains`.
#[verifier::external_body]
pub(crate) fn hashes_contains(s: &PositionHashes, x: u64) -> (r: bool)
    ensures
        r == hashes_of(*s).contains(x),
{
    s.set.contains(&x)
}

/// Calls `HashSet::len`: the number of hashes held.
#[verifier::external_body]
pub(crate) fn hashes_len(s: &PositionHashes) -> (r: usize)
    ensures
        r == hashes_of(*s).len(),
{
    s.set.len()
}

/// Calls `HashSet::clone`: the copy holds the same hashes.
#[verifier::external_body]
pub(crate) fn hashes_clone(s: &PositionHashes) -> (r: PositionHashes)
    ensures
        hashes_of(r) == hashes_of(*s),
{
    PositionHashes { set: s.set.clone() }
}

} // verus!
