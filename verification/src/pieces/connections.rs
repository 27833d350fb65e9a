//! Small fixed-capacity lists (at most four entries) built on `arrayvec`.

use vstd::prelude::*;
use arrayvec::ArrayVec;
use crate::pieces::util::coord::Coord;

verus! {

/// `arrayvec::ArrayVec`, held opaque.
#[verifier::external_type_specification]
#[verifier::external_body]
#[verifier::reject_recursive_types(T)]
pub struct ExArrayVec<T, const CAP: usize>(ArrayVec<T, CAP>);

/// The items an `ArrayVec<usize, 4>` holds, in order.
pub uninterp spec fn idx4_items(v: ArrayVec<usize, 4>) -> Seq<usize>;

/// Calls `ArrayVec::new`: the new vector holds nothing.
#[verifier::external_body]
pub(crate) fn idx4_new() -> (r: ArrayVec<usize, 4>)
    ensures
        idx4_items(r) == Seq::<usize>::empty(),
{
    ArrayVec::new()
}

/// Calls `ArrayVec::push`, which appends at the end (it panics when full, which the
/// precondition rules out).
#[verifier::external_body]
pub(crate) fn idx4_push(v: &mut ArrayVec<usize, 4>, x: usize)
    requires
        idx4_items(*old(v)).len() < 4,
    ensures
        idx4_items(*final(v)) == idx4_items(*old(v)).push(x),
{
    v.push(x)
}

/// Calls `ArrayVec::len`.
#[verifier::external_body]
pub(crate) fn idx4_len(v: &ArrayVec<usize, 4>) -> (r: usize)
    ensures
        r == idx4_items(*v).len(),
        r <= 4,
{
    v.len()
}

/// Reads the item at `i` through `ArrayVec`'s slice indexing.
#[verifier::external_body]
pub(crate) fn idx4_get(v: &ArrayVec<usize, 4>, i: usize) -> (r: usize)
    requires
        i < idx4_items(*v).len(),
    ensures
        r == idx4_items(*v)[i as int],
{
    v[i]
}

/// Views an `ArrayVec` as a slice (`ArrayVec::as_slice`).
#[verifier::external_body]
pub(crate) fn idx4_slice(v: &ArrayVec<usize, 4>) -> (r: &[usize])
    ensures
        r@ == idx4_items(*v),
{
    v.as_slice()
}

/// True when the list holds `x`.
pub(crate) fn idx4_contains(v: &ArrayVec<usize, 4>, x: usize) -> (r: bool)
    ensures
        r == idx4_items(*v).contains(x),
{
    let n = idx4_len(v);
    let mut k: usize = 0;
    while k < n
        invariant
            n == idx4_items(*v).len(),
            0 <= k <= n,
            forall|m: int| 0 <= m < k ==> idx4_items(*v)[m] != x,
        decreases n - k,
    {
        if idx4_get(v, k) == x {
            return true;
        }
        k += 1;
    }
    false
}

/// The items an `ArrayVec<Coord, 4>` holds, in order.
pub uninterp spec fn coord4_items(v: ArrayVec<Coord, 4>) -> Seq<Coord>;

/// Calls `ArrayVec::new`: the new vector holds nothing.
#[verifier::external_body]
pub(crate) fn coord4_new() -> (r: ArrayVec<Coord, 4>)
    ensures
        coord4_items(r) == Seq::<Coord>::empty(),
{
    ArrayVec::new()
}

/// Calls `ArrayVec::push`, which appends at the end (it panics when full, which the
/// precondition rules out).
#[verifier::external_body]
pub(crate) fn coord4_push(v: &mut ArrayVec<Coord, 4>, x: Coord)
    requires
        coord4_items(*old(v)).len() < 4,
    ensures
        coord4_items(*final(v)) == coord4_items(*old(v)).push(x),
{
    v.push(x)
}

} // verus!
