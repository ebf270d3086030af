//! The connection-set vector: the up-to-four side indices of an emitter's
//! in-bounds, accepting neighbors, gathered fresh on every propagation step.
//! The storage is `arrayvec`'s fixed-capacity vector, held behind trusted
//! wrappers; [`conn_sides`] names what it holds.

use arrayvec::ArrayVec;
use vstd::prelude::*;

verus! {

#[verifier::external_type_specification]
#[verifier::external_body]
#[verifier::reject_recursive_types(T)]
pub struct ExArrayVec<T, const CAP: usize>(ArrayVec<T, CAP>);

/// The sequence of side indices a connection-set vector holds, in the order
/// they were pushed.
pub uninterp spec fn conn_sides(v: ArrayVec<usize, 4>) -> Seq<usize>;

/// Relies on `ArrayVec::new`: a fresh vector holds nothing.
#[verifier::external_body]
pub(crate) fn conns_new() -> (r: ArrayVec<usize, 4>)
    ensures
        conn_sides(r) == Seq::<usize>::empty(),
{
    ArrayVec::new()
}

/// Relies on `ArrayVec::push`: it appends the element, and panics when the
/// vector is at capacity, which the precondition rules out.
#[verifier::external_body]
pub(crate) fn conns_push(v: &mut ArrayVec<usize, 4>, side: usize)
    requires
        conn_sides(*old(v)).len() < 4,
    ensures
        conn_sides(*final(v)) == conn_sides(*old(v)).push(side),
{
    v.push(side)
}

/// Relies on `ArrayVec::len`: the number of elements held.
#[verifier::external_body]
pub(crate) fn conns_len(v: &ArrayVec<usize, 4>) -> (r: usize)
    ensures
        r == conn_sides(*v).len(),
{
    v.len()
}

/// Relies on the slice indexing `ArrayVec` dereferences to: the element at
/// `i`, which exists because the precondition bounds `i`.
#[verifier::external_body]
pub(crate) fn conns_get(v: &ArrayVec<usize, 4>, i: usize) -> (r: usize)
    requires
        i < conn_sides(*v).len(),
    ensures
        r == conn_sides(*v)[i as int],
{
    v[i]
}

} // verus!
