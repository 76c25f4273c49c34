//! The fixed-capacity list that holds a cell's face-neighbours, kept in an
//! `arrayvec::ArrayVec` so that no neighbour query allocates.
use arrayvec::ArrayVec;
use vstd::prelude::*;

verus! {

#[verifier::external_type_specification]
#[verifier::external_body]
#[verifier::reject_recursive_types(T)]
pub struct ExArrayVec<T, const CAP: usize>(ArrayVec<T, CAP>);

/// The items a neighbour list holds, in order.
pub uninterp spec fn neighbor_items(v: ArrayVec<usize, 12>) -> Seq<usize>;

/// Calls `ArrayVec::new`, which returns a list holding no items.
#[verifier::external_body]
pub(crate) fn neighbor_list_new() -> (v: ArrayVec<usize, 12>)
    ensures
        neighbor_items(v) == Seq::<usize>::empty(),
{
    ArrayVec::new()
}

/// Calls `ArrayVec::push`, which appends `x` after the items already held. It
/// panics when the list is full, so the list must hold fewer than 12 items.
#[verifier::external_body]
pub(crate) fn neighbor_list_push(v: &mut ArrayVec<usize, 12>, x: usize)
    requires
        neighbor_items(*old(v)).len() < 12,
    ensures
        neighbor_items(*final(v)) == neighbor_items(*old(v)).push(x),
{
    v.push(x)
}

/// Calls `ArrayVec::as_slice`, which views the held items, in order, as a slice.
#[verifier::external_body]
pub(crate) fn neighbor_list_as_slice(v: &ArrayVec<usize, 12>) -> (s: &[usize])
    ensures
        s@ == neighbor_items(*v),
{
    v.as_slice()
}

} // verus!
