//! Single items seen as slices.

use vstd::prelude::*;

verus! {

/// One item seen as a slice: `core::slice::from_ref`, which gives the slice of length 1 that
/// holds the item, without copying it.
#[verifier::external_body]
pub(crate) fn ref_slice<T>(item: &T) -> (slice: &[T])
    ensures
        slice@ == seq![*item],
{
    core::slice::from_ref(item)
}

/// One item seen as a slice through which it can be replaced: `core::slice::from_mut`, which
/// gives the slice of length 1 that holds the item, without copying it.
#[verifier::external_body]
pub(crate) fn ref_slice_mut<T>(item: &mut T) -> (slice: &mut [T])
    ensures
        slice@ == seq![*old(item)],
        final(slice)@ == seq![*final(item)],
{
    core::slice::from_mut(item)
}

} // verus!
