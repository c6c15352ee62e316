//! Small verified helpers shared across the crate.

use vstd::prelude::*;

verus! {

/// Mutable access to one element of a vector.
pub(crate) fn elem_mut<T>(v: &mut Vec<T>, i: usize) -> (r: &mut T)
    requires
        i < old(v)@.len(),
    ensures
        *r == old(v)@[i as int],
        final(v)@ == old(v)@.update(i as int, *final(r)),
{
    &mut v[i]
}

} // verus!
