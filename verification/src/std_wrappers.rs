//! Standard-library vector operations that concern only capacity, which
//! vstd leaves without a specification.
use vstd::prelude::*;

use crate::types::Cell;

verus! {

/// `Vec::shrink_to_fit`: releases spare capacity; the elements are unchanged.
#[verifier::external_body]
pub(crate) fn vec_shrink_to_fit<T>(v: &mut Vec<T>)
    ensures
        final(v)@ == old(v)@,
{
    v.shrink_to_fit()
}

/// `Vec::shrink_to`: lowers the capacity towards `min_capacity`; the elements are unchanged.
#[verifier::external_body]
pub(crate) fn vec_shrink_to<T>(v: &mut Vec<T>, min_capacity: usize)
    ensures
        final(v)@ == old(v)@,
{
    v.shrink_to(min_capacity)
}

/// `Vec::capacity`: the number of elements the vector can hold without
/// reallocating, so at least as many as it holds. How many more depends on
/// the allocator and is not stated.
#[verifier::external_body]
pub(crate) fn vec_capacity<T>(v: &Vec<T>) -> (c: usize)
    ensures
        c >= v@.len(),
{
    v.capacity()
}

/// `slice::sort_by_key` keyed on the column: the cells end up ordered by
/// column, the sort being stable; the documentation promises a sorted
/// permutation of the slice.
#[verifier::external_body]
pub(crate) fn sort_cells_by_col(v: &mut Vec<Cell>)
    ensures
        final(v)@.to_multiset() == old(v)@.to_multiset(),
        final(v)@.len() == old(v)@.len(),
        forall|i: int, j: int| 0 <= i < j < final(v)@.len() ==> (#[trigger] final(v)@[i]).col <= (#[trigger] final(v)@[j]).col,
{
    v.sort_by_key(|c| c.col)
}

} // verus!
