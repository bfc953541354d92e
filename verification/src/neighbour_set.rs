//! The neighbour sets of rooms: `tinyset::SetUsize`, used through wrappers
//! whose contracts state what tinyset's source shows each method does to the
//! set's elements.
use vstd::prelude::*;

use tinyset::SetUsize;

verus! {

#[verifier::external_type_specification]
#[verifier::external_body]
pub struct ExSetUsize(tinyset::SetUsize);

/// The set of room ids adjacent to a room.
pub type NeighbourSet = SetUsize;

/// The elements a `SetUsize` holds.
pub uninterp spec fn set_elems(s: SetUsize) -> Set<usize>;

/// `SetUsize::new`: an empty set.
#[verifier::external_body]
pub(crate) fn set_new() -> (s: SetUsize)
    ensures
        set_elems(s) == Set::<usize>::empty(),
{
    SetUsize::new()
}

/// `SetUsize::insert`: adds `elem`; returns whether it was absent before.
#[verifier::external_body]
pub(crate) fn set_insert(s: &mut SetUsize, elem: usize) -> (added: bool)
    ensures
        set_elems(*final(s)) == set_elems(*old(s)).insert(elem),
        added == !set_elems(*old(s)).contains(elem),
{
    s.insert(elem)
}

/// `SetUsize::remove`: removes `elem`; returns whether it was present.
#[verifier::external_body]
pub(crate) fn set_remove(s: &mut SetUsize, elem: usize) -> (removed: bool)
    ensures
        set_elems(*final(s)) == set_elems(*old(s)).remove(elem),
        removed == set_elems(*old(s)).contains(elem),
{
    s.remove(elem)
}

/// `SetUsize::len`: the number of elements.
#[verifier::external_body]
pub(crate) fn set_len(s: &SetUsize) -> (n: usize)
    ensures
        n == set_elems(*s).len(),
{
    s.len()
}

/// `SetUsize::iter`, collected: every element once, in the set's own order.
#[verifier::external_body]
pub(crate) fn set_to_vec(s: &SetUsize) -> (v: Vec<usize>)
    ensures
        v@.no_duplicates(),
        v@.to_set() == set_elems(*s),
{
    s.iter().collect()
}

/// `Extend::extend` of `SetUsize` with another set: inserts each of its elements.
#[verifier::external_body]
pub(crate) fn set_extend(s: &mut SetUsize, other: SetUsize)
    ensures
        set_elems(*final(s)) == set_elems(*old(s)).union(set_elems(other)),
{
    s.extend(other)
}

} // verus!
