//! What the containers ask of `Vec`'s allocation.
//!
//! These three functions of `std::vec::Vec` have no specification in `vstd`.
//! Each stands here with a contract that is taken on trust.
//!
//! A `Vec` panics when it is asked for more room than can be allocated. The
//! containers rule that out in the `requires` of every function that takes a
//! number of elements to make room for, by [`allocatable`].
use vstd::prelude::*;

verus! {

/// A vector of `n` elements of type `T` can be allocated: `n` fits a `usize`,
/// and the elements take no more than `isize::MAX` bytes.
pub open spec fn allocatable<T>(n: int) -> bool {
    n <= usize::MAX && n * vstd::layout::size_of::<T>() <= isize::MAX
}

/// `Vec::capacity`: the number of elements the vector has room for. The
/// figure depends on the allocator; the contract says only that it is not
/// below the length.
#[verifier::external_body]
pub(crate) fn vec_capacity<T>(v: &Vec<T>) -> (r: usize)
    ensures
        r >= v@.len(),
{
    v.capacity()
}

/// `Vec::shrink_to_fit`: gives room back to the allocator. The contract
/// says that the elements stay as they are.
#[verifier::external_body]
pub(crate) fn vec_shrink_to_fit<T>(v: &mut Vec<T>)
    ensures
        final(v)@ == old(v)@,
{
    v.shrink_to_fit()
}

/// `Vec::reserve_exact`: makes room for `additional` more elements. It
/// panics where the new capacity cannot be allocated, which `requires`
/// rules out. The contract says that the elements stay as they are.
#[verifier::external_body]
pub(crate) fn vec_reserve_exact<T>(v: &mut Vec<T>, additional: usize)
    requires
        allocatable::<T>(old(v)@.len() + additional),
    ensures
        final(v)@ == old(v)@,
{
    v.reserve_exact(additional)
}

} // verus!
