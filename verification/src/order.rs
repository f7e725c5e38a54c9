//! The order on keys.
//!
//! The containers of this crate compare keys with [`Ord::cmp`] and nothing
//! else. What they need of a key type is gathered in [`total_order`]: the
//! comparison is a function of its arguments, it calls two keys equal exactly
//! when they are the same value, and "less than" is a strict total order.
use std::cmp::Ordering;
use vstd::laws_cmp::obeys_cmp;
use vstd::laws_cmp::obeys_cmp_ord;
use vstd::laws_cmp::obeys_cmp_partial_ord;
use vstd::laws_cmp::obeys_partial_cmp_spec_properties;
use vstd::laws_eq::obeys_concrete_eq;
use vstd::prelude::*;
use vstd::std_specs::cmp::OrdSpec;
use vstd::std_specs::cmp::PartialEqSpec;
use vstd::std_specs::cmp::PartialOrdSpec;

verus! {

/// The outcome of comparing two keys.
#[derive(Clone, Copy, PartialEq, Eq, Debug)]
pub enum Comparison {
    Less,
    Equal,
    Greater,
}

/// How `a` stands to `b` in the order that `Ord` gives the type.
pub open spec fn relate<T: Ord>(a: T, b: T) -> Comparison {
    match a.cmp_spec(&b) {
        Ordering::Less => Comparison::Less,
        Ordering::Equal => Comparison::Equal,
        Ordering::Greater => Comparison::Greater,
    }
}

/// `a` is strictly below `b`.
pub open spec fn lt<T: Ord>(a: T, b: T) -> bool {
    relate(a, b) is Less
}

/// The key type is totally ordered: `cmp` is deterministic, it answers
/// `Equal` exactly on identical values, `Greater` exactly where the swapped
/// comparison answers `Less`, and `Less` is transitive.
#[verifier::opaque]
pub open spec fn total_order<T: Ord>() -> bool {
    &&& T::obeys_cmp_spec()
    &&& forall|a: T, b: T| (#[trigger] relate(a, b) is Equal) <==> a == b
    &&& forall|a: T, b: T| (#[trigger] relate(a, b) is Greater) <==> relate(b, a) is Less
    &&& forall|a: T, b: T, c: T|
        #![trigger relate(a, b), relate(b, c)]
        relate(a, b) is Less && relate(b, c) is Less ==> relate(a, c) is Less
}

/// Of two keys exactly one holds: the first is below, they are the same, or
/// the second is below.
pub proof fn lemma_trichotomy<T: Ord>(a: T, b: T)
    requires
        total_order::<T>(),
    ensures
        relate(a, b) is Less <==> lt(a, b),
        relate(a, b) is Equal <==> a == b,
        relate(a, b) is Greater <==> lt(b, a),
        lt(a, b) || a == b || lt(b, a),
        !(lt(a, b) && lt(b, a)),
        !(lt(a, b) && a == b),
        !(lt(b, a) && a == b),
{
    reveal(total_order);
    assert(relate(b, a) is Equal <==> b == a);
}

/// "Below" is transitive.
pub proof fn lemma_lt_transitive<T: Ord>(a: T, b: T, c: T)
    requires
        total_order::<T>(),
        lt(a, b),
        lt(b, c),
    ensures
        lt(a, c),
{
    reveal(total_order);
}

/// Every type that keeps the comparison laws of `vstd`, and whose `==` is
/// identity of values, is totally ordered. This covers the integer types and
/// what `vstd` builds from them.
pub proof fn lemma_total_order_from_laws<T: Ord>()
    requires
        obeys_cmp::<T>(),
        obeys_concrete_eq::<T>(),
    ensures
        total_order::<T>(),
{
    reveal(total_order);
    reveal(obeys_cmp_ord);
    reveal(obeys_cmp_partial_ord);
    reveal(obeys_partial_cmp_spec_properties);
    reveal(obeys_concrete_eq);
    assert forall|a: T, b: T| (#[trigger] relate(a, b) is Equal) <==> a == b by {
        assert(a.partial_cmp_spec(&b) == Some(a.cmp_spec(&b)));
        assert(a.partial_cmp_spec(&b) == Some(Ordering::Equal) <==> a.eq_spec(&b));
    }
    assert forall|a: T, b: T| (#[trigger] relate(a, b) is Greater) <==> relate(b, a) is Less by {
        assert(a.partial_cmp_spec(&b) == Some(a.cmp_spec(&b)));
        assert(b.partial_cmp_spec(&a) == Some(b.cmp_spec(&a)));
    }
    assert forall|a: T, b: T, c: T|
        #![trigger relate(a, b), relate(b, c)]
        relate(a, b) is Less && relate(b, c) is Less implies relate(a, c) is Less by {
        assert(a.partial_cmp_spec(&b) == Some(a.cmp_spec(&b)));
        assert(b.partial_cmp_spec(&c) == Some(b.cmp_spec(&c)));
        assert(a.partial_cmp_spec(&c) == Some(a.cmp_spec(&c)));
    }
}

/// The integer types are totally ordered.
pub proof fn lemma_total_order_integers()
    ensures
        total_order::<u8>(),
        total_order::<u16>(),
        total_order::<u32>(),
        total_order::<u64>(),
        total_order::<u128>(),
        total_order::<usize>(),
        total_order::<i8>(),
        total_order::<i16>(),
        total_order::<i32>(),
        total_order::<i64>(),
        total_order::<i128>(),
        total_order::<isize>(),
{
    broadcast use vstd::laws_cmp::group_laws_cmp;
    broadcast use vstd::laws_eq::group_laws_eq;

    lemma_total_order_from_laws::<u8>();
    lemma_total_order_from_laws::<u16>();
    lemma_total_order_from_laws::<u32>();
    lemma_total_order_from_laws::<u64>();
    lemma_total_order_from_laws::<u128>();
    lemma_total_order_from_laws::<usize>();
    lemma_total_order_from_laws::<i8>();
    lemma_total_order_from_laws::<i16>();
    lemma_total_order_from_laws::<i32>();
    lemma_total_order_from_laws::<i64>();
    lemma_total_order_from_laws::<i128>();
    lemma_total_order_from_laws::<isize>();
}

/// Compares two keys.
pub fn compare<T: Ord>(a: &T, b: &T) -> (r: Comparison)
    ensures
        total_order::<T>() ==> r == relate(*a, *b),
{
    proof {
        reveal(total_order);
    }
    match a.cmp(b) {
        Ordering::Less => Comparison::Less,
        Ordering::Equal => Comparison::Equal,
        Ordering::Greater => Comparison::Greater,
    }
}

} // verus!
