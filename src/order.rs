//! The ordering that the generic tree relies on: a three-way comparison that
//! is a strict total order and that answers `Equal` exactly on equal values.

use core::cmp::Ordering;
use vstd::laws_cmp::*;
use vstd::laws_eq::*;
use vstd::prelude::*;
use vstd::std_specs::cmp::{OrdSpec, PartialOrdSpec};

verus! {

/// `a` comes strictly before `b`.
pub open spec fn lt<T: Ord>(a: T, b: T) -> bool {
    a.cmp_spec(&b) == Ordering::Less
}

/// `T`'s comparison obeys the laws of a total order, and compares two values
/// as `Equal` exactly when they are the same value.
pub open spec fn total_order<T: Ord>() -> bool {
    &&& obeys_cmp::<T>()
    &&& forall|a: T, b: T| #[trigger] a.cmp_spec(&b) == Ordering::Equal <==> a == b
}

/// The facts about `lt` that the tree's proofs use.
pub proof fn lemma_order_laws<T: Ord>()
    requires
        total_order::<T>(),
    ensures
        T::obeys_cmp_spec(),
        forall|a: T| !lt(a, a),
        forall|a: T, b: T| #[trigger] lt(a, b) ==> !lt(b, a),
        forall|a: T, b: T| a != b ==> lt(a, b) || lt(b, a),
        forall|a: T, b: T|
            #[trigger] a.cmp_spec(&b) == Ordering::Greater <==> !lt(a, b) && a != b,
        forall|a: T, b: T, c: T| #[trigger] lt(a, b) && #[trigger] lt(b, c) ==> lt(a, c),
{
    reveal(obeys_cmp_partial_ord);
    reveal(obeys_cmp_ord);
    reveal(obeys_partial_cmp_spec_properties);
    assert forall|a: T, b: T| #[trigger] lt(a, b) implies !lt(b, a) by {
        assert(a.partial_cmp_spec(&b) == Some(a.cmp_spec(&b)));
        assert(b.partial_cmp_spec(&a) == Some(b.cmp_spec(&a)));
    }
    assert forall|a: T, b: T| #[trigger]
        a.cmp_spec(&b) == Ordering::Greater <==> !lt(a, b) && a != b by {
        assert(a.partial_cmp_spec(&b) == Some(a.cmp_spec(&b)));
    }
    assert forall|a: T, b: T| a != b implies lt(a, b) || lt(b, a) by {
        assert(a.partial_cmp_spec(&b) == Some(a.cmp_spec(&b)));
        assert(b.partial_cmp_spec(&a) == Some(b.cmp_spec(&a)));
        assert(a.cmp_spec(&b) != Ordering::Equal);
    }
    assert forall|a: T, b: T, c: T| #[trigger] lt(a, b) && #[trigger] lt(b, c) implies lt(
        a,
        c,
    ) by {
        assert(a.partial_cmp_spec(&b) == Some(a.cmp_spec(&b)));
        assert(b.partial_cmp_spec(&c) == Some(b.cmp_spec(&c)));
        assert(a.partial_cmp_spec(&c) == Some(a.cmp_spec(&c)));
    }
}

/// The integers of type `i32` are totally ordered.
pub proof fn lemma_i32_total_order()
    ensures
        total_order::<i32>(),
{
    broadcast use group_laws_cmp;

}

} // verus!
