//! The ordering that the heap is arranged by, stated over vstd's
//! specification of `PartialOrd` / `Ord`, together with the total-order
//! facts that the heap proofs lean on.

use vstd::prelude::*;

verus! {

use core::cmp::Ordering;
use vstd::std_specs::cmp::PartialOrdSpec;
use vstd::laws_cmp::obeys_cmp;

/// `x` compares less than or equal to `y` under the type's own order.
pub open spec fn le<T: PartialOrd>(x: T, y: T) -> bool {
    x.partial_cmp_spec(&y) matches Some(Ordering::Less | Ordering::Equal)
}

/// `x` compares strictly less than `y` under the type's own order.
pub open spec fn lt<T: PartialOrd>(x: T, y: T) -> bool {
    x.partial_cmp_spec(&y) == Some(Ordering::Less)
}

/// For a type whose comparisons form a lawful total order, `le` is
/// reflexive, total and transitive, and `lt` is its strict part.
pub proof fn lemma_le_properties<T: Ord>()
    requires
        obeys_cmp::<T>(),
    ensures
        T::obeys_partial_cmp_spec(),
        forall|x: T| #[trigger] le(x, x),
        forall|x: T, y: T| #[trigger] le(x, y) || #[trigger] le(y, x),
        forall|x: T, y: T, z: T| #[trigger] le(x, y) && #[trigger] le(y, z) ==> le(x, z),
        forall|x: T, y: T| #[trigger] lt(x, y) <==> !le(y, x),
        forall|x: T, y: T| #[trigger] lt(x, y) ==> le(x, y),
        forall|x: T, y: T|
            x.partial_cmp_spec(&y) == Some(Ordering::Greater) <==> #[trigger] lt(y, x),
{
    reveal(vstd::laws_cmp::obeys_cmp_partial_ord);
    reveal(vstd::laws_cmp::obeys_cmp_ord);
    reveal(vstd::laws_cmp::obeys_partial_cmp_spec_properties);
    reveal(vstd::laws_eq::obeys_eq_spec_properties);
}

} // verus!
