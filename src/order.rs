//! The ordering that the tree relies on, stated over vstd's model of
//! `PartialEq`, `PartialOrd` and `Ord`.

use core::cmp::Ordering;
use vstd::laws_cmp::obeys_cmp;
use vstd::laws_eq::obeys_concrete_eq;
use vstd::prelude::*;
use vstd::std_specs::cmp::{OrdSpec, PartialEqSpec, PartialOrdSpec};

verus! {

/// `T`'s comparison operators form a total order, and `==` holds of two
/// values exactly when they are the same value.
pub open spec fn total_order<T: Ord>() -> bool {
    obeys_cmp::<T>() && obeys_concrete_eq::<T>()
}

/// `a` orders strictly before `b`: what `a < b` returns.
pub open spec fn less<T: Ord>(a: T, b: T) -> bool {
    a.partial_cmp_spec(&b) == Some(Ordering::Less)
}

/// Every element of `s` orders strictly before every later one.
pub open spec fn strictly_ascending<T: Ord>(s: Seq<T>) -> bool {
    forall|i: int, j: int| 0 <= i < j < s.len() ==> less(#[trigger] s[i], #[trigger] s[j])
}

/// What a total order gives: `==` and `<` answer as their spec
/// functions say, and `less` is irreflexive, asymmetric, transitive and
/// total.
pub proof fn lemma_total_order<T: Ord>()
    requires
        total_order::<T>(),
    ensures
        T::obeys_eq_spec(),
        T::obeys_partial_cmp_spec(),
        forall|x: T, y: T| #[trigger] x.eq_spec(&y) <==> (x == y),
        forall|x: T| !less(x, x),
        forall|x: T, y: T| #[trigger] less(x, y) ==> !less(y, x),
        forall|x: T, y: T|
            #![trigger less(x, y)]
            #![trigger less(y, x)]
            x == y || less(x, y) || less(y, x),
        forall|x: T, y: T, z: T| #[trigger] less(x, y) && #[trigger] less(y, z) ==> less(x, z),
{
    reveal(vstd::laws_eq::obeys_eq_spec_properties);
    reveal(vstd::laws_eq::obeys_concrete_eq);
    reveal(vstd::laws_cmp::obeys_partial_cmp_spec_properties);
    reveal(vstd::laws_cmp::obeys_cmp_partial_ord);
    reveal(vstd::laws_cmp::obeys_cmp_ord);
    assert forall|x: T, y: T| x == y || less(x, y) || #[trigger] less(y, x) by {
        assert(x.partial_cmp_spec(&y) == Some(x.cmp_spec(&y)));
    }
}

} // verus!
