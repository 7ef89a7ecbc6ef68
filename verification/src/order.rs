//! The total order on edge targets, as the comparison operators of the
//! element type define it.

use core::cmp::Ordering;
use vstd::laws_cmp::obeys_cmp;
use vstd::prelude::*;
use vstd::std_specs::cmp::{OrdSpec, PartialEqSpec, PartialOrdSpec};

verus! {

/// The operators `<` and `==` of `T` compute a total order and the
/// equivalence that belongs to it.
pub open spec fn lawful<T: Ord>() -> bool {
    obeys_cmp::<T>()
}

/// `a` comes strictly before `b`.
pub open spec fn less<T: Ord>(a: T, b: T) -> bool {
    a.partial_cmp_spec(&b) == Some(Ordering::Less)
}

/// `a` and `b` compare equal.
pub open spec fn same<T: Ord>(a: T, b: T) -> bool {
    a.eq_spec(&b)
}

/// Of `less(a, b)`, `same(a, b)` and `less(b, a)` exactly one holds.
pub proof fn lemma_trichotomy<T: Ord>(a: T, b: T)
    requires
        lawful::<T>(),
    ensures
        less(a, b) || same(a, b) || less(b, a),
        !(less(a, b) && same(a, b)),
        !(less(b, a) && same(a, b)),
        !(less(a, b) && less(b, a)),
{
    reveal(vstd::laws_cmp::obeys_partial_cmp_spec_properties);
    reveal(vstd::laws_cmp::obeys_cmp_partial_ord);
    reveal(vstd::laws_cmp::obeys_cmp_ord);
    reveal(vstd::laws_eq::obeys_eq_spec_properties);
    let ab = a.partial_cmp_spec(&b);
    let ba = b.partial_cmp_spec(&a);
    assert(ab == Some(a.cmp_spec(&b)));
    assert(ba == Some(b.cmp_spec(&a)));
    if less(a, b) && less(b, a) {
        assert(a.partial_cmp_spec(&a) == Some(Ordering::Less));
        assert(a.partial_cmp_spec(&a) == Some(Ordering::Greater));
    }
}

/// `same` is reflexive and symmetric.
pub proof fn lemma_same_symmetric<T: Ord>(a: T, b: T)
    requires
        lawful::<T>(),
    ensures
        same(a, a),
        same(a, b) == same(b, a),
{
    reveal(vstd::laws_eq::obeys_eq_spec_properties);
    lemma_trichotomy(a, a);
}

/// `less` is transitive, also across values that compare equal.
pub proof fn lemma_less_transitive<T: Ord>(a: T, b: T, c: T)
    requires
        lawful::<T>(),
    ensures
        less(a, b) && less(b, c) ==> less(a, c),
        less(a, b) && same(b, c) ==> less(a, c),
        same(a, b) && less(b, c) ==> less(a, c),
        same(a, b) && same(b, c) ==> same(a, c),
        less(a, b) && !less(c, b) ==> less(a, c),
        !less(b, a) && less(b, c) ==> less(a, c),
        !less(b, a) && !less(c, b) ==> !less(c, a),
{
    reveal(vstd::laws_cmp::obeys_partial_cmp_spec_properties);
    reveal(vstd::laws_cmp::obeys_cmp_partial_ord);
    reveal(vstd::laws_cmp::obeys_cmp_ord);
    reveal(vstd::laws_eq::obeys_eq_spec_properties);
    lemma_trichotomy(a, b);
    lemma_trichotomy(b, c);
    lemma_trichotomy(a, c);
    lemma_trichotomy(c, b);
    lemma_trichotomy(c, a);
    lemma_trichotomy(b, a);
    lemma_same_symmetric(a, b);
    lemma_same_symmetric(b, c);
    lemma_same_symmetric(a, c);
}

/// Whether `a` comes strictly before `b`.
pub fn is_less<T: Ord>(a: &T, b: &T) -> (r: bool)
    requires
        lawful::<T>(),
    ensures
        r == less(*a, *b),
{
    proof {
        reveal(vstd::laws_cmp::obeys_cmp_partial_ord);
    }
    a < b
}

/// Whether `a` and `b` compare equal.
pub fn is_same<T: Ord>(a: &T, b: &T) -> (r: bool)
    requires
        lawful::<T>(),
    ensures
        r == same(*a, *b),
{
    proof {
        reveal(vstd::laws_cmp::obeys_cmp_partial_ord);
    }
    a == b
}

} // verus!
