//! The order that the algorithms of this crate rely on, stated once over `Ord`.

use core::cmp::Ordering;
use vstd::prelude::*;
use vstd::std_specs::cmp::OrdSpec;

verus! {

/// The comparisons of `T` do what their specifications say, any two values compare, and
/// "ordered before" is transitive and the reverse of "ordered after". Values that compare as
/// equal need not be the same value: they tie. `vstd::laws_cmp` proves this of the integer
/// types and of references, options and tuples of such types.
pub open spec fn total_order<T: Ord>() -> bool {
    vstd::laws_cmp::obeys_cmp::<T>()
}

/// `a` is ordered strictly before `b`.
pub open spec fn lt<T: Ord>(a: T, b: T) -> bool {
    a.cmp_spec(&b) == Ordering::Less
}

/// `a` is ordered before `b` or ties with it.
pub open spec fn le<T: Ord>(a: T, b: T) -> bool {
    !lt(b, a)
}

/// `a` and `b` tie: neither is ordered before the other.
pub open spec fn tied<T: Ord>(a: T, b: T) -> bool {
    !lt(a, b) && !lt(b, a)
}

/// The later of `a` and `b` in the order; `b` when they tie.
pub open spec fn max_of<T: Ord>(a: T, b: T) -> T {
    if lt(b, a) {
        a
    } else {
        b
    }
}

/// What a total order gives for three values, in terms of `lt` alone.
proof fn lemma_strict_order<T: Ord>(a: T, b: T, c: T)
    requires
        total_order::<T>(),
    ensures
        !lt(a, a),
        lt(a, b) ==> !lt(b, a),
        lt(a, b) && lt(b, c) ==> lt(a, c),
        !lt(b, a) && !lt(c, b) ==> !lt(c, a),
{
    reveal(vstd::laws_cmp::obeys_partial_cmp_spec_properties);
    reveal(vstd::laws_cmp::obeys_cmp_ord);
    reveal(vstd::laws_cmp::obeys_cmp_partial_ord);
    reveal(vstd::laws_eq::obeys_eq_spec_properties);
}

/// Nothing is ordered before itself.
pub proof fn lemma_lt_irreflexive<T: Ord>(a: T)
    requires
        total_order::<T>(),
    ensures
        !lt(a, a),
{
    lemma_strict_order(a, a, a);
}

/// Of two values, at most one is ordered before the other.
pub proof fn lemma_lt_asymmetric<T: Ord>(a: T, b: T)
    requires
        total_order::<T>(),
        lt(a, b),
    ensures
        !lt(b, a),
{
    lemma_strict_order(a, b, a);
}

/// Of two values, one is ordered no later than the other.
pub proof fn lemma_le_total<T: Ord>(a: T, b: T)
    requires
        total_order::<T>(),
    ensures
        le(a, b) || le(b, a),
{
    lemma_strict_order(a, b, a);
}

/// "Ordered no later than" is transitive.
pub proof fn lemma_le_transitive<T: Ord>(a: T, b: T, c: T)
    requires
        total_order::<T>(),
        le(a, b),
        le(b, c),
    ensures
        le(a, c),
{
    lemma_strict_order(a, b, c);
}

/// What is ordered no later than something that is ordered before `c` is ordered before `c`.
pub proof fn lemma_le_lt_transitive<T: Ord>(a: T, b: T, c: T)
    requires
        total_order::<T>(),
        le(a, b),
        lt(b, c),
    ensures
        lt(a, c),
{
    lemma_strict_order(c, a, b);
}

/// What is ordered before something that is ordered no later than `c` is ordered before `c`.
pub proof fn lemma_lt_le_transitive<T: Ord>(a: T, b: T, c: T)
    requires
        total_order::<T>(),
        lt(a, b),
        le(b, c),
    ensures
        lt(a, c),
{
    lemma_strict_order(b, c, a);
}

/// Every value ties with itself.
pub proof fn lemma_tied_reflexive<T: Ord>(a: T)
    requires
        total_order::<T>(),
    ensures
        tied(a, a),
{
    lemma_lt_irreflexive(a);
}

/// Values that tie with the same value tie with each other.
pub proof fn lemma_tied_transitive<T: Ord>(a: T, b: T, c: T)
    requires
        total_order::<T>(),
        tied(a, b),
        tied(b, c),
    ensures
        tied(a, c),
{
    lemma_le_transitive(a, b, c);
    lemma_le_transitive(c, b, a);
}

/// `a < b`, with its result stated over [`lt`].
pub fn less<T: Ord>(a: &T, b: &T) -> (r: bool)
    requires
        total_order::<T>(),
    ensures
        r == lt(*a, *b),
{
    proof {
        reveal(vstd::laws_cmp::obeys_cmp_ord);
        reveal(vstd::laws_cmp::obeys_cmp_partial_ord);
    }
    *a < *b
}

/// `a.max(b)`, with its result stated over [`max_of`].
pub fn larger<T: Ord>(a: T, b: T) -> (r: T)
    requires
        total_order::<T>(),
    ensures
        r == max_of(a, b),
{
    proof {
        reveal(vstd::laws_cmp::obeys_cmp_ord);
    }
    a.max(b)
}

} // verus!
