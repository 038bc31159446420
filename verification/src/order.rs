//! The vocabulary of total orders that the rest of the crate is stated in.
//!
//! The element type is any `T: Ord + Clone`. What the proofs need of it is
//! collected in [`orderable`]: comparisons obey the laws of a total order, and
//! a clone is equal to the value it was made from.

use core::cmp::Ordering;
use vstd::laws_cmp::obeys_cmp;
use vstd::prelude::*;
use vstd::relations::{sorted_by, total_ordering};
use vstd::std_specs::cmp::{OrdSpec, PartialOrdSpec};

verus! {

/// `a` comes strictly before `b`.
pub open spec fn lt<T: Ord>(a: T, b: T) -> bool {
    a.cmp_spec(&b) == Ordering::Less
}

/// `a` comes before `b` or is `b`.
pub open spec fn le<T: Ord>(a: T, b: T) -> bool {
    a.cmp_spec(&b) != Ordering::Greater
}

/// [`le`] as a relation, in the form that `vstd::relations` works with.
pub open spec fn leq<T: Ord>() -> spec_fn(T, T) -> bool {
    |a: T, b: T| le(a, b)
}

/// The sequence is in ascending order.
pub open spec fn ascending<T: Ord>(s: Seq<T>) -> bool {
    sorted_by(s, leq::<T>())
}

/// The values of the sequence in ascending order: under a total order, the
/// one ascending sequence that holds the values of `s`, each as often as `s`
/// holds it.
pub open spec fn sorted<T: Ord>(s: Seq<T>) -> Seq<T> {
    s.sort_by(leq::<T>())
}

/// The comparisons of `T` form a total order: they obey the laws that `Ord`
/// documents, and two values that compare equal are the same value.
pub open spec fn total_order<T: Ord>() -> bool {
    &&& obeys_cmp::<T>()
    &&& forall|a: T, b: T| #[trigger] a.cmp_spec(&b) == Ordering::Equal ==> a == b
}

/// Whatever `clone` returns is equal to the value it was called on.
pub open spec fn faithful_clone<T: Clone>() -> bool {
    forall|a: T, b: T| #[trigger] call_ensures(T::clone, (&a,), b) ==> a == b
}

/// What the containers of this crate ask of their element type.
pub open spec fn orderable<T: Ord + Clone>() -> bool {
    &&& total_order::<T>()
    &&& faithful_clone::<T>()
}

/// The laws of a total order, stated over [`le`] and [`lt`].
pub proof fn lemma_order_laws<T: Ord>()
    requires
        total_order::<T>(),
    ensures
        forall|a: T| #[trigger] le(a, a),
        forall|a: T, b: T| #[trigger] le(a, b) || le(b, a),
        forall|a: T, b: T| #[trigger] le(a, b) && le(b, a) ==> a == b,
        forall|a: T, b: T, c: T| #[trigger] le(a, b) && #[trigger] le(b, c) ==> le(a, c),
        forall|a: T, b: T| #[trigger] lt(a, b) <==> !le(b, a),
        forall|a: T, b: T| #[trigger] lt(a, b) <==> le(a, b) && a != b,
{
    reveal(vstd::laws_cmp::obeys_cmp_partial_ord);
    reveal(vstd::laws_cmp::obeys_cmp_ord);
    reveal(vstd::laws_cmp::obeys_partial_cmp_spec_properties);
    reveal(vstd::laws_eq::obeys_eq_spec_properties);
    assert forall|a: T, b: T| #[trigger] lt(a, b) <==> !le(b, a) by {
        assert(a.partial_cmp_spec(&b) == Some(a.cmp_spec(&b)));
        assert(b.partial_cmp_spec(&a) == Some(b.cmp_spec(&a)));
    }
    assert forall|a: T| #[trigger] le(a, a) by {
        assert(a.partial_cmp_spec(&a) == Some(a.cmp_spec(&a)));
    }
    assert forall|a: T, b: T, c: T| #[trigger] le(a, b) && #[trigger] le(b, c) implies le(
        a,
        c,
    ) by {
        assert(a.partial_cmp_spec(&b) == Some(a.cmp_spec(&b)));
        assert(b.partial_cmp_spec(&c) == Some(b.cmp_spec(&c)));
        assert(a.partial_cmp_spec(&c) == Some(a.cmp_spec(&c)));
    }
}

/// [`leq`] is a total ordering in the sense of `vstd::relations`.
pub proof fn lemma_leq_total_ordering<T: Ord>()
    requires
        total_order::<T>(),
    ensures
        total_ordering(leq::<T>()),
{
    lemma_order_laws::<T>();
}

/// Whether `a` comes strictly before `b`.
pub fn less<T: Ord>(a: &T, b: &T) -> (r: bool)
    requires
        total_order::<T>(),
    ensures
        r == lt(*a, *b),
{
    proof {
        reveal(vstd::laws_cmp::obeys_cmp_ord);
    }
    match a.cmp(b) {
        Ordering::Less => true,
        _ => false,
    }
}

/// A copy of `a`.
pub fn duplicate<T: Clone>(a: &T) -> (r: T)
    requires
        faithful_clone::<T>(),
    ensures
        r == *a,
{
    a.clone()
}

/// The primitive integer types are orderable: their comparisons are those of
/// the integers, and their clones are copies.
pub proof fn lemma_integers_orderable()
    ensures
        orderable::<u8>(),
        orderable::<u16>(),
        orderable::<u32>(),
        orderable::<u64>(),
        orderable::<u128>(),
        orderable::<usize>(),
        orderable::<i8>(),
        orderable::<i16>(),
        orderable::<i32>(),
        orderable::<i64>(),
        orderable::<i128>(),
        orderable::<isize>(),
{
    broadcast use vstd::laws_cmp::group_laws_cmp;

}

} // verus!
