use vstd::prelude::*;
use vstd::laws_cmp::{obeys_cmp, obeys_cmp_ord, obeys_cmp_partial_ord, obeys_partial_cmp_spec_properties};
use vstd::laws_eq::{obeys_concrete_eq, obeys_eq_spec_properties};
use vstd::std_specs::cmp::{OrdSpec, PartialEqSpec, PartialOrdSpec};
use core::cmp::Ordering;

verus! {

/// Whether the comparisons of `T` form a total order of which the verifier
/// knows the laws: every two values compare, `<` is transitive, `a < b` is
/// `b > a`, and `==` holds exactly of the values that compare as equal.
pub open spec fn total_order<T: Ord>() -> bool {
    obeys_cmp::<T>()
}

/// Whether values of `T` that compare as equal are one and the same value.
pub open spec fn equal_is_same<T: Ord>() -> bool {
    obeys_concrete_eq::<T>()
}

/// `a < b` in the order of `T`.
pub open spec fn lt<T: Ord>(a: T, b: T) -> bool {
    a.partial_cmp_spec(&b) == Some(Ordering::Less)
}

/// `a == b` in the order of `T`.
pub open spec fn same_rank<T: Ord>(a: T, b: T) -> bool {
    a.partial_cmp_spec(&b) == Some(Ordering::Equal)
}

/// `a > b` in the order of `T`.
pub open spec fn above<T: Ord>(a: T, b: T) -> bool {
    a.partial_cmp_spec(&b) == Some(Ordering::Greater)
}

/// `a <= b` in the order of `T`.
pub open spec fn le<T: Ord>(a: T, b: T) -> bool {
    lt(a, b) || same_rank(a, b)
}

/// Whether `s` ascends: no element is greater than a later one.
pub open spec fn sorted<T: Ord>(s: Seq<T>) -> bool {
    forall|i: int, j: int| 0 <= i <= j < s.len() ==> le(#[trigger] s[i], #[trigger] s[j])
}

/// Of two values exactly one of `a < b`, `a == b`, `b < a` holds.
pub proof fn lemma_trichotomy<T: Ord>(a: T, b: T)
    requires
        total_order::<T>(),
    ensures
        lt(a, b) || same_rank(a, b) || lt(b, a),
        !(lt(a, b) && same_rank(a, b)),
        !(lt(a, b) && lt(b, a)),
        !(same_rank(a, b) && lt(b, a)),
        same_rank(a, b) == same_rank(b, a),
        same_rank(a, b) == a.eq_spec(&b),
        lt(b, a) == above(a, b),
        le(a, b) == !lt(b, a),
{
    reveal(obeys_partial_cmp_spec_properties);
    reveal(obeys_cmp_partial_ord);
    reveal(obeys_cmp_ord);
    reveal(obeys_eq_spec_properties);
    let ab = a.cmp_spec(&b);
    let ba = b.cmp_spec(&a);
    assert(a.partial_cmp_spec(&b) == Some(ab));
    assert(b.partial_cmp_spec(&a) == Some(ba));
    assert(a.eq_spec(&b) == b.eq_spec(&a));
    match ab {
        Ordering::Less => {},
        Ordering::Equal => {},
        Ordering::Greater => {},
    }
    match ba {
        Ordering::Less => {},
        Ordering::Equal => {},
        Ordering::Greater => {},
    }
}

/// `<` is transitive.
pub proof fn lemma_lt_transitive<T: Ord>(a: T, b: T, c: T)
    requires
        total_order::<T>(),
        lt(a, b),
        lt(b, c),
    ensures
        lt(a, c),
{
    reveal(obeys_partial_cmp_spec_properties);
}

/// Values that compare as equal stand alike to any third value.
pub proof fn lemma_same_rank_alike<T: Ord>(a: T, b: T, c: T)
    requires
        total_order::<T>(),
        same_rank(a, b),
    ensures
        lt(a, c) == lt(b, c),
        lt(c, a) == lt(c, b),
        same_rank(a, c) == same_rank(b, c),
{
    reveal(obeys_eq_spec_properties);
    lemma_trichotomy(a, b);
    lemma_trichotomy(a, c);
    lemma_trichotomy(b, c);
    lemma_trichotomy(b, a);
    lemma_trichotomy(c, a);
    lemma_trichotomy(c, b);
    if same_rank(a, c) {
        assert(b.eq_spec(&a) && a.eq_spec(&c));
        assert(b.eq_spec(&c));
    }
    if same_rank(b, c) {
        assert(a.eq_spec(&b) && b.eq_spec(&c));
        assert(a.eq_spec(&c));
    }
    if lt(a, c) && lt(c, b) {
        lemma_lt_transitive(a, c, b);
    }
    if lt(b, c) && lt(c, a) {
        lemma_lt_transitive(b, c, a);
    }
}

/// `<=` is transitive.
pub proof fn lemma_le_transitive<T: Ord>(a: T, b: T, c: T)
    requires
        total_order::<T>(),
        le(a, b),
        le(b, c),
    ensures
        le(a, c),
{
    if same_rank(a, b) {
        lemma_same_rank_alike(a, b, c);
    } else if same_rank(b, c) {
        lemma_trichotomy(b, c);
        lemma_same_rank_alike(c, b, a);
    } else {
        lemma_lt_transitive(a, b, c);
    }
}

/// Where equal means same, values that compare as equal are the same value.
pub proof fn lemma_same_rank_is_same<T: Ord>(a: T, b: T)
    requires
        total_order::<T>(),
        equal_is_same::<T>(),
    ensures
        same_rank(a, b) == (a == b),
{
    reveal(obeys_concrete_eq);
    lemma_trichotomy(a, b);
}

/// Compares with `<`.
pub fn less<T: Ord>(a: &T, b: &T) -> (r: bool)
    requires
        total_order::<T>(),
    ensures
        r == lt(*a, *b),
{
    proof {
        reveal(obeys_cmp_partial_ord);
    }
    *a < *b
}

/// Compares with `==`.
pub fn equal<T: Ord>(a: &T, b: &T) -> (r: bool)
    requires
        total_order::<T>(),
    ensures
        r == same_rank(*a, *b),
{
    proof {
        reveal(obeys_cmp_partial_ord);
        lemma_trichotomy(*a, *b);
    }
    *a == *b
}

/// Compares with `>`.
pub fn greater<T: Ord>(a: &T, b: &T) -> (r: bool)
    requires
        total_order::<T>(),
    ensures
        r == lt(*b, *a),
{
    proof {
        reveal(obeys_cmp_partial_ord);
        lemma_trichotomy(*a, *b);
    }
    *a > *b
}

} // verus!
