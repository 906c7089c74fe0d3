use vstd::prelude::*;

verus! {

/// `<[T]>::swap` exchanges the elements at two positions of a slice and
/// leaves the others alone. It panics on a position outside the slice, which
/// the precondition rules out.
pub assume_specification<Elem>[ <[Elem]>::swap ](slice: &mut [Elem], a: usize, b: usize)
    requires
        a < old(slice)@.len(),
        b < old(slice)@.len(),
    ensures
        final(slice)@ == old(slice)@.update(a as int, old(slice)@[b as int]).update(
            b as int,
            old(slice)@[a as int],
        ),
;

/// `<[T]>::copy_from_slice` makes a slice an exact copy of another of the same
/// length. It panics where the lengths differ, which the precondition rules
/// out.
pub assume_specification<Elem>[ <[Elem]>::copy_from_slice ](dst: &mut [Elem], src: &[Elem]) where
    Elem: Copy,
    requires
        old(dst)@.len() == src@.len(),
    ensures
        final(dst)@ == src@,
;

} // verus!
