use vstd::prelude::*;

verus! {

/// `rayon::join` runs both closures, possibly on different worker threads, and
/// returns once both have finished, with their two results in order. The
/// contract claims no more than that: each closure was called when its own
/// precondition held, and each result is one that its closure can return.
pub assume_specification<A, B, RA, RB>[ rayon::join::<A, B, RA, RB> ](oper_a: A, oper_b: B) -> (r: (
    RA,
    RB,
))
    where
        A: FnOnce() -> RA + Send,
        B: FnOnce() -> RB + Send,
        RA: Send,
        RB: Send,
    requires
        oper_a.requires(()),
        oper_b.requires(()),
    ensures
        oper_a.ensures((), r.0),
        oper_b.ensures((), r.1),
;

} // verus!
