use vstd::prelude::*;

verus! {

/// The number of elements up to which a range is handled by a single task.
pub const SEQUENTIAL_BLOCK: usize = 4096;

/// Whether `i` is a position in a sequence of `len` elements.
pub open spec fn within(i: int, len: nat) -> bool {
    0 <= i < len
}

/// Handles every element of a slice with `action`, which gets the element's
/// index and the element itself. Ranges longer than `SEQUENTIAL_BLOCK` are
/// split at their midpoint into two independent tasks.
///
/// Each element ends as `action` leaves it when called once with that
/// element's index on that element's value at entry.
pub fn par_for<T: Send>(arr: &mut [T], action: impl Fn(usize, &mut T) + Copy + Sync)
    requires
        forall|k: usize, x: &mut T|
            k < old(arr)@.len() && *x == old(arr)@[k as int] ==> call_requires(action, (k, x)),
    ensures
        final(arr)@.len() == old(arr)@.len(),
        forall|i: int|
            #![trigger within(i, old(arr)@.len())]
            #![trigger final(arr)@[i]]
            within(i, old(arr)@.len()) ==> exists|x: &mut T|
                #![trigger call_ensures(action, (i as usize, x), ())]
                *x == old(arr)@[i] && *final(x) == final(arr)@[i] && call_ensures(
                    action,
                    (i as usize, x),
                    (),
                ),
{
    assert(arr@.len() == arr.len());
    par_for_helper(arr, 0, action);
    assert forall|i: int| within(i, old(arr)@.len()) implies exists|x: &mut T|
        #![trigger call_ensures(action, (i as usize, x), ())]
        *x == old(arr)@[i] && *final(x) == final(arr)@[i] && call_ensures(
            action,
            (i as usize, x),
            (),
        ) by {
        let (k, x) = choose|k: usize, x: &mut T|
            k == i && *x == old(arr)@[i] && *final(x) == final(arr)@[i] && #[trigger] call_ensures(
                action,
                (k, x),
                (),
            );
        assert(call_ensures(action, (i as usize, x), ()));
    }
}

fn par_for_helper<T: Send>(
    arr: &mut [T],
    l: usize,
    action: impl Fn(usize, &mut T) + Copy + Sync,
)
    requires
        l + old(arr)@.len() <= usize::MAX,
        forall|k: usize, x: &mut T|
            l <= k < l + old(arr)@.len() && *x == old(arr)@[k - l] ==> call_requires(
                action,
                (k, x),
            ),
    ensures
        final(arr)@.len() == old(arr)@.len(),
        forall|i: int|
            #![trigger within(i, old(arr)@.len())]
            within(i, old(arr)@.len()) ==> exists|k: usize, x: &mut T|
                #![trigger call_ensures(action, (k, x), ())]
                k == l + i && *x == old(arr)@[i] && *final(x) == final(arr)@[i] && call_ensures(
                    action,
                    (k, x),
                    (),
                ),
    decreases old(arr)@.len(),
{
    let n: usize = arr.len();
    if n <= SEQUENTIAL_BLOCK {
        let mut i: usize = 0;
        while i < n
            invariant
                i <= n,
                n == old(arr)@.len(),
                arr@.len() == n,
                l + n <= usize::MAX,
                forall|k: usize, x: &mut T|
                    l <= k < l + n && *x == old(arr)@[k - l] ==> call_requires(action, (k, x)),
                forall|j: int| i <= j < n ==> arr@[j] == old(arr)@[j],
                forall|j: int|
                    #![trigger within(j, i as nat)]
                    within(j, i as nat) ==> exists|k: usize, x: &mut T|
                        #![trigger call_ensures(action, (k, x), ())]
                        k == l + j && *x == old(arr)@[j] && *final(x) == arr@[j] && call_ensures(
                            action,
                            (k, x),
                            (),
                        ),
            decreases n - i,
        {
            let ghost before = arr@;
            action(l + i, &mut arr[i]);
            let ghost done: nat = (i + 1) as nat;
            assert forall|j: int| within(j, done) implies exists|k: usize, x: &mut T|
                #![trigger call_ensures(action, (k, x), ())]
                k == l + j && *x == old(arr)@[j] && *final(x) == arr@[j] && call_ensures(
                    action,
                    (k, x),
                    (),
                ) by {
                if j < i {
                    assert(within(j, i as nat));
                    assert(arr@[j] == before[j]);
                }
            }
            i += 1;
        }
        assert forall|j: int| within(j, n as nat) implies exists|k: usize, x: &mut T|
            #![trigger call_ensures(action, (k, x), ())]
            k == l + j && *x == old(arr)@[j] && *final(x) == arr@[j] && call_ensures(
                action,
                (k, x),
                (),
            ) by {
            assert(within(j, i as nat));
        }
        return;
    }
    let m: usize = n / 2;
    let (left, right) = arr.split_at_mut(m);
    let right_left: usize = l + m;
    let by = &action;
    let ghost left_in = left@;
    let ghost right_in = right@;
    rayon::join(
        move || ensures
            final(left)@.len() == left_in.len(),
            forall|i: int|
                #![trigger within(i, left_in.len())]
                within(i, left_in.len()) ==> exists|k: usize, x: &mut T|
                    #![trigger call_ensures(*by, (k, x), ())]
                    k == l + i && *x == left_in[i] && *final(x) == final(left)@[i] && call_ensures(
                        *by,
                        (k, x),
                        (),
                    ) {
            let half = left;
            par_for_helper(half, l, *by)
        },
        move || ensures
            final(right)@.len() == right_in.len(),
            forall|i: int|
                #![trigger within(i, right_in.len())]
                within(i, right_in.len()) ==> exists|k: usize, x: &mut T|
                    #![trigger call_ensures(*by, (k, x), ())]
                    k == right_left + i && *x == right_in[i] && *final(x) == final(right)@[i]
                        && call_ensures(*by, (k, x), ()) {
            let half = right;
            par_for_helper(half, right_left, *by)
        },
    );
    assert forall|i: int| within(i, old(arr)@.len()) implies exists|k: usize, x: &mut T|
        #![trigger call_ensures(action, (k, x), ())]
        k == l + i && *x == old(arr)@[i] && *final(x) == final(arr)@[i] && call_ensures(
            action,
            (k, x),
            (),
        ) by {
        if i < m {
            assert(within(i, left_in.len()));
        } else {
            assert(within(i - m, right_in.len()));
        }
    }
}

/// Where `action` can only leave an element as the function `g` says, from
/// the element's index and its value before, what `par_for` leaves is the
/// slice with `g` applied at each index, as one pass from left to right
/// would leave it.
pub proof fn lemma_par_for_is_pass<T, F: Fn(usize, &mut T)>(
    before: Seq<T>,
    after: Seq<T>,
    action: F,
    g: spec_fn(int, T) -> T,
)
    requires
        before.len() <= usize::MAX,
        after.len() == before.len(),
        forall|i: int|
            #![trigger within(i, before.len())]
            within(i, before.len()) ==> exists|x: &mut T|
                #![trigger call_ensures(action, (i as usize, x), ())]
                *x == before[i] && *final(x) == after[i] && call_ensures(
                    action,
                    (i as usize, x),
                    (),
                ),
        forall|k: usize, x: &mut T|
            #![trigger call_ensures(action, (k, x), ())]
            call_ensures(action, (k, x), ()) ==> *final(x) == g(k as int, *x),
    ensures
        after == Seq::new(before.len(), |i: int| g(i, before[i])),
{
    assert forall|i: int| 0 <= i < before.len() implies after[i] == g(i, before[i]) by {
        assert(within(i, before.len()));
    }
    assert(after =~= Seq::new(before.len(), |i: int| g(i, before[i])));
}

} // verus!
