use vstd::prelude::*;
use crate::numeric::Summand;
use crate::parallel_primitives::elementwise::SEQUENTIAL_BLOCK;
use crate::parallel_primitives::scan::{par_inline_prefix_sums, sum_to};
use crate::parallel_primitives::transform::par_map;

verus! {

/// Whether `condition` holds of `x`: whether it can return `true` on it.
pub open spec fn matches<T, F: Fn(&T) -> bool>(condition: F, x: T) -> bool {
    call_ensures(condition, (&x,), true)
}

/// Whether `condition` is a predicate on the elements of `s`: it may be
/// called on each, and it cannot return both `true` and `false` on one.
pub open spec fn decides<T, F: Fn(&T) -> bool>(condition: F, s: Seq<T>) -> bool {
    forall|i: int|
        0 <= i < s.len() ==> call_requires(condition, (&#[trigger] s[i],)) && !(call_ensures(
            condition,
            (&s[i],),
            true,
        ) && call_ensures(condition, (&s[i],), false))
}

/// Whether `condition` has an answer for each element of `s`: `true` or
/// `false` is a result that it can return on it.
pub open spec fn answered<T, F: Fn(&T) -> bool>(condition: F, s: Seq<T>) -> bool {
    forall|i: int|
        0 <= i < s.len() ==> matches(condition, #[trigger] s[i]) || call_ensures(
            condition,
            (&s[i],),
            false,
        )
}

/// The elements of `s` of which `condition` holds, in their order in `s`.
pub open spec fn chosen<T, F: Fn(&T) -> bool>(s: Seq<T>, condition: F) -> Seq<T> {
    s.filter(|x: T| matches(condition, x))
}

/// What is chosen from the first `i + 1` elements is what is chosen from the
/// first `i`, then element `i` if the condition holds of it.
pub proof fn lemma_chosen_step<T, F: Fn(&T) -> bool>(s: Seq<T>, condition: F, i: int)
    requires
        0 <= i < s.len(),
    ensures
        chosen(s.take(i + 1), condition) == if matches(condition, s[i]) {
            chosen(s.take(i), condition).push(s[i])
        } else {
            chosen(s.take(i), condition)
        },
{
    assert(s.take(i + 1) =~= s.take(i).push(s[i]));
    s.take(i).lemma_filter_push(s[i], |x: T| matches(condition, x));
}

/// What is chosen from a sequence is what is chosen from its first `m`
/// elements, then what is chosen from the rest.
pub proof fn lemma_chosen_split<T, F: Fn(&T) -> bool>(s: Seq<T>, condition: F, m: int)
    requires
        0 <= m <= s.len(),
    ensures
        chosen(s, condition) == chosen(s.take(m), condition) + chosen(s.skip(m), condition),
        chosen(s.take(m), condition).len() <= chosen(s, condition).len(),
{
    assert(s =~= s.take(m) + s.skip(m));
    Seq::filter_distributes_over_add(s.take(m), s.skip(m), |x: T| matches(condition, x));
}

/// Where `condition` answers for each element of `s`, and can only answer
/// as the predicate `p` says, what is chosen from `s` is `s` filtered by `p`.
pub proof fn lemma_chosen_is_filter<T, F: Fn(&T) -> bool>(
    s: Seq<T>,
    condition: F,
    p: spec_fn(T) -> bool,
)
    requires
        answered(condition, s),
        forall|x: T, r: bool| call_ensures(condition, (&x,), r) ==> r == p(x),
    ensures
        chosen(s, condition) == s.filter(p),
    decreases s.len(),
{
    if s.len() == 0 {
        reveal(Seq::filter);
    } else {
        let t = s.drop_last();
        let x = s.last();
        assert(s =~= t.push(x));
        assert forall|i: int| 0 <= i < t.len() implies matches(condition, #[trigger] t[i])
            || call_ensures(condition, (&t[i],), false) by {
            assert(t[i] == s[i]);
        }
        lemma_chosen_is_filter(t, condition, p);
        t.lemma_filter_push(x, p);
        t.lemma_filter_push(x, |y: T| matches(condition, y));
        assert(matches(condition, s[s.len() - 1]) || call_ensures(
            condition,
            (&s[s.len() - 1],),
            false,
        ));
    }
}

/// The sum of the first `n` flags is the number of elements chosen among the
/// first `n`.
pub proof fn lemma_flags_count<T, F: Fn(&T) -> bool>(
    s: Seq<T>,
    flags: Seq<usize>,
    condition: F,
    n: int,
)
    requires
        flags.len() == s.len(),
        0 <= n <= s.len(),
        forall|i: int|
            0 <= i < s.len() ==> #[trigger] flags[i] == (if matches(condition, s[i]) {
                1usize
            } else {
                0usize
            }),
    ensures
        sum_to(flags, n) == chosen(s.take(n), condition).len(),
        0 <= sum_to(flags, n) <= n,
    decreases n,
{
    if n > 0 {
        lemma_flags_count(s, flags, condition, n - 1);
        lemma_chosen_step(s, condition, n - 1);
        assert(flags[n - 1].value() == flags[n - 1]);
    } else {
        assert(s.take(0) =~= Seq::<T>::empty());
        reveal(Seq::filter);
    }
}

/// Copies the chosen elements of `src` to `out`, each to the place that
/// `places` gives for it, less `first`. Longer ranges are halved; since the
/// places ascend, each half fills a part of `out` of its own.
fn scatter<T: Send + Sync + Copy>(
    src: &[T],
    places: &[usize],
    out: &mut [T],
    first: usize,
    condition: impl Fn(&T) -> bool + Copy + Sync,
)
    requires
        decides(condition, src@),
        places@.len() == src@.len(),
        forall|i: int|
            0 <= i < src@.len() ==> #[trigger] places@[i] == first + chosen(
                src@.take(i),
                condition,
            ).len(),
        old(out)@.len() == chosen(src@, condition).len(),
    ensures
        final(out)@ == chosen(src@, condition),
    decreases src@.len(),
{
    let n: usize = src.len();
    if n <= SEQUENTIAL_BLOCK {
        let mut i: usize = 0;
        proof {
            assert(src@.take(0) =~= Seq::<T>::empty());
            reveal(Seq::filter);
        }
        while i < n
            invariant
                i <= n,
                n == src@.len(),
                places@.len() == n,
                decides(condition, src@),
                forall|k: int|
                    0 <= k < n ==> #[trigger] places@[k] == first + chosen(
                        src@.take(k),
                        condition,
                    ).len(),
                out@.len() == chosen(src@, condition).len(),
                chosen(src@.take(i as int), condition).len() <= out@.len(),
                out@.take(chosen(src@.take(i as int), condition).len() as int) == chosen(
                    src@.take(i as int),
                    condition,
                ),
            decreases n - i,
        {
            proof {
                lemma_chosen_step(src@, condition, i as int);
                lemma_chosen_split(src@, condition, i + 1);
            }
            let ghost found = chosen(src@.take(i as int), condition);
            if condition(&src[i]) {
                let place: usize = places[i] - first;
                out[place] = src[i];
                proof {
                    assert(out@.take(place + 1) =~= found.push(src@[i as int]));
                }
            } else {
                proof {
                    assert(out@.take(found.len() as int) =~= found);
                }
            }
            i += 1;
        }
        proof {
            assert(src@.take(n as int) =~= src@);
            assert(out@.take(out@.len() as int) =~= out@);
        }
        return;
    }
    let m: usize = n / 2;
    let (src_left, src_right) = src.split_at(m);
    let (places_left, places_right) = places.split_at(m);
    let right_first: usize = places[m];
    proof {
        lemma_chosen_split(src@, condition, m as int);
        assert(src_left@ =~= src@.take(m as int));
        assert(src_right@ =~= src@.skip(m as int));
    }
    let (out_left, out_right) = out.split_at_mut(right_first - first);
    let by = &condition;
    proof {
        assert forall|i: int| 0 <= i < src_left@.len() implies #[trigger] places_left@[i] == first
            + chosen(src_left@.take(i), condition).len() by {
            assert(src_left@.take(i) =~= src@.take(i));
            assert(places_left@[i] == places@[i]);
        }
        assert forall|i: int| 0 <= i < src_right@.len() implies #[trigger] places_right@[i]
            == right_first + chosen(src_right@.take(i), condition).len() by {
            assert(places_right@[i] == places@[m + i]);
            lemma_chosen_split(src@.take(m + i), condition, m as int);
            assert(src@.take(m + i).take(m as int) =~= src@.take(m as int));
            assert(src@.take(m + i).skip(m as int) =~= src_right@.take(i));
        }
        assert forall|i: int| 0 <= i < src_left@.len() implies call_requires(
            condition,
            (&#[trigger] src_left@[i],),
        ) && !(call_ensures(condition, (&src_left@[i],), true) && call_ensures(
            condition,
            (&src_left@[i],),
            false,
        )) by {
            assert(src_left@[i] == src@[i]);
        }
        assert forall|i: int| 0 <= i < src_right@.len() implies call_requires(
            condition,
            (&#[trigger] src_right@[i],),
        ) && !(call_ensures(condition, (&src_right@[i],), true) && call_ensures(
            condition,
            (&src_right@[i],),
            false,
        )) by {
            assert(src_right@[i] == src@[m + i]);
        }
    }
    rayon::join(
        move || ensures final(out_left)@ == chosen(src_left@, *by) {
            let part = out_left;
            scatter(src_left, places_left, part, first, *by)
        },
        move || ensures final(out_right)@ == chosen(src_right@, *by) {
            let part = out_right;
            scatter(src_right, places_right, part, right_first, *by)
        },
    );
}

/// Selects the elements of a slice of which `condition` holds, in their
/// order in the slice.
///
/// Each element is first mapped to 1 or 0, as the condition holds of it or
/// not. The prefix sums of these flags give each chosen element its place in
/// the result, and their total the result's length. The chosen elements are
/// then copied to their places, again in independent tasks.
pub fn par_filter<T: Send + Default + Sync + Copy>(
    arr: &[T],
    condition: impl Fn(&T) -> bool + Copy + Sync,
) -> (res: Vec<T>)
    requires
        decides(condition, arr@),
    ensures
        res@ == chosen(arr@, condition),
        answered(condition, arr@),
{
    if arr.is_empty() {
        proof {
            reveal(Seq::filter);
        }
        return Vec::new();
    }
    let n: usize = arr.len();
    let flag = |x: &T| -> (r: usize)
        requires
            call_requires(condition, (x,)),
        ensures
            (r == 1 && call_ensures(condition, (x,), true)) || (r == 0 && call_ensures(
                condition,
                (x,),
                false,
            )),
        {
            if condition(x) {
                1
            } else {
                0
            }
        };
    let mut mask: Vec<usize> = par_map(arr, flag);
    let ghost flags = mask@;
    proof {
        assert forall|i: int| 0 <= i < arr@.len() implies matches(condition, #[trigger] arr@[i])
            || call_ensures(condition, (&arr@[i],), false) by {
            assert(call_ensures(flag, (&arr@[i],), flags[i]));
        }
        assert forall|i: int| 0 <= i < arr@.len() implies #[trigger] flags[i] == (if matches(
            condition,
            arr@[i],
        ) {
            1usize
        } else {
            0usize
        }) by {
            assert(call_ensures(flag, (&arr@[i],), flags[i]));
        }
        assert forall|a: int, b: int| 0 <= a <= b <= flags.len() implies usize::fits(
            #[trigger] sum_to(flags, b) - #[trigger] sum_to(flags, a),
        ) by {
            lemma_flags_count(arr@, flags, condition, a);
            lemma_flags_count(arr@, flags, condition, b);
            lemma_chosen_split(arr@.take(b), condition, a);
            assert(arr@.take(b).take(a) =~= arr@.take(a));
        }
    }
    par_inline_prefix_sums(mask.as_mut_slice());
    proof {
        lemma_flags_count(arr@, flags, condition, n - 1);
        lemma_chosen_step(arr@, condition, n - 1);
        assert(arr@.take(n as int) =~= arr@);
        assert forall|i: int| 0 <= i < arr@.len() implies #[trigger] mask@[i] == 0 + chosen(
            arr@.take(i),
            condition,
        ).len() by {
            lemma_flags_count(arr@, flags, condition, i);
            assert(mask@[i].value() == mask@[i]);
        }
        assert(mask@[n - 1].value() == mask@[n - 1]);
    }
    let last_place: usize = mask[n - 1];
    let filtered_count: usize = if condition(&arr[n - 1]) {
        last_place + 1
    } else {
        last_place
    };
    let mut res_arr: Vec<T> = vec![T::default(); filtered_count];
    scatter(arr, mask.as_slice(), res_arr.as_mut_slice(), 0, condition);
    res_arr
}

} // verus!
