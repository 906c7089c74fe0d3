use vstd::prelude::*;
use rayon::iter::{IntoParallelRefIterator, ParallelIterator};
use crate::order::{equal, greater, less, lemma_trichotomy, lt, same_rank, total_order};
use crate::parallel_primitives::blocks::{
    block_of,
    block_visits,
    blocked_for,
    lemma_block_starts_inside,
    lemma_blocks_span,
};
use crate::parallel_primitives::elementwise::within;
use crate::parallel_primitives::filter::{lemma_chosen_is_filter, par_filter};
use crate::parallel_primitives::scan::lemma_position_in_block;
use crate::sortedness::{
    below,
    beyond,
    lemma_below_step,
    lemma_sorted_around,
    lemma_swap_keeps_multiset,
    lemma_three_way_multiset,
    lemma_three_way_sorted,
    level,
    sorts,
    split_around,
};

verus! {

/// Splits a nonempty slice around its last element, the pivot: one pass moves
/// the elements less than the pivot to the front, in the order in which they
/// stood, then the pivot takes the place behind them, which is returned.
pub fn partition<T: Ord>(arr: &mut [T]) -> (m: usize)
    requires
        total_order::<T>(),
        old(arr)@.len() > 0,
    ensures
        final(arr)@.len() == old(arr)@.len(),
        final(arr)@.to_multiset() == old(arr)@.to_multiset(),
        split_around(final(arr)@, m as int),
        final(arr)@[m as int] == old(arr)@.last(),
        final(arr)@.take(m as int) == below(old(arr)@, old(arr)@.last()),
{
    let n: usize = arr.len();
    let ghost pivot = arr@[n - 1];
    let mut m: usize = 0;
    let mut i: usize = 0;
    proof {
        assert(arr@.take(0) =~= Seq::<T>::empty());
        assert(below(arr@.take(0), pivot) =~= Seq::<T>::empty()) by {
            reveal(Seq::filter);
        }
    }
    while i < n
        invariant
            n == arr@.len(),
            n > 0,
            total_order::<T>(),
            m <= i <= n,
            m <= n - 1,
            arr@[n - 1] == pivot,
            old(arr)@.len() == n,
            arr@.to_multiset() == old(arr)@.to_multiset(),
            forall|k: int| 0 <= k < m ==> lt(#[trigger] arr@[k], pivot),
            forall|k: int| m <= k < i ==> !lt(#[trigger] arr@[k], pivot),
            forall|k: int| i <= k < n ==> arr@[k] == old(arr)@[k],
            arr@.take(m as int) == below(old(arr)@.take(i as int), pivot),
        decreases n - i,
    {
        proof {
            lemma_trichotomy(pivot, pivot);
            lemma_below_step(old(arr)@, pivot, i as int);
        }
        let ghost front = arr@.take(m as int);
        if less(&arr[i], &arr[n - 1]) {
            proof {
                lemma_swap_keeps_multiset(arr@, i as int, m as int);
            }
            arr.swap(i, m);
            m += 1;
            proof {
                assert(arr@.take(m as int) =~= front.push(old(arr)@[i as int]));
            }
        } else {
            proof {
                assert(arr@.take(m as int) =~= front);
            }
        }
        i += 1;
    }
    proof {
        lemma_swap_keeps_multiset(arr@, m as int, n - 1);
        assert(old(arr)@.take(n as int) =~= old(arr)@);
    }
    let ghost front = arr@.take(m as int);
    arr.swap(m, n - 1);
    proof {
        assert(arr@.take(m as int) =~= front);
    }
    m
}

/// Sorts a slice in place, one element after another: the slice is split
/// around its last element, then each side is sorted in the same way.
pub fn sequential_quicksort<T: Ord>(arr: &mut [T])
    requires
        total_order::<T>(),
    ensures
        sorts(old(arr)@, final(arr)@),
    decreases old(arr)@.len(),
{
    if arr.is_empty() {
        return;
    }
    let middle: usize = partition(arr);
    let ghost split = arr@;
    let (left, right) = arr.split_at_mut(middle);
    let ghost left_in = left@;
    sequential_quicksort(left);
    let (pivot, rest) = right.split_at_mut(1);
    let ghost rest_in = rest@;
    sequential_quicksort(rest);
    proof {
        assert(rest_in =~= split.subrange(middle + 1, split.len() as int));
        lemma_sorted_around(split, middle as int, left@, rest@);
        assert(arr@ =~= left@ + seq![split[middle as int]] + rest@);
    }
}

/// The number of elements up to which `simple_parallel_quicksort` sorts
/// sequentially.
pub const SIMPLE_SEQUENTIAL_LIMIT: usize = 1024;

/// Sorts a slice in place. A longer slice is split around its last element
/// by one sequential pass, and the two sides are sorted as independent tasks.
pub fn simple_parallel_quicksort<T: Ord + Send>(arr: &mut [T])
    requires
        total_order::<T>(),
    ensures
        sorts(old(arr)@, final(arr)@),
    decreases old(arr)@.len(),
{
    if arr.len() <= SIMPLE_SEQUENTIAL_LIMIT {
        sequential_quicksort(arr);
        return;
    }
    let middle: usize = partition(arr);
    let ghost split = arr@;
    let (left, right) = arr.split_at_mut(middle);
    let (pivot, rest) = right.split_at_mut(1);
    let ghost left_in = left@;
    let ghost rest_in = rest@;
    rayon::join(
        move || ensures sorts(left_in, final(left)@) {
            let side = left;
            simple_parallel_quicksort(side)
        },
        move || ensures sorts(rest_in, final(rest)@) {
            let side = rest;
            simple_parallel_quicksort(side)
        },
    );
    proof {
        assert(rest_in =~= split.subrange(middle + 1, split.len() as int));
        lemma_sorted_around(split, middle as int, final(left)@, final(rest)@);
        assert(arr@ =~= final(left)@ + seq![split[middle as int]] + final(rest)@);
    }
}

/// The number of elements up to which the quicksorts that filter sort
/// sequentially.
pub const FILTER_SEQUENTIAL_LIMIT: usize = 4096;

/// Whether `less`, `eq` and `greater` are the three groups of `s` around its
/// last element, the outer two sorted: put after one another they are `s`
/// sorted.
pub open spec fn three_groups<T: Ord>(s: Seq<T>, less: Seq<T>, eq: Seq<T>, greater: Seq<T>) -> bool {
    &&& sorts(below(s, s.last()), less)
    &&& eq == level(s, s.last())
    &&& sorts(beyond(s, s.last()), greater)
    &&& less.len() + eq.len() + greater.len() == s.len()
    &&& sorts(s, less + eq + greater)
}

/// Filters a nonempty slice into the elements less than, level with and
/// greater than its last element, and sorts the first and the last group as
/// independent tasks.
fn parallel_quicksort_helper<T: Ord + Default + Copy + Send + Sync>(arr: &[T]) -> (groups: (
    Vec<T>,
    Vec<T>,
    Vec<T>,
))
    requires
        total_order::<T>(),
        arr@.len() > 0,
    ensures
        three_groups(arr@, groups.0@, groups.1@, groups.2@),
    decreases arr@.len(), 0int,
{
    let pivot: &T = &arr[arr.len() - 1];
    let ghost p = *pivot;
    let is_less = |x: &T| -> (r: bool)
        ensures
            r == lt(*x, p),
        {
            less(x, pivot)
        };
    let is_equal = |x: &T| -> (r: bool)
        ensures
            r == same_rank(*x, p),
        {
            equal(x, pivot)
        };
    let is_greater = |x: &T| -> (r: bool)
        ensures
            r == lt(p, *x),
        {
            greater(x, pivot)
        };
    let less_in = par_filter(arr, is_less);
    let eq = par_filter(arr, is_equal);
    let greater_in = par_filter(arr, is_greater);
    proof {
        lemma_chosen_is_filter(arr@, is_less, |x: T| lt(x, p));
        lemma_chosen_is_filter(arr@, is_equal, |x: T| same_rank(x, p));
        lemma_chosen_is_filter(arr@, is_greater, |x: T| lt(p, x));
        lemma_three_way_multiset(arr@, p);
        lemma_trichotomy(p, p);
        assert(level(arr@, p).len() > 0) by {
            arr@.lemma_filter_contains(|x: T| same_rank(x, p), arr@.len() - 1);
        }
    }
    let ghost lows = less_in@;
    let ghost highs = greater_in@;
    let (less_out, greater_out) = rayon::join(
        move || -> (side: Vec<T>) ensures sorts(lows, side@) {
            let mut side = less_in;
            parallel_quicksort_seq_memcpy(side.as_mut_slice());
            side
        },
        move || -> (side: Vec<T>) ensures sorts(highs, side@) {
            let mut side = greater_in;
            parallel_quicksort_seq_memcpy(side.as_mut_slice());
            side
        },
    );
    proof {
        lemma_three_way_sorted(arr@, p, less_out@, greater_out@);
    }
    (less_out, eq, greater_out)
}

/// Sorts a slice in place. A longer slice is filtered into three groups
/// around its last element, the outer two are sorted as independent tasks,
/// and the three are copied back one after another.
pub fn parallel_quicksort_seq_memcpy<T: Ord + Default + Copy + Send + Sync>(arr: &mut [T])
    requires
        total_order::<T>(),
    ensures
        sorts(old(arr)@, final(arr)@),
    decreases old(arr)@.len(), 1int,
{
    if arr.len() <= FILTER_SEQUENTIAL_LIMIT {
        sequential_quicksort(arr);
        return;
    }
    let (less, eq, greater) = parallel_quicksort_helper(arr);

    let (dst_less, dst_ge) = arr.split_at_mut(less.len());
    let (dst_eq, dst_greater) = dst_ge.split_at_mut(eq.len());
    dst_less.copy_from_slice(less.as_slice());
    dst_eq.copy_from_slice(eq.as_slice());
    dst_greater.copy_from_slice(greater.as_slice());
    proof {
        assert(arr@ =~= less@ + eq@ + greater@);
    }
}

/// Sorts a slice in place, as `parallel_quicksort_seq_memcpy` does, but
/// copies the three groups back as three independent tasks.
pub fn parallel_quicksort_3par_memcpy<T: Ord + Default + Copy + Send + Sync>(arr: &mut [T])
    requires
        total_order::<T>(),
    ensures
        sorts(old(arr)@, final(arr)@),
{
    if arr.len() <= FILTER_SEQUENTIAL_LIMIT {
        sequential_quicksort(arr);
        return;
    }
    let (less, eq, greater) = parallel_quicksort_helper(arr);

    let (src_less, src_ge) = arr.split_at_mut(less.len());
    let (src_eq, src_greater) = src_ge.split_at_mut(eq.len());
    let less_ref: &[T] = less.as_slice();
    let eq_ref: &[T] = eq.as_slice();
    let greater_ref: &[T] = greater.as_slice();

    rayon::join(
        move || ensures final(src_less)@ == less_ref@, final(src_eq)@ == eq_ref@ {
            let first = src_less;
            let second = src_eq;
            rayon::join(
                move || ensures final(first)@ == less_ref@ {
                    let dst = first;
                    dst.copy_from_slice(less_ref)
                },
                move || ensures final(second)@ == eq_ref@ {
                    let dst = second;
                    dst.copy_from_slice(eq_ref)
                },
            );
        },
        move || ensures final(src_greater)@ == greater_ref@ {
            let dst = src_greater;
            dst.copy_from_slice(greater_ref)
        },
    );
    proof {
        assert(arr@ =~= less@ + eq@ + greater@);
    }
}

/// The number of elements that one task copies.
pub const COPY_BLOCK: usize = 4096;

/// Sorts a slice in place, as `parallel_quicksort_seq_memcpy` does, but
/// copies the three groups back as independent tasks, each of them block by
/// block in tasks of their own.
pub fn parallel_quicksort_par_memcpy<T: Ord + Default + Copy + Send + Sync>(arr: &mut [T])
    requires
        total_order::<T>(),
    ensures
        sorts(old(arr)@, final(arr)@),
{
    if arr.len() <= FILTER_SEQUENTIAL_LIMIT {
        sequential_quicksort(arr);
        return;
    }
    let (less, eq, greater) = parallel_quicksort_helper(arr);

    let (src_less, src_ge) = arr.split_at_mut(less.len());
    let (src_eq, src_greater) = src_ge.split_at_mut(eq.len());
    let less_ref: &[T] = less.as_slice();
    let eq_ref: &[T] = eq.as_slice();
    let greater_ref: &[T] = greater.as_slice();

    rayon::join(
        move || ensures final(src_less)@ == less_ref@, final(src_eq)@ == eq_ref@ {
            let first = src_less;
            let second = src_eq;
            rayon::join(
                move || ensures final(first)@ == less_ref@ {
                    let dst = first;
                    par_copy(dst, less_ref)
                },
                move || ensures final(second)@ == eq_ref@ {
                    let dst = second;
                    par_copy(dst, eq_ref)
                },
            );
        },
        move || ensures final(src_greater)@ == greater_ref@ {
            let dst = src_greater;
            par_copy(dst, greater_ref)
        },
    );
    proof {
        assert(arr@ =~= less@ + eq@ + greater@);
    }
}

/// Copies `src` over `dst`, which has the same length, block by block, the
/// blocks as independent tasks.
pub fn par_copy<T: Copy + Send + Sync>(dst: &mut [T], src: &[T])
    requires
        old(dst)@.len() == src@.len(),
    ensures
        final(dst)@ == src@,
{
    let ghost len = src@.len() as int;
    let ghost size = COPY_BLOCK as int;
    let ghost before = dst@;
    let copy = |block_index: usize, dst_block: &mut [T]|
        requires
            block_index * COPY_BLOCK + dst_block@.len() <= src@.len(),
        ensures
            final(dst_block)@.len() == old(dst_block)@.len(),
            final(dst_block)@ == src@.subrange(
                block_index * COPY_BLOCK,
                block_index * COPY_BLOCK + old(dst_block)@.len(),
            ),
        {
            assert(src@.len() == src.len());
            let from: usize = COPY_BLOCK * block_index;
            let upto: usize = from + dst_block.len();
            dst_block.copy_from_slice(&src[from..upto]);
        };
    proof {
        assert forall|k: usize, x: &mut [T]|
            k < block_visits(len, size) && x@ == block_of(before, k as int, size) implies call_requires(
            copy,
            (k, x),
        ) by {
            if len > 0 {
                lemma_block_starts_inside(len, size, k as int);
            }
        }
    }
    blocked_for::<T, COPY_BLOCK>(dst, copy);
    proof {
        assert forall|p: int| 0 <= p < len implies dst@[p] == src@[p] by {
            lemma_position_in_block(len, size, p);
            let j = p / size;
            let i = p % size;
            assert(within(j, block_visits(len, size) as nat));
            let x = choose|x: &mut [T]|
                x@ == block_of(before, j, size) && final(x)@ == block_of(dst@, j, size)
                    && #[trigger] call_ensures(copy, (j as usize, x), ());
            lemma_blocks_span(len, size);
            assert(src@.len() == src.len());
            let k = j as usize;
            assert(k == j);
            assert(k * COPY_BLOCK == j * size) by (nonlinear_arith)
                requires
                    k == j,
                    COPY_BLOCK == size,
            ;
            assert(0 <= i < x@.len());
            assert(final(x)@[i] == dst@[p]);
            assert(final(x)@[i] == src@[j * size + i]);
        }
        assert(dst@ =~= src@);
    }
}

/// A side of a pivot.
#[derive(Clone, Copy)]
pub enum Side {
    Less,
    Equal,
    Greater,
}

/// Whether `x` stands on `side` of `pivot`.
pub open spec fn on_side<T: Ord>(x: T, pivot: T, side: Side) -> bool {
    match side {
        Side::Less => lt(x, pivot),
        Side::Equal => same_rank(x, pivot),
        Side::Greater => lt(pivot, x),
    }
}

/// Hands `x` back if it stands on `side` of `pivot`.
pub fn keep_on_side<T: Ord + Copy>(x: &T, pivot: &T, side: Side) -> (r: Option<T>)
    requires
        total_order::<T>(),
    ensures
        r == if on_side(*x, *pivot, side) {
            Some(*x)
        } else {
            None
        },
{
    let keep: bool = match side {
        Side::Less => less(x, pivot),
        Side::Equal => equal(x, pivot),
        Side::Greater => greater(x, pivot),
    };
    if keep {
        Some(*x)
    } else {
        None
    }
}

/// rayon's `par_iter`, `filter_map` and `collect` on a slice: the function
/// handed to `filter_map` is applied to every element, and the values it
/// returns in `Some` are collected into a vector in the order of their
/// elements in the slice. The function handed over here is `keep_on_side`,
/// so the vector holds the elements on `side` of `pivot`.
#[verifier::external_body]
fn rayon_select<T: Ord + Copy + Send + Sync>(arr: &[T], pivot: T, side: Side) -> (r: Vec<T>)
    requires
        total_order::<T>(),
    ensures
        r@ == arr@.filter(|x: T| on_side(x, pivot, side)),
{
    arr.par_iter().filter_map(|x| keep_on_side(x, &pivot, side)).collect()
}

/// Sorts a slice in place, as `parallel_quicksort_seq_memcpy` does, but
/// selects the three groups with rayon's own parallel iterators.
pub fn rayon_parallel_quicksort<T: Ord + Default + Copy + Send + Sync>(arr: &mut [T])
    requires
        total_order::<T>(),
    ensures
        sorts(old(arr)@, final(arr)@),
    decreases old(arr)@.len(),
{
    let n: usize = arr.len();
    if n <= FILTER_SEQUENTIAL_LIMIT {
        sequential_quicksort(arr);
        return;
    }
    let pivot: T = arr[n - 1];
    let ghost before = arr@;

    let less_in: Vec<T> = rayon_select(arr, pivot, Side::Less);
    let eq: Vec<T> = rayon_select(arr, pivot, Side::Equal);
    let greater_in: Vec<T> = rayon_select(arr, pivot, Side::Greater);
    proof {
        assert((|x: T| on_side(x, pivot, Side::Less)) =~= (|x: T| lt(x, pivot)));
        assert((|x: T| on_side(x, pivot, Side::Equal)) =~= (|x: T| same_rank(x, pivot)));
        assert((|x: T| on_side(x, pivot, Side::Greater)) =~= (|x: T| lt(pivot, x)));
        lemma_three_way_multiset(before, pivot);
        lemma_trichotomy(pivot, pivot);
        assert(level(before, pivot).len() > 0) by {
            before.lemma_filter_contains(|x: T| same_rank(x, pivot), before.len() - 1);
        }
    }
    let ghost lows = less_in@;
    let ghost highs = greater_in@;
    let (less, greater) = rayon::join(
        move || -> (side: Vec<T>) ensures sorts(lows, side@) {
            let mut side = less_in;
            rayon_parallel_quicksort(side.as_mut_slice());
            side
        },
        move || -> (side: Vec<T>) ensures sorts(highs, side@) {
            let mut side = greater_in;
            rayon_parallel_quicksort(side.as_mut_slice());
            side
        },
    );
    proof {
        lemma_three_way_sorted(before, pivot, less@, greater@);
    }
    let (dst_less, dst_ge) = arr.split_at_mut(less.len());
    let (dst_eq, dst_greater) = dst_ge.split_at_mut(eq.len());
    dst_less.copy_from_slice(less.as_slice());
    dst_eq.copy_from_slice(eq.as_slice());
    dst_greater.copy_from_slice(greater.as_slice());
    proof {
        assert(arr@ =~= less@ + eq@ + greater@);
    }
}

} // verus!
