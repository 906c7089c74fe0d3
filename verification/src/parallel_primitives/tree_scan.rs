use vstd::prelude::*;
use crate::numeric::Summand;
use crate::parallel_primitives::scan::{
    inline_pref_sums,
    lemma_runs_fit_part,
    lemma_sum_to_part,
    runs_fit,
    scanned,
    sum_to,
    SCAN_BLOCK_SIZE,
};

verus! {

/// Whether `tree` holds the sums of `s` as a binary tree laid out root
/// first: the first entry is the sum of all of `s`, then comes the tree of the
/// first half of `s`, then that of the second half. A single element is its
/// own tree.
pub open spec fn sum_tree<T: Summand>(s: Seq<T>, tree: Seq<T>) -> bool
    decreases s.len(),
{
    &&& s.len() >= 1
    &&& tree.len() == 2 * s.len() - 1
    &&& tree[0].value() == sum_to(s, s.len() as int)
    &&& s.len() > 1 ==> {
        let m = (s.len() / 2) as int;
        &&& sum_tree(s.take(m), tree.subrange(1, 2 * m))
        &&& sum_tree(s.skip(m), tree.subrange(2 * m, tree.len() as int))
    }
}

/// Whether `after` holds the exclusive prefix sums of `before`, each raised
/// by `carry`.
pub open spec fn scanned_from<T: Summand>(before: Seq<T>, after: Seq<T>, carry: int) -> bool {
    &&& after.len() == before.len()
    &&& forall|i: int|
        0 <= i < before.len() ==> (#[trigger] after[i]).value() == carry + sum_to(before, i)
}

/// The upward pass: fills `tree` with the sums of `arr` and of its halves,
/// quarters and so on, and returns the sum of `arr`. The two halves are
/// summed as independent tasks, each into its own part of `tree`.
pub fn prefix_sums_up<T: Summand + Send + Sync>(arr: &[T], tree: &mut [T]) -> (sum: T)
    requires
        arr@.len() >= 1,
        old(tree)@.len() == 2 * arr@.len() - 1,
        runs_fit(arr@),
    ensures
        sum.value() == sum_to(arr@, arr@.len() as int),
        sum_tree(arr@, final(tree)@),
    decreases arr@.len(),
{
    let n: usize = arr.len();
    if n == 1 {
        tree[0] = arr[0];
        proof {
            assert(sum_to(arr@, 1) == sum_to(arr@, 0) + arr@[0].value());
        }
        return arr[0];
    }
    let m: usize = n / 2;
    let (left, right) = arr.split_at(m);
    let (node, below) = tree.split_at_mut(1);
    let (tree_left, tree_right) = below.split_at_mut(2 * m - 1);
    proof {
        lemma_runs_fit_part(arr@, 0, m as int);
        lemma_runs_fit_part(arr@, m as int, n as int);
        lemma_sum_to_part(arr@, 0, m as int, m as int);
        lemma_sum_to_part(arr@, m as int, n as int, n - m);
        assert(T::fits(sum_to(arr@, n as int) - sum_to(arr@, 0)));
    }
    let (left_sum, right_sum) = rayon::join(
        move || -> (part: T) ensures part.value() == sum_to(left@, left@.len() as int), sum_tree(left@, final(tree_left)@) {
            let sums = tree_left;
            prefix_sums_up(left, sums)
        },
        move || -> (part: T) ensures part.value() == sum_to(right@, right@.len() as int), sum_tree(right@, final(tree_right)@) {
            let sums = tree_right;
            prefix_sums_up(right, sums)
        },
    );
    let sum: T = left_sum.plus(right_sum);
    node[0] = sum;
    proof {
        assert(left@ =~= arr@.take(m as int));
        assert(right@ =~= arr@.skip(m as int));
        assert(tree@.subrange(1, 2 * m) =~= final(tree_left)@);
        assert(tree@.subrange(2 * m, tree@.len() as int) =~= final(tree_right)@);
    }
    sum
}

/// The downward pass: gives each element of `arr` the sum of what stands
/// before it, raised by `left_sum`, the sum of what stands before `arr`
/// itself. The sums of the halves are read from `tree`, and the two halves
/// are handled as independent tasks.
pub fn prefix_sums_down<T: Summand + Send + Sync>(arr: &mut [T], tree: &[T], left_sum: T)
    requires
        sum_tree(old(arr)@, tree@),
        forall|k: int|
            0 <= k <= old(arr)@.len() ==> T::fits(
                left_sum.value() + #[trigger] sum_to(old(arr)@, k),
            ),
    ensures
        scanned_from(old(arr)@, final(arr)@, left_sum.value()),
    decreases old(arr)@.len(),
{
    let n: usize = arr.len();
    let ghost before = arr@;
    if n == 1 {
        arr[0] = left_sum;
        return;
    }
    let m: usize = n / 2;
    let (left, right) = arr.split_at_mut(m);
    let (node, below) = tree.split_at(1);
    let (tree_left, tree_right) = below.split_at(2 * m - 1);
    let ghost left_in = left@;
    let ghost right_in = right@;
    proof {
        assert(left_in =~= before.take(m as int));
        assert(right_in =~= before.skip(m as int));
        assert(tree_left@ =~= tree@.subrange(1, 2 * m));
        assert(tree_right@ =~= tree@.subrange(2 * m, tree@.len() as int));
        assert(sum_tree(left_in, tree_left@));
        assert(sum_tree(right_in, tree_right@));
        assert(tree_left@[0].value() == sum_to(left_in, m as int));
        lemma_sum_to_part(before, 0, m as int, m as int);
        assert(T::fits(left_sum.value() + sum_to(before, m as int)));
        assert forall|k: int| 0 <= k <= left_in.len() implies T::fits(
            left_sum.value() + #[trigger] sum_to(left_in, k),
        ) by {
            lemma_sum_to_part(before, 0, m as int, k);
            assert(T::fits(left_sum.value() + sum_to(before, k)));
        }
    }
    let right_left_sum: T = left_sum.plus(tree_left[0]);
    proof {
        assert forall|k: int| 0 <= k <= right_in.len() implies T::fits(
            right_left_sum.value() + #[trigger] sum_to(right_in, k),
        ) by {
            lemma_sum_to_part(before, m as int, n as int, k);
            assert(T::fits(left_sum.value() + sum_to(before, m + k)));
        }
    }
    let ghost carry = left_sum.value();
    let ghost right_carry = right_left_sum.value();
    rayon::join(
        move || ensures scanned_from(left_in, final(left)@, carry) {
            let part = left;
            prefix_sums_down(part, tree_left, left_sum)
        },
        move || ensures scanned_from(right_in, final(right)@, right_carry) {
            let part = right;
            prefix_sums_down(part, tree_right, right_left_sum)
        },
    );
    proof {
        assert forall|i: int| 0 <= i < n implies (#[trigger] arr@[i]).value() == carry + sum_to(
            before,
            i,
        ) by {
            if i < m {
                assert(arr@[i] == final(left)@[i]);
                lemma_sum_to_part(before, 0, m as int, i);
            } else {
                assert(arr@[i] == final(right)@[i - m]);
                lemma_sum_to_part(before, m as int, n as int, i - m);
            }
        }
    }
}

/// Replaces each element of a slice by the sum of the elements before it and
/// returns the sum of all of them, as `par_inline_prefix_sums` does, but with
/// one pass up and one pass down a tree of sums in place of the passes over
/// blocks. The tree takes `2 * len - 1` entries, which must not exceed what
/// a `usize` counts.
pub fn par_inline_prefix_sums_helper<T: Summand + Send + Sync>(arr: &mut [T]) -> (total: T)
    requires
        runs_fit(old(arr)@),
        2 * old(arr)@.len() <= usize::MAX,
    ensures
        scanned(old(arr)@, final(arr)@),
        total.value() == sum_to(old(arr)@, old(arr)@.len() as int),
{
    let n: usize = arr.len();
    proof {
        lemma_runs_fit_part(arr@, 0, n as int);
        assert(arr@.subrange(0, n as int) =~= arr@);
    }
    if n <= SCAN_BLOCK_SIZE {
        return inline_pref_sums(arr);
    }
    let zero: T = T::zero();
    let mut partial_sums: Vec<T> = vec![zero; 2 * n - 1];
    let total = prefix_sums_up(arr, partial_sums.as_mut_slice());
    prefix_sums_down(arr, partial_sums.as_slice(), zero);
    total
}

} // verus!
