use vstd::prelude::*;
use vstd::relations::{sorted_by, total_ordering};
use vstd::seq_lib::{
    lemma_multiset_commutative,
    lemma_sorted_unique,
    to_multiset_build,
    to_multiset_update,
};
use crate::order::{
    equal_is_same,
    le,
    lemma_le_transitive,
    lemma_same_rank_is_same,
    lemma_lt_transitive,
    lemma_same_rank_alike,
    lemma_trichotomy,
    lt,
    same_rank,
    sorted,
    total_order,
};

verus! {

/// Whether `s` is split around position `m`: what stands before it is less
/// than the element there, and nothing after it is.
pub open spec fn split_around<T: Ord>(s: Seq<T>, m: int) -> bool {
    &&& 0 <= m < s.len()
    &&& forall|k: int| 0 <= k < m ==> lt(#[trigger] s[k], s[m])
    &&& forall|k: int| m < k < s.len() ==> !lt(#[trigger] s[k], s[m])
}

/// Whether `sorted` is `s` put in ascending order.
pub open spec fn sorts<T: Ord>(s: Seq<T>, sorted_s: Seq<T>) -> bool {
    &&& sorted(sorted_s)
    &&& sorted_s.to_multiset() == s.to_multiset()
}

/// Exchanging two elements keeps the multiset of a sequence.
pub proof fn lemma_swap_keeps_multiset<T>(s: Seq<T>, a: int, b: int)
    requires
        0 <= a < s.len(),
        0 <= b < s.len(),
    ensures
        s.update(a, s[b]).update(b, s[a]).to_multiset() == s.to_multiset(),
{
    broadcast use vstd::multiset::group_multiset_axioms;

    let once = s.update(a, s[b]);
    to_multiset_update(s, a, s[b]);
    to_multiset_update(once, b, s[a]);
    s.to_multiset_ensures();
    assert(s.to_multiset().contains(s[a]));
    assert(once[b] == s[b]);
    assert(once.update(b, s[a]).to_multiset() =~= s.to_multiset());
}

/// What holds of every element of a sequence holds of every element of a
/// rearrangement of it.
pub proof fn lemma_all_carries<T>(s: Seq<T>, t: Seq<T>, holds: spec_fn(T) -> bool)
    requires
        s.to_multiset() == t.to_multiset(),
        forall|i: int| 0 <= i < s.len() ==> holds(#[trigger] s[i]),
    ensures
        forall|i: int| 0 <= i < t.len() ==> holds(#[trigger] t[i]),
{
    s.to_multiset_ensures();
    t.to_multiset_ensures();
    assert forall|i: int| 0 <= i < t.len() implies holds(#[trigger] t[i]) by {
        assert(t.contains(t[i]));
        assert(s.to_multiset().count(t[i]) > 0);
        assert(s.contains(t[i]));
        let k = choose|k: int| 0 <= k < s.len() && s[k] == t[i];
        assert(holds(s[k]));
    }
}

/// Two ascending sequences, the first of which holds nothing greater than
/// anything in the second, ascend when put one after the other.
pub proof fn lemma_concat_sorted<T: Ord>(a: Seq<T>, b: Seq<T>)
    requires
        sorted(a),
        sorted(b),
        forall|i: int, j: int| 0 <= i < a.len() && 0 <= j < b.len() ==> le(#[trigger] a[i], #[trigger] b[j]),
    ensures
        sorted(a + b),
{
    assert forall|i: int, j: int| 0 <= i <= j < (a + b).len() implies le(
        #[trigger] (a + b)[i],
        #[trigger] (a + b)[j],
    ) by {
        if j < a.len() {
            assert(le(a[i], a[j]));
        } else if i < a.len() {
            assert(le(a[i], b[j - a.len()]));
        } else {
            assert(le(b[i - a.len()], b[j - a.len()]));
        }
    }
}

/// The multiset of a sequence in three parts is the sum of the parts'.
pub proof fn lemma_three_parts_multiset<T>(a: Seq<T>, b: Seq<T>, c: Seq<T>)
    ensures
        (a + b + c).to_multiset() == a.to_multiset().add(b.to_multiset()).add(c.to_multiset()),
{
    lemma_multiset_commutative(a, b);
    lemma_multiset_commutative(a + b, c);
}

/// A sequence split around position `m` is sorted once both sides are.
pub proof fn lemma_sorted_around<T: Ord>(s: Seq<T>, m: int, left: Seq<T>, right: Seq<T>)
    requires
        total_order::<T>(),
        split_around(s, m),
        sorts(s.subrange(0, m), left),
        sorts(s.subrange(m + 1, s.len() as int), right),
    ensures
        sorts(s, left + seq![s[m]] + right),
{
    let pivot = s[m];
    let left_in = s.subrange(0, m);
    let right_in = s.subrange(m + 1, s.len() as int);
    assert(s =~= left_in + seq![pivot] + right_in);
    lemma_three_parts_multiset(left_in, seq![pivot], right_in);
    lemma_three_parts_multiset(left, seq![pivot], right);
    assert forall|i: int| 0 <= i < left_in.len() implies lt(#[trigger] left_in[i], pivot) by {
        assert(left_in[i] == s[i]);
    }
    lemma_all_carries(left_in, left, |x: T| lt(x, pivot));
    assert forall|i: int| 0 <= i < right_in.len() implies !lt(#[trigger] right_in[i], pivot) by {
        assert(right_in[i] == s[m + 1 + i]);
    }
    lemma_all_carries(right_in, right, |x: T| !lt(x, pivot));
    let front = left + seq![pivot];
    assert forall|i: int, j: int| 0 <= i <= j < front.len() implies le(
        #[trigger] front[i],
        #[trigger] front[j],
    ) by {
        lemma_trichotomy(front[i], front[j]);
        if j < left.len() {
            assert(le(left[i], left[j]));
        } else if i < left.len() {
            assert(lt(left[i], pivot));
        }
    }
    assert forall|i: int, j: int| 0 <= i < front.len() && 0 <= j < right.len() implies le(
        #[trigger] front[i],
        #[trigger] right[j],
    ) by {
        lemma_trichotomy(front[i], right[j]);
        lemma_trichotomy(pivot, right[j]);
        if i < left.len() {
            assert(lt(left[i], pivot));
            if lt(right[j], left[i]) {
                lemma_lt_transitive(right[j], left[i], pivot);
            }
        }
    }
    lemma_concat_sorted(front, right);
}

/// The elements of `s` that are less than `pivot`, in their order in `s`.
pub open spec fn below<T: Ord>(s: Seq<T>, pivot: T) -> Seq<T> {
    s.filter(|x: T| lt(x, pivot))
}

/// The elements of `s` that compare as equal to `pivot`, in their order in
/// `s`.
pub open spec fn level<T: Ord>(s: Seq<T>, pivot: T) -> Seq<T> {
    s.filter(|x: T| same_rank(x, pivot))
}

/// The elements of `s` that are greater than `pivot`, in their order in `s`.
pub open spec fn beyond<T: Ord>(s: Seq<T>, pivot: T) -> Seq<T> {
    s.filter(|x: T| lt(pivot, x))
}

/// What is below the pivot among the first `i + 1` elements is what is below
/// it among the first `i`, then element `i` if that is below it.
pub proof fn lemma_below_step<T: Ord>(s: Seq<T>, pivot: T, i: int)
    requires
        0 <= i < s.len(),
    ensures
        below(s.take(i + 1), pivot) == if lt(s[i], pivot) {
            below(s.take(i), pivot).push(s[i])
        } else {
            below(s.take(i), pivot)
        },
{
    assert(s.take(i + 1) =~= s.take(i).push(s[i]));
    s.take(i).lemma_filter_push(s[i], |x: T| lt(x, pivot));
}

/// Each element of a sequence is less than, level with or greater than the
/// pivot, so the three groups together hold what the sequence holds.
pub proof fn lemma_three_way_multiset<T: Ord>(s: Seq<T>, pivot: T)
    requires
        total_order::<T>(),
    ensures
        below(s, pivot).to_multiset().add(level(s, pivot).to_multiset()).add(
            beyond(s, pivot).to_multiset(),
        ) == s.to_multiset(),
        below(s, pivot).len() + level(s, pivot).len() + beyond(s, pivot).len() == s.len(),
    decreases s.len(),
{
    broadcast use vstd::multiset::group_multiset_axioms;

    if s.len() == 0 {
        reveal(Seq::filter);
        assert(below(s, pivot) =~= s);
        assert(level(s, pivot) =~= s);
        assert(beyond(s, pivot) =~= s);
        s.to_multiset_ensures();
        assert(s.to_multiset().add(s.to_multiset()).add(s.to_multiset()) =~= s.to_multiset());
    } else {
        let t = s.drop_last();
        let x = s.last();
        assert(s =~= t.push(x));
        lemma_three_way_multiset(t, pivot);
        t.lemma_filter_push(x, |y: T| lt(y, pivot));
        t.lemma_filter_push(x, |y: T| same_rank(y, pivot));
        t.lemma_filter_push(x, |y: T| lt(pivot, y));
        lemma_trichotomy(x, pivot);
        to_multiset_build(t, x);
        to_multiset_build(below(t, pivot), x);
        to_multiset_build(level(t, pivot), x);
        to_multiset_build(beyond(t, pivot), x);
        assert(below(s, pivot).to_multiset().add(level(s, pivot).to_multiset()).add(
            beyond(s, pivot).to_multiset(),
        ) =~= s.to_multiset());
    }
}

/// A sequence is sorted by sorting what is less than a pivot and what is
/// greater, and putting what is level with the pivot in between.
pub proof fn lemma_three_way_sorted<T: Ord>(s: Seq<T>, pivot: T, less: Seq<T>, greater: Seq<T>)
    requires
        total_order::<T>(),
        sorts(below(s, pivot), less),
        sorts(beyond(s, pivot), greater),
    ensures
        sorts(s, less + level(s, pivot) + greater),
        (less + level(s, pivot) + greater).len() == s.len(),
{
    let lows = below(s, pivot);
    let mids = level(s, pivot);
    let highs = beyond(s, pivot);
    lemma_three_way_multiset(s, pivot);
    lemma_three_parts_multiset(less, mids, greater);
    assert forall|i: int| 0 <= i < lows.len() implies lt(#[trigger] lows[i], pivot) by {
        s.lemma_filter_pred(|x: T| lt(x, pivot), i);
    }
    lemma_all_carries(lows, less, |x: T| lt(x, pivot));
    assert forall|i: int| 0 <= i < highs.len() implies lt(pivot, #[trigger] highs[i]) by {
        s.lemma_filter_pred(|x: T| lt(pivot, x), i);
    }
    lemma_all_carries(highs, greater, |x: T| lt(pivot, x));
    assert forall|i: int| 0 <= i < mids.len() implies same_rank(#[trigger] mids[i], pivot) by {
        s.lemma_filter_pred(|x: T| same_rank(x, pivot), i);
    }
    let front = less + mids;
    assert forall|i: int, j: int| 0 <= i <= j < front.len() implies le(
        #[trigger] front[i],
        #[trigger] front[j],
    ) by {
        if j < less.len() {
            assert(le(less[i], less[j]));
        } else if i < less.len() {
            let a = less[i];
            let b = mids[j - less.len()];
            assert(lt(a, pivot));
            lemma_same_rank_alike(b, pivot, a);
        } else {
            let a = mids[i - less.len()];
            let b = mids[j - less.len()];
            lemma_same_rank_alike(a, pivot, b);
            lemma_trichotomy(b, pivot);
        }
    }
    assert forall|i: int, j: int| 0 <= i < front.len() && 0 <= j < greater.len() implies le(
        #[trigger] front[i],
        #[trigger] greater[j],
    ) by {
        let b = greater[j];
        assert(lt(pivot, b));
        if i < less.len() {
            assert(lt(less[i], pivot));
            lemma_lt_transitive(less[i], pivot, b);
        } else {
            let a = mids[i - less.len()];
            lemma_same_rank_alike(a, pivot, b);
        }
    }
    lemma_concat_sorted(front, greater);
    s.to_multiset_ensures();
    (less + mids + greater).to_multiset_ensures();
}

/// Sorting has one result: where values that compare as equal are the same
/// value, any two ways of sorting a sequence give the same sequence, so all
/// the quicksorts of this library agree on every input.
pub proof fn lemma_sorts_once<T: Ord>(s: Seq<T>, a: Seq<T>, b: Seq<T>)
    requires
        total_order::<T>(),
        equal_is_same::<T>(),
        sorts(s, a),
        sorts(s, b),
    ensures
        a == b,
{
    let leq = |x: T, y: T| le(x, y);
    assert forall|x: T| #[trigger] leq(x, x) by {
        lemma_trichotomy(x, x);
    }
    assert forall|x: T, y: T| #[trigger] leq(x, y) && #[trigger] leq(y, x) implies x == y by {
        lemma_trichotomy(x, y);
        lemma_same_rank_is_same(x, y);
    }
    assert forall|x: T, y: T, z: T| #[trigger] leq(x, y) && #[trigger] leq(y, z) implies leq(
        x,
        z,
    ) by {
        lemma_le_transitive(x, y, z);
    }
    assert forall|x: T, y: T| #[trigger] leq(x, y) || #[trigger] leq(y, x) by {
        lemma_trichotomy(x, y);
    }
    assert(total_ordering(leq));
    assert(sorted_by(a, leq));
    assert(sorted_by(b, leq));
    lemma_sorted_unique(a, b, leq);
}

} // verus!
