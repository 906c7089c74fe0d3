use vstd::prelude::*;
use vstd::arithmetic::div_mod::{
    lemma_fundamental_div_mod,
    lemma_mod_decreases,
    lemma_mod_multiples_vanish,
    lemma_small_mod,
};
use crate::numeric::Summand;
use crate::parallel_primitives::elementwise::within;
use crate::parallel_primitives::blocks::{
    block_of,
    block_visits,
    blocked_for,
    blocks_in,
    lemma_block_starts_inside,
    lemma_blocks_after,
    lemma_blocks_span,
    lemma_whole_blocks,
};

verus! {

/// The number of elements that one task scans sequentially.
pub const SCAN_BLOCK_SIZE: usize = 1024 * 4;

/// The sum of the first `n` elements of `s`.
pub open spec fn sum_to<T: Summand>(s: Seq<T>, n: int) -> int
    decreases n,
{
    if n <= 0 {
        0
    } else {
        sum_to(s, n - 1) + s[n - 1].value()
    }
}

/// Whether the type can hold the sum of each prefix of `s`.
pub open spec fn prefixes_fit<T: Summand>(s: Seq<T>) -> bool {
    forall|n: int| 0 <= n <= s.len() ==> T::fits(#[trigger] sum_to(s, n))
}

/// Whether the type can hold the sum of each run of consecutive elements of
/// `s`.
pub open spec fn runs_fit<T: Summand>(s: Seq<T>) -> bool {
    forall|a: int, b: int|
        0 <= a <= b <= s.len() ==> T::fits(#[trigger] sum_to(s, b) - #[trigger] sum_to(s, a))
}

/// Whether `after` holds the exclusive prefix sums of `before`: at each
/// position the sum of what stands before that position in `before`.
pub open spec fn scanned<T: Summand>(before: Seq<T>, after: Seq<T>) -> bool {
    &&& after.len() == before.len()
    &&& forall|i: int| 0 <= i < before.len() ==> (#[trigger] after[i]).value() == sum_to(before, i)
}

/// The sums within a part of a sequence are differences of sums of the whole.
pub proof fn lemma_sum_to_part<T: Summand>(s: Seq<T>, a: int, b: int, n: int)
    requires
        0 <= a <= b <= s.len(),
        0 <= n <= b - a,
    ensures
        sum_to(s.subrange(a, b), n) == sum_to(s, a + n) - sum_to(s, a),
    decreases n,
{
    if n > 0 {
        lemma_sum_to_part(s, a, b, n - 1);
        assert(s.subrange(a, b)[n - 1] == s[a + n - 1]);
    }
}

/// Where the sums of all runs fit, so do those of the runs of any part.
pub proof fn lemma_runs_fit_part<T: Summand>(s: Seq<T>, a: int, b: int)
    requires
        0 <= a <= b <= s.len(),
        runs_fit(s),
    ensures
        runs_fit(s.subrange(a, b)),
        prefixes_fit(s.subrange(a, b)),
{
    let part = s.subrange(a, b);
    assert forall|x: int, y: int| 0 <= x <= y <= part.len() implies T::fits(
        #[trigger] sum_to(part, y) - #[trigger] sum_to(part, x),
    ) by {
        lemma_sum_to_part(s, a, b, x);
        lemma_sum_to_part(s, a, b, y);
        assert(T::fits(sum_to(s, a + y) - sum_to(s, a + x)));
    }
    assert forall|n: int| 0 <= n <= part.len() implies T::fits(#[trigger] sum_to(part, n)) by {
        assert(T::fits(sum_to(part, n) - sum_to(part, 0)));
    }
}

/// Replaces each element of a slice by the sum of the elements before it, in
/// one pass from left to right, and returns the sum of all of them.
pub fn inline_pref_sums<T: Summand>(arr: &mut [T]) -> (total: T)
    requires
        prefixes_fit(old(arr)@),
    ensures
        scanned(old(arr)@, final(arr)@),
        total.value() == sum_to(old(arr)@, old(arr)@.len() as int),
{
    let n: usize = arr.len();
    let mut sum: T = T::zero();
    let mut i: usize = 0;
    while i < n
        invariant
            i <= n,
            n == old(arr)@.len(),
            arr@.len() == n,
            prefixes_fit(old(arr)@),
            sum.value() == sum_to(old(arr)@, i as int),
            forall|k: int| 0 <= k < i ==> (#[trigger] arr@[k]).value() == sum_to(old(arr)@, k),
            forall|k: int| i <= k < n ==> arr@[k] == old(arr)@[k],
        decreases n - i,
    {
        let el_copy: T = arr[i];
        arr[i] = sum;
        proof {
            assert(T::fits(sum_to(old(arr)@, i + 1)));
        }
        sum = sum.plus(el_copy);
        i += 1;
    }
    sum
}

/// Where the block that holds position `p` starts, with blocks of `size`
/// elements.
pub open spec fn block_base(p: int, size: int) -> int {
    p - p % size
}

/// Where block `j` of `len` elements ends, with blocks of `size` elements.
pub open spec fn block_end(j: int, size: int, len: int) -> int {
    if (j + 1) * size <= len {
        (j + 1) * size
    } else {
        len
    }
}

/// Whether `after` holds the exclusive prefix sums of `before` taken within
/// each block of `size` elements, and `sums` the sum of each block.
pub open spec fn blocks_scanned<T: Summand>(
    before: Seq<T>,
    after: Seq<T>,
    sums: Seq<T>,
    size: int,
) -> bool {
    &&& after.len() == before.len()
    &&& sums.len() == blocks_in(before.len() as int, size)
    &&& forall|p: int|
        0 <= p < before.len() ==> (#[trigger] after[p]).value() == sum_to(before, p) - sum_to(
            before,
            block_base(p, size),
        )
    &&& forall|j: int|
        0 <= j < sums.len() ==> (#[trigger] sums[j]).value() == sum_to(
            before,
            block_end(j, size, before.len() as int),
        ) - sum_to(before, j * size)
}

/// Blockwise sums of the first `h` whole blocks and of the rest make up the
/// blockwise sums of the whole.
pub proof fn lemma_blocks_scanned_join<T: Summand>(
    before: Seq<T>,
    h: int,
    size: int,
    left_after: Seq<T>,
    left_sums: Seq<T>,
    right_after: Seq<T>,
    right_sums: Seq<T>,
)
    requires
        0 < size,
        0 < h,
        h * size < before.len(),
        blocks_scanned(before.subrange(0, h * size), left_after, left_sums, size),
        blocks_scanned(
            before.subrange(h * size, before.len() as int),
            right_after,
            right_sums,
            size,
        ),
    ensures
        blocks_scanned(before, left_after + right_after, left_sums + right_sums, size),
{
    let len = before.len() as int;
    let cut = h * size;
    let left = before.subrange(0, cut);
    let right = before.subrange(cut, len);
    let after = left_after + right_after;
    let sums = left_sums + right_sums;
    lemma_whole_blocks(h, size);
    lemma_blocks_after(len, h, size);
    assert forall|p: int| 0 <= p < len implies (#[trigger] after[p]).value() == sum_to(before, p)
        - sum_to(before, block_base(p, size)) by {
        assert(0 <= p % size < size);
        lemma_mod_decreases(p as nat, size as nat);
        if p < cut {
            assert(after[p] == left_after[p]);
            lemma_sum_to_part(before, 0, cut, p);
            lemma_sum_to_part(before, 0, cut, block_base(p, size));
        } else {
            let q = p - cut;
            assert(after[p] == right_after[q]);
            lemma_mod_multiples_vanish(-h, p, size);
            assert(size * (-h) + p == q) by (nonlinear_arith)
                requires
                    q == p - h * size,
            ;
            assert(q % size == p % size);
            lemma_mod_decreases(q as nat, size as nat);
            lemma_sum_to_part(before, cut, len, q);
            lemma_sum_to_part(before, cut, len, block_base(q, size));
        }
    }
    assert forall|j: int| 0 <= j < sums.len() implies (#[trigger] sums[j]).value() == sum_to(
        before,
        block_end(j, size, len),
    ) - sum_to(before, j * size) by {
        if j < h {
            assert(sums[j] == left_sums[j]);
            assert((j + 1) * size <= h * size) by (nonlinear_arith)
                requires
                    j + 1 <= h,
                    size > 0,
            ;
            assert(0 <= j * size <= (j + 1) * size) by (nonlinear_arith)
                requires
                    0 <= j,
                    size > 0,
            ;
            lemma_sum_to_part(before, 0, cut, (j + 1) * size);
            lemma_sum_to_part(before, 0, cut, j * size);
        } else {
            let i = j - h;
            assert(sums[j] == right_sums[i]);
            lemma_block_starts_inside(len - cut, size, i);
            assert(j * size == cut + i * size) by (nonlinear_arith)
                requires
                    i == j - h,
                    cut == h * size,
            ;
            assert((j + 1) * size == cut + (i + 1) * size) by (nonlinear_arith)
                requires
                    i == j - h,
                    cut == h * size,
            ;
            assert((i + 1) * size == i * size + size) by (nonlinear_arith);
            lemma_sum_to_part(before, cut, len, block_end(i, size, len - cut));
            lemma_sum_to_part(before, cut, len, i * size);
        }
    }
}

/// Scans each block of `SCAN_BLOCK_SIZE` elements on its own and records the
/// blocks' sums in `sums`, one entry per block. The blocks are divided in
/// halves, together with their entries of `sums`, and the halves run as
/// independent tasks.
fn scan_blocks<T: Summand + Send>(arr: &mut [T], sums: &mut [T])
    requires
        old(arr)@.len() > 0,
        old(sums)@.len() == blocks_in(old(arr)@.len() as int, SCAN_BLOCK_SIZE as int),
        runs_fit(old(arr)@),
    ensures
        blocks_scanned(old(arr)@, final(arr)@, final(sums)@, SCAN_BLOCK_SIZE as int),
    decreases old(arr)@.len(),
{
    let len: usize = arr.len();
    let ghost size = SCAN_BLOCK_SIZE as int;
    let ghost before = arr@;
    proof {
        lemma_blocks_span(len as int, size);
    }
    if len <= SCAN_BLOCK_SIZE {
        proof {
            lemma_runs_fit_part(before, 0, len as int);
            assert(before.subrange(0, len as int) =~= before);
        }
        let total = inline_pref_sums(arr);
        sums[0] = total;
        proof {
            assert forall|p: int| 0 <= p < len implies block_base(p, size) == 0 by {
                lemma_small_mod(p as nat, size as nat);
            }
        }
        return;
    }
    let half: usize = sums.len() / 2;
    proof {
        let blocks = blocks_in(len as int, size);
        assert(1 <= half <= blocks - 1);
        assert(half * size <= (blocks - 1) * size) by (nonlinear_arith)
            requires
                half <= blocks - 1,
                size > 0,
        ;
        assert(half * size >= size) by (nonlinear_arith)
            requires
                half >= 1,
                size > 0,
        ;
        lemma_whole_blocks(half as int, size);
        lemma_blocks_after(len as int, half as int, size);
    }
    let cut: usize = half * SCAN_BLOCK_SIZE;
    let (arr_left, arr_right) = arr.split_at_mut(cut);
    let (sums_left, sums_right) = sums.split_at_mut(half);
    let ghost left_in = arr_left@;
    let ghost right_in = arr_right@;
    proof {
        lemma_runs_fit_part(before, 0, cut as int);
        lemma_runs_fit_part(before, cut as int, len as int);
    }
    rayon::join(
        move || ensures blocks_scanned(left_in, final(arr_left)@, final(sums_left)@, size) {
            let part = arr_left;
            let totals = sums_left;
            scan_blocks(part, totals)
        },
        move || ensures blocks_scanned(right_in, final(arr_right)@, final(sums_right)@, size) {
            let part = arr_right;
            let totals = sums_right;
            scan_blocks(part, totals)
        },
    );
    proof {
        lemma_blocks_scanned_join(
            before,
            half as int,
            size,
            final(arr_left)@,
            final(sums_left)@,
            final(arr_right)@,
            final(sums_right)@,
        );
    }
}

/// The sums of the first `k` blocks add up to the sum of the elements in
/// those blocks.
pub proof fn lemma_block_sums_telescope<T: Summand>(
    before: Seq<T>,
    after: Seq<T>,
    sums: Seq<T>,
    size: int,
    k: int,
)
    requires
        0 < size,
        0 < before.len(),
        blocks_scanned(before, after, sums, size),
        0 <= k <= sums.len(),
    ensures
        sum_to(sums, k) == sum_to(before, block_end(k - 1, size, before.len() as int)),
        0 <= block_end(k - 1, size, before.len() as int) <= before.len(),
    decreases k,
{
    let len = before.len() as int;
    assert(0 * size == 0) by (nonlinear_arith);
    if k > 0 {
        lemma_block_sums_telescope(before, after, sums, size, k - 1);
        lemma_block_starts_inside(len, size, k - 1);
        assert((k - 1 + 1) * size == k * size);
        assert((k - 1) * size + size == k * size) by (nonlinear_arith);
    }
}

/// Every position `p` lies in block `p / size`, at offset `p % size`.
pub proof fn lemma_position_in_block(len: int, size: int, p: int)
    requires
        0 < size,
        0 <= p < len,
    ensures
        0 <= p / size < blocks_in(len, size),
        p == (p / size) * size + p % size,
        0 <= p % size < size,
        block_base(p, size) == (p / size) * size,
        (p / size) * size + p % size < block_end(p / size, size, len),
{
    lemma_fundamental_div_mod(p, size);
    lemma_blocks_span(len, size);
    let j = p / size;
    let b = blocks_in(len, size);
    assert(j * size == size * j) by (nonlinear_arith);
    assert((j + 1) * size == j * size + size) by (nonlinear_arith);
    if j < 0 {
        assert(size * j <= -size) by (nonlinear_arith)
            requires
                j <= -1,
                size > 0,
        ;
    }
    if j >= b {
        assert(j * size >= b * size) by (nonlinear_arith)
            requires
                j >= b,
                size > 0,
        ;
    }
}

/// Adds `prev` to every element of a block.
fn add_to_each<T: Summand>(block: &mut [T], prev: T)
    requires
        forall|i: int|
            0 <= i < old(block)@.len() ==> T::fits(
                (#[trigger] old(block)@[i]).value() + prev.value(),
            ),
    ensures
        final(block)@.len() == old(block)@.len(),
        forall|i: int|
            0 <= i < old(block)@.len() ==> (#[trigger] final(block)@[i]).value() == old(
                block,
            )@[i].value() + prev.value(),
{
    let n: usize = block.len();
    let mut i: usize = 0;
    while i < n
        invariant
            i <= n,
            n == old(block)@.len(),
            block@.len() == n,
            forall|k: int|
                0 <= k < n ==> T::fits((#[trigger] old(block)@[k]).value() + prev.value()),
            forall|k: int|
                0 <= k < i ==> (#[trigger] block@[k]).value() == old(block)@[k].value()
                    + prev.value(),
            forall|k: int| i <= k < n ==> block@[k] == old(block)@[k],
        decreases n - i,
    {
        let el: T = block[i];
        assert(T::fits(old(block)@[i as int].value() + prev.value()));
        block[i] = el.plus(prev);
        i += 1;
    }
}

/// Replaces each element of a slice by the sum of the elements before it and
/// returns the sum of all of them.
///
/// A slice longer than `SCAN_BLOCK_SIZE` is scanned block by block, the
/// blocks as independent tasks; the blocks' sums are scanned in the same way,
/// and a second pass over the blocks adds to each element the sum of the
/// blocks before its own. Sums are thus formed of runs that start anywhere,
/// and the type has to hold the sum of each run.
pub fn par_inline_prefix_sums<T: Summand + Send + Sync>(arr: &mut [T]) -> (total: T)
    requires
        runs_fit(old(arr)@),
    ensures
        scanned(old(arr)@, final(arr)@),
        total.value() == sum_to(old(arr)@, old(arr)@.len() as int),
    decreases old(arr)@.len(),
{
    let len: usize = arr.len();
    let ghost before = arr@;
    let ghost size = SCAN_BLOCK_SIZE as int;
    proof {
        lemma_runs_fit_part(before, 0, len as int);
        assert(before.subrange(0, len as int) =~= before);
    }
    if len <= SCAN_BLOCK_SIZE {
        return inline_pref_sums(arr);
    }
    proof {
        lemma_blocks_span(len as int, size);
    }
    let block_count: usize = if len % SCAN_BLOCK_SIZE == 0 {
        len / SCAN_BLOCK_SIZE
    } else {
        len / SCAN_BLOCK_SIZE + 1
    };
    let mut block_sums: Vec<T> = vec![T::zero(); block_count];

    scan_blocks(arr, block_sums.as_mut_slice());
    let ghost mid = arr@;
    let ghost sums_mid = block_sums@;
    proof {
        assert forall|a: int, b: int| 0 <= a <= b <= sums_mid.len() implies T::fits(
            #[trigger] sum_to(sums_mid, b) - #[trigger] sum_to(sums_mid, a),
        ) by {
            lemma_block_sums_telescope(before, mid, sums_mid, size, a);
            lemma_block_sums_telescope(before, mid, sums_mid, size, b);
            lemma_block_ends_ascend(a - 1, b - 1, size, len as int);
        }
    }

    let total = par_inline_prefix_sums(block_sums.as_mut_slice());
    let ghost sums_after = block_sums@;
    proof {
        lemma_block_sums_telescope(before, mid, sums_mid, size, block_count as int);
        assert forall|p: int| 0 <= p < len implies T::fits(
            (#[trigger] mid[p]).value() + sums_after[p / size].value(),
        ) && mid[p].value() + sums_after[p / size].value() == sum_to(before, p) by {
            lemma_position_in_block(len as int, size, p);
            lemma_block_sums_telescope(before, mid, sums_mid, size, p / size);
            lemma_block_starts_inside(len as int, size, p / size);
        }
    }

    let block_sums_ref: &[T] = block_sums.as_slice();
    let add = |block_num: usize, block: &mut [T]|
        requires
            block_num < block_sums_ref@.len(),
            forall|i: int|
                0 <= i < block@.len() ==> T::fits(
                    (#[trigger] block@[i]).value() + block_sums_ref@[block_num as int].value(),
                ),
        ensures
            final(block)@.len() == old(block)@.len(),
            forall|i: int|
                0 <= i < old(block)@.len() ==> (#[trigger] final(block)@[i]).value() == old(
                    block,
                )@[i].value() + block_sums_ref@[block_num as int].value(),
        {
            add_to_each(block, block_sums_ref[block_num])
        };
    proof {
        assert forall|k: usize, x: &mut [T]|
            k < block_visits(len as int, size) && x@ == block_of(
                mid,
                k as int,
                size,
            ) implies call_requires(add, (k, x)) by {
            lemma_block_starts_inside(len as int, size, k as int);
            assert forall|i: int| 0 <= i < x@.len() implies T::fits(
                (#[trigger] x@[i]).value() + sums_after[k as int].value(),
            ) by {
                let p = k * size + i;
                lemma_position_in_block(len as int, size, p);
                lemma_block_offset(k as int, i, size);
                assert(x@[i] == mid[p]);
            }
        }
    }
    blocked_for::<T, SCAN_BLOCK_SIZE>(arr, add);
    proof {
        assert forall|p: int| 0 <= p < len implies (#[trigger] arr@[p]).value() == sum_to(
            before,
            p,
        ) by {
            lemma_position_in_block(len as int, size, p);
            let j = p / size;
            let i = p % size;
            assert(within(j, block_visits(len as int, size) as nat));
            let x = choose|x: &mut [T]|
                x@ == block_of(mid, j, size) && final(x)@ == block_of(arr@, j, size)
                    && #[trigger] call_ensures(add, (j as usize, x), ());
            assert(x@[i] == mid[p]);
            assert(final(x)@[i] == arr@[p]);
        }
    }
    total
}

/// Later blocks end no earlier.
pub proof fn lemma_block_ends_ascend(a: int, b: int, size: int, len: int)
    requires
        0 < size,
        0 <= len,
        -1 <= a <= b,
    ensures
        0 <= block_end(a, size, len) <= block_end(b, size, len) <= len,
{
    assert((a + 1) * size <= (b + 1) * size) by (nonlinear_arith)
        requires
            a <= b,
            size > 0,
    ;
    assert(0 <= (a + 1) * size) by (nonlinear_arith)
        requires
            -1 <= a,
            size > 0,
    ;
}

/// Offset `i` of block `k` is position `k * size + i`.
pub proof fn lemma_block_offset(k: int, i: int, size: int)
    requires
        0 < size,
        0 <= k,
        0 <= i < size,
    ensures
        (k * size + i) / size == k,
        (k * size + i) % size == i,
{
    vstd::arithmetic::div_mod::lemma_fundamental_div_mod_converse(k * size + i, size, k, i);
    assert(k * size == size * k) by (nonlinear_arith);
}

} // verus!
