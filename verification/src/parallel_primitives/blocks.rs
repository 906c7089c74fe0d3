use vstd::prelude::*;
use vstd::arithmetic::div_mod::{
    lemma_div_multiples_vanish,
    lemma_fundamental_div_mod,
    lemma_hoist_over_denominator,
    lemma_mod_multiples_basic,
    lemma_mod_multiples_vanish,
};
use crate::parallel_primitives::elementwise::within;

verus! {

/// The number of blocks of `size` elements needed to cover `len` elements,
/// the last of which may be partial.
pub open spec fn blocks_in(len: int, size: int) -> int {
    len / size + if len % size == 0 {
        0int
    } else {
        1int
    }
}

/// The number of blocks that a blockwise pass visits: an empty range still
/// counts as one (empty) block.
pub open spec fn block_visits(len: int, size: int) -> int {
    if len == 0 {
        1
    } else {
        blocks_in(len, size)
    }
}

/// Block number `j` of `s`, cut into blocks of `size` elements.
pub open spec fn block_of<T>(s: Seq<T>, j: int, size: int) -> Seq<T> {
    s.subrange(j * size, if (j + 1) * size <= s.len() {
        (j + 1) * size
    } else {
        s.len() as int
    })
}

/// A range of whole blocks holds exactly that many blocks.
pub proof fn lemma_whole_blocks(h: int, size: int)
    requires
        0 <= h,
        0 < size,
    ensures
        blocks_in(h * size, size) == h,
{
    lemma_div_multiples_vanish(h, size);
    lemma_mod_multiples_basic(h, size);
    assert(h * size == size * h) by (nonlinear_arith);
}

/// Taking `h` whole blocks off the front leaves `h` blocks fewer.
pub proof fn lemma_blocks_after(len: int, h: int, size: int)
    requires
        0 <= h,
        0 < size,
        h * size <= len,
    ensures
        blocks_in(len - h * size, size) == blocks_in(len, size) - h,
{
    lemma_hoist_over_denominator(len, -h, size as nat);
    lemma_mod_multiples_vanish(-h, len, size);
    assert(len + (-h) * size == len - h * size) by (nonlinear_arith);
    assert(size * (-h) + len == len - h * size) by (nonlinear_arith);
}

/// All blocks but the last lie strictly inside the range.
pub proof fn lemma_blocks_span(len: int, size: int)
    requires
        0 < size,
        0 < len,
    ensures
        (blocks_in(len, size) - 1) * size < len <= blocks_in(len, size) * size,
        blocks_in(len, size) >= 1,
        len > size ==> blocks_in(len, size) >= 2,
        len <= size ==> blocks_in(len, size) == 1,
        blocks_in(len, size) <= len,
{
    lemma_fundamental_div_mod(len, size);
    let q = len / size;
    let r = len % size;
    assert(0 <= r < size);
    assert(len == size * q + r);
    assert((q - 1) * size == size * q - size) by (nonlinear_arith);
    assert((q + 1) * size == size * q + size) by (nonlinear_arith);
    assert(q * size == size * q) by (nonlinear_arith);
    if q <= 0 {
        assert(size * q <= 0) by (nonlinear_arith)
            requires
                q <= 0,
                size > 0,
        ;
    }
    if len > size && q <= 1 {
        assert(size * q <= size) by (nonlinear_arith)
            requires
                q <= 1,
                size > 0,
        ;
    }
    if q >= 1 {
        assert(size * q >= size && size * q >= q) by (nonlinear_arith)
            requires
                q >= 1,
                size > 0,
        ;
    }
    if q >= 2 {
        assert(size * q >= 2 * size) by (nonlinear_arith)
            requires
                q >= 2,
                size > 0,
        ;
    }
}

/// Every block of a range starts inside the range.
pub proof fn lemma_block_starts_inside(len: int, size: int, j: int)
    requires
        0 < size,
        0 < len,
        0 <= j < blocks_in(len, size),
    ensures
        0 <= j * size < len,
{
    lemma_blocks_span(len, size);
    let b = blocks_in(len, size);
    assert(j * size <= (b - 1) * size) by (nonlinear_arith)
        requires
            j <= b - 1,
            size > 0,
    ;
    assert(0 <= j * size) by (nonlinear_arith)
        requires
            0 <= j,
            size > 0,
    ;
}

/// Handles a slice block by block: `action` gets each block's number and the
/// block itself, a run of `BLOCK_SIZE` elements (fewer in the last block).
/// The range of block numbers is halved until one block is left, and the
/// halves run as independent tasks. An empty slice is handed over once, as
/// block 0.
///
/// Each block ends as `action` leaves it when called once with that block's
/// number on that block's elements at entry. `action` cannot change the
/// length of the block that it is given; the last precondition asks that its
/// own contract says so.
pub fn blocked_for<T: Send, const BLOCK_SIZE: usize>(
    arr: &mut [T],
    action: impl Fn(usize, &mut [T]) + Copy + Sync,
)
    requires
        BLOCK_SIZE > 0,
        forall|k: usize, x: &mut [T]|
            k < block_visits(old(arr)@.len() as int, BLOCK_SIZE as int) && x@ == block_of(
                old(arr)@,
                k as int,
                BLOCK_SIZE as int,
            ) ==> call_requires(action, (k, x)),
        forall|k: usize, x: &mut [T]|
            call_ensures(action, (k, x), ()) ==> final(x)@.len() == x@.len(),
    ensures
        final(arr)@.len() == old(arr)@.len(),
        forall|j: int|
            #![trigger within(j, block_visits(old(arr)@.len() as int, BLOCK_SIZE as int) as nat)]
            within(j, block_visits(old(arr)@.len() as int, BLOCK_SIZE as int) as nat)
                ==> exists|x: &mut [T]|
                #![trigger call_ensures(action, (j as usize, x), ())]
                x@ == block_of(old(arr)@, j, BLOCK_SIZE as int) && final(x)@ == block_of(
                    final(arr)@,
                    j,
                    BLOCK_SIZE as int,
                ) && call_ensures(action, (j as usize, x), ()),
{
    let len: usize = arr.len();
    let whole: usize = len / BLOCK_SIZE;
    proof {
        if len > 0 {
            lemma_blocks_span(len as int, BLOCK_SIZE as int);
        }
    }
    let block_count: usize = if len % BLOCK_SIZE == 0 {
        whole
    } else {
        whole + 1
    };
    blocked_for_helper::<T, BLOCK_SIZE>(arr, 0, block_count, action);
    let ghost visits = block_visits(len as int, BLOCK_SIZE as int) as nat;
    assert forall|j: int| #![trigger within(j, visits)] within(j, visits) implies exists|x: &mut [T]|
        #![trigger call_ensures(action, (j as usize, x), ())]
        x@ == block_of(old(arr)@, j, BLOCK_SIZE as int) && final(x)@ == block_of(
            final(arr)@,
            j,
            BLOCK_SIZE as int,
        ) && call_ensures(action, (j as usize, x), ()) by {
        let (k, x) = choose|k: usize, x: &mut [T]|
            k == j && x@ == block_of(old(arr)@, j, BLOCK_SIZE as int) && final(x)@ == block_of(
                final(arr)@,
                j,
                BLOCK_SIZE as int,
            ) && #[trigger] call_ensures(action, (k, x), ());
        assert(call_ensures(action, (j as usize, x), ()));
    }
}

fn blocked_for_helper<T: Send, const BLOCK_SIZE: usize>(
    arr: &mut [T],
    block_left: usize,
    block_right: usize,
    action: impl Fn(usize, &mut [T]) + Copy + Sync,
)
    requires
        BLOCK_SIZE > 0,
        block_right - block_left == blocks_in(old(arr)@.len() as int, BLOCK_SIZE as int),
        forall|k: usize, x: &mut [T]|
            block_left <= k < block_left + block_visits(
                old(arr)@.len() as int,
                BLOCK_SIZE as int,
            ) && x@ == block_of(old(arr)@, k - block_left, BLOCK_SIZE as int) ==> call_requires(
                action,
                (k, x),
            ),
        forall|k: usize, x: &mut [T]|
            call_ensures(action, (k, x), ()) ==> final(x)@.len() == x@.len(),
    ensures
        final(arr)@.len() == old(arr)@.len(),
        forall|j: int|
            #![trigger within(j, block_visits(old(arr)@.len() as int, BLOCK_SIZE as int) as nat)]
            within(j, block_visits(old(arr)@.len() as int, BLOCK_SIZE as int) as nat)
                ==> exists|k: usize, x: &mut [T]|
                #![trigger call_ensures(action, (k, x), ())]
                k == block_left + j && x@ == block_of(old(arr)@, j, BLOCK_SIZE as int)
                    && final(x)@ == block_of(final(arr)@, j, BLOCK_SIZE as int)
                    && call_ensures(action, (k, x), ()),
    decreases old(arr)@.len(),
{
    let len: usize = arr.len();
    let ghost size = BLOCK_SIZE as int;
    let ghost visits = block_visits(len as int, size) as nat;
    if len <= BLOCK_SIZE {
        proof {
            if len > 0 {
                lemma_blocks_span(len as int, size);
            }
            assert(visits == 1);
            assert(block_of(arr@, 0, size) =~= arr@);
        }
        action(block_left, arr);
        proof {
            assert(block_of(arr@, 0, size) =~= arr@);
        }
        return;
    }
    proof {
        lemma_blocks_span(len as int, size);
    }
    let half: usize = (block_right - block_left) / 2;
    let m: usize = block_left + half;
    proof {
        assert(1 <= half <= visits - 1);
        assert(half * size <= (visits - 1) * size) by (nonlinear_arith)
            requires
                half <= visits - 1,
                size > 0,
        ;
        assert(half * size >= size) by (nonlinear_arith)
            requires
                half >= 1,
                size > 0,
        ;
        lemma_whole_blocks(half as int, size);
        lemma_blocks_after(len as int, half as int, size);
    }
    let split_point: usize = half * BLOCK_SIZE;
    let (arr_left, arr_right) = arr.split_at_mut(split_point);
    let by = &action;
    let ghost left_in = arr_left@;
    let ghost right_in = arr_right@;
    let ghost left_visits = block_visits(left_in.len() as int, size) as nat;
    let ghost right_visits = block_visits(right_in.len() as int, size) as nat;
    proof {
        assert(left_visits == half);
        assert(right_visits == visits - half);
        assert forall|k: usize, x: &mut [T]|
            block_left <= k < block_left + left_visits && x@ == block_of(
                left_in,
                k - block_left,
                size,
            ) implies call_requires(action, (k, x)) by {
            lemma_block_of_prefix(old(arr)@, split_point as int, k - block_left, size, half as int);
        }
        assert forall|k: usize, x: &mut [T]|
            m <= k < m + right_visits && x@ == block_of(right_in, k - m, size) implies call_requires(
            action,
            (k, x),
        ) by {
            lemma_block_starts_inside(len as int, size, half + (k - m));
            assert((half + (k - m)) * size == half * size + (k - m) * size) by (nonlinear_arith);
            lemma_block_of_suffix(old(arr)@, k - m, size, half as int);
        }
    }
    rayon::join(
        move || ensures
            final(arr_left)@.len() == left_in.len(),
            forall|j: int|
                #![trigger within(j, left_visits)]
                within(j, left_visits) ==> exists|k: usize, x: &mut [T]|
                    #![trigger call_ensures(*by, (k, x), ())]
                    k == block_left + j && x@ == block_of(left_in, j, size) && final(x)@
                        == block_of(final(arr_left)@, j, size) && call_ensures(*by, (k, x), ()) {
            let part = arr_left;
            blocked_for_helper::<T, BLOCK_SIZE>(part, block_left, m, *by)
        },
        move || ensures
            final(arr_right)@.len() == right_in.len(),
            forall|j: int|
                #![trigger within(j, right_visits)]
                within(j, right_visits) ==> exists|k: usize, x: &mut [T]|
                    #![trigger call_ensures(*by, (k, x), ())]
                    k == m + j && x@ == block_of(right_in, j, size) && final(x)@ == block_of(
                        final(arr_right)@,
                        j,
                        size,
                    ) && call_ensures(*by, (k, x), ()) {
            let part = arr_right;
            blocked_for_helper::<T, BLOCK_SIZE>(part, m, block_right, *by)
        },
    );
    assert forall|j: int| #![trigger within(j, visits)] within(j, visits) implies exists|
        k: usize,
        x: &mut [T],
    |
        #![trigger call_ensures(action, (k, x), ())]
        k == block_left + j && x@ == block_of(old(arr)@, j, size) && final(x)@ == block_of(
            final(arr)@,
            j,
            size,
        ) && call_ensures(action, (k, x), ()) by {
        if j < half {
            assert(within(j, left_visits));
            lemma_block_of_prefix(old(arr)@, split_point as int, j, size, half as int);
            lemma_block_of_prefix(final(arr)@, split_point as int, j, size, half as int);
            assert(final(arr)@.subrange(0, split_point as int) =~= final(arr_left)@);
        } else {
            assert(within(j - half, right_visits));
            lemma_block_starts_inside(len as int, size, j);
            assert(j * size == half * size + (j - half) * size) by (nonlinear_arith);
            lemma_block_of_suffix(old(arr)@, j - half, size, half as int);
            lemma_block_of_suffix(final(arr)@, j - half, size, half as int);
            assert(final(arr)@.subrange(split_point as int, final(arr)@.len() as int)
                =~= final(arr_right)@);
        }
    }
}

/// A block that lies within the first `h` whole blocks is the same block of
/// that prefix.
pub proof fn lemma_block_of_prefix<T>(s: Seq<T>, cut: int, j: int, size: int, h: int)
    requires
        0 < size,
        0 <= j < h,
        cut == h * size,
        cut <= s.len(),
    ensures
        block_of(s.subrange(0, cut), j, size) == block_of(s, j, size),
{
    assert((j + 1) * size <= h * size) by (nonlinear_arith)
        requires
            j + 1 <= h,
            size > 0,
    ;
    assert(0 <= j * size <= (j + 1) * size) by (nonlinear_arith)
        requires
            0 <= j,
            size > 0,
    ;
    assert(block_of(s.subrange(0, cut), j, size) =~= block_of(s, j, size));
}

/// Block `j` of what follows the first `h` whole blocks is block `h + j` of
/// the whole.
pub proof fn lemma_block_of_suffix<T>(s: Seq<T>, j: int, size: int, h: int)
    requires
        0 < size,
        0 <= j,
        0 <= h,
        h * size + j * size <= s.len(),
    ensures
        block_of(s.subrange(h * size, s.len() as int), j, size) == block_of(s, h + j, size),
{
    assert((h + j) * size == h * size + j * size) by (nonlinear_arith);
    assert((h + j + 1) * size == h * size + (j + 1) * size) by (nonlinear_arith);
    assert((j + 1) * size == j * size + size) by (nonlinear_arith);
    assert(0 <= j * size) by (nonlinear_arith)
        requires
            0 <= j,
            size > 0,
    ;
    assert(0 <= h * size) by (nonlinear_arith)
        requires
            0 <= h,
            size > 0,
    ;
    assert(block_of(s.subrange(h * size, s.len() as int), j, size) =~= block_of(s, h + j, size));
}

} // verus!
