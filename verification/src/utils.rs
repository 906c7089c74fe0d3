use vstd::prelude::*;

verus! {

/// One step of Marsaglia's 32-bit xorshift generator, with shifts 13, 17, 5.
pub open spec fn xorshift(x: u32) -> u32 {
    let a = x ^ (x << 13);
    let b = a ^ (a >> 17);
    b ^ (b << 5)
}

/// The generator's state after `n` steps from state `x`.
pub open spec fn state_after(x: u32, n: nat) -> u32
    decreases n,
{
    if n == 0 {
        x
    } else {
        xorshift(state_after(x, (n - 1) as nat))
    }
}

/// The 32-bit two's complement reading of `v`.
pub open spec fn wrapped(v: int) -> int {
    (v + 0x8000_0000) % 0x1_0000_0000 - 0x8000_0000
}

/// The value that a draw `x` of the generator gives in the range from `from`
/// towards `to`.
pub open spec fn ranged(x: u32, from: i32, to: i32) -> int {
    let span = if to >= from {
        to - from
    } else {
        from - to
    };
    wrapped(x as int % span + from)
}

/// A deterministic pseudo-random generator. Its view is its state.
pub struct Random {
    state: u32,
}

impl View for Random {
    type V = u32;

    closed spec fn view(&self) -> u32 {
        self.state
    }
}

/// A nonzero state never steps to zero, so a seeded generator never sticks.
pub proof fn lemma_xorshift_nonzero(x: u32)
    requires
        x != 0,
    ensures
        xorshift(x) != 0,
{
    assert(x != 0 ==> (x ^ (x << 13)) != 0) by (bit_vector);
    let a = x ^ (x << 13);
    assert(a != 0 ==> (a ^ (a >> 17)) != 0) by (bit_vector);
    let b = a ^ (a >> 17);
    assert(b != 0 ==> (b ^ (b << 5)) != 0) by (bit_vector);
}

/// The state of a seeded generator is nonzero after any number of steps.
pub proof fn lemma_state_after_nonzero(x: u32, n: nat)
    requires
        x != 0,
    ensures
        state_after(x, n) != 0,
    decreases n,
{
    if n > 0 {
        lemma_state_after_nonzero(x, (n - 1) as nat);
        lemma_xorshift_nonzero(state_after(x, (n - 1) as nat));
    }
}

/// With `from < to` a ranged draw lies in `from..to`.
pub proof fn lemma_ranged_bounds(x: u32, from: i32, to: i32)
    requires
        from < to,
    ensures
        from <= ranged(x, from, to) < to,
{
    let span = to - from;
    assert(0 <= x as int % span < span);
}

fn reading(v: i64) -> (r: i32)
    requires
        -0x8000_0000 <= v < 0x1_8000_0000,
    ensures
        r == wrapped(v as int),
{
    if v > 0x7fff_ffff {
        (v - 0x1_0000_0000) as i32
    } else {
        v as i32
    }
}

impl Random {
    /// A generator that starts in state `initial_state`, which is not zero.
    pub fn new(initial_state: u32) -> (r: Self)
        requires
            initial_state > 0,
        ensures
            r@ == initial_state,
    {
        Self { state: initial_state }
    }

    /// Steps the generator and returns its new state.
    pub fn next(&mut self) -> (r: u32)
        ensures
            r == xorshift(old(self)@),
            final(self)@ == r,
    {
        self.state ^= self.state << 13;
        self.state ^= self.state >> 17;
        self.state ^= self.state << 5;
        self.state
    }

    /// Steps the generator and maps the draw into the range from `from`
    /// towards `to`: for `from < to` into `from..to`.
    pub fn next_in_range(&mut self, from: i32, to: i32) -> (r: i32)
        requires
            from != to,
        ensures
            final(self)@ == xorshift(old(self)@),
            r == ranged(final(self)@, from, to),
            from < to ==> from <= r < to,
    {
        let draw: i64 = self.next() as i64;
        let span: i64 = if to >= from {
            to as i64 - from as i64
        } else {
            from as i64 - to as i64
        };
        proof {
            lemma_ranged_bounds_any(self@, from, to);
            if from < to {
                lemma_ranged_bounds(self@, from, to);
            }
        }
        reading(draw % span + from as i64)
    }

    /// `len` ranged draws in a row.
    pub fn next_vec_in_range(&mut self, len: usize, from: i32, to: i32) -> (r: Vec<i32>)
        requires
            from != to,
        ensures
            final(self)@ == state_after(old(self)@, len as nat),
            r@.len() == len,
            forall|i: int|
                0 <= i < len ==> #[trigger] r@[i] == ranged(
                    state_after(old(self)@, (i + 1) as nat),
                    from,
                    to,
                ),
    {
        let mut res: Vec<i32> = Vec::new();
        let mut i: usize = 0;
        while i < len
            invariant
                i <= len,
                from != to,
                self@ == state_after(old(self)@, i as nat),
                res@.len() == i,
                forall|j: int|
                    0 <= j < i ==> #[trigger] res@[j] == ranged(
                        state_after(old(self)@, (j + 1) as nat),
                        from,
                        to,
                    ),
            decreases len - i,
        {
            let v = self.next_in_range(from, to);
            res.push(v);
            i += 1;
        }
        res
    }

    /// `len` draws in a row, each read as a signed number.
    pub fn next_vec(&mut self, len: usize) -> (r: Vec<i32>)
        ensures
            final(self)@ == state_after(old(self)@, len as nat),
            r@.len() == len,
            forall|i: int|
                0 <= i < len ==> #[trigger] r@[i] == wrapped(
                    state_after(old(self)@, (i + 1) as nat) as int,
                ),
    {
        let mut res: Vec<i32> = Vec::new();
        let mut i: usize = 0;
        while i < len
            invariant
                i <= len,
                self@ == state_after(old(self)@, i as nat),
                res@.len() == i,
                forall|j: int|
                    0 <= j < i ==> #[trigger] res@[j] == wrapped(
                        state_after(old(self)@, (j + 1) as nat) as int,
                    ),
            decreases len - i,
        {
            let draw: i64 = self.next() as i64;
            res.push(reading(draw));
            i += 1;
        }
        res
    }
}

/// In whichever order the bounds stand, the sum that a ranged draw wraps fits
/// well within 64 bits.
proof fn lemma_ranged_bounds_any(x: u32, from: i32, to: i32)
    requires
        from != to,
    ensures
        ({
            let span = if to >= from {
                to - from
            } else {
                from - to
            };
            -0x8000_0000 <= x as int % span + from < 0x1_8000_0000
        }),
{
    let span = if to >= from {
        to - from
    } else {
        from - to
    };
    assert(0 <= x as int % span < span);
}

} // verus!
