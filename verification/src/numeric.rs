use vstd::prelude::*;

verus! {

/// A number that can be summed: it stands for an integer, has a zero, and
/// adds without loss as long as the sum can be held.
pub trait Summand: Copy + Sized {
    /// The integer that `self` stands for.
    spec fn value(self) -> int;

    /// Whether the type can hold `n`.
    spec fn fits(n: int) -> bool;

    /// The additive identity.
    fn zero() -> (r: Self)
        ensures
            r.value() == 0,
    ;

    /// The sum of two numbers, where the type can hold it.
    fn plus(self, other: Self) -> (r: Self)
        requires
            Self::fits(self.value() + other.value()),
        ensures
            r.value() == self.value() + other.value(),
    ;

    /// A number is known by the integer that it stands for, and the type
    /// can hold that integer.
    proof fn lemma_value(a: Self, b: Self)
        ensures
            Self::fits(a.value()),
            a.value() == b.value() ==> a == b,
    ;
}

/// `num`'s `Zero::zero` for `i32` returns the literal `0`.
#[verifier::external_body]
fn zero_i32() -> (r: i32)
    ensures
        r == 0,
{
    <i32 as num::Zero>::zero()
}

impl Summand for i32 {
    open spec fn value(self) -> int {
        self as int
    }

    open spec fn fits(n: int) -> bool {
        i32::MIN <= n <= i32::MAX
    }

    fn zero() -> (r: Self) {
        zero_i32()
    }

    fn plus(self, other: Self) -> (r: Self) {
        self + other
    }

    proof fn lemma_value(a: Self, b: Self) {
    }
}

/// `num`'s `Zero::zero` for `i64` returns the literal `0`.
#[verifier::external_body]
fn zero_i64() -> (r: i64)
    ensures
        r == 0,
{
    <i64 as num::Zero>::zero()
}

impl Summand for i64 {
    open spec fn value(self) -> int {
        self as int
    }

    open spec fn fits(n: int) -> bool {
        i64::MIN <= n <= i64::MAX
    }

    fn zero() -> (r: Self) {
        zero_i64()
    }

    fn plus(self, other: Self) -> (r: Self) {
        self + other
    }

    proof fn lemma_value(a: Self, b: Self) {
    }
}

/// `num`'s `Zero::zero` for `u32` returns the literal `0`.
#[verifier::external_body]
fn zero_u32() -> (r: u32)
    ensures
        r == 0,
{
    <u32 as num::Zero>::zero()
}

impl Summand for u32 {
    open spec fn value(self) -> int {
        self as int
    }

    open spec fn fits(n: int) -> bool {
        0 <= n <= u32::MAX
    }

    fn zero() -> (r: Self) {
        zero_u32()
    }

    fn plus(self, other: Self) -> (r: Self) {
        self + other
    }

    proof fn lemma_value(a: Self, b: Self) {
    }
}

/// `num`'s `Zero::zero` for `u64` returns the literal `0`.
#[verifier::external_body]
fn zero_u64() -> (r: u64)
    ensures
        r == 0,
{
    <u64 as num::Zero>::zero()
}

impl Summand for u64 {
    open spec fn value(self) -> int {
        self as int
    }

    open spec fn fits(n: int) -> bool {
        0 <= n <= u64::MAX
    }

    fn zero() -> (r: Self) {
        zero_u64()
    }

    fn plus(self, other: Self) -> (r: Self) {
        self + other
    }

    proof fn lemma_value(a: Self, b: Self) {
    }
}

/// `num`'s `Zero::zero` for `usize` returns the literal `0`.
#[verifier::external_body]
fn zero_usize() -> (r: usize)
    ensures
        r == 0,
{
    <usize as num::Zero>::zero()
}

impl Summand for usize {
    open spec fn value(self) -> int {
        self as int
    }

    open spec fn fits(n: int) -> bool {
        0 <= n <= usize::MAX
    }

    fn zero() -> (r: Self) {
        zero_usize()
    }

    fn plus(self, other: Self) -> (r: Self) {
        self + other
    }

    proof fn lemma_value(a: Self, b: Self) {
    }
}

} // verus!
