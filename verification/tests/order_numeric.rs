use par_quicksort::numeric::Summand;
use par_quicksort::order::{equal, greater, less};
use par_quicksort::sort::{keep_on_side, Side};

#[test]
fn comparisons_follow_the_order_of_the_type() {
    assert!(less(&1, &2));
    assert!(!less(&2, &2));
    assert!(!less(&3, &2));
    assert!(equal(&2, &2));
    assert!(!equal(&1, &2));
    assert!(greater(&3, &2));
    assert!(!greater(&2, &2));
    assert!(!greater(&1, &2));
}

#[test]
fn keep_on_side_keeps_what_stands_on_that_side() {
    assert_eq!(Some(1), keep_on_side(&1, &5, Side::Less));
    assert_eq!(None, keep_on_side(&5, &5, Side::Less));
    assert_eq!(None, keep_on_side(&9, &5, Side::Less));
    assert_eq!(None, keep_on_side(&1, &5, Side::Equal));
    assert_eq!(Some(5), keep_on_side(&5, &5, Side::Equal));
    assert_eq!(None, keep_on_side(&9, &5, Side::Equal));
    assert_eq!(None, keep_on_side(&1, &5, Side::Greater));
    assert_eq!(None, keep_on_side(&5, &5, Side::Greater));
    assert_eq!(Some(9), keep_on_side(&9, &5, Side::Greater));
}

#[test]
fn zero_is_the_additive_identity_of_each_type() {
    assert_eq!(0i32, <i32 as Summand>::zero());
    assert_eq!(0i64, <i64 as Summand>::zero());
    assert_eq!(0u32, <u32 as Summand>::zero());
    assert_eq!(0u64, <u64 as Summand>::zero());
    assert_eq!(0usize, <usize as Summand>::zero());
    assert_eq!(7i32, <i32 as Summand>::zero().plus(7));
}

#[test]
fn plus_adds() {
    assert_eq!(-1i32, 2i32.plus(-3));
    assert_eq!(5i64, 2i64.plus(3));
    assert_eq!(5u32, 2u32.plus(3));
    assert_eq!(5u64, 2u64.plus(3));
    assert_eq!(5usize, 2usize.plus(3));
}
