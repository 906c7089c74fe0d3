use par_quicksort::parallel_primitives::{
    inline_pref_sums, par_filter, par_inline_prefix_sums, par_inline_prefix_sums_helper,
};
use par_quicksort::parallel_primitives::tree_scan::{prefix_sums_down, prefix_sums_up};
use par_quicksort::parallel_primitives::scan::SCAN_BLOCK_SIZE;
use par_quicksort::utils::Random;

#[test]
fn inline_pref_sums_test() {
    let mut arr = vec![1, 2, 3, 4, 5];
    let sum = inline_pref_sums(&mut arr);
    assert_eq!(15, sum);
    assert_eq!(vec![0, 1, 3, 6, 10], arr);
}

#[test]
fn par_inline_prefix_sums_test() {
    let mut random = Random::new(3);
    for arr_len in [
        0,
        10,
        SCAN_BLOCK_SIZE,
        12 * SCAN_BLOCK_SIZE,
        SCAN_BLOCK_SIZE * SCAN_BLOCK_SIZE * 3 + 5,
    ] {
        let mut arr = random.next_vec_in_range(arr_len, -100, 100);

        let mut expected = arr.clone();
        inline_pref_sums(&mut expected);

        par_inline_prefix_sums(&mut arr);

        assert_eq!(expected, arr);
    }
}

#[test]
fn par_filter_test() {
    let mut random = Random::new(3);
    for arr_len in [0, 10, SCAN_BLOCK_SIZE * SCAN_BLOCK_SIZE * 3 + 5] {
        let arr = random.next_vec_in_range(arr_len, -100, 100);

        let actual_filtered: Vec<i32> = par_filter(&arr, |&x| x > 0);
        let expected_filtered: Vec<i32> = arr.into_iter().filter(|&x| x > 0).collect();
        assert_eq!(expected_filtered, actual_filtered);
    }
}

#[test]
fn par_inline_prefix_sums_returns_the_total() {
    let mut arr = vec![1, 2, 3, 4, 5];
    let total = par_inline_prefix_sums(&mut arr);
    assert_eq!(vec![0, 1, 3, 6, 10], arr);
    assert_eq!(15, total);
}

#[test]
fn par_inline_prefix_sums_total_over_many_blocks() {
    let len = 3 * SCAN_BLOCK_SIZE + 17;
    let mut arr: Vec<u64> = (0..len as u64).collect();
    let total = par_inline_prefix_sums(&mut arr);
    let n = len as u64;
    assert_eq!(n * (n - 1) / 2, total);
    assert_eq!(0, arr[0]);
    assert_eq!(0, arr[1]);
    assert_eq!(1, arr[2]);
    let last = n - 1;
    assert_eq!(last * (last - 1) / 2, arr[len - 1]);
    let at = SCAN_BLOCK_SIZE as u64;
    assert_eq!(at * (at - 1) / 2, arr[SCAN_BLOCK_SIZE]);
}

#[test]
fn par_inline_prefix_sums_of_nothing_is_zero() {
    let mut arr: Vec<i64> = vec![];
    assert_eq!(0, par_inline_prefix_sums(&mut arr));
    assert!(arr.is_empty());
}

#[test]
fn par_filter_keeps_positive_numbers_in_order() {
    let arr = vec![-1, 2, -3, 4];
    assert_eq!(vec![2, 4], par_filter(&arr, |&x| x > 0));
}

#[test]
fn par_filter_matching_none_all_and_some() {
    let arr: Vec<u32> = (0..10_000).collect();
    assert_eq!(Vec::<u32>::new(), par_filter(&arr, |&x| x > 10_000));
    assert_eq!(arr, par_filter(&arr, |_| true));
    let odd: Vec<u32> = (0..5_000).map(|x| 2 * x + 1).collect();
    assert_eq!(odd, par_filter(&arr, |&x| x % 2 == 1));
}

#[test]
fn tree_scan_agrees_with_the_sequential_scan() {
    let mut random = Random::new(5);
    for arr_len in [0, 1, 10, SCAN_BLOCK_SIZE, SCAN_BLOCK_SIZE + 1, 5 * SCAN_BLOCK_SIZE + 3] {
        let mut arr = random.next_vec_in_range(arr_len, -100, 100);
        let mut expected = arr.clone();
        let expected_total = inline_pref_sums(&mut expected);
        let total = par_inline_prefix_sums_helper(&mut arr);
        assert_eq!(expected, arr);
        assert_eq!(expected_total, total);
    }
}

#[test]
fn prefix_sums_up_lays_the_tree_out_root_first() {
    let arr = vec![1, 2, 3, 4, 5];
    let mut tree = vec![0; 9];
    let total = prefix_sums_up(&arr, &mut tree);
    assert_eq!(15, total);
    assert_eq!(vec![15, 3, 1, 2, 12, 3, 9, 4, 5], tree);
}

#[test]
fn prefix_sums_down_starts_from_the_carry() {
    let mut arr = vec![1, 2, 3, 4, 5];
    let tree = vec![15, 3, 1, 2, 12, 3, 9, 4, 5];
    prefix_sums_down(&mut arr, &tree, 100);
    assert_eq!(vec![100, 101, 103, 106, 110], arr);
}

#[test]
fn blockwise_scan_with_small_numbers_in_every_integer_type() {
    let len = 2 * SCAN_BLOCK_SIZE + 1;
    let mut a: Vec<u32> = vec![1; len];
    assert_eq!(len as u32, par_inline_prefix_sums(&mut a));
    assert_eq!(len as u32 - 1, a[len - 1]);
    let mut b: Vec<usize> = vec![2; len];
    assert_eq!(2 * len, par_inline_prefix_sums(&mut b));
    assert_eq!(2 * (len - 1), b[len - 1]);
    let mut c: Vec<i64> = vec![-3; len];
    assert_eq!(-3 * len as i64, par_inline_prefix_sums(&mut c));
    assert_eq!(-3 * (len as i64 - 1), c[len - 1]);
}
