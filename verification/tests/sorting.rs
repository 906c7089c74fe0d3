use par_quicksort::sort::{
    parallel_quicksort_3par_memcpy, parallel_quicksort_par_memcpy, parallel_quicksort_seq_memcpy,
    par_copy, partition, rayon_parallel_quicksort, sequential_quicksort, simple_parallel_quicksort,
};
use par_quicksort::utils::Random;

#[test]
fn sort_test() {
    let sorters: &[fn(&mut [i32])] = &[
        sequential_quicksort,
        simple_parallel_quicksort,
        parallel_quicksort_seq_memcpy,
        parallel_quicksort_3par_memcpy,
        parallel_quicksort_par_memcpy,
        rayon_parallel_quicksort,
    ];
    for sorter in sorters {
        let mut random = Random::new(3);

        for arr_len in [0, 10, 5000, 300_000] {
            let mut arr = random.next_vec(arr_len);
            let mut expected_arr = arr.clone();
            expected_arr.sort();

            sorter(&mut arr);

            assert_eq!(expected_arr, arr);
        }
    }
}

fn all_sorters() -> Vec<fn(&mut [i32])> {
    vec![
        sequential_quicksort,
        simple_parallel_quicksort,
        parallel_quicksort_seq_memcpy,
        parallel_quicksort_3par_memcpy,
        parallel_quicksort_par_memcpy,
        rayon_parallel_quicksort,
    ]
}

#[test]
fn sequential_sort_of_five() {
    let mut arr = vec![5, 3, 8, 3, 1];
    sequential_quicksort(&mut arr);
    assert_eq!(vec![1, 3, 3, 5, 8], arr);
}

#[test]
fn every_sorter_leaves_empty_and_single_alone() {
    for sorter in all_sorters() {
        let mut empty: Vec<i32> = vec![];
        sorter(&mut empty);
        assert!(empty.is_empty());
        let mut single = vec![7];
        sorter(&mut single);
        assert_eq!(vec![7], single);
    }
}

#[test]
fn every_sorter_on_shapes_of_input() {
    let len: i32 = 1_500;
    let ascending: Vec<i32> = (0..len).collect();
    let descending: Vec<i32> = (0..len).rev().collect();
    let all_equal: Vec<i32> = vec![4; len as usize];
    let few_values: Vec<i32> = (0..len).map(|x| (x * 7) % 5).collect();
    for sorter in all_sorters() {
        for input in [&ascending, &descending, &all_equal, &few_values] {
            let mut arr = input.clone();
            let mut expected = input.clone();
            expected.sort();
            sorter(&mut arr);
            assert_eq!(expected, arr);
        }
    }
}

#[test]
fn all_sorters_agree() {
    let mut random = Random::new(17);
    let input = random.next_vec_in_range(20_000, -50, 50);
    let mut first = input.clone();
    sequential_quicksort(&mut first);
    for sorter in all_sorters() {
        let mut arr = input.clone();
        sorter(&mut arr);
        assert_eq!(first, arr);
    }
}

#[test]
fn partition_puts_the_last_element_in_its_place() {
    let mut arr = vec![5, 3, 8, 3, 1, 4];
    let m = partition(&mut arr);
    assert_eq!(3, m);
    assert_eq!(4, arr[m]);
    assert_eq!(vec![3, 3, 1], arr[..m].to_vec());
    assert!(arr[m + 1..].iter().all(|&x| x >= 4));
    let mut sorted = arr.clone();
    sorted.sort();
    assert_eq!(vec![1, 3, 3, 4, 5, 8], sorted);
}

#[test]
fn par_copy_copies_across_blocks() {
    let src: Vec<u32> = (0..10_000).collect();
    let mut dst = vec![0u32; 10_000];
    par_copy(&mut dst, &src);
    assert_eq!(src, dst);
    let mut none: Vec<u32> = vec![];
    par_copy(&mut none, &[]);
    assert!(none.is_empty());
}

#[test]
fn filtering_sorters_on_many_equal_elements() {
    let sorters: Vec<fn(&mut [i32])> = vec![
        parallel_quicksort_seq_memcpy,
        parallel_quicksort_3par_memcpy,
        parallel_quicksort_par_memcpy,
        rayon_parallel_quicksort,
    ];
    for sorter in sorters {
        let mut arr = vec![9; 50_000];
        sorter(&mut arr);
        assert_eq!(vec![9; 50_000], arr);
        let mut two: Vec<i32> = (0..50_000).map(|x| x % 2).collect();
        sorter(&mut two);
        let mut expected = vec![0; 25_000];
        expected.extend(vec![1; 25_000]);
        assert_eq!(expected, two);
    }
}
