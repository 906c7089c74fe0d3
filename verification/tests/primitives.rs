use par_quicksort::parallel_primitives::{blocked_for, par_for, par_map};

#[test]
fn par_for_test() {
    let mut arr = vec![1, 2, 3, 4, 5];
    par_for(&mut arr, |i, x| *x += 2 * i);
    assert_eq!(vec![1, 4, 7, 10, 13], arr);
}

#[test]
fn par_map_test() {
    let arr = vec![1, 2, 3, 4, 5];
    let new_arr = par_map(&arr, |x| 2 * x);
    assert_eq!(vec![2, 4, 6, 8, 10], new_arr);
}

#[test]
fn par_for_on_empty_slice_does_nothing() {
    let mut arr: Vec<usize> = vec![];
    par_for(&mut arr, |i, x| *x += i);
    assert!(arr.is_empty());
}

#[test]
fn par_for_passes_true_index_around_the_threshold() {
    for len in [4095usize, 4096, 4097, 20_000] {
        let mut arr: Vec<usize> = vec![7; len];
        par_for(&mut arr, |i, x| *x += 3 * i);
        let expected: Vec<usize> = (0..len).map(|i| 7 + 3 * i).collect();
        assert_eq!(expected, arr);
    }
}

#[test]
fn par_map_agrees_with_sequential_map_around_the_threshold() {
    for len in [0usize, 1, 4095, 4096, 4097, 20_000] {
        let arr: Vec<u64> = (0..len as u64).collect();
        let mapped = par_map(&arr, |x| x * x + 1);
        let expected: Vec<u64> = arr.iter().map(|x| x * x + 1).collect();
        assert_eq!(expected, mapped);
    }
}

#[test]
fn blocked_for_hands_each_block_its_number() {
    let mut arr: Vec<usize> = vec![0; 10];
    blocked_for::<_, 4>(&mut arr, |block, items| {
        for item in items.iter_mut() {
            *item = block + 1;
        }
    });
    assert_eq!(vec![1, 1, 1, 1, 2, 2, 2, 2, 3, 3], arr);
}

#[test]
fn blocked_for_hands_an_empty_slice_over_once() {
    let mut arr: Vec<usize> = vec![];
    let calls = std::sync::atomic::AtomicUsize::new(0);
    blocked_for::<_, 4>(&mut arr, |block, items| {
        assert_eq!(0, block);
        assert!(items.is_empty());
        calls.fetch_add(1, std::sync::atomic::Ordering::SeqCst);
    });
    assert_eq!(1, calls.load(std::sync::atomic::Ordering::SeqCst));
}

#[test]
fn blocked_for_block_lengths() {
    let mut arr: Vec<usize> = vec![0; 11];
    blocked_for::<_, 4>(&mut arr, |_, items| {
        let n = items.len();
        for item in items.iter_mut() {
            *item = n;
        }
    });
    assert_eq!(vec![4, 4, 4, 4, 4, 4, 4, 4, 3, 3, 3], arr);
}

#[test]
fn blocked_for_whole_blocks_only() {
    let mut arr: Vec<usize> = vec![0; 12];
    blocked_for::<_, 3>(&mut arr, |block, items| {
        for item in items.iter_mut() {
            *item = block;
        }
    });
    assert_eq!(vec![0, 0, 0, 1, 1, 1, 2, 2, 2, 3, 3, 3], arr);
}
