use par_quicksort::utils::Random;

#[test]
fn next_follows_xorshift() {
    let mut random = Random::new(3);
    assert_eq!(811107, random.next());
    assert_eq!(201886211, random.next());
    assert_eq!(3025432647, random.next());
    let mut other = Random::new(1);
    assert_eq!(270369, other.next());
}

#[test]
fn next_vec_reads_draws_as_signed() {
    let mut random = Random::new(3);
    let drawn = random.next_vec(5);
    assert_eq!(vec![811107, 201886211, -1269534649, 1909268553, 1833517003], drawn);
}

#[test]
fn next_vec_in_range_stays_in_range() {
    let mut random = Random::new(3);
    let drawn = random.next_vec_in_range(5, -100, 100);
    assert_eq!(vec![7, -89, -53, 53, -97], drawn);
    let many = random.next_vec_in_range(10_000, -100, 100);
    assert!(many.iter().all(|&x| -100 <= x && x < 100));
}

#[test]
fn next_in_range_with_bounds_reversed() {
    let mut random = Random::new(3);
    assert_eq!(12, random.next_in_range(5, -5));
}

#[test]
fn next_vec_of_no_draws_leaves_the_state() {
    let mut random = Random::new(3);
    assert!(random.next_vec(0).is_empty());
    assert_eq!(811107, random.next());
}
