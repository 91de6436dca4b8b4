use bitonic_sorter::length::{is_power_of_two, length_error};
use bitonic_sorter::slices::exchange;
use bitonic_sorter::utils::{is_sorted_ascending, is_sorted_descending, new_u32_vec};
use rand::distributions::Standard;
use rand::{Rng, SeedableRng};
use rand_pcg::Pcg64Mcg;

#[test]
fn new_u32_vec_has_the_length_asked_for() {
    assert_eq!(new_u32_vec(0), Vec::<u32>::new());
    assert_eq!(new_u32_vec(1).len(), 1);
    assert_eq!(new_u32_vec(1000).len(), 1000);
}

#[test]
fn new_u32_vec_is_reproducible() {
    assert_eq!(new_u32_vec(6), vec![1635781291, 2281459413, 3151187213, 679046993, 146622267, 229335924]);
    assert_eq!(new_u32_vec(256), new_u32_vec(256));
    assert_eq!(new_u32_vec(300)[..256], new_u32_vec(256)[..]);
}

#[test]
fn new_u32_vec_is_the_stream_of_the_zero_seed() {
    let rng = Pcg64Mcg::from_seed([0; 16]);
    let expected: Vec<u32> = rng.sample_iter(&Standard).take(1000).collect();
    assert_eq!(new_u32_vec(1000), expected);
}

#[test]
fn is_sorted_ascending_looks_at_each_step() {
    assert!(is_sorted_ascending::<u32>(&[]));
    assert!(is_sorted_ascending(&[5u32]));
    assert!(is_sorted_ascending(&[1u32, 2, 2, 3]));
    assert!(!is_sorted_ascending(&[1u32, 3, 2]));
    assert!(!is_sorted_ascending(&[2u32, 1]));
    assert!(!is_sorted_ascending(&[1u32, 2, 3, 0]));
    assert!(is_sorted_ascending(&["a", "b", "c"]));
}

#[test]
fn is_sorted_descending_looks_at_each_step() {
    assert!(is_sorted_descending::<u32>(&[]));
    assert!(is_sorted_descending(&[5u32]));
    assert!(is_sorted_descending(&[3u32, 2, 2, 1]));
    assert!(!is_sorted_descending(&[3u32, 1, 2]));
    assert!(!is_sorted_descending(&[1u32, 2]));
    assert!(!is_sorted_descending(&[0u32, 3, 2, 1]));
}

#[test]
fn is_power_of_two_agrees_with_std() {
    for n in 0..5000usize {
        assert_eq!(is_power_of_two(n), n.is_power_of_two());
    }
    assert!(is_power_of_two(1 << 40));
    assert!(!is_power_of_two((1 << 40) + 1));
    assert!(!is_power_of_two(usize::MAX));
}

#[test]
fn length_error_names_the_length() {
    assert_eq!(length_error(3), "The length of `x` is not a power of two. (x.len(): 3)");
    assert_eq!(length_error(0), "The length of `x` is not a power of two. (x.len(): 0)");
    assert_eq!(length_error(10), "The length of `x` is not a power of two. (x.len(): 10)");
    assert_eq!(length_error(9876543210), "The length of `x` is not a power of two. (x.len(): 9876543210)");
    assert_eq!(length_error(12345), format!("The length of `x` is not a power of two. (x.len(): {})", 12345));
}

#[test]
fn exchange_swaps_two_places() {
    let mut x = vec![1, 2, 3, 4];
    exchange(&mut x, 0, 3);
    assert_eq!(x, vec![4, 2, 3, 1]);
    exchange(&mut x, 1, 2);
    assert_eq!(x, vec![4, 3, 2, 1]);
}
