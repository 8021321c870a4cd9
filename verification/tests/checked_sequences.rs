use tunes::sequences::{
    checked_collatz, checked_fibonacci, checked_geometric, checked_map_to_scale, checked_primes,
    checked_recaman, collatz, geometric, recaman,
};

#[test]
fn checked_fibonacci_stops_at_32_bits() {
    let fib = checked_fibonacci(47).unwrap();
    assert_eq!(fib.len(), 47);
    assert_eq!(fib[46], 2_971_215_073);
    assert_eq!(checked_fibonacci(48), None);
    assert_eq!(checked_fibonacci(0), Some(vec![]));
    assert_eq!(checked_fibonacci(1), Some(vec![1]));
}

#[test]
fn checked_recaman_matches_recaman() {
    assert_eq!(checked_recaman(100), Some(recaman(100)));
    assert_eq!(checked_recaman(9), Some(vec![0, 1, 3, 6, 2, 7, 13, 20, 12]));
}

#[test]
fn checked_collatz_refuses_overflow() {
    assert_eq!(checked_collatz(27, 20), Some(collatz(27, 20)));
    assert_eq!(checked_collatz(6, 20), Some(vec![6, 3, 10, 5, 16, 8, 4, 2, 1]));
    assert_eq!(checked_collatz(u32::MAX, 5), None);
    assert_eq!(checked_collatz(u32::MAX, 1), Some(vec![u32::MAX]));
}

#[test]
fn checked_primes_counts() {
    assert_eq!(checked_primes(10), Some(vec![2, 3, 5, 7, 11, 13, 17, 19, 23, 29]));
    assert_eq!(checked_primes(0), Some(vec![]));
}

#[test]
fn checked_geometric_limits() {
    let g = checked_geometric(3, 2, 31).unwrap();
    assert_eq!(g[30], 3 * (1u32 << 30));
    assert_eq!(checked_geometric(3, 2, 32), None);
    assert_eq!(checked_geometric(1, 2, 33), None);
    assert_eq!(checked_geometric(0, 2, 33), None);
    assert_eq!(checked_geometric(5, 1, 4), Some(vec![5, 5, 5, 5]));
    assert_eq!(checked_geometric(5, 0, 3), Some(vec![5, 0, 0]));
    assert_eq!(checked_geometric(2, 3, 4), Some(geometric(2, 3, 4)));
}

#[test]
fn checked_map_to_scale_refusals() {
    let major = [0u32, 2, 4, 5, 7, 9, 11];
    assert_eq!(checked_map_to_scale(&[0, 1, 7], &major, 60, 2), Some(vec![60, 62, 72]));
    assert_eq!(checked_map_to_scale(&[0, 1], &major, 60, 0), None);
    assert_eq!(checked_map_to_scale(&[6], &major, u32::MAX - 5, 1), None);
    assert_eq!(checked_map_to_scale(&[], &major, 60, 0), Some(vec![]));
}
