use decker::bad_rand::{get_rand_stream, is_prime};

#[test]
fn test_first_numbers() {
    assert!(is_prime(1) == false);
    assert!(is_prime(2) == true);
    assert!(is_prime(3) == true);
    assert!(is_prime(4) == false);
}

#[test]
fn test_larger_numbers() {
    assert!(is_prime(997) == true);
    assert!(is_prime(524) == false);
}

#[test]
fn stream_walks_residues_deterministically() {
    let mut r = get_rand_stream(0, 10, true);
    assert_eq!(r.init_seed(), 0);
    // the step is the first prime in the upper half of 0..10, which is 7
    let a = r.get();
    let b = r.get();
    let c = r.get();
    assert_eq!((a, b, c), (7, 4, 1));
    let mut r2 = get_rand_stream(0, 10, true);
    assert_eq!(r2.get(), 7);
}

#[test]
fn stream_with_zero_bound_stays_at_zero() {
    let mut r = get_rand_stream(5, 0, true);
    assert_eq!(r.get(), 0);
    assert_eq!(r.get(), 0);
}
