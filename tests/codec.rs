use combo_gen::codec::{digits_to_index, index_to_digits, odometer_increment, pow_u64};

#[test]
fn pow_u64_exact_values() {
    assert_eq!(pow_u64(0, 0), Some(1));
    assert_eq!(pow_u64(7, 0), Some(1));
    assert_eq!(pow_u64(2, 10), Some(1024));
    assert_eq!(pow_u64(94, 3), Some(830_584));
    assert_eq!(pow_u64(2, 63), Some(1u64 << 63));
    assert_eq!(pow_u64(u64::MAX, 1), Some(u64::MAX));
}

#[test]
fn pow_u64_detects_overflow() {
    assert_eq!(pow_u64(2, 64), None);
    assert_eq!(pow_u64(94, 10), None);
    assert_eq!(pow_u64(u64::MAX, 2), None);
    assert_eq!(pow_u64(3, 1_000_000), None);
}

#[test]
fn index_to_digits_edges() {
    assert_eq!(index_to_digits(0, 3, 4), vec![0, 0, 0, 0]);
    assert_eq!(index_to_digits(80, 3, 4), vec![2, 2, 2, 2]);
    assert_eq!(index_to_digits(5, 3, 4), vec![0, 0, 1, 2]);
    assert_eq!(index_to_digits(12345, 10, 5), vec![1, 2, 3, 4, 5]);
    assert_eq!(index_to_digits(7, 2, 0), Vec::<usize>::new());
}

#[test]
fn round_trip_every_index() {
    let total = pow_u64(3, 4).unwrap();
    for index in 0..total {
        let digits = index_to_digits(index, 3, 4);
        assert_eq!(digits_to_index(&digits, 3), index);
    }
}

#[test]
fn round_trip_large_base() {
    let total = pow_u64(94, 9).unwrap();
    for index in [0, 1, 93, 94, total / 2, total - 2, total - 1] {
        let digits = index_to_digits(index, 94, 9);
        assert_eq!(digits_to_index(&digits, 94), index);
    }
}

#[test]
fn increment_steps_to_next_index() {
    let total = pow_u64(3, 4).unwrap();
    for index in 0..total - 1 {
        let mut digits = index_to_digits(index, 3, 4);
        let wrapped = odometer_increment(&mut digits, 3);
        assert!(!wrapped);
        assert_eq!(digits, index_to_digits(index + 1, 3, 4));
    }
}

#[test]
fn increment_wraps_at_last_index() {
    let mut digits = vec![2, 2, 2, 2];
    assert!(odometer_increment(&mut digits, 3));
    assert_eq!(digits, vec![0, 0, 0, 0]);
}

#[test]
fn increment_carries_through_trailing_top_digits() {
    let mut digits = vec![0, 1, 9, 9];
    assert!(!odometer_increment(&mut digits, 10));
    assert_eq!(digits, vec![0, 2, 0, 0]);
}
