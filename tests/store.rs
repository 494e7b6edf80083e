use quantile_summary::bits::{
    in_unit_bits, is_finite_bits, magnitude_of, precedes, scaled_floor_exec,
};
use quantile_summary::store::Store;

#[test]
fn store_counts_and_orders_keys() {
    let mut s = Store::new(8);
    assert_eq!(s.length(), 0);
    s.add(5);
    s.add(-3);
    s.add(5);
    s.add(9);
    assert_eq!(s.count(), 4);
    assert_eq!(s.length(), 3);
    assert_eq!(s.key_at_rank(0), -3);
    assert_eq!(s.key_at_rank(1), 5);
    assert_eq!(s.key_at_rank(2), 5);
    assert_eq!(s.key_at_rank(3), 9);
}

#[test]
fn store_folds_lowest_bucket_at_budget() {
    let mut s = Store::new(2);
    s.add(10);
    s.add(20);
    s.add(30);
    assert_eq!(s.length(), 2);
    assert_eq!(s.count(), 3);
    assert_eq!(s.key_at_rank(0), 20);
    assert_eq!(s.key_at_rank(1), 20);
    assert_eq!(s.key_at_rank(2), 30);
    s.add(1);
    assert_eq!(s.length(), 2);
    assert_eq!(s.key_at_rank(0), 20);
    assert_eq!(s.key_at_rank(2), 20);
    assert_eq!(s.key_at_rank(3), 30);
}

#[test]
fn store_of_one_bucket_keeps_highest_key() {
    let mut s = Store::new(1);
    s.add(7);
    s.add(3);
    s.add(12);
    assert_eq!(s.length(), 1);
    assert_eq!(s.count(), 3);
    assert_eq!(s.key_at_rank(0), 12);
    assert_eq!(s.key_at_rank(2), 12);
}

#[test]
fn store_add_count_and_merge() {
    let mut a = Store::new(4);
    let mut b = Store::new(4);
    a.add_count(2, 3);
    a.add(4);
    b.add_count(4, 2);
    b.add(6);
    a.merge(&b);
    assert_eq!(a.count(), 7);
    assert_eq!(a.length(), 3);
    assert_eq!(a.key_at_rank(2), 2);
    assert_eq!(a.key_at_rank(3), 4);
    assert_eq!(a.key_at_rank(5), 4);
    assert_eq!(a.key_at_rank(6), 6);
    assert_eq!(b.count(), 3);
}

#[test]
fn store_merge_respects_budget() {
    let mut a = Store::new(2);
    let mut b = Store::new(2);
    a.add(1);
    a.add(2);
    b.add(3);
    b.add(4);
    a.merge(&b);
    assert_eq!(a.length(), 2);
    assert_eq!(a.count(), 4);
    assert_eq!(a.key_at_rank(0), 3);
    assert_eq!(a.key_at_rank(2), 3);
    assert_eq!(a.key_at_rank(3), 4);
}

#[test]
fn bit_patterns_classify_floats() {
    assert!(is_finite_bits(1.5f64.to_bits()));
    assert!(is_finite_bits((-0.0f64).to_bits()));
    assert!(!is_finite_bits(f64::INFINITY.to_bits()));
    assert!(!is_finite_bits(f64::NEG_INFINITY.to_bits()));
    assert!(!is_finite_bits(f64::NAN.to_bits()));
    assert_eq!(magnitude_of((-2.5f64).to_bits()), 2.5f64.to_bits());
    assert!(in_unit_bits(0.0f64.to_bits()));
    assert!(in_unit_bits((-0.0f64).to_bits()));
    assert!(in_unit_bits(1.0f64.to_bits()));
    assert!(in_unit_bits(0.3f64.to_bits()));
    assert!(!in_unit_bits(1.0000001f64.to_bits()));
    assert!(!in_unit_bits((-0.1f64).to_bits()));
    assert!(!in_unit_bits(f64::NAN.to_bits()));
}

#[test]
fn bit_patterns_order_like_floats() {
    let values: [f64; 8] = [-1e300, -3.0, -1e-300, -0.0, 0.0, 1e-310, 2.0, 1e300];
    for a in values {
        for b in values {
            assert_eq!(precedes(a.to_bits(), b.to_bits()), a < b, "{} {}", a, b);
        }
    }
}

#[test]
fn scaled_floor_is_exact() {
    assert_eq!(scaled_floor_exec(0.5f64.to_bits(), 7), 3);
    assert_eq!(scaled_floor_exec(0.25f64.to_bits(), 8), 2);
    assert_eq!(scaled_floor_exec(0.75f64.to_bits(), 0), 0);
    assert_eq!(scaled_floor_exec(0.99f64.to_bits(), 99_999), 98_999);
    assert_eq!(scaled_floor_exec(0.333333f64.to_bits(), 2), 0);
    assert_eq!(scaled_floor_exec(0.666666f64.to_bits(), 2), 1);
    assert_eq!(scaled_floor_exec(5e-324f64.to_bits(), u64::MAX), 0);
    assert_eq!(scaled_floor_exec(0.5f64.to_bits(), u64::MAX), u64::MAX / 2);
}

#[test]
fn store_reads_counts_and_key_range() {
    let mut s = Store::new(4);
    assert_eq!(s.min_key(), None);
    assert_eq!(s.max_key(), None);
    assert_eq!(s.count_at(3), 0);
    s.add(3);
    s.add(-8);
    s.add(3);
    s.add(15);
    assert_eq!(s.count_at(3), 2);
    assert_eq!(s.count_at(-8), 1);
    assert_eq!(s.count_at(4), 0);
    assert_eq!(s.min_key(), Some(-8));
    assert_eq!(s.max_key(), Some(15));
}
