//! Bytes, order, numbers and text.

use mir::bytes::{matches_at, read_le};
use mir::order::{gather, invert, stable_order};
use mir::scalar::{largest, Scalar, INFINITY, NEG_INFINITY};
use mir::text::{decimal, same_text};

const SAMPLES: [f32; 11] = [
    f32::NEG_INFINITY, -2.5, -1.0e-40, -0.0, 0.0, 1.0e-40, 0.25, 1.0, 3.5, f32::MAX, f32::INFINITY,
];

fn scalar(v: f32) -> Scalar {
    Scalar { bits: v.to_bits() }
}

fn float(s: Scalar) -> f32 {
    f32::from_bits(s.bits)
}

#[test]
fn numbers_are_read_little_endian() {
    let bytes = [9, 1, 2, 3, 4, 0, 0];
    assert_eq!(read_le(&bytes, 1, 4), 0x0403_0201);
    assert_eq!(read_le(&bytes, 1, 0), 0);
    assert_eq!(read_le(&[0xff; 16], 0, 16), u128::MAX);
    assert!(matches_at(&bytes, 1, &[1, 2]) && matches_at(&bytes, 7, &[]));
    assert!(!matches_at(&bytes, 1, &[1, 3]) && !matches_at(&bytes, 6, &[0, 0]));
}

#[test]
fn equal_keys_keep_their_order() {
    let keys: Vec<i128> = vec![3, 1, 2, 1, 3, -5];
    let order = stable_order(&keys);
    assert_eq!(order, vec![5, 1, 3, 2, 0, 4]);
    assert_eq!(gather(&keys, &order), vec![-5, 1, 1, 2, 3, 3]);
    assert_eq!(invert(&order), vec![4, 1, 3, 2, 5, 0]);
    assert_eq!(stable_order::<i128>(&[]), Vec::<usize>::new());
}

#[test]
fn patterns_compare_as_their_numbers() {
    for a in SAMPLES {
        for b in SAMPLES {
            assert_eq!(scalar(a).is_less(scalar(b)), a < b, "{a} < {b}");
            assert_eq!(scalar(a).is_at_most(scalar(b)), a <= b, "{a} <= {b}");
            assert_eq!(scalar(a).order_key() < scalar(b).order_key(), a < b);
            assert_eq!(float(scalar(a).min(scalar(b))), a.min(b), "min {a} {b}");
            assert_eq!(float(scalar(a).max(scalar(b))), a.max(b), "max {a} {b}");
        }
        assert_eq!(float(scalar(a).abs()), a.abs());
        assert_eq!(scalar(a).is_finite(), a.is_finite());
        assert!(!scalar(a).is_nan());
    }
    assert_eq!(float(Scalar { bits: INFINITY }), f32::INFINITY);
    assert_eq!(float(Scalar { bits: NEG_INFINITY }), f32::NEG_INFINITY);
}

#[test]
fn what_is_not_a_number_does_not_compare() {
    let nan = scalar(f32::NAN);
    assert!(nan.is_nan() && !nan.is_finite());
    for v in SAMPLES {
        assert!(!nan.is_less(scalar(v)) && !scalar(v).is_less(nan));
        assert!(!nan.is_at_most(scalar(v)) && !scalar(v).is_at_most(nan));
        assert_eq!(float(nan.min(scalar(v))), v);
        assert_eq!(float(scalar(v).max(nan)), v);
    }
}

#[test]
fn the_largest_counts_from_zero() {
    assert_eq!(float(largest(&[])), 0.0);
    assert_eq!(float(largest(&[-3.0, f32::NAN, -1.0].map(scalar))), 0.0);
    assert_eq!(float(largest(&[2.0, f32::NAN, 5.0, 1.0].map(scalar))), 5.0);
}

#[test]
fn texts_compare_and_numbers_print() {
    assert!(same_text("graph", "graph") && same_text("", ""));
    assert!(!same_text("graph", "grapf") && !same_text("graph", "graphs"));
    assert_eq!(decimal(0), "0");
    assert_eq!(decimal(1_234_567_890), "1234567890");
    assert_eq!(decimal(u64::MAX), u64::MAX.to_string());
}
