use std::cmp::Ordering;
use std::collections::hash_map::DefaultHasher;
use std::hash::Hasher;

use arrow::array::ArrowNativeTypeOp;
use tonbo::record::key::num::{
    TimeUnit, TimestampMicrosecond, TimestampMillisecond, TimestampNanosecond, TimestampSecond,
    TimestampType, F32, F64,
};
use tonbo::record::key::order::Order;
use tonbo::serdes::DecodeError;

fn float(key: F32) -> f32 {
    f32::from_bits(key.0)
}

fn double(key: F64) -> f64 {
    f64::from_bits(key.0)
}

fn hash_of(key: &F32) -> u64 {
    let mut state = DefaultHasher::new();
    key.hash(&mut state);
    state.finish()
}

#[test]
fn test_zero() {
    let f1 = F32::from(0_f32.to_bits());
    let f2 = F32::from((-0_f32).to_bits());
    // +0 should be greater than -0
    assert_eq!(f1.cmp(&f2), float(f1).compare(float(f2)));
    assert!(f1 > f2);
}

#[test]
fn test_eq() {
    let f1 = F32::from(1.01_f32.to_bits());
    let f2 = F32::from(1.01_f32.to_bits());
    assert!(f1 == f2);
}

#[test]
fn test_nan_cmp() {
    let f1 = F32::from(f32::NAN.to_bits());
    let f2 = F32::from(f32::NAN.to_bits());
    let f3 = F32::from((-f32::NAN).to_bits());
    let inf = F32::from(f32::INFINITY.to_bits());
    let neg_inf = F32::from(f32::NEG_INFINITY.to_bits());

    assert_eq!(f1.cmp(&f2), float(f1).compare(float(f2)));
    assert_eq!(f1, f2);

    assert_eq!(f1.cmp(&f3), float(f1).compare(float(f3)));
    assert_eq!(f1, f2);

    // positive NAN should be greater than positive infinity
    assert_eq!(f1.cmp(&inf), float(f1).compare(float(inf)));
    assert!(f1 > inf);

    // negative NAN should be less than negative infinity
    assert_eq!(f3.cmp(&neg_inf), float(f3).compare(float(neg_inf)));
    assert!(f3 < neg_inf);

    let f4 = F32::from(1.0_f32.to_bits());
    assert_eq!(f1.cmp(&f4), float(f1).compare(float(f4)));
    assert!(f1 > f4);

    assert_eq!(f3.cmp(&f4), float(f3).compare(float(f4)));
    assert!(f3 < f4);
}

#[test]
fn zero_is_strictly_above_negative_zero() {
    let f1 = F32::from_bits(0.0_f32.to_bits());
    let f2 = F32::from_bits((-0.0_f32).to_bits());
    assert!(f1 > f2);
    assert!(f1 != f2);
    assert_eq!(f1.cmp(&f2), Ordering::Greater);
    assert_eq!(f2.cmp(&f1), Ordering::Less);
    assert_eq!(f1.compare(&f2), Order::Greater);
    assert_eq!(f1.sort_key(), 0);
    assert_eq!(f2.sort_key(), -1);
}

#[test]
fn nan_cases_of_the_total_order() {
    let f1 = F32::from_bits(f32::NAN.to_bits());
    let f2 = F32::from_bits(f32::NAN.to_bits());
    let f3 = F32::from_bits((-f32::NAN).to_bits());
    let inf = F32::from_bits(f32::INFINITY.to_bits());
    let neg_inf = F32::from_bits(f32::NEG_INFINITY.to_bits());
    assert!(f1 == f2);
    assert!(f1 != f3);
    assert!(f1 > f3);
    assert!(f1 > inf);
    assert!(f3 < neg_inf);
    assert_eq!(f1.cmp(&f2), Ordering::Equal);
}

#[test]
fn float_order_agrees_with_total_cmp() {
    let samples = [
        0.0_f32,
        -0.0,
        1.0,
        -1.0,
        1.5,
        -1.5,
        f32::MIN,
        f32::MAX,
        f32::MIN_POSITIVE,
        -f32::MIN_POSITIVE,
        f32::INFINITY,
        f32::NEG_INFINITY,
        f32::NAN,
        -f32::NAN,
        f32::from_bits(1),
        f32::from_bits(0x8000_0001),
        f32::from_bits(0x7fff_ffff),
        f32::from_bits(0xffff_ffff),
    ];
    for a in samples {
        for b in samples {
            let x = F32::from_bits(a.to_bits());
            let y = F32::from_bits(b.to_bits());
            assert_eq!(x.cmp(&y), a.total_cmp(&b));
            assert_eq!(x.partial_cmp(&y), Some(a.total_cmp(&b)));
            assert_eq!(x == y, a.to_bits() == b.to_bits());
        }
    }
}

#[test]
fn double_order_agrees_with_total_cmp() {
    let samples = [
        0.0_f64,
        -0.0,
        2.5,
        -2.5,
        f64::MIN,
        f64::MAX,
        f64::INFINITY,
        f64::NEG_INFINITY,
        f64::NAN,
        -f64::NAN,
        f64::from_bits(0x7fff_ffff_ffff_ffff),
        f64::from_bits(0xffff_ffff_ffff_ffff),
    ];
    for a in samples {
        for b in samples {
            let x = F64::from_bits(a.to_bits());
            let y = F64::from_bits(b.to_bits());
            assert_eq!(x.cmp(&y), a.total_cmp(&b));
            assert_eq!(x.cmp(&y), double(x).compare(double(y)));
        }
    }
    assert_eq!(F64::from_bits(0x8000_0000_0000_0000).sort_key(), -1);
    assert_eq!(F64::from_bits(0xffff_ffff_ffff_ffff).sort_key(), i64::MIN);
    assert_eq!(F64::from_bits(0x7fff_ffff_ffff_ffff).sort_key(), i64::MAX);
}

#[test]
fn equal_floats_hash_alike() {
    let edge = [
        0.0_f32,
        -0.0,
        f32::NAN,
        -f32::NAN,
        f32::INFINITY,
        f32::NEG_INFINITY,
        1.01,
    ];
    for a in edge {
        for b in edge {
            let x = F32::from_bits(a.to_bits());
            let y = F32::from_bits(b.to_bits());
            if x == y {
                assert_eq!(hash_of(&x), hash_of(&y));
            }
        }
    }
    let nan = F32::from_bits(f32::NAN.to_bits());
    assert_eq!(hash_of(&nan), hash_of(&F32::from_bits(f32::NAN.to_bits())));
    let mut expected = DefaultHasher::new();
    expected.write(&1.01_f32.to_le_bytes());
    assert_eq!(hash_of(&F32::from_bits(1.01_f32.to_bits())), expected.finish());
}

#[test]
fn float_bytes_are_little_endian() {
    let key = F32::from_bits(0x3f81_47ae);
    let mut out = vec![0xaa];
    key.encode(&mut out);
    assert_eq!(out, vec![0xaa, 0xae, 0x47, 0x81, 0x3f]);
    assert_eq!(&out[1..], &1.01_f32.to_le_bytes()[..]);
    assert_eq!(key.size(), 4);
    assert_eq!(F32::decode(&out[1..]), Ok((key, 4)));

    let key = F64::from_bits((-2.5_f64).to_bits());
    let mut out = Vec::new();
    key.encode(&mut out);
    assert_eq!(out, (-2.5_f64).to_le_bytes().to_vec());
    assert_eq!(key.size(), 8);
    out.push(7);
    assert_eq!(F64::decode(&out), Ok((key, 8)));
}

#[test]
fn float_edge_cases_survive_the_round_trip() {
    for value in [0.0_f32, -0.0, f32::NAN, -f32::NAN, f32::INFINITY, f32::NEG_INFINITY] {
        let key = F32::from_bits(value.to_bits());
        let mut out = Vec::new();
        key.encode(&mut out);
        assert_eq!(out.len(), key.size());
        let (back, taken) = F32::decode(&out).unwrap();
        assert_eq!(taken, 4);
        assert_eq!(back.to_bits(), value.to_bits());
    }
}

#[test]
fn short_input_is_no_float() {
    assert_eq!(F32::decode(&[1, 2, 3]), Err(DecodeError::UnexpectedEnd));
    assert_eq!(F64::decode(&[1, 2, 3, 4, 5, 6, 7]), Err(DecodeError::UnexpectedEnd));
    assert_eq!(F32::decode(&[]), Err(DecodeError::UnexpectedEnd));
}

#[test]
fn a_number_is_its_own_reference() {
    let key = F32::from_bits(0x4049_0fdb);
    assert_eq!(key.as_key_ref().to_key(), key);
    let stamp = TimestampMillisecond::new(17);
    assert_eq!(stamp.as_key_ref().to_key(), stamp);
}

#[test]
fn timestamp_holds_its_count() {
    let stamp = TimestampSecond::new(-5);
    assert_eq!(stamp.value(), -5);
    assert_eq!(stamp.0, -5);
    assert_eq!(TimestampNanosecond::new(i64::MAX).value(), i64::MAX);
    assert_eq!(TimestampType::<0>::default().value(), 0);
}

#[test]
fn timestamps_of_different_units_are_different_types() {
    let millis = TimestampMillisecond::new(1000);
    let micros = TimestampMicrosecond::new(1000);
    assert_eq!(millis.unit(), Some(TimeUnit::Millisecond));
    assert_eq!(micros.unit(), Some(TimeUnit::Microsecond));
    assert_ne!(millis.unit(), micros.unit());
    assert_eq!(millis.value(), micros.value());
    let mut a = Vec::new();
    let mut b = Vec::new();
    millis.encode(&mut a);
    micros.encode(&mut b);
    assert_eq!(a, b);
    assert_eq!(a, 1000_i64.to_le_bytes().to_vec());
}

#[test]
fn timestamp_units() {
    assert_eq!(TimestampSecond::new(0).unit(), Some(TimeUnit::Second));
    assert_eq!(TimestampNanosecond::new(0).unit(), Some(TimeUnit::Nanosecond));
    assert_eq!(TimestampType::<4>::new(0).unit(), None);
    assert_eq!(TimeUnit::from_code(2), Some(TimeUnit::Microsecond));
    assert_eq!(TimeUnit::from_code(4), None);
    assert_eq!(TimeUnit::Nanosecond.code(), 3);
}

#[test]
fn timestamp_order_is_numeric() {
    let a = TimestampSecond::new(-1);
    let b = TimestampSecond::new(0);
    let c = TimestampSecond::new(i64::MAX);
    assert!(a < b && b < c);
    assert_eq!(a.compare(&b), Order::Less);
    assert_eq!(c.compare(&b), Order::Greater);
    assert_eq!(b.compare(&b), Order::Equal);
    assert_eq!(a.cmp(&b), Ordering::Less);
}

#[test]
fn timestamp_round_trip() {
    for count in [0_i64, 1, -1, 1000, i64::MIN, i64::MAX] {
        let stamp = TimestampMicrosecond::new(count);
        let mut out = Vec::new();
        stamp.encode(&mut out);
        assert_eq!(out, count.to_le_bytes().to_vec());
        assert_eq!(out.len(), stamp.size());
        assert_eq!(TimestampMicrosecond::decode(&out), Ok((stamp, 8)));
    }
    assert_eq!(TimestampSecond::decode(&[0; 7]), Err(DecodeError::UnexpectedEnd));
}

#[test]
fn timestamps_and_counts_convert() {
    let stamp = TimestampMillisecond::from(42);
    assert_eq!(stamp, TimestampMillisecond::new(42));
    assert_eq!(i64::from(stamp), 42);
    assert_eq!(*stamp, 42);
    assert_eq!(stamp.abs(), 42);
    let key = F32::from(7_u32);
    assert_eq!(*key, 7);
    assert_eq!(key.to_bits(), 7);
}

#[test]
fn equal_doubles_hash_alike() {
    let a = F64::from_bits(f64::NAN.to_bits());
    let b = F64::from_bits(f64::NAN.to_bits());
    let mut first = DefaultHasher::new();
    a.hash(&mut first);
    let mut second = DefaultHasher::new();
    b.hash(&mut second);
    assert!(a == b);
    assert_eq!(first.finish(), second.finish());
    let mut expected = DefaultHasher::new();
    expected.write(&f64::NAN.to_le_bytes());
    assert_eq!(first.finish(), expected.finish());
}

#[test]
fn equal_timestamps_hash_alike() {
    let a = TimestampSecond::new(-7);
    let b = TimestampSecond::from(-7);
    assert_eq!(a, b);
    let mut first = DefaultHasher::new();
    a.hash(&mut first);
    let mut second = DefaultHasher::new();
    b.hash(&mut second);
    assert_eq!(first.finish(), second.finish());
    let mut expected = DefaultHasher::new();
    expected.write(&(-7_i64).to_le_bytes());
    assert_eq!(first.finish(), expected.finish());
}
