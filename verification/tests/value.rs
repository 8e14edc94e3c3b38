use std::cmp::Ordering;
use std::collections::hash_map::DefaultHasher;
use std::hash::Hasher;
use std::ops::Bound;

use tonbo::record::key::bound::{bound_size, decode_bound, encode_bound};
use tonbo::record::key::num::{TimeUnit, F32, F64};
use tonbo::record::key::order::{compare_bytes, Order};
use tonbo::record::runtime::row::{decode_values, encode_values, values_size};
use tonbo::record::runtime::value::{DataType, Value, ValueDesc};
use tonbo::serdes::DecodeError;

fn samples() -> Vec<Value> {
    vec![
        Value::Null,
        Value::Boolean(false),
        Value::Boolean(true),
        Value::Int8(-128),
        Value::Int8(127),
        Value::Int16(-2),
        Value::Int32(i32::MIN),
        Value::Int32(77),
        Value::Int64(i64::MIN),
        Value::Int64(i64::MAX),
        Value::UInt8(255),
        Value::UInt16(65535),
        Value::UInt32(0xdead_beef),
        Value::UInt64(u64::MAX),
        Value::Float32(F32::from_bits(f32::NAN.to_bits())),
        Value::Float32(F32::from_bits((-0.0_f32).to_bits())),
        Value::Float64(F64::from_bits(f64::NEG_INFINITY.to_bits())),
        Value::Float64(F64::from_bits(3.25_f64.to_bits())),
        Value::String(String::new()),
        Value::String("hello".to_string()),
        Value::String("héllo, wörld ✓".to_string()),
        Value::Binary(vec![]),
        Value::Binary(vec![0, 255, 7]),
        Value::Timestamp(-1, TimeUnit::Second),
        Value::Timestamp(1000, TimeUnit::Millisecond),
        Value::Timestamp(1000, TimeUnit::Microsecond),
        Value::Timestamp(i64::MAX, TimeUnit::Nanosecond),
    ]
}

fn encoded(value: &Value) -> Vec<u8> {
    let mut out = Vec::new();
    value.encode(&mut out);
    out
}

fn hash_of(value: &Value) -> u64 {
    let mut state = DefaultHasher::new();
    value.hash(&mut state);
    state.finish()
}

#[test]
fn every_value_survives_the_round_trip() {
    for value in samples() {
        let bytes = encoded(&value);
        assert_eq!(bytes.len(), value.size());
        assert_eq!(Value::decode(&bytes), Ok((value.duplicate(), bytes.len())));
        let mut longer = bytes.clone();
        longer.extend_from_slice(&[1, 2, 3]);
        assert_eq!(Value::decode(&longer), Ok((value, bytes.len())));
    }
}

#[test]
fn exact_bytes_of_values() {
    assert_eq!(encoded(&Value::Null), vec![0]);
    assert_eq!(encoded(&Value::Boolean(true)), vec![1, 1]);
    assert_eq!(encoded(&Value::Boolean(false)), vec![1, 0]);
    assert_eq!(encoded(&Value::Int8(-1)), vec![2, 0xff]);
    assert_eq!(encoded(&Value::Int16(-2)), vec![3, 0xfe, 0xff]);
    assert_eq!(encoded(&Value::Int32(1)), vec![4, 1, 0, 0, 0]);
    assert_eq!(encoded(&Value::Int64(-1)), vec![5, 255, 255, 255, 255, 255, 255, 255, 255]);
    assert_eq!(encoded(&Value::UInt8(9)), vec![6, 9]);
    assert_eq!(encoded(&Value::UInt16(0x0102)), vec![7, 2, 1]);
    assert_eq!(encoded(&Value::UInt32(0x0102_0304)), vec![8, 4, 3, 2, 1]);
    assert_eq!(encoded(&Value::UInt64(1)), vec![9, 1, 0, 0, 0, 0, 0, 0, 0]);
    assert_eq!(
        encoded(&Value::Float32(F32::from_bits(1.0_f32.to_bits()))),
        vec![10, 0, 0, 0x80, 0x3f]
    );
    assert_eq!(
        encoded(&Value::Float64(F64::from_bits(1.0_f64.to_bits()))),
        vec![11, 0, 0, 0, 0, 0, 0, 0xf0, 0x3f]
    );
    assert_eq!(
        encoded(&Value::String("hé".to_string())),
        vec![12, 3, 0, 0, 0, 0, 0, 0, 0, b'h', 0xc3, 0xa9]
    );
    assert_eq!(encoded(&Value::Binary(vec![5, 6])), vec![13, 2, 0, 0, 0, 0, 0, 0, 0, 5, 6]);
    assert_eq!(
        encoded(&Value::Timestamp(1, TimeUnit::Microsecond)),
        vec![14, 2, 1, 0, 0, 0, 0, 0, 0, 0]
    );
}

#[test]
fn encode_appends() {
    let mut out = vec![42];
    Value::UInt8(1).encode(&mut out);
    Value::Null.encode(&mut out);
    assert_eq!(out, vec![42, 6, 1, 0]);
}

#[test]
fn truncated_values() {
    assert_eq!(Value::decode(&[]), Err(DecodeError::UnexpectedEnd));
    for value in samples() {
        let bytes = encoded(&value);
        for cut in 0..bytes.len() {
            assert_eq!(Value::decode(&bytes[..cut]), Err(DecodeError::UnexpectedEnd));
        }
    }
}

#[test]
fn invalid_tags() {
    assert_eq!(Value::decode(&[15]), Err(DecodeError::InvalidTag));
    assert_eq!(Value::decode(&[255, 0, 0]), Err(DecodeError::InvalidTag));
    assert_eq!(Value::decode(&[1, 2]), Err(DecodeError::InvalidTag));
    assert_eq!(
        Value::decode(&[14, 4, 0, 0, 0, 0, 0, 0, 0, 0]),
        Err(DecodeError::InvalidTag)
    );
}

#[test]
fn invalid_text() {
    assert_eq!(
        Value::decode(&[12, 2, 0, 0, 0, 0, 0, 0, 0, 0xc3, 0x28]),
        Err(DecodeError::InvalidUtf8)
    );
    assert_eq!(
        Value::decode(&[12, 1, 0, 0, 0, 0, 0, 0, 0, 0xff]),
        Err(DecodeError::InvalidUtf8)
    );
    assert_eq!(
        Value::decode(&[12, 2, 0, 0, 0, 0, 0, 0, 0, 0xc3, 0xa9]),
        Ok((Value::String("é".to_string()), 11))
    );
}

#[test]
fn kinds_of_values() {
    assert_eq!(Value::Null.datatype(), None);
    assert_eq!(Value::Int32(1).datatype(), Some(DataType::Int32));
    assert_eq!(Value::String("x".to_string()).datatype(), Some(DataType::String));
    assert_eq!(Value::Binary(vec![]).datatype(), Some(DataType::Bytes));
    assert_eq!(
        Value::Timestamp(0, TimeUnit::Nanosecond).datatype(),
        Some(DataType::Timestamp(TimeUnit::Nanosecond))
    );
    assert_eq!(
        Value::Float32(F32::from_bits(0)).datatype(),
        Some(DataType::Float32)
    );
}

#[test]
fn order_within_a_kind() {
    assert!(Value::Int32(-5) < Value::Int32(3));
    assert!(Value::UInt64(u64::MAX) > Value::UInt64(0));
    assert!(Value::Boolean(false) < Value::Boolean(true));
    assert!(Value::String("abc".to_string()) < Value::String("abd".to_string()));
    assert!(Value::String("ab".to_string()) < Value::String("abc".to_string()));
    assert!(Value::String("b".to_string()) > Value::String("abc".to_string()));
    assert!(Value::Binary(vec![1, 2]) < Value::Binary(vec![1, 3]));
    assert!(Value::Binary(vec![]) < Value::Binary(vec![0]));
    assert!(
        Value::Float32(F32::from_bits((-0.0_f32).to_bits()))
            < Value::Float32(F32::from_bits(0.0_f32.to_bits()))
    );
    assert!(
        Value::Float64(F64::from_bits(f64::NAN.to_bits()))
            > Value::Float64(F64::from_bits(f64::INFINITY.to_bits()))
    );
    assert!(Value::Timestamp(1, TimeUnit::Second) < Value::Timestamp(2, TimeUnit::Second));
    assert_eq!(Value::Int8(4).cmp(&Value::Int8(4)), Ordering::Equal);
    assert_eq!(Value::Int8(4).compare(&Value::Int8(5)), Order::Less);
}

#[test]
fn order_across_kinds() {
    assert!(Value::Null < Value::Boolean(false));
    assert!(Value::Boolean(true) < Value::Int8(-100));
    assert!(Value::Int64(i64::MAX) < Value::UInt8(0));
    assert!(Value::Binary(vec![255]) < Value::Timestamp(i64::MIN, TimeUnit::Second));
    assert!(Value::Timestamp(5, TimeUnit::Second) < Value::Timestamp(-5, TimeUnit::Millisecond));
}

#[test]
fn the_order_of_values_is_total() {
    let all = samples();
    for a in &all {
        assert_eq!(a.cmp(a), Ordering::Equal);
        for b in &all {
            assert_eq!(a.cmp(b), b.cmp(a).reverse());
            assert_eq!(a.cmp(b) == Ordering::Equal, a == b);
            for c in &all {
                if a.cmp(b) == Ordering::Less && b.cmp(c) == Ordering::Less {
                    assert_eq!(a.cmp(c), Ordering::Less);
                }
            }
        }
    }
}

#[test]
fn text_is_ordered_as_strings_are() {
    let words = ["", "a", "ab", "b", "é", "z", "zz", "✓", "日本"];
    for a in words {
        for b in words {
            assert_eq!(
                Value::String(a.to_string()).cmp(&Value::String(b.to_string())),
                a.cmp(b)
            );
            assert_eq!(compare_bytes(a.as_bytes(), b.as_bytes()).to_ordering(), a.cmp(b));
        }
    }
}

#[test]
fn equal_values_hash_alike() {
    let all = samples();
    for a in &all {
        for b in &all {
            if a == b {
                assert_eq!(hash_of(a), hash_of(b));
            }
        }
        assert_eq!(hash_of(a), hash_of(&a.duplicate()));
    }
    let mut expected = DefaultHasher::new();
    expected.write(&[4, 1, 0, 0, 0]);
    assert_eq!(hash_of(&Value::Int32(1)), expected.finish());
}

#[test]
fn a_copy_is_equal() {
    for value in samples() {
        assert_eq!(value.duplicate(), value);
    }
    let desc = ValueDesc::new("foo".to_string(), DataType::String, false);
    let copy = desc.duplicate();
    assert_eq!(copy.name, "foo");
    assert_eq!(copy.datatype, DataType::String);
    assert!(!copy.is_nullable);
}

#[test]
fn rows_survive_the_round_trip() {
    let row = samples();
    let mut out = Vec::new();
    encode_values(&row, &mut out);
    assert_eq!(out.len(), values_size(&row));
    assert_eq!(&out[..8], &(row.len() as u64).to_le_bytes()[..]);
    assert_eq!(decode_values(&out), Ok((row, out.len())));

    let mut empty = Vec::new();
    encode_values(&Vec::new(), &mut empty);
    assert_eq!(empty, vec![0; 8]);
    assert_eq!(decode_values(&empty), Ok((Vec::new(), 8)));
}

#[test]
fn exact_bytes_of_a_row() {
    let row = vec![Value::Int32(1), Value::String("x".to_string())];
    let mut out = Vec::new();
    encode_values(&row, &mut out);
    assert_eq!(
        out,
        vec![2, 0, 0, 0, 0, 0, 0, 0, 4, 1, 0, 0, 0, 12, 1, 0, 0, 0, 0, 0, 0, 0, b'x']
    );
    assert_eq!(values_size(&row), 23);
}

#[test]
fn broken_rows() {
    assert_eq!(decode_values(&[1, 0, 0]), Err(DecodeError::UnexpectedEnd));
    assert_eq!(decode_values(&[2, 0, 0, 0, 0, 0, 0, 0, 0]), Err(DecodeError::UnexpectedEnd));
    assert_eq!(decode_values(&[1, 0, 0, 0, 0, 0, 0, 0, 99]), Err(DecodeError::InvalidTag));
    assert_eq!(decode_values(&[0xff; 8]), Err(DecodeError::UnexpectedEnd));
}

#[test]
fn bounds_survive_the_round_trip() {
    let bounds = vec![
        Bound::Unbounded,
        Bound::Included(Value::Int32(5)),
        Bound::Excluded(Value::String("k".to_string())),
    ];
    for bound in bounds {
        let mut out = Vec::new();
        encode_bound(&bound, &mut out);
        assert_eq!(out.len(), bound_size(&bound));
        let taken = out.len();
        out.push(9);
        assert_eq!(decode_bound(&out), Ok((bound, taken)));
    }
}

#[test]
fn exact_bytes_of_bounds() {
    let mut out = Vec::new();
    encode_bound(&Bound::Unbounded, &mut out);
    assert_eq!(out, vec![0]);
    let mut out = Vec::new();
    encode_bound(&Bound::Included(Value::UInt8(7)), &mut out);
    assert_eq!(out, vec![1, 6, 7]);
    let mut out = Vec::new();
    encode_bound(&Bound::Excluded(Value::UInt8(7)), &mut out);
    assert_eq!(out, vec![2, 6, 7]);
}

#[test]
fn broken_bounds() {
    assert_eq!(decode_bound(&[]), Err(DecodeError::UnexpectedEnd));
    assert_eq!(decode_bound(&[3]), Err(DecodeError::InvalidTag));
    assert_eq!(decode_bound(&[1]), Err(DecodeError::UnexpectedEnd));
    assert_eq!(decode_bound(&[2, 77]), Err(DecodeError::InvalidTag));
    assert_eq!(decode_bound(&[1, 12, 1, 0, 0, 0, 0, 0, 0, 0, 0x80]), Err(DecodeError::InvalidUtf8));
}
