use tonbo::record::runtime::value::Value;
use tonbo::serdes::{put_le, read_run, want_run, write_run, DecodeError};

fn encoded(value: &Value) -> Vec<u8> {
    let mut out = Vec::new();
    value.encode(&mut out);
    out
}

#[test]
fn little_endian_bytes() {
    let mut out = Vec::new();
    put_le(&mut out, 0x0102_0304, 4);
    assert_eq!(out, vec![4, 3, 2, 1]);
    put_le(&mut out, 0x1122_3344_5566_7788, 8);
    assert_eq!(&out[4..], &0x1122_3344_5566_7788_u64.to_le_bytes()[..]);
    put_le(&mut out, 0xabcd, 1);
    assert_eq!(out[12], 0xcd);
    put_le(&mut out, 7, 0);
    assert_eq!(out.len(), 13);
    put_le(&mut out, 1, 10);
    assert_eq!(&out[13..], &[1, 0, 0, 0, 0, 0, 0, 0, 0, 0][..]);
}

#[test]
fn signed_numbers_match_the_machine() {
    for value in [0_i8, 1, -1, i8::MIN, i8::MAX] {
        let bytes = encoded(&Value::Int8(value));
        assert_eq!(&bytes[1..], &value.to_le_bytes()[..]);
        assert_eq!(Value::decode(&bytes), Ok((Value::Int8(value), 2)));
    }
    for value in [0_i16, 1, -1, -2, i16::MIN, i16::MAX] {
        let bytes = encoded(&Value::Int16(value));
        assert_eq!(&bytes[1..], &value.to_le_bytes()[..]);
        assert_eq!(Value::decode(&bytes), Ok((Value::Int16(value), 3)));
    }
    for value in [0_i32, 1, -1, i32::MIN, i32::MAX, 123_456, -98_765] {
        let bytes = encoded(&Value::Int32(value));
        assert_eq!(&bytes[1..], &value.to_le_bytes()[..]);
        assert_eq!(Value::decode(&bytes), Ok((Value::Int32(value), 5)));
    }
    for value in [0_i64, 1, -1, i64::MIN, i64::MAX, -(1 << 40)] {
        let bytes = encoded(&Value::Int64(value));
        assert_eq!(&bytes[1..], &value.to_le_bytes()[..]);
        assert_eq!(Value::decode(&bytes), Ok((Value::Int64(value), 9)));
    }
}

#[test]
fn unsigned_numbers_match_the_machine() {
    for value in [0_u8, 1, 0x7f, 0x80, u8::MAX] {
        let bytes = encoded(&Value::UInt8(value));
        assert_eq!(&bytes[1..], &value.to_le_bytes()[..]);
        assert_eq!(Value::decode(&bytes), Ok((Value::UInt8(value), 2)));
    }
    for value in [0_u16, 0x0102, u16::MAX] {
        let bytes = encoded(&Value::UInt16(value));
        assert_eq!(&bytes[1..], &value.to_le_bytes()[..]);
        assert_eq!(Value::decode(&bytes), Ok((Value::UInt16(value), 3)));
    }
    for value in [0_u32, 0x0102_0304, u32::MAX] {
        let bytes = encoded(&Value::UInt32(value));
        assert_eq!(&bytes[1..], &value.to_le_bytes()[..]);
        assert_eq!(Value::decode(&bytes), Ok((Value::UInt32(value), 5)));
    }
    for value in [0_u64, 0x0102_0304_0506_0708, u64::MAX] {
        let bytes = encoded(&Value::UInt64(value));
        assert_eq!(&bytes[1..], &value.to_le_bytes()[..]);
        assert_eq!(Value::decode(&bytes), Ok((Value::UInt64(value), 9)));
    }
}

#[test]
fn runs_of_bytes() {
    let mut out = vec![1];
    write_run(&mut out, b"abc");
    assert_eq!(out, vec![1, 3, 0, 0, 0, 0, 0, 0, 0, b'a', b'b', b'c']);
    assert_eq!(read_run(&out[1..]), Ok((b"abc".to_vec(), 11)));
    assert_eq!(want_run(&out[1..]), 0);
    let mut empty = Vec::new();
    write_run(&mut empty, &[]);
    assert_eq!(empty, vec![0; 8]);
    assert_eq!(read_run(&empty), Ok((Vec::new(), 8)));
}

#[test]
fn truncated_runs() {
    assert_eq!(read_run(&[3, 0, 0, 0, 0, 0, 0]), Err(DecodeError::UnexpectedEnd));
    assert_eq!(read_run(&[3, 0, 0, 0, 0, 0, 0, 0, 1, 2]), Err(DecodeError::UnexpectedEnd));
    assert_eq!(read_run(&[0xff; 8]), Err(DecodeError::UnexpectedEnd));
}

#[test]
fn errors_in_words() {
    assert_eq!(DecodeError::UnexpectedEnd.message(), "unexpected end of input");
    assert_eq!(DecodeError::InvalidTag.message(), "invalid tag");
    assert_eq!(DecodeError::InvalidUtf8.message(), "invalid UTF-8");
}
