use std::ops::Bound;

use tonbo::record::key::bound::{
    bound_size, checked_bound_size, decode_bound, encode_bound, want_bound,
};
use tonbo::record::key::num::{TimeUnit, F64};
use tonbo::record::key::primary::PrimaryKey;
use tonbo::record::runtime::row::{
    checked_values_size, decode_values, encode_values, values_size, want_values,
};
use tonbo::record::runtime::value::Value;
use tonbo::serdes::{want_run, write_run, DecodeError};

fn samples() -> Vec<Value> {
    vec![
        Value::Null,
        Value::Boolean(true),
        Value::Int8(-3),
        Value::Int16(300),
        Value::Int32(-70000),
        Value::Int64(1 << 40),
        Value::UInt8(200),
        Value::UInt16(60000),
        Value::UInt32(4_000_000_000),
        Value::UInt64(u64::MAX),
        Value::Float64(F64::from_bits(6.5_f64.to_bits())),
        Value::String("a longer piece of text".to_string()),
        Value::String(String::new()),
        Value::Binary(vec![9; 300]),
        Value::Timestamp(123_456_789, TimeUnit::Nanosecond),
    ]
}

/// Feeds `stream` to `wanted` as a reader would, piece by piece, and gives
/// how many bytes were fetched when nothing more was wanted.
fn fetched(stream: &[u8], wanted: fn(&[u8]) -> u64) -> usize {
    let mut have = 0;
    loop {
        let more = wanted(&stream[..have]) as usize;
        if more == 0 {
            return have;
        }
        assert!(have + more <= stream.len());
        have += more;
    }
}

#[test]
fn a_reader_fetches_exactly_one_value() {
    for value in samples() {
        let mut stream = Vec::new();
        value.encode(&mut stream);
        let len = stream.len();
        stream.extend_from_slice(&[0xee; 40]);
        assert_eq!(fetched(&stream, Value::wanted), len);
        assert_eq!(Value::decode(&stream[..len]), Ok((value, len)));
    }
}

#[test]
fn what_a_value_wants() {
    assert_eq!(Value::wanted(&[]), 1);
    assert_eq!(Value::wanted(&[0]), 0);
    assert_eq!(Value::wanted(&[1]), 1);
    assert_eq!(Value::wanted(&[1, 7]), 0);
    assert_eq!(Value::wanted(&[4]), 4);
    assert_eq!(Value::wanted(&[4, 0, 0]), 2);
    assert_eq!(Value::wanted(&[4, 0, 0, 0, 0]), 0);
    assert_eq!(Value::wanted(&[5, 1]), 7);
    assert_eq!(Value::wanted(&[11]), 8);
    assert_eq!(Value::wanted(&[12]), 8);
    assert_eq!(Value::wanted(&[12, 3, 0, 0, 0, 0, 0, 0]), 1);
    assert_eq!(Value::wanted(&[12, 3, 0, 0, 0, 0, 0, 0, 0]), 3);
    assert_eq!(Value::wanted(&[12, 3, 0, 0, 0, 0, 0, 0, 0, b'a']), 2);
    assert_eq!(Value::wanted(&[13, 0, 0, 0, 0, 0, 0, 0, 0]), 0);
    assert_eq!(Value::wanted(&[14]), 1);
    assert_eq!(Value::wanted(&[14, 2]), 8);
    assert_eq!(Value::wanted(&[14, 9]), 0);
    assert_eq!(Value::wanted(&[99]), 0);
    assert_eq!(
        Value::wanted(&[13, 0xff, 0xff, 0xff, 0xff, 0xff, 0xff, 0xff, 0xff, 1]),
        u64::MAX - 1
    );
}

#[test]
fn nothing_is_wanted_exactly_where_the_input_is_not_cut_short() {
    for value in samples() {
        let mut bytes = Vec::new();
        value.encode(&mut bytes);
        for cut in 0..=bytes.len() {
            let short = Value::decode(&bytes[..cut]) == Err(DecodeError::UnexpectedEnd);
            assert_eq!(Value::wanted(&bytes[..cut]) > 0, short);
        }
    }
    assert_eq!(Value::decode(&[99]), Err(DecodeError::InvalidTag));
    assert_eq!(Value::decode(&[14, 9]), Err(DecodeError::InvalidTag));
}

#[test]
fn a_reader_fetches_exactly_one_row() {
    let row = samples();
    let mut stream = Vec::new();
    encode_values(&row, &mut stream);
    let len = stream.len();
    stream.extend_from_slice(&[0; 16]);
    assert_eq!(fetched(&stream, want_values), len);
    assert_eq!(fetched(&stream, PrimaryKey::wanted), len);
    assert_eq!(decode_values(&stream[..len]), Ok((row, len)));
}

#[test]
fn what_a_row_wants() {
    assert_eq!(want_values(&[]), 8);
    assert_eq!(want_values(&[2, 0, 0]), 5);
    assert_eq!(want_values(&[0; 8]), 0);
    assert_eq!(want_values(&[2, 0, 0, 0, 0, 0, 0, 0]), 1);
    assert_eq!(want_values(&[2, 0, 0, 0, 0, 0, 0, 0, 4]), 4);
    assert_eq!(want_values(&[2, 0, 0, 0, 0, 0, 0, 0, 0]), 1);
    assert_eq!(want_values(&[2, 0, 0, 0, 0, 0, 0, 0, 0, 0]), 0);
    assert_eq!(want_values(&[2, 0, 0, 0, 0, 0, 0, 0, 0, 77]), 0);
    assert_eq!(PrimaryKey::wanted(&[1, 0, 0, 0, 0, 0, 0, 0, 6]), 1);
}

#[test]
fn a_reader_fetches_exactly_one_bound() {
    let bounds = vec![
        Bound::Unbounded,
        Bound::Included(Value::String("from".to_string())),
        Bound::Excluded(Value::Int64(-9)),
    ];
    for bound in bounds {
        let mut stream = Vec::new();
        encode_bound(&bound, &mut stream);
        let len = stream.len();
        stream.extend_from_slice(&[1, 2, 3]);
        assert_eq!(fetched(&stream, want_bound), len);
        assert_eq!(decode_bound(&stream[..len]), Ok((bound, len)));
    }
    assert_eq!(want_bound(&[]), 1);
    assert_eq!(want_bound(&[0]), 0);
    assert_eq!(want_bound(&[1]), 1);
    assert_eq!(want_bound(&[2, 5]), 8);
    assert_eq!(want_bound(&[3]), 0);
}

#[test]
fn what_a_run_wants() {
    assert_eq!(want_run(&[]), 8);
    assert_eq!(want_run(&[5, 0, 0]), 5);
    assert_eq!(want_run(&[5, 0, 0, 0, 0, 0, 0, 0]), 5);
    assert_eq!(want_run(&[5, 0, 0, 0, 0, 0, 0, 0, 1, 2]), 3);
    let mut whole = Vec::new();
    write_run(&mut whole, &[1, 2, 3, 4, 5]);
    assert_eq!(want_run(&whole), 0);
    whole.push(0);
    assert_eq!(want_run(&whole), 0);
}

#[test]
fn sizes_that_can_be_counted() {
    for value in samples() {
        assert_eq!(value.checked_size(), Some(value.size()));
    }
    let row = samples();
    assert_eq!(checked_values_size(&row), Some(values_size(&row)));
    assert_eq!(checked_values_size(&Vec::new()), Some(8));
    let key = PrimaryKey::new(samples());
    assert_eq!(key.checked_size(), Some(key.size()));
    let bound = Bound::Included(Value::Binary(vec![1, 2, 3]));
    assert_eq!(checked_bound_size(&bound), Some(bound_size(&bound)));
    assert_eq!(checked_bound_size(&bound), Some(13));
    assert_eq!(checked_bound_size(&Bound::Unbounded), Some(1));
}
