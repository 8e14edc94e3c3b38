//! What crosses the boundary of a remote service: the bytes of a request
//! become keys, bounds and rows, and rows become the bytes of a response.
//! The service itself, which waits for the store and for the network, is
//! not here; it hands the bytes in and takes the values out.

use std::ops::Bound;
use vstd::prelude::*;

use crate::record::key::bound::{bound_decoding, bound_view, decode_bound};
use crate::record::runtime::row::{
    decode_values, encode_values, values_decoding, values_encoding, views,
};
use crate::record::runtime::value::{Value, ValueView};
use crate::serdes::DecodeError;

verus! {

/// The key that `bytes` start with, if they start with one.
pub open spec fn key_of(bytes: Seq<u8>) -> Result<ValueView, DecodeError> {
    match ValueView::decoding(bytes) {
        Ok((key, _)) => Ok(key),
        Err(e) => Err(e),
    }
}

/// The bound that `bytes` start with, if they start with one.
pub open spec fn bound_of(bytes: Seq<u8>) -> Result<Bound<ValueView>, DecodeError> {
    match bound_decoding(bytes) {
        Ok((bound, _)) => Ok(bound),
        Err(e) => Err(e),
    }
}

/// The row that `bytes` start with, if they start with one.
pub open spec fn row_of(bytes: Seq<u8>) -> Result<Seq<ValueView>, DecodeError> {
    match values_decoding(bytes) {
        Ok((row, _)) => Ok(row),
        Err(e) => Err(e),
    }
}

/// The two ends of a scan, the lower from `min` and the upper from `max`;
/// where both are in error, that of `min` is given.
pub open spec fn range_of(min: Seq<u8>, max: Seq<u8>) -> Result<
    (Bound<ValueView>, Bound<ValueView>),
    DecodeError,
> {
    match bound_of(min) {
        Err(e) => Err(e),
        Ok(lower) => match bound_of(max) {
            Err(e) => Err(e),
            Ok(upper) => Ok((lower, upper)),
        },
    }
}

/// The key that a lookup asks for: `key` is read from its start as one
/// value.
pub fn get_request(key: &[u8]) -> (r: Result<Value, DecodeError>)
    ensures
        match r {
            Ok(value) => key_of(key@) == Ok::<_, DecodeError>(value@),
            Err(e) => key_of(key@) == Err::<ValueView, _>(e),
        },
{
    match Value::decode(key) {
        Ok((value, _)) => Ok(value),
        Err(e) => Err(e),
    }
}

/// The answer to a lookup: the bytes of the row that was found, nothing
/// where none was.
pub fn get_response(tuple: Option<Vec<Value>>) -> (r: Option<Vec<u8>>)
    ensures
        match tuple {
            Some(row) => r matches Some(bytes) && bytes@ == values_encoding(views(row@)),
            None => r is None,
        },
{
    match tuple {
        Some(row) => {
            let mut bytes: Vec<u8> = Vec::new();
            encode_values(&row, &mut bytes);
            proof {
                assert(Seq::<u8>::empty() + values_encoding(views(row@)) == values_encoding(
                    views(row@),
                ));
            }
            Some(bytes)
        },
        None => None,
    }
}

/// The range that a scan asks for: each of `min` and `max` is read from its
/// start as one bound.
pub fn scan_request(min: &[u8], max: &[u8]) -> (r: Result<
    (Bound<Value>, Bound<Value>),
    DecodeError,
>)
    ensures
        match r {
            Ok((lower, upper)) => range_of(min@, max@) == Ok::<_, DecodeError>(
                (bound_view(lower), bound_view(upper)),
            ),
            Err(e) => range_of(min@, max@) == Err::<(Bound<ValueView>, Bound<ValueView>), _>(e),
        },
{
    let lower = match decode_bound(min) {
        Ok((bound, _)) => bound,
        Err(e) => {
            return Err(e);
        },
    };
    let upper = match decode_bound(max) {
        Ok((bound, _)) => bound,
        Err(e) => {
            return Err(e);
        },
    };
    Ok((lower, upper))
}

/// What a scan sends for one entry of the store: the bytes of its row, and
/// nothing for an entry without one, which the scan passes over.
pub fn scan_item(entry: Option<Vec<Value>>) -> (r: Option<Vec<u8>>)
    ensures
        match entry {
            Some(row) => r matches Some(bytes) && bytes@ == values_encoding(views(row@)),
            None => r is None,
        },
{
    get_response(entry)
}

/// The row that an insertion brings: `record` is read from its start as one
/// sequence of values.
pub fn insert_request(record: &[u8]) -> (r: Result<Vec<Value>, DecodeError>)
    ensures
        match r {
            Ok(row) => row_of(record@) == Ok::<_, DecodeError>(views(row@)),
            Err(e) => row_of(record@) == Err::<Seq<ValueView>, _>(e),
        },
{
    match decode_values(record) {
        Ok((row, _)) => Ok(row),
        Err(e) => Err(e),
    }
}

/// The key that a removal names: `key` is read from its start as one value.
pub fn remove_request(key: &[u8]) -> (r: Result<Value, DecodeError>)
    ensures
        match r {
            Ok(value) => key_of(key@) == Ok::<_, DecodeError>(value@),
            Err(e) => key_of(key@) == Err::<ValueView, _>(e),
        },
{
    get_request(key)
}

} // verus!
