//! The logical types of a dynamic table, the description of its columns, and
//! the values that its rows and keys are made of.

use std::cmp::Ordering;
use std::collections::hash_map::DefaultHasher;
use std::hash::Hasher;
use vstd::prelude::*;
use vstd::slice::{slice_subrange, slice_to_vec};
use vstd::std_specs::cmp::{PartialEqSpecImpl, PartialOrdSpecImpl};
use vstd::utf8::{
    decode_utf8, encode_utf8, encode_utf8_decode_utf8, encode_utf8_valid_utf8, valid_utf8,
};

use crate::record::key::num::{
    lemma_float_equal_iff_same_place, lemma_float_round_trip, FloatType, TimeUnit, F32, F64,
};
use crate::record::key::order::{
    compare_bytes, lemma_lex_order_equal, lemma_lex_order_reversed, lemma_lex_order_transitive,
    lex_order, order_of, Order,
};
use crate::serdes::{
    fixed_wanted, le_bytes, lemma_le_bytes_len, lemma_pow256_values, lemma_run_decoding,
    lemma_run_decoding_extends, lemma_signed_decoding, lemma_unsigned_decoding,
    lemma_unsigned_decoding_extends, pow256, put_le, read_run, read_signed, read_unsigned,
    run_decoding, run_encoding, run_wanted, signed_decoding, to_unsigned, unsigned_decoding,
    unsigned_of, want_run, write_run, DecodeError,
};

verus! {

/// The logical type of a column.
#[derive(Debug, Clone, Copy, PartialEq, Eq, Hash, Structural)]
pub enum DataType {
    Boolean,
    Int8,
    Int16,
    Int32,
    Int64,
    UInt8,
    UInt16,
    UInt32,
    UInt64,
    Float32,
    Float64,
    String,
    Bytes,
    Timestamp(TimeUnit),
}

/// A column as a table declares it: its name, its logical type and whether
/// it may hold nulls.
#[derive(Debug, Clone)]
pub struct ValueDesc {
    pub name: String,
    pub datatype: DataType,
    pub is_nullable: bool,
}

/// What a [`ValueDesc`] says, with the name as a sequence of characters.
pub struct ValueDescView {
    pub name: Seq<char>,
    pub datatype: DataType,
    pub is_nullable: bool,
}

impl View for ValueDesc {
    type V = ValueDescView;

    open spec fn view(&self) -> ValueDescView {
        ValueDescView { name: self.name@, datatype: self.datatype, is_nullable: self.is_nullable }
    }
}

impl ValueDesc {
    /// A column called `name`, of type `datatype`, nullable or not.
    pub fn new(name: String, datatype: DataType, is_nullable: bool) -> (r: Self)
        ensures
            r@ == (ValueDescView { name: name@, datatype, is_nullable }),
    {
        Self { name, datatype, is_nullable }
    }

    /// A copy of this description.
    pub fn duplicate(&self) -> (r: Self)
        ensures
            r@ == self@,
    {
        Self { name: self.name.clone(), datatype: self.datatype, is_nullable: self.is_nullable }
    }
}

/// A value of a dynamic record: what one column holds in one row, tagged
/// with its logical type. Floating-point values are held by their bit
/// patterns, see [`FloatType`].
#[derive(Debug, Clone, Hash)]
pub enum Value {
    Null,
    Boolean(bool),
    Int8(i8),
    Int16(i16),
    Int32(i32),
    Int64(i64),
    UInt8(u8),
    UInt16(u16),
    UInt32(u32),
    UInt64(u64),
    Float32(F32),
    Float64(F64),
    String(String),
    Binary(Vec<u8>),
    Timestamp(i64, TimeUnit),
}

/// What a [`Value`] holds, with text as a sequence of characters and binary
/// data as a sequence of bytes.
pub enum ValueView {
    Null,
    Boolean(bool),
    Int8(i8),
    Int16(i16),
    Int32(i32),
    Int64(i64),
    UInt8(u8),
    UInt16(u16),
    UInt32(u32),
    UInt64(u64),
    Float32(F32),
    Float64(F64),
    String(Seq<char>),
    Binary(Seq<u8>),
    Timestamp(i64, TimeUnit),
}

impl View for Value {
    type V = ValueView;

    open spec fn view(&self) -> ValueView {
        match *self {
            Value::Null => ValueView::Null,
            Value::Boolean(v) => ValueView::Boolean(v),
            Value::Int8(v) => ValueView::Int8(v),
            Value::Int16(v) => ValueView::Int16(v),
            Value::Int32(v) => ValueView::Int32(v),
            Value::Int64(v) => ValueView::Int64(v),
            Value::UInt8(v) => ValueView::UInt8(v),
            Value::UInt16(v) => ValueView::UInt16(v),
            Value::UInt32(v) => ValueView::UInt32(v),
            Value::UInt64(v) => ValueView::UInt64(v),
            Value::Float32(v) => ValueView::Float32(v),
            Value::Float64(v) => ValueView::Float64(v),
            Value::String(v) => ValueView::String(v@),
            Value::Binary(v) => ValueView::Binary(v@),
            Value::Timestamp(v, unit) => ValueView::Timestamp(v, unit),
        }
    }
}

impl ValueView {
    /// The logical type of the value; a null has none.
    pub open spec fn datatype(self) -> Option<DataType> {
        match self {
            ValueView::Null => None,
            ValueView::Boolean(_) => Some(DataType::Boolean),
            ValueView::Int8(_) => Some(DataType::Int8),
            ValueView::Int16(_) => Some(DataType::Int16),
            ValueView::Int32(_) => Some(DataType::Int32),
            ValueView::Int64(_) => Some(DataType::Int64),
            ValueView::UInt8(_) => Some(DataType::UInt8),
            ValueView::UInt16(_) => Some(DataType::UInt16),
            ValueView::UInt32(_) => Some(DataType::UInt32),
            ValueView::UInt64(_) => Some(DataType::UInt64),
            ValueView::Float32(_) => Some(DataType::Float32),
            ValueView::Float64(_) => Some(DataType::Float64),
            ValueView::String(_) => Some(DataType::String),
            ValueView::Binary(_) => Some(DataType::Bytes),
            ValueView::Timestamp(_, unit) => Some(DataType::Timestamp(unit)),
        }
    }

    /// The byte that opens the encoding of the value and tells its kind.
    pub open spec fn tag(self) -> u8 {
        match self {
            ValueView::Null => 0,
            ValueView::Boolean(_) => 1,
            ValueView::Int8(_) => 2,
            ValueView::Int16(_) => 3,
            ValueView::Int32(_) => 4,
            ValueView::Int64(_) => 5,
            ValueView::UInt8(_) => 6,
            ValueView::UInt16(_) => 7,
            ValueView::UInt32(_) => 8,
            ValueView::UInt64(_) => 9,
            ValueView::Float32(_) => 10,
            ValueView::Float64(_) => 11,
            ValueView::String(_) => 12,
            ValueView::Binary(_) => 13,
            ValueView::Timestamp(_, _) => 14,
        }
    }

    /// The place of the value's kind among the kinds: values of different
    /// kinds are ordered by it. Nulls come first; timestamps of different
    /// units count as different kinds.
    pub open spec fn rank(self) -> int {
        match self {
            ValueView::Timestamp(_, unit) => 14 + unit.index() as int,
            _ => self.tag() as int,
        }
    }

    /// The place of a number among the values of its kind; zero for the
    /// kinds that hold no number.
    pub open spec fn scalar_key(self) -> int {
        match self {
            ValueView::Null => 0,
            ValueView::Boolean(v) => if v {
                1
            } else {
                0
            },
            ValueView::Int8(v) => v as int,
            ValueView::Int16(v) => v as int,
            ValueView::Int32(v) => v as int,
            ValueView::Int64(v) => v as int,
            ValueView::UInt8(v) => v as int,
            ValueView::UInt16(v) => v as int,
            ValueView::UInt32(v) => v as int,
            ValueView::UInt64(v) => v as int,
            ValueView::Float32(v) => v.order_key(),
            ValueView::Float64(v) => v.order_key(),
            ValueView::String(_) => 0,
            ValueView::Binary(_) => 0,
            ValueView::Timestamp(v, _) => v as int,
        }
    }

    /// The bytes by which text and binary data are ordered: text by its
    /// UTF-8 form. Empty for the other kinds.
    pub open spec fn run_key(self) -> Seq<u8> {
        match self {
            ValueView::String(v) => encode_utf8(v),
            ValueView::Binary(v) => v,
            _ => Seq::empty(),
        }
    }

    /// How the value stands to `other` in the order of all values: by kind,
    /// within a kind of numbers by the number, and within text or binary
    /// data in the order of a dictionary.
    pub open spec fn order(self, other: ValueView) -> Order {
        if self.rank() != other.rank() {
            order_of(self.rank(), other.rank())
        } else if self.scalar_key() != other.scalar_key() {
            order_of(self.scalar_key(), other.scalar_key())
        } else {
            lex_order(self.run_key(), other.run_key())
        }
    }

    /// The value can be encoded: its text or binary data has a length that
    /// fits in eight bytes.
    pub open spec fn representable(self) -> bool {
        self.run_key().len() < pow256(8)
    }

    /// The bytes that follow the tag in the encoding of the value: nothing
    /// for a null; one byte, 0 or 1, for a boolean; a number in little-endian
    /// order on as many bytes as its type has; for text its UTF-8 form and
    /// for binary data the data, either with its length in front; for a
    /// timestamp the unit on one byte, then the count on eight.
    pub open spec fn payload(self) -> Seq<u8> {
        match self {
            ValueView::Null => Seq::empty(),
            ValueView::Boolean(v) => seq![if v {
                1u8
            } else {
                0u8
            }],
            ValueView::Int8(v) => le_bytes(unsigned_of(v as int, 1), 1),
            ValueView::Int16(v) => le_bytes(unsigned_of(v as int, 2), 2),
            ValueView::Int32(v) => le_bytes(unsigned_of(v as int, 4), 4),
            ValueView::Int64(v) => le_bytes(unsigned_of(v as int, 8), 8),
            ValueView::UInt8(v) => le_bytes(v as nat, 1),
            ValueView::UInt16(v) => le_bytes(v as nat, 2),
            ValueView::UInt32(v) => le_bytes(v as nat, 4),
            ValueView::UInt64(v) => le_bytes(v as nat, 8),
            ValueView::Float32(v) => v.encoding(),
            ValueView::Float64(v) => v.encoding(),
            ValueView::String(v) => run_encoding(encode_utf8(v)),
            ValueView::Binary(v) => run_encoding(v),
            ValueView::Timestamp(v, unit) => seq![unit.index() as u8] + le_bytes(
                unsigned_of(v as int, 8),
                8,
            ),
        }
    }

    /// The bytes of the value: its tag, then its payload.
    pub open spec fn encoding(self) -> Seq<u8> {
        seq![self.tag()] + self.payload()
    }

    /// What `body` starts with, read as the payload of a value with the tag
    /// `tag`: the value and how many bytes of `body` it took.
    pub open spec fn payload_decoding(tag: u8, body: Seq<u8>) -> Result<
        (ValueView, nat),
        DecodeError,
    > {
        if tag == 0 {
            Ok((ValueView::Null, 0))
        } else if tag == 1 {
            if body.len() < 1 {
                Err(DecodeError::UnexpectedEnd)
            } else if body[0] == 0 {
                Ok((ValueView::Boolean(false), 1))
            } else if body[0] == 1 {
                Ok((ValueView::Boolean(true), 1))
            } else {
                Err(DecodeError::InvalidTag)
            }
        } else if tag == 2 {
            match signed_decoding(body, 1) {
                Ok((v, n)) => Ok((ValueView::Int8(v as i8), n)),
                Err(e) => Err(e),
            }
        } else if tag == 3 {
            match signed_decoding(body, 2) {
                Ok((v, n)) => Ok((ValueView::Int16(v as i16), n)),
                Err(e) => Err(e),
            }
        } else if tag == 4 {
            match signed_decoding(body, 4) {
                Ok((v, n)) => Ok((ValueView::Int32(v as i32), n)),
                Err(e) => Err(e),
            }
        } else if tag == 5 {
            match signed_decoding(body, 8) {
                Ok((v, n)) => Ok((ValueView::Int64(v as i64), n)),
                Err(e) => Err(e),
            }
        } else if tag == 6 {
            match unsigned_decoding(body, 1) {
                Ok((v, n)) => Ok((ValueView::UInt8(v as u8), n)),
                Err(e) => Err(e),
            }
        } else if tag == 7 {
            match unsigned_decoding(body, 2) {
                Ok((v, n)) => Ok((ValueView::UInt16(v as u16), n)),
                Err(e) => Err(e),
            }
        } else if tag == 8 {
            match unsigned_decoding(body, 4) {
                Ok((v, n)) => Ok((ValueView::UInt32(v as u32), n)),
                Err(e) => Err(e),
            }
        } else if tag == 9 {
            match unsigned_decoding(body, 8) {
                Ok((v, n)) => Ok((ValueView::UInt64(v as u64), n)),
                Err(e) => Err(e),
            }
        } else if tag == 10 {
            match FloatType::<u32>::decoding(body) {
                Ok((v, n)) => Ok((ValueView::Float32(v), n)),
                Err(e) => Err(e),
            }
        } else if tag == 11 {
            match FloatType::<u64>::decoding(body) {
                Ok((v, n)) => Ok((ValueView::Float64(v), n)),
                Err(e) => Err(e),
            }
        } else if tag == 12 {
            match run_decoding(body) {
                Ok((run, n)) => if valid_utf8(run) {
                    Ok((ValueView::String(decode_utf8(run)), n))
                } else {
                    Err(DecodeError::InvalidUtf8)
                },
                Err(e) => Err(e),
            }
        } else if tag == 13 {
            match run_decoding(body) {
                Ok((run, n)) => Ok((ValueView::Binary(run), n)),
                Err(e) => Err(e),
            }
        } else if tag == 14 {
            if body.len() < 1 {
                Err(DecodeError::UnexpectedEnd)
            } else {
                match TimeUnit::of_index(body[0] as nat) {
                    None => Err(DecodeError::InvalidTag),
                    Some(unit) => match signed_decoding(body.skip(1), 8) {
                        Ok((v, n)) => Ok((ValueView::Timestamp(v as i64, unit), n + 1)),
                        Err(e) => Err(e),
                    },
                }
            }
        } else {
            Err(DecodeError::InvalidTag)
        }
    }

    /// How many bytes the payload of a value with the tag `tag` takes, for
    /// the kinds whose payload is of one size; zero for the others.
    pub open spec fn payload_width(tag: u8) -> nat {
        if tag == 1 || tag == 2 || tag == 6 {
            1
        } else if tag == 3 || tag == 7 {
            2
        } else if tag == 4 || tag == 8 || tag == 10 {
            4
        } else if tag == 5 || tag == 9 || tag == 11 {
            8
        } else {
            0
        }
    }

    /// How many more bytes a reader has to fetch before the payload of a
    /// value with the tag `tag` can be read from `body`.
    pub open spec fn payload_wanted(tag: u8, body: Seq<u8>) -> nat {
        if tag == 12 || tag == 13 {
            run_wanted(body)
        } else if tag == 14 {
            if body.len() < 1 {
                1
            } else if TimeUnit::of_index(body[0] as nat) is None {
                0
            } else {
                fixed_wanted((body.len() - 1) as nat, 8)
            }
        } else {
            fixed_wanted(body.len(), Self::payload_width(tag))
        }
    }

    /// How many more bytes a reader has to fetch before a value can be read
    /// from `bytes`: one where there are none, then what the payload still
    /// wants. Nothing where the bytes hold a whole value, or cannot become
    /// one whatever follows.
    pub open spec fn wanted(bytes: Seq<u8>) -> nat {
        if bytes.len() == 0 {
            1
        } else {
            Self::payload_wanted(bytes[0], bytes.skip(1))
        }
    }

    /// What `bytes` start with, read as a value: the value and how many
    /// bytes it took.
    pub open spec fn decoding(bytes: Seq<u8>) -> Result<(ValueView, nat), DecodeError> {
        if bytes.len() == 0 {
            Err(DecodeError::UnexpectedEnd)
        } else {
            match Self::payload_decoding(bytes[0], bytes.skip(1)) {
                Ok((v, n)) => Ok((v, n + 1)),
                Err(e) => Err(e),
            }
        }
    }
}

/// `String::from_utf8`: a string exactly if the bytes are UTF-8, and then
/// the string whose UTF-8 form they are.
#[verifier::external_body]
fn string_from_utf8(bytes: Vec<u8>) -> (r: Option<String>)
    ensures
        r is Some <==> valid_utf8(bytes@),
        r matches Some(text) ==> encode_utf8(text@) == bytes@,
{
    String::from_utf8(bytes).ok()
}

impl Value {
    /// The logical type of the value; a null has none.
    pub fn datatype(&self) -> (r: Option<DataType>)
        ensures
            r == self@.datatype(),
    {
        match self {
            Value::Null => None,
            Value::Boolean(_) => Some(DataType::Boolean),
            Value::Int8(_) => Some(DataType::Int8),
            Value::Int16(_) => Some(DataType::Int16),
            Value::Int32(_) => Some(DataType::Int32),
            Value::Int64(_) => Some(DataType::Int64),
            Value::UInt8(_) => Some(DataType::UInt8),
            Value::UInt16(_) => Some(DataType::UInt16),
            Value::UInt32(_) => Some(DataType::UInt32),
            Value::UInt64(_) => Some(DataType::UInt64),
            Value::Float32(_) => Some(DataType::Float32),
            Value::Float64(_) => Some(DataType::Float64),
            Value::String(_) => Some(DataType::String),
            Value::Binary(_) => Some(DataType::Bytes),
            Value::Timestamp(_, unit) => Some(DataType::Timestamp(*unit)),
        }
    }

    /// A copy of the value.
    pub fn duplicate(&self) -> (r: Value)
        ensures
            r@ == self@,
    {
        match self {
            Value::Null => Value::Null,
            Value::Boolean(v) => Value::Boolean(*v),
            Value::Int8(v) => Value::Int8(*v),
            Value::Int16(v) => Value::Int16(*v),
            Value::Int32(v) => Value::Int32(*v),
            Value::Int64(v) => Value::Int64(*v),
            Value::UInt8(v) => Value::UInt8(*v),
            Value::UInt16(v) => Value::UInt16(*v),
            Value::UInt32(v) => Value::UInt32(*v),
            Value::UInt64(v) => Value::UInt64(*v),
            Value::Float32(v) => Value::Float32(*v),
            Value::Float64(v) => Value::Float64(*v),
            Value::String(v) => Value::String(v.clone()),
            Value::Binary(v) => Value::Binary(slice_to_vec(v.as_slice())),
            Value::Timestamp(v, unit) => Value::Timestamp(*v, *unit),
        }
    }

    fn rank(&self) -> (r: u8)
        ensures
            r == self@.rank(),
    {
        match self {
            Value::Null => 0,
            Value::Boolean(_) => 1,
            Value::Int8(_) => 2,
            Value::Int16(_) => 3,
            Value::Int32(_) => 4,
            Value::Int64(_) => 5,
            Value::UInt8(_) => 6,
            Value::UInt16(_) => 7,
            Value::UInt32(_) => 8,
            Value::UInt64(_) => 9,
            Value::Float32(_) => 10,
            Value::Float64(_) => 11,
            Value::String(_) => 12,
            Value::Binary(_) => 13,
            Value::Timestamp(_, unit) => 14 + unit.code(),
        }
    }

    fn scalar(&self) -> (r: i128)
        ensures
            r == self@.scalar_key(),
    {
        match self {
            Value::Null => 0,
            Value::Boolean(v) => if *v {
                1
            } else {
                0
            },
            Value::Int8(v) => *v as i128,
            Value::Int16(v) => *v as i128,
            Value::Int32(v) => *v as i128,
            Value::Int64(v) => *v as i128,
            Value::UInt8(v) => *v as i128,
            Value::UInt16(v) => *v as i128,
            Value::UInt32(v) => *v as i128,
            Value::UInt64(v) => *v as i128,
            Value::Float32(v) => v.sort_key() as i128,
            Value::Float64(v) => v.sort_key() as i128,
            Value::String(_) => 0,
            Value::Binary(_) => 0,
            Value::Timestamp(v, _) => *v as i128,
        }
    }

    /// How the value stands to `other` in the order of all values.
    pub fn compare(&self, other: &Value) -> (r: Order)
        ensures
            r == self@.order(other@),
    {
        let rank = self.rank();
        let other_rank = other.rank();
        if rank != other_rank {
            return if rank < other_rank {
                Order::Less
            } else {
                Order::Greater
            };
        }
        let scalar = self.scalar();
        let other_scalar = other.scalar();
        if scalar != other_scalar {
            return if scalar < other_scalar {
                Order::Less
            } else {
                Order::Greater
            };
        }
        match (self, other) {
            (Value::String(a), Value::String(b)) => compare_bytes(
                a.as_str().as_bytes(),
                b.as_str().as_bytes(),
            ),
            (Value::Binary(a), Value::Binary(b)) => compare_bytes(a.as_slice(), b.as_slice()),
            _ => Order::Equal,
        }
    }

    /// How the value stands to `other` in the order of all values, in the
    /// standard library's terms.
    pub fn cmp(&self, other: &Value) -> (r: Ordering)
        ensures
            r == self@.order(other@).ordering(),
    {
        self.compare(other).to_ordering()
    }

    /// Appends the bytes of the value to `out`.
    pub fn encode(&self, out: &mut Vec<u8>)
        ensures
            final(out)@ == old(out)@ + self@.encoding(),
    {
        proof {
            lemma_pow256_values();
        }
        match self {
            Value::Null => {
                out.push(0);
            },
            Value::Boolean(v) => {
                out.push(1);
                out.push(if *v {
                    1
                } else {
                    0
                });
            },
            Value::Int8(v) => {
                out.push(2);
                put_le(out, to_unsigned(*v as i64, 1), 1);
            },
            Value::Int16(v) => {
                out.push(3);
                put_le(out, to_unsigned(*v as i64, 2), 2);
            },
            Value::Int32(v) => {
                out.push(4);
                put_le(out, to_unsigned(*v as i64, 4), 4);
            },
            Value::Int64(v) => {
                out.push(5);
                put_le(out, to_unsigned(*v, 8), 8);
            },
            Value::UInt8(v) => {
                out.push(6);
                put_le(out, *v as u64, 1);
            },
            Value::UInt16(v) => {
                out.push(7);
                put_le(out, *v as u64, 2);
            },
            Value::UInt32(v) => {
                out.push(8);
                put_le(out, *v as u64, 4);
            },
            Value::UInt64(v) => {
                out.push(9);
                put_le(out, *v, 8);
            },
            Value::Float32(v) => {
                out.push(10);
                v.encode(out);
            },
            Value::Float64(v) => {
                out.push(11);
                v.encode(out);
            },
            Value::String(v) => {
                out.push(12);
                write_run(out, v.as_str().as_bytes());
            },
            Value::Binary(v) => {
                out.push(13);
                write_run(out, v.as_slice());
            },
            Value::Timestamp(v, unit) => {
                out.push(14);
                out.push(unit.code());
                put_le(out, to_unsigned(*v, 8), 8);
            },
        }
        proof {
            assert(out@ == old(out)@ + self@.encoding());
        }
    }

    /// How many bytes [`encode`](Self::encode) appends.
    pub fn size(&self) -> (n: usize)
        requires
            self@.encoding().len() <= usize::MAX,
        ensures
            n == self@.encoding().len(),
    {
        proof {
            lemma_value_encoding_len(self@);
        }
        match self {
            Value::Null => 1,
            Value::Boolean(_) => 2,
            Value::Int8(_) => 2,
            Value::Int16(_) => 3,
            Value::Int32(_) => 5,
            Value::Int64(_) => 9,
            Value::UInt8(_) => 2,
            Value::UInt16(_) => 3,
            Value::UInt32(_) => 5,
            Value::UInt64(_) => 9,
            Value::Float32(_) => 5,
            Value::Float64(_) => 9,
            Value::String(v) => 9 + v.as_str().as_bytes().len(),
            Value::Binary(v) => 9 + v.len(),
            Value::Timestamp(_, _) => 10,
        }
    }

    /// How many bytes [`encode`](Self::encode) appends, if that many can be
    /// counted on this machine.
    pub fn checked_size(&self) -> (r: Option<usize>)
        ensures
            match r {
                Some(n) => n == self@.encoding().len(),
                None => self@.encoding().len() > usize::MAX,
            },
    {
        proof {
            lemma_value_encoding_len(self@);
        }
        match self {
            Value::String(v) => v.as_str().as_bytes().len().checked_add(9),
            Value::Binary(v) => v.len().checked_add(9),
            _ => Some(self.size()),
        }
    }

    /// Reads a value from the start of `input`; gives the value and how many
    /// bytes it took.
    pub fn decode(input: &[u8]) -> (r: Result<(Value, usize), DecodeError>)
        ensures
            match r {
                Ok((value, taken)) => {
                    &&& ValueView::decoding(input@) == Ok::<_, DecodeError>(
                        (value@, taken as nat),
                    )
                    &&& 1 <= taken <= input@.len()
                },
                Err(e) => ValueView::decoding(input@) == Err::<(ValueView, nat), _>(e),
            },
    {
        if input.len() == 0 {
            return Err(DecodeError::UnexpectedEnd);
        }
        let tag = input[0];
        let body = slice_subrange(input, 1, input.len());
        proof {
            assert(body@ == input@.skip(1));
        }
        match Self::decode_payload(tag, body) {
            Ok((value, taken)) => Ok((value, taken + 1)),
            Err(e) => Err(e),
        }
    }

    fn decode_payload(tag: u8, body: &[u8]) -> (r: Result<(Value, usize), DecodeError>)
        ensures
            match r {
                Ok((value, taken)) => {
                    &&& ValueView::payload_decoding(tag, body@) == Ok::<_, DecodeError>(
                        (value@, taken as nat),
                    )
                    &&& taken <= body@.len()
                },
                Err(e) => ValueView::payload_decoding(tag, body@) == Err::<(ValueView, nat), _>(e),
            },
    {
        if tag == 0 {
            Ok((Value::Null, 0))
        } else if tag == 1 {
            if body.len() < 1 {
                Err(DecodeError::UnexpectedEnd)
            } else if body[0] == 0 {
                Ok((Value::Boolean(false), 1))
            } else if body[0] == 1 {
                Ok((Value::Boolean(true), 1))
            } else {
                Err(DecodeError::InvalidTag)
            }
        } else if tag <= 5 {
            Self::decode_signed(tag, body)
        } else if tag <= 9 {
            Self::decode_unsigned(tag, body)
        } else if tag == 10 {
            match FloatType::<u32>::decode(body) {
                Ok((v, n)) => Ok((Value::Float32(v), n)),
                Err(e) => Err(e),
            }
        } else if tag == 11 {
            match FloatType::<u64>::decode(body) {
                Ok((v, n)) => Ok((Value::Float64(v), n)),
                Err(e) => Err(e),
            }
        } else if tag <= 13 {
            Self::decode_run(tag, body)
        } else if tag == 14 {
            Self::decode_timestamp(body)
        } else {
            Err(DecodeError::InvalidTag)
        }
    }

    fn decode_signed(tag: u8, body: &[u8]) -> (r: Result<(Value, usize), DecodeError>)
        requires
            2 <= tag <= 5,
        ensures
            match r {
                Ok((value, taken)) => {
                    &&& ValueView::payload_decoding(tag, body@) == Ok::<_, DecodeError>(
                        (value@, taken as nat),
                    )
                    &&& taken <= body@.len()
                },
                Err(e) => ValueView::payload_decoding(tag, body@) == Err::<(ValueView, nat), _>(e),
            },
    {
        proof {
            lemma_pow256_values();
        }
        if tag == 2 {
            match read_signed(body, 1) {
                Ok((v, n)) => Ok((Value::Int8(v as i8), n)),
                Err(e) => Err(e),
            }
        } else if tag == 3 {
            match read_signed(body, 2) {
                Ok((v, n)) => Ok((Value::Int16(v as i16), n)),
                Err(e) => Err(e),
            }
        } else if tag == 4 {
            match read_signed(body, 4) {
                Ok((v, n)) => Ok((Value::Int32(v as i32), n)),
                Err(e) => Err(e),
            }
        } else {
            match read_signed(body, 8) {
                Ok((v, n)) => Ok((Value::Int64(v), n)),
                Err(e) => Err(e),
            }
        }
    }

    fn decode_unsigned(tag: u8, body: &[u8]) -> (r: Result<(Value, usize), DecodeError>)
        requires
            6 <= tag <= 9,
        ensures
            match r {
                Ok((value, taken)) => {
                    &&& ValueView::payload_decoding(tag, body@) == Ok::<_, DecodeError>(
                        (value@, taken as nat),
                    )
                    &&& taken <= body@.len()
                },
                Err(e) => ValueView::payload_decoding(tag, body@) == Err::<(ValueView, nat), _>(e),
            },
    {
        proof {
            lemma_pow256_values();
        }
        if tag == 6 {
            match read_unsigned(body, 1) {
                Ok((v, n)) => Ok((Value::UInt8(v as u8), n)),
                Err(e) => Err(e),
            }
        } else if tag == 7 {
            match read_unsigned(body, 2) {
                Ok((v, n)) => Ok((Value::UInt16(v as u16), n)),
                Err(e) => Err(e),
            }
        } else if tag == 8 {
            match read_unsigned(body, 4) {
                Ok((v, n)) => Ok((Value::UInt32(v as u32), n)),
                Err(e) => Err(e),
            }
        } else {
            match read_unsigned(body, 8) {
                Ok((v, n)) => Ok((Value::UInt64(v), n)),
                Err(e) => Err(e),
            }
        }
    }

    fn decode_run(tag: u8, body: &[u8]) -> (r: Result<(Value, usize), DecodeError>)
        requires
            12 <= tag <= 13,
        ensures
            match r {
                Ok((value, taken)) => {
                    &&& ValueView::payload_decoding(tag, body@) == Ok::<_, DecodeError>(
                        (value@, taken as nat),
                    )
                    &&& taken <= body@.len()
                },
                Err(e) => ValueView::payload_decoding(tag, body@) == Err::<(ValueView, nat), _>(e),
            },
    {
        match read_run(body) {
            Ok((run, n)) => {
                if tag == 13 {
                    Ok((Value::Binary(run), n))
                } else {
                    match string_from_utf8(run) {
                        Some(text) => {
                            proof {
                                encode_utf8_decode_utf8(text@);
                            }
                            Ok((Value::String(text), n))
                        },
                        None => Err(DecodeError::InvalidUtf8),
                    }
                }
            },
            Err(e) => Err(e),
        }
    }

    fn decode_timestamp(body: &[u8]) -> (r: Result<(Value, usize), DecodeError>)
        ensures
            match r {
                Ok((value, taken)) => {
                    &&& ValueView::payload_decoding(14, body@) == Ok::<_, DecodeError>(
                        (value@, taken as nat),
                    )
                    &&& taken <= body@.len()
                },
                Err(e) => ValueView::payload_decoding(14, body@) == Err::<(ValueView, nat), _>(e),
            },
    {
        if body.len() < 1 {
            return Err(DecodeError::UnexpectedEnd);
        }
        match TimeUnit::from_code(body[0]) {
            None => Err(DecodeError::InvalidTag),
            Some(unit) => {
                let rest = slice_subrange(body, 1, body.len());
                proof {
                    assert(rest@ == body@.skip(1));
                }
                match read_signed(rest, 8) {
                    Ok((v, n)) => Ok((Value::Timestamp(v, unit), n + 1)),
                    Err(e) => Err(e),
                }
            },
        }
    }

    /// How many more bytes a reader has to fetch before a value can be read
    /// from `input`, see [`ValueView::wanted`].
    pub fn wanted(input: &[u8]) -> (r: u64)
        ensures
            r == ValueView::wanted(input@),
    {
        if input.len() == 0 {
            return 1;
        }
        let tag = input[0];
        let body = slice_subrange(input, 1, input.len());
        proof {
            assert(body@ == input@.skip(1));
        }
        if tag == 12 || tag == 13 {
            want_run(body)
        } else if tag == 14 {
            if body.len() < 1 {
                1
            } else if TimeUnit::from_code(body[0]).is_none() {
                0
            } else if body.len() - 1 < 8 {
                (9 - body.len()) as u64
            } else {
                0
            }
        } else {
            let width: usize = if tag == 1 || tag == 2 || tag == 6 {
                1
            } else if tag == 3 || tag == 7 {
                2
            } else if tag == 4 || tag == 8 || tag == 10 {
                4
            } else if tag == 5 || tag == 9 || tag == 11 {
                8
            } else {
                0
            };
            if body.len() < width {
                (width - body.len()) as u64
            } else {
                0
            }
        }
    }

    /// Feeds the bytes of the value to `state`, in one piece.
    pub fn hash(&self, state: &mut DefaultHasher)
        ensures
            final(state)@ == old(state)@.push(self@.encoding()),
    {
        let mut bytes: Vec<u8> = Vec::new();
        self.encode(&mut bytes);
        state.write(bytes.as_slice());
    }
}

/// How long the encoding of a value is: the tag, then what its kind takes.
pub proof fn lemma_value_encoding_len(v: ValueView)
    ensures
        v.encoding().len() == 1 + v.payload().len(),
        v.payload().len() == match v {
            ValueView::Null => 0,
            ValueView::Boolean(_) => 1,
            ValueView::Int8(_) => 1,
            ValueView::Int16(_) => 2,
            ValueView::Int32(_) => 4,
            ValueView::Int64(_) => 8,
            ValueView::UInt8(_) => 1,
            ValueView::UInt16(_) => 2,
            ValueView::UInt32(_) => 4,
            ValueView::UInt64(_) => 8,
            ValueView::Float32(_) => 4,
            ValueView::Float64(_) => 8,
            ValueView::String(_) => 8 + v.run_key().len(),
            ValueView::Binary(_) => 8 + v.run_key().len(),
            ValueView::Timestamp(_, _) => 9,
        },
{
    match v {
        ValueView::Null => {},
        ValueView::Boolean(_) => {},
        ValueView::Int8(x) => lemma_le_bytes_len(unsigned_of(x as int, 1), 1),
        ValueView::Int16(x) => lemma_le_bytes_len(unsigned_of(x as int, 2), 2),
        ValueView::Int32(x) => lemma_le_bytes_len(unsigned_of(x as int, 4), 4),
        ValueView::Int64(x) => lemma_le_bytes_len(unsigned_of(x as int, 8), 8),
        ValueView::UInt8(x) => lemma_le_bytes_len(x as nat, 1),
        ValueView::UInt16(x) => lemma_le_bytes_len(x as nat, 2),
        ValueView::UInt32(x) => lemma_le_bytes_len(x as nat, 4),
        ValueView::UInt64(x) => lemma_le_bytes_len(x as nat, 8),
        ValueView::Float32(x) => lemma_le_bytes_len(x.0 as nat, 4),
        ValueView::Float64(x) => lemma_le_bytes_len(x.0 as nat, 8),
        ValueView::String(x) => lemma_le_bytes_len(encode_utf8(x).len(), 8),
        ValueView::Binary(x) => lemma_le_bytes_len(x.len(), 8),
        ValueView::Timestamp(x, _) => lemma_le_bytes_len(unsigned_of(x as int, 8), 8),
    }
}

impl PartialEq for Value {
    fn eq(&self, other: &Self) -> (r: bool) {
        proof {
            lemma_value_order_equal(self@, other@);
        }
        self.compare(other) == Order::Equal
    }
}

impl PartialEqSpecImpl for Value {
    open spec fn obeys_eq_spec() -> bool {
        true
    }

    open spec fn eq_spec(&self, other: &Self) -> bool {
        self@ == other@
    }
}

impl Eq for Value {

}

impl PartialOrd for Value {
    fn partial_cmp(&self, other: &Self) -> (r: Option<Ordering>) {
        Some(self.cmp(other))
    }
}

impl PartialOrdSpecImpl for Value {
    open spec fn obeys_partial_cmp_spec() -> bool {
        true
    }

    open spec fn partial_cmp_spec(&self, other: &Self) -> Option<Ordering> {
        Some(self@.order(other@).ordering())
    }
}

/// Decoding what was encoded gives the value back, whatever follows it, and
/// takes as many bytes as the encoding has.
pub proof fn lemma_value_round_trip(v: ValueView, rest: Seq<u8>)
    requires
        v.representable(),
    ensures
        ValueView::decoding(v.encoding() + rest) == Ok::<_, DecodeError>((v, v.encoding().len())),
{
    let bytes = v.encoding() + rest;
    let body = v.payload() + rest;
    assert(bytes[0] == v.tag());
    assert(bytes.skip(1) == body);
    lemma_value_encoding_len(v);
    lemma_pow256_values();
    match v {
        ValueView::Null => {},
        ValueView::Boolean(_) => {},
        ValueView::Int8(x) => lemma_signed_decoding(x as int, 1, rest),
        ValueView::Int16(x) => lemma_signed_decoding(x as int, 2, rest),
        ValueView::Int32(x) => lemma_signed_decoding(x as int, 4, rest),
        ValueView::Int64(x) => lemma_signed_decoding(x as int, 8, rest),
        ValueView::UInt8(x) => lemma_unsigned_decoding(x as nat, 1, rest),
        ValueView::UInt16(x) => lemma_unsigned_decoding(x as nat, 2, rest),
        ValueView::UInt32(x) => lemma_unsigned_decoding(x as nat, 4, rest),
        ValueView::UInt64(x) => lemma_unsigned_decoding(x as nat, 8, rest),
        ValueView::Float32(x) => lemma_float_round_trip(x, rest),
        ValueView::Float64(x) => lemma_float_round_trip(x, rest),
        ValueView::String(x) => {
            lemma_run_decoding(encode_utf8(x), rest);
            encode_utf8_valid_utf8(x);
            encode_utf8_decode_utf8(x);
        },
        ValueView::Binary(x) => lemma_run_decoding(x, rest),
        ValueView::Timestamp(x, unit) => {
            let count = le_bytes(unsigned_of(x as int, 8), 8);
            assert(body.skip(1) == count + rest);
            lemma_signed_decoding(x as int, 8, rest);
        },
    }
}

/// Two values stand equal in the order exactly if they are the same value:
/// equality agrees with the order.
pub proof fn lemma_value_order_equal(a: ValueView, b: ValueView)
    ensures
        a.order(b) == Order::Equal <==> a == b,
{
    lemma_lex_order_equal(a.run_key(), b.run_key());
    match (a, b) {
        (ValueView::Float32(x), ValueView::Float32(y)) => lemma_float_equal_iff_same_place(x, y),
        (ValueView::Float64(x), ValueView::Float64(y)) => lemma_float_equal_iff_same_place(x, y),
        (ValueView::String(x), ValueView::String(y)) => {
            encode_utf8_decode_utf8(x);
            encode_utf8_decode_utf8(y);
        },
        _ => {},
    }
}

/// Seen from the other side, the order of two values is reversed.
pub proof fn lemma_value_order_reversed(a: ValueView, b: ValueView)
    ensures
        b.order(a) == a.order(b).reversed(),
{
    lemma_lex_order_reversed(a.run_key(), b.run_key());
}

/// What comes before a value comes before all that the value comes before.
pub proof fn lemma_value_order_transitive(a: ValueView, b: ValueView, c: ValueView)
    requires
        a.order(b) == Order::Less,
        b.order(c) == Order::Less,
    ensures
        a.order(c) == Order::Less,
{
    if a.rank() == b.rank() && b.rank() == c.rank() && a.scalar_key() == b.scalar_key()
        && b.scalar_key() == c.scalar_key() {
        lemma_lex_order_transitive(a.run_key(), b.run_key(), c.run_key());
    }
}

/// Equal values have the same bytes, which is what a hasher is fed, and
/// among the values that can be encoded only equal values do.
pub proof fn lemma_value_hash_agrees(a: ValueView, b: ValueView)
    requires
        a.representable(),
        b.representable(),
    ensures
        a == b <==> a.encoding() == b.encoding(),
{
    lemma_value_round_trip(a, Seq::empty());
    lemma_value_round_trip(b, Seq::empty());
}

/// A value is read from its own bytes alone. Bytes that hold a whole value,
/// or that cannot become one, are read the same whatever follows them, and
/// want nothing more; bytes that are cut short want more, and stay cut short
/// until as many as they want have come.
pub proof fn lemma_value_decoding_extends(bytes: Seq<u8>, more: Seq<u8>)
    ensures
        ValueView::wanted(bytes) == 0 <==> ValueView::decoding(bytes) != Err::<(ValueView, nat), _>(
            DecodeError::UnexpectedEnd,
        ),
        ValueView::wanted(bytes) == 0 ==> ValueView::decoding(bytes + more) == ValueView::decoding(
            bytes,
        ),
        more.len() < ValueView::wanted(bytes) ==> ValueView::decoding(bytes + more) == Err::<
            (ValueView, nat),
            _,
        >(DecodeError::UnexpectedEnd),
{
    if bytes.len() > 0 {
        let tag = bytes[0];
        let body = bytes.skip(1);
        assert((bytes + more)[0] == tag);
        assert((bytes + more).skip(1) == body + more);
        lemma_unsigned_decoding_extends(body, 1, more);
        lemma_unsigned_decoding_extends(body, 2, more);
        lemma_unsigned_decoding_extends(body, 4, more);
        lemma_unsigned_decoding_extends(body, 8, more);
        lemma_run_decoding_extends(body, more);
        if tag == 1 && body.len() >= 1 {
            assert((body + more)[0] == body[0]);
        }
        if tag == 10 && body.len() >= 4 {
            assert((body + more).take(4) == body.take(4));
        }
        if tag == 11 && body.len() >= 8 {
            assert((body + more).take(8) == body.take(8));
        }
        if tag == 14 && body.len() >= 1 {
            assert((body + more)[0] == body[0]);
            assert((body + more).skip(1) == body.skip(1) + more);
            lemma_unsigned_decoding_extends(body.skip(1), 8, more);
        }
    } else if more.len() == 0 {
        assert(bytes + more == bytes);
    }
}

/// A value that is read from bytes takes at least one of them, its tag, and
/// no more than there are.
pub proof fn lemma_value_decoding_taken(bytes: Seq<u8>)
    ensures
        ValueView::decoding(bytes) matches Ok((_, n)) ==> 1 <= n <= bytes.len(),
{
}

} // verus!
