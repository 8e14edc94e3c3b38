//! Numeric keys: floating-point numbers under a total order, and timestamps
//! tagged with their resolution.

use std::cmp::Ordering;
use std::collections::hash_map::DefaultHasher;
use std::hash::Hasher;
use vstd::prelude::*;
use vstd::std_specs::cmp::PartialOrdSpecImpl;
use vstd::std_specs::convert::FromSpecImpl;

use crate::record::key::order::{order_of, Order};
use crate::serdes::{
    get_le, le_bytes, le_value, lemma_le_bytes_len, lemma_le_value_bound,
    lemma_le_value_of_bytes, lemma_pow256_values, lemma_signed_round_trip, pow256, put_le,
    signed_of, to_signed, to_unsigned, unsigned_of, DecodeError,
};

verus! {

/// A floating-point key, held by its IEEE-754 bit pattern: `T` is `u32` for
/// single and `u64` for double precision. Two keys are equal where their bit
/// patterns are, so a NaN equals itself and the two zeros differ; keys are
/// ordered by the IEEE-754 total order, see [`FloatType::order_key`].
#[derive(Debug, Default, Clone, Copy, PartialEq, Eq, Hash, Structural)]
pub struct FloatType<T>(pub T);

/// A single-precision key.
pub type F32 = FloatType<u32>;

/// A double-precision key.
pub type F64 = FloatType<u64>;

/// The resolution of a timestamp.
#[derive(Debug, Clone, Copy, PartialEq, Eq, PartialOrd, Ord, Hash, Structural)]
pub enum TimeUnit {
    Second,
    Millisecond,
    Microsecond,
    Nanosecond,
}

impl TimeUnit {
    /// The number that stands for the unit in bytes and in the order of
    /// units: 0 for seconds up to 3 for nanoseconds.
    pub open spec fn index(self) -> nat {
        match self {
            TimeUnit::Second => 0,
            TimeUnit::Millisecond => 1,
            TimeUnit::Microsecond => 2,
            TimeUnit::Nanosecond => 3,
        }
    }

    /// The unit that `code` stands for, if it stands for one.
    pub open spec fn of_index(code: nat) -> Option<TimeUnit> {
        if code == 0 {
            Some(TimeUnit::Second)
        } else if code == 1 {
            Some(TimeUnit::Millisecond)
        } else if code == 2 {
            Some(TimeUnit::Microsecond)
        } else if code == 3 {
            Some(TimeUnit::Nanosecond)
        } else {
            None
        }
    }

    /// The number that stands for the unit.
    pub fn code(&self) -> (r: u8)
        ensures
            r == self.index(),
    {
        match self {
            TimeUnit::Second => 0,
            TimeUnit::Millisecond => 1,
            TimeUnit::Microsecond => 2,
            TimeUnit::Nanosecond => 3,
        }
    }

    /// The unit that `code` stands for, if it stands for one.
    pub fn from_code(code: u8) -> (r: Option<TimeUnit>)
        ensures
            r == Self::of_index(code as nat),
    {
        if code == 0 {
            Some(TimeUnit::Second)
        } else if code == 1 {
            Some(TimeUnit::Millisecond)
        } else if code == 2 {
            Some(TimeUnit::Microsecond)
        } else if code == 3 {
            Some(TimeUnit::Nanosecond)
        } else {
            None
        }
    }
}

/// A count of time units since the Unix epoch. The unit is part of the type:
/// `UNIT` is 0 for seconds, 1 for milliseconds, 2 for microseconds and 3 for
/// nanoseconds, so two timestamps of different resolutions are different key
/// types even where they hold the same count.
#[derive(Debug, Default, Clone, Copy, PartialEq, Eq, PartialOrd, Ord, Hash)]
pub struct TimestampType<const UNIT: u8>(pub i64);

/// Seconds since the Unix epoch.
pub type TimestampSecond = TimestampType<0>;

/// Milliseconds since the Unix epoch.
pub type TimestampMillisecond = TimestampType<1>;

/// Microseconds since the Unix epoch.
pub type TimestampMicrosecond = TimestampType<2>;

/// Nanoseconds since the Unix epoch.
pub type TimestampNanosecond = TimestampType<3>;

/// An unsigned integer wide enough for the bit pattern of a floating-point
/// number: `u32` for single, `u64` for double precision.
pub trait Bits: Copy + Sized {
    /// How many bytes a pattern takes.
    spec fn width() -> nat;

    /// The pattern as a number.
    spec fn raw(&self) -> nat;

    /// The pattern that is the number `raw`.
    spec fn of_raw(raw: nat) -> Self;

    /// A pattern takes four or eight bytes, and the patterns are the numbers
    /// that fit in them, one for one.
    proof fn lemma_bits(&self, raw: nat)
        ensures
            Self::width() == 4 || Self::width() == 8,
            self.raw() < pow256(Self::width()),
            Self::of_raw(self.raw()) == *self,
            raw < pow256(Self::width()) ==> Self::of_raw(raw).raw() == raw,
    ;

    /// How many bytes a pattern takes.
    fn byte_width() -> (w: usize)
        ensures
            w == Self::width(),
    ;

    /// The pattern as a number.
    fn widen(&self) -> (r: u64)
        ensures
            r == self.raw(),
    ;

    /// The pattern that is the number `raw`.
    fn narrow(raw: u64) -> (r: Self)
        requires
            raw < pow256(Self::width()),
        ensures
            r == Self::of_raw(raw as nat),
    ;
}

impl Bits for u32 {
    open spec fn width() -> nat {
        4
    }

    open spec fn raw(&self) -> nat {
        *self as nat
    }

    open spec fn of_raw(raw: nat) -> Self {
        raw as u32
    }

    proof fn lemma_bits(&self, raw: nat) {
        lemma_pow256_values();
    }

    fn byte_width() -> (w: usize) {
        4
    }

    fn widen(&self) -> (r: u64) {
        *self as u64
    }

    fn narrow(raw: u64) -> (r: Self) {
        proof {
            lemma_pow256_values();
        }
        raw as u32
    }
}

impl Bits for u64 {
    open spec fn width() -> nat {
        8
    }

    open spec fn raw(&self) -> nat {
        *self as nat
    }

    open spec fn of_raw(raw: nat) -> Self {
        raw as u64
    }

    proof fn lemma_bits(&self, raw: nat) {
        lemma_pow256_values();
    }

    fn byte_width() -> (w: usize) {
        8
    }

    fn widen(&self) -> (r: u64) {
        *self
    }

    fn narrow(raw: u64) -> (r: Self) {
        raw
    }
}

/// The least pattern of `width` bytes that has the sign bit set.
pub open spec fn sign_bit(width: nat) -> nat {
    pow256(width) / 2
}

/// The magnitude of the positive infinity of `width` bytes: the exponent all
/// ones, the fraction zero.
pub open spec fn infinity(width: nat) -> nat {
    if width == 4 {
        0x7f80_0000
    } else {
        0x7ff0_0000_0000_0000
    }
}

impl<T: Bits> FloatType<T> {
    /// The sign bit is set.
    pub open spec fn is_negative(&self) -> bool {
        self.0.raw() >= sign_bit(T::width())
    }

    /// The pattern without its sign bit: exponent and fraction.
    pub open spec fn magnitude(&self) -> int {
        if self.is_negative() {
            self.0.raw() - sign_bit(T::width())
        } else {
            self.0.raw() as int
        }
    }

    /// The pattern is a NaN: the exponent is all ones and the fraction is
    /// not zero.
    pub open spec fn is_nan(&self) -> bool {
        self.magnitude() > infinity(T::width())
    }

    /// The pattern is an infinity: the exponent is all ones and the fraction
    /// is zero.
    pub open spec fn is_infinite(&self) -> bool {
        self.magnitude() == infinity(T::width())
    }

    /// The place of the key in the total order: keys are ordered as these
    /// numbers are. A pattern without the sign bit stands at its magnitude;
    /// one with the sign bit stands below zero, the further the greater its
    /// magnitude. So negative zero comes just before positive zero, the
    /// infinities enclose the finite numbers, and the NaNs lie beyond the
    /// infinity of their sign.
    pub open spec fn order_key(&self) -> int {
        if self.is_negative() {
            -self.magnitude() - 1
        } else {
            self.magnitude()
        }
    }

    /// The bytes of the key: its bit pattern, the least significant byte
    /// first.
    pub open spec fn encoding(&self) -> Seq<u8> {
        le_bytes(self.0.raw(), T::width())
    }

    /// What `bytes` start with, read as a key: the key and how many bytes it
    /// took.
    pub open spec fn decoding(bytes: Seq<u8>) -> Result<(Self, nat), DecodeError> {
        if bytes.len() < T::width() {
            Err(DecodeError::UnexpectedEnd)
        } else {
            Ok((FloatType(T::of_raw(le_value(bytes.take(T::width() as int)))), T::width()))
        }
    }

    /// The key with the bit pattern `bits`.
    pub fn from_bits(bits: T) -> (r: Self)
        ensures
            r.0 == bits,
    {
        FloatType(bits)
    }

    /// The bit pattern of the key.
    pub fn to_bits(&self) -> (r: T)
        ensures
            r == self.0,
    {
        self.0
    }

    /// The place of the key in the total order, see
    /// [`order_key`](Self::order_key).
    pub fn sort_key(&self) -> (k: i64)
        ensures
            k == self.order_key(),
    {
        proof {
            self.0.lemma_bits(0);
            lemma_pow256_values();
        }
        let raw = self.0.widen();
        let sign: u64 = if T::byte_width() == 4 {
            0x8000_0000
        } else {
            0x8000_0000_0000_0000
        };
        if raw >= sign {
            -((raw - sign) as i64) - 1
        } else {
            raw as i64
        }
    }

    /// How this key stands to `other` in the total order.
    pub fn compare(&self, other: &Self) -> (r: Order)
        ensures
            r == order_of(self.order_key(), other.order_key()),
    {
        let a = self.sort_key();
        let b = other.sort_key();
        if a < b {
            Order::Less
        } else if a == b {
            Order::Equal
        } else {
            Order::Greater
        }
    }

    /// How this key stands to `other` in the total order, in the standard
    /// library's terms.
    pub fn cmp(&self, other: &Self) -> (r: Ordering)
        ensures
            r == order_of(self.order_key(), other.order_key()).ordering(),
    {
        self.compare(other).to_ordering()
    }

    /// The key in the form in which it is looked up: a number is its own
    /// reference.
    pub fn as_key_ref(&self) -> (r: Self)
        ensures
            r == *self,
    {
        *self
    }

    /// The key that a reference stands for.
    pub fn to_key(self) -> (r: Self)
        ensures
            r == self,
    {
        self
    }

    /// Feeds the bytes of the key to `state`, in one piece.
    pub fn hash(&self, state: &mut DefaultHasher)
        ensures
            final(state)@ == old(state)@.push(self.encoding()),
    {
        let mut bytes: Vec<u8> = Vec::new();
        self.encode(&mut bytes);
        state.write(bytes.as_slice());
    }

    /// Appends the bytes of the key to `out`.
    pub fn encode(&self, out: &mut Vec<u8>)
        ensures
            final(out)@ == old(out)@ + self.encoding(),
    {
        put_le(out, self.0.widen(), T::byte_width());
    }

    /// How many bytes [`encode`](Self::encode) appends.
    pub fn size(&self) -> (n: usize)
        ensures
            n == self.encoding().len(),
            n == T::width(),
    {
        proof {
            lemma_le_bytes_len(self.0.raw(), T::width());
        }
        T::byte_width()
    }

    /// Reads a key from the start of `input`; gives the key and how many
    /// bytes it took.
    pub fn decode(input: &[u8]) -> (r: Result<(Self, usize), DecodeError>)
        ensures
            match r {
                Ok((key, taken)) => Self::decoding(input@) == Ok::<_, DecodeError>(
                    (key, taken as nat),
                ),
                Err(e) => Self::decoding(input@) == Err::<(Self, nat), _>(e),
            },
    {
        let width = T::byte_width();
        if input.len() < width {
            return Err(DecodeError::UnexpectedEnd);
        }
        proof {
            T::of_raw(0).lemma_bits(0);
        }
        let raw = get_le(input, 0, width);
        proof {
            assert(input@.subrange(0, width as int) == input@.take(width as int));
            lemma_le_value_bound(input@.take(width as int));
        }
        Ok((FloatType(T::narrow(raw)), width))
    }
}

impl<T: Bits + PartialEq> PartialOrd for FloatType<T> {
    fn partial_cmp(&self, other: &Self) -> (r: Option<Ordering>) {
        Some(self.cmp(other))
    }
}

impl<T: Bits + PartialEq> PartialOrdSpecImpl for FloatType<T> {
    open spec fn obeys_partial_cmp_spec() -> bool {
        true
    }

    open spec fn partial_cmp_spec(&self, other: &Self) -> Option<Ordering> {
        Some(order_of(self.order_key(), other.order_key()).ordering())
    }
}

impl<T: Bits> From<T> for FloatType<T> {
    fn from(bits: T) -> (r: Self) {
        FloatType(bits)
    }
}

impl<T: Bits> FromSpecImpl<T> for FloatType<T> {
    open spec fn obeys_from_spec() -> bool {
        true
    }

    open spec fn from_spec(bits: T) -> Self {
        FloatType(bits)
    }
}

impl<const UNIT: u8> TimestampType<UNIT> {
    /// The resolution that `UNIT` stands for, if it stands for one.
    pub open spec fn unit_of() -> Option<TimeUnit> {
        TimeUnit::of_index(UNIT as nat)
    }

    /// The place of the timestamp in the order of its type: its count.
    pub open spec fn order_key(&self) -> int {
        self.0 as int
    }

    /// The bytes of the timestamp: the count in two's complement on eight
    /// bytes, the least significant first, whatever the unit.
    pub open spec fn encoding(&self) -> Seq<u8> {
        le_bytes(unsigned_of(self.0 as int, 8), 8)
    }

    /// What `bytes` start with, read as a timestamp: the timestamp and how
    /// many bytes it took.
    pub open spec fn decoding(bytes: Seq<u8>) -> Result<(Self, nat), DecodeError> {
        if bytes.len() < 8 {
            Err(DecodeError::UnexpectedEnd)
        } else {
            Ok((TimestampType(signed_of(le_value(bytes.take(8)), 8) as i64), 8))
        }
    }

    /// A timestamp of `value` units since the epoch.
    pub fn new(value: i64) -> (r: Self)
        ensures
            r.0 == value,
    {
        Self(value)
    }

    /// The count of units since the epoch.
    pub fn value(&self) -> (r: i64)
        ensures
            r == self.0,
    {
        self.0
    }

    /// The resolution of the timestamp, if `UNIT` stands for one.
    pub fn unit(&self) -> (r: Option<TimeUnit>)
        ensures
            r == Self::unit_of(),
    {
        TimeUnit::from_code(UNIT)
    }

    /// How this timestamp stands to `other`: as the counts do.
    pub fn compare(&self, other: &Self) -> (r: Order)
        ensures
            r == order_of(self.order_key(), other.order_key()),
    {
        if self.0 < other.0 {
            Order::Less
        } else if self.0 == other.0 {
            Order::Equal
        } else {
            Order::Greater
        }
    }

    /// The timestamp in the form in which it is looked up: a number is its
    /// own reference.
    pub fn as_key_ref(&self) -> (r: Self)
        ensures
            r == *self,
    {
        *self
    }

    /// The timestamp that a reference stands for.
    pub fn to_key(self) -> (r: Self)
        ensures
            r == self,
    {
        self
    }

    /// Feeds the bytes of the timestamp to `state`, in one piece.
    pub fn hash(&self, state: &mut DefaultHasher)
        ensures
            final(state)@ == old(state)@.push(self.encoding()),
    {
        let mut bytes: Vec<u8> = Vec::new();
        self.encode(&mut bytes);
        state.write(bytes.as_slice());
    }

    /// Appends the bytes of the timestamp to `out`.
    pub fn encode(&self, out: &mut Vec<u8>)
        ensures
            final(out)@ == old(out)@ + self.encoding(),
    {
        proof {
            lemma_pow256_values();
        }
        put_le(out, to_unsigned(self.0, 8), 8);
    }

    /// How many bytes [`encode`](Self::encode) appends.
    pub fn size(&self) -> (n: usize)
        ensures
            n == self.encoding().len(),
            n == 8,
    {
        proof {
            lemma_le_bytes_len(unsigned_of(self.0 as int, 8), 8);
        }
        8
    }

    /// Reads a timestamp from the start of `input`; gives the timestamp and
    /// how many bytes it took.
    pub fn decode(input: &[u8]) -> (r: Result<(Self, usize), DecodeError>)
        ensures
            match r {
                Ok((key, taken)) => Self::decoding(input@) == Ok::<_, DecodeError>(
                    (key, taken as nat),
                ),
                Err(e) => Self::decoding(input@) == Err::<(Self, nat), _>(e),
            },
    {
        if input.len() < 8 {
            return Err(DecodeError::UnexpectedEnd);
        }
        let raw = get_le(input, 0, 8);
        proof {
            assert(input@.subrange(0, 8) == input@.take(8));
            lemma_le_value_bound(input@.take(8));
            lemma_pow256_values();
        }
        Ok((TimestampType(to_signed(raw, 8)), 8))
    }
}

impl<T: Bits> std::ops::Deref for FloatType<T> {
    type Target = T;

    /// The bit pattern of the key.
    fn deref(&self) -> (r: &T)
        ensures
            *r == self.0,
    {
        &self.0
    }
}

impl<const UNIT: u8> From<i64> for TimestampType<UNIT> {
    fn from(value: i64) -> (r: Self) {
        TimestampType(value)
    }
}

impl<const UNIT: u8> FromSpecImpl<i64> for TimestampType<UNIT> {
    open spec fn obeys_from_spec() -> bool {
        true
    }

    open spec fn from_spec(value: i64) -> Self {
        TimestampType(value)
    }
}

impl<const UNIT: u8> From<TimestampType<UNIT>> for i64 {
    fn from(value: TimestampType<UNIT>) -> (r: Self) {
        value.0
    }
}

impl<const UNIT: u8> FromSpecImpl<TimestampType<UNIT>> for i64 {
    open spec fn obeys_from_spec() -> bool {
        true
    }

    open spec fn from_spec(value: TimestampType<UNIT>) -> Self {
        value.0
    }
}

impl<const UNIT: u8> std::ops::Deref for TimestampType<UNIT> {
    type Target = i64;

    /// The count of units since the epoch.
    fn deref(&self) -> (r: &i64)
        ensures
            *r == self.0,
    {
        &self.0
    }
}

/// Decoding what was encoded gives the key back, whatever follows it, and
/// takes as many bytes as the key's size says.
pub proof fn lemma_float_round_trip<T: Bits>(key: FloatType<T>, rest: Seq<u8>)
    ensures
        key.encoding().len() == T::width(),
        FloatType::<T>::decoding(key.encoding() + rest) == Ok::<_, DecodeError>(
            (key, key.encoding().len()),
        ),
{
    let bytes = key.encoding();
    key.0.lemma_bits(0);
    lemma_le_bytes_len(key.0.raw(), T::width());
    lemma_le_value_of_bytes(key.0.raw(), T::width());
    assert((bytes + rest).take(T::width() as int) == bytes);
}

/// Two keys stand at the same place in the order exactly if they are equal:
/// equality agrees with the order.
pub proof fn lemma_float_equal_iff_same_place<T: Bits>(a: FloatType<T>, b: FloatType<T>)
    ensures
        a.order_key() == b.order_key() <==> a == b,
        order_of(a.order_key(), b.order_key()) == Order::Equal <==> a == b,
{
    a.0.lemma_bits(0);
    b.0.lemma_bits(0);
}

/// The order of keys is total and strict: of two keys one comes first unless
/// they are equal, seen from either side, and what comes before a key comes
/// before all that follows it.
pub proof fn lemma_float_order_total<T: Bits>(a: FloatType<T>, b: FloatType<T>, c: FloatType<T>)
    ensures
        order_of(b.order_key(), a.order_key()) == order_of(a.order_key(), b.order_key()).reversed(),
        order_of(a.order_key(), a.order_key()) == Order::Equal,
        order_of(a.order_key(), b.order_key()) == Order::Less && order_of(
            b.order_key(),
            c.order_key(),
        ) == Order::Less ==> order_of(a.order_key(), c.order_key()) == Order::Less,
{
}

/// Negative zero comes before positive zero, and nothing lies between them.
pub proof fn lemma_float_zeros<T: Bits>(positive: FloatType<T>, negative: FloatType<T>)
    requires
        positive.0.raw() == 0,
        negative.0.raw() == sign_bit(T::width()),
    ensures
        positive != negative,
        negative.order_key() == -1,
        positive.order_key() == 0,
{
    positive.0.lemma_bits(0);
    lemma_pow256_values();
}

/// A NaN lies beyond everything that is none: above it with the sign bit
/// clear, the positive infinity included, and below it with the sign bit set,
/// the negative infinity included.
pub proof fn lemma_float_nan_outermost<T: Bits>(nan: FloatType<T>, other: FloatType<T>)
    requires
        nan.is_nan(),
        !other.is_nan(),
    ensures
        !nan.is_negative() ==> other.order_key() < nan.order_key(),
        nan.is_negative() ==> nan.order_key() < other.order_key(),
{
}

/// The infinities enclose every key that is no NaN.
pub proof fn lemma_float_infinities_enclose<T: Bits>(
    infinite: FloatType<T>,
    other: FloatType<T>,
)
    requires
        infinite.is_infinite(),
        !other.is_nan(),
    ensures
        !infinite.is_negative() ==> other.order_key() <= infinite.order_key(),
        infinite.is_negative() ==> infinite.order_key() <= other.order_key(),
{
}

/// Equal keys feed a hasher the same bytes, and only equal keys do.
pub proof fn lemma_float_hash_agrees<T: Bits>(a: FloatType<T>, b: FloatType<T>)
    ensures
        a == b <==> a.encoding() == b.encoding(),
{
    a.0.lemma_bits(0);
    b.0.lemma_bits(0);
    lemma_le_value_of_bytes(a.0.raw(), T::width());
    lemma_le_value_of_bytes(b.0.raw(), T::width());
}

/// Decoding what was encoded gives the timestamp back, whatever follows it,
/// and takes as many bytes as the timestamp's size says.
pub proof fn lemma_timestamp_round_trip<const UNIT: u8>(key: TimestampType<UNIT>, rest: Seq<u8>)
    ensures
        key.encoding().len() == 8,
        TimestampType::<UNIT>::decoding(key.encoding() + rest) == Ok::<_, DecodeError>(
            (key, key.encoding().len()),
        ),
{
    let bytes = key.encoding();
    lemma_pow256_values();
    lemma_signed_round_trip(key.0 as int, 8);
    lemma_le_bytes_len(unsigned_of(key.0 as int, 8), 8);
    lemma_le_value_of_bytes(unsigned_of(key.0 as int, 8), 8);
    assert((bytes + rest).take(8) == bytes);
}

/// Timestamps of one unit are equal exactly if they stand at the same place
/// in the order, and exactly if they have the same bytes, which is what a
/// hasher is fed.
pub proof fn lemma_timestamp_equal_iff_same_place<const UNIT: u8>(
    a: TimestampType<UNIT>,
    b: TimestampType<UNIT>,
)
    ensures
        order_of(a.order_key(), b.order_key()) == Order::Equal <==> a == b,
        a == b <==> a.encoding() == b.encoding(),
{
    lemma_timestamp_round_trip(a, Seq::empty());
    lemma_timestamp_round_trip(b, Seq::empty());
}

} // verus!
