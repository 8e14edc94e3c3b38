//! Sequences of values, as a row or a composite key holds them, and their
//! bytes.

use vstd::prelude::*;
use vstd::slice::slice_subrange;

use crate::record::runtime::value::{
    lemma_value_decoding_extends, lemma_value_decoding_taken, lemma_value_round_trip, Value,
    ValueView,
};
use crate::serdes::{
    get_le, le_bytes, le_value, lemma_le_bytes_len, lemma_unsigned_decoding, pow256, put_le,
    read_unsigned, unsigned_decoding, DecodeError,
};

verus! {

/// What `values` hold, one view for each value.
pub open spec fn views(values: Seq<Value>) -> Seq<ValueView> {
    values.map_values(|v: Value| v@)
}

/// The encodings of `values`, one after the other.
pub open spec fn items_encoding(values: Seq<ValueView>) -> Seq<u8>
    decreases values.len(),
{
    if values.len() == 0 {
        Seq::empty()
    } else {
        values[0].encoding() + items_encoding(values.drop_first())
    }
}

/// The bytes of a sequence of values: how many there are, on eight bytes,
/// then their encodings one after the other.
pub open spec fn values_encoding(values: Seq<ValueView>) -> Seq<u8> {
    le_bytes(values.len(), 8) + items_encoding(values)
}

/// What `bytes` start with, read as `count` values one after the other: the
/// values and how many bytes they took.
pub open spec fn items_decoding(bytes: Seq<u8>, count: nat) -> Result<
    (Seq<ValueView>, nat),
    DecodeError,
>
    decreases count,
{
    if count == 0 {
        Ok((Seq::empty(), 0))
    } else {
        match ValueView::decoding(bytes) {
            Err(e) => Err(e),
            Ok((first, n)) => match items_decoding(bytes.skip(n as int), (count - 1) as nat) {
                Err(e) => Err(e),
                Ok((rest, m)) => Ok((seq![first] + rest, n + m)),
            },
        }
    }
}

/// What `bytes` start with, read as a sequence of values: the values and how
/// many bytes they took, the count in front included.
pub open spec fn values_decoding(bytes: Seq<u8>) -> Result<(Seq<ValueView>, nat), DecodeError> {
    match unsigned_decoding(bytes, 8) {
        Err(e) => Err(e),
        Ok((count, n)) => match items_decoding(bytes.skip(8), count) {
            Err(e) => Err(e),
            Ok((values, m)) => Ok((values, 8 + m)),
        },
    }
}

/// Every one of `values` can be encoded, and so can their number.
pub open spec fn all_representable(values: Seq<ValueView>) -> bool {
    &&& values.len() < pow256(8)
    &&& forall|i: int| 0 <= i < values.len() ==> (#[trigger] values[i]).representable()
}

/// The encodings of two sequences, one after the other, are the encodings
/// of the two joined.
pub proof fn lemma_items_encoding_concat(a: Seq<ValueView>, b: Seq<ValueView>)
    ensures
        items_encoding(a + b) == items_encoding(a) + items_encoding(b),
    decreases a.len(),
{
    if a.len() == 0 {
        assert(a + b == b);
    } else {
        lemma_items_encoding_concat(a.drop_first(), b);
        assert((a + b).drop_first() == a.drop_first() + b);
        assert((a + b)[0] == a[0]);
    }
}

/// With one more value, the encodings grow by the encoding of that value.
pub proof fn lemma_items_encoding_push(values: Seq<ValueView>, next: ValueView)
    ensures
        items_encoding(values.push(next)) == items_encoding(values) + next.encoding(),
{
    lemma_items_encoding_concat(values, seq![next]);
    assert(values.push(next) == values + seq![next]);
    assert(seq![next].drop_first() == Seq::<ValueView>::empty());
    assert(items_encoding(Seq::<ValueView>::empty()) == Seq::<u8>::empty());
    assert(items_encoding(seq![next]) == next.encoding() + Seq::<u8>::empty());
}

/// The first values of a sequence take no more bytes than all of them.
pub proof fn lemma_items_encoding_prefix(values: Seq<ValueView>, n: int)
    requires
        0 <= n <= values.len(),
    ensures
        items_encoding(values.take(n)).len() <= items_encoding(values).len(),
{
    lemma_items_encoding_concat(values.take(n), values.skip(n));
    assert(values.take(n) + values.skip(n) == values);
}

/// Values that were encoded one after the other are read back, whatever
/// follows them.
pub proof fn lemma_items_round_trip(values: Seq<ValueView>, rest: Seq<u8>)
    requires
        forall|i: int| 0 <= i < values.len() ==> (#[trigger] values[i]).representable(),
    ensures
        items_decoding(items_encoding(values) + rest, values.len()) == Ok::<_, DecodeError>(
            (values, items_encoding(values).len()),
        ),
    decreases values.len(),
{
    if values.len() == 0 {
        assert(values == Seq::<ValueView>::empty());
    } else {
        let first = values[0];
        let tail = values.drop_first();
        let bytes = items_encoding(values) + rest;
        let after = items_encoding(tail) + rest;
        assert(bytes == first.encoding() + after);
        lemma_value_round_trip(first, after);
        assert(bytes.skip(first.encoding().len() as int) == after);
        assert forall|i: int| 0 <= i < tail.len() implies (#[trigger] tail[i]).representable() by {
            assert(tail[i] == values[i + 1]);
        }
        lemma_items_round_trip(tail, rest);
        assert(seq![first] + tail == values);
        assert(tail.len() == (values.len() - 1) as nat);
    }
}

/// Decoding what was encoded gives the sequence of values back, whatever
/// follows it, and takes as many bytes as the encoding has.
pub proof fn lemma_values_round_trip(values: Seq<ValueView>, rest: Seq<u8>)
    requires
        all_representable(values),
    ensures
        values_decoding(values_encoding(values) + rest) == Ok::<_, DecodeError>(
            (values, values_encoding(values).len()),
        ),
{
    let items = items_encoding(values);
    let bytes = values_encoding(values) + rest;
    lemma_le_bytes_len(values.len(), 8);
    assert(bytes == le_bytes(values.len(), 8) + (items + rest));
    lemma_unsigned_decoding(values.len(), 8, items + rest);
    assert(bytes.skip(8) == items + rest);
    lemma_items_round_trip(values, rest);
}

/// Appends the bytes of `values` to `out`: their number, then each of them.
pub fn encode_values(values: &Vec<Value>, out: &mut Vec<u8>)
    ensures
        final(out)@ == old(out)@ + values_encoding(views(values@)),
{
    put_le(out, values.len() as u64, 8);
    let ghost all = views(values@);
    let mut i: usize = 0;
    while i < values.len()
        invariant
            i <= values.len(),
            all == views(values@),
            out@ == old(out)@ + le_bytes(all.len(), 8) + items_encoding(all.take(i as int)),
        decreases values.len() - i,
    {
        values[i].encode(out);
        proof {
            lemma_items_encoding_push(all.take(i as int), all[i as int]);
            assert(all.take(i + 1) == all.take(i as int).push(all[i as int]));
        }
        i += 1;
    }
    proof {
        assert(all.take(i as int) == all);
        assert(old(out)@ + le_bytes(all.len(), 8) + items_encoding(all) == old(out)@
            + values_encoding(all));
    }
}

/// How many bytes [`encode_values`] appends.
pub fn values_size(values: &Vec<Value>) -> (n: usize)
    requires
        values_encoding(views(values@)).len() <= usize::MAX,
    ensures
        n == values_encoding(views(values@)).len(),
{
    let ghost all = views(values@);
    proof {
        lemma_le_bytes_len(all.len(), 8);
    }
    let mut n: usize = 8;
    let mut i: usize = 0;
    while i < values.len()
        invariant
            i <= values.len(),
            all == views(values@),
            8 + items_encoding(all).len() <= usize::MAX,
            n == 8 + items_encoding(all.take(i as int)).len(),
        decreases values.len() - i,
    {
        proof {
            lemma_items_encoding_push(all.take(i as int), all[i as int]);
            assert(all.take(i + 1) == all.take(i as int).push(all[i as int]));
            lemma_items_encoding_prefix(all, i + 1);
        }
        n = n + values[i].size();
        i += 1;
    }
    proof {
        assert(all.take(i as int) == all);
    }
    n
}

/// How many bytes [`encode_values`] appends, if that many can be counted on
/// this machine.
pub fn checked_values_size(values: &Vec<Value>) -> (r: Option<usize>)
    ensures
        match r {
            Some(n) => n == values_encoding(views(values@)).len(),
            None => values_encoding(views(values@)).len() > usize::MAX,
        },
{
    let ghost all = views(values@);
    proof {
        lemma_le_bytes_len(all.len(), 8);
    }
    let mut n: usize = 8;
    let mut i: usize = 0;
    while i < values.len()
        invariant
            i <= values.len(),
            all == views(values@),
            values_encoding(all).len() == 8 + items_encoding(all).len(),
            n == 8 + items_encoding(all.take(i as int)).len(),
        decreases values.len() - i,
    {
        proof {
            lemma_items_encoding_push(all.take(i as int), all[i as int]);
            assert(all.take(i + 1) == all.take(i as int).push(all[i as int]));
            lemma_items_encoding_prefix(all, i + 1);
        }
        let next = match values[i].checked_size() {
            Some(k) => n.checked_add(k),
            None => None,
        };
        match next {
            Some(m) => {
                n = m;
            },
            None => {
                return None;
            },
        }
        i += 1;
    }
    proof {
        assert(all.take(i as int) == all);
    }
    Some(n)
}

/// Reads a sequence of values from the start of `input`; gives the values
/// and how many bytes they took.
pub fn decode_values(input: &[u8]) -> (r: Result<(Vec<Value>, usize), DecodeError>)
    ensures
        match r {
            Ok((values, taken)) => values_decoding(input@) == Ok::<_, DecodeError>(
                (views(values@), taken as nat),
            ),
            Err(e) => values_decoding(input@) == Err::<(Seq<ValueView>, nat), _>(e),
        },
{
    let count = match read_unsigned(input, 8) {
        Ok((count, _)) => count,
        Err(e) => {
            return Err(e);
        },
    };
    let ghost body = input@.skip(8);
    proof {
        assert(input@.skip(8).skip(0) == input@.skip(8));
    }
    let mut values: Vec<Value> = Vec::new();
    let mut at: usize = 8;
    let mut i: u64 = 0;
    while i < count
        invariant
            i <= count,
            8 <= at <= input@.len(),
            body == input@.skip(8),
            unsigned_decoding(input@, 8) == Ok::<_, DecodeError>((count as nat, 8nat)),
            match items_decoding(input@.skip(at as int), (count - i) as nat) {
                Ok((rest, m)) => items_decoding(body, count as nat) == Ok::<_, DecodeError>(
                    (views(values@) + rest, (at - 8 + m) as nat),
                ),
                Err(e) => items_decoding(body, count as nat) == Err::<(Seq<ValueView>, nat), _>(e),
            },
        decreases count - i,
    {
        let left = slice_subrange(input, at, input.len());
        proof {
            assert(left@ == input@.skip(at as int));
        }
        match Value::decode(left) {
            Err(e) => {
                return Err(e);
            },
            Ok((value, taken)) => {
                proof {
                    assert(left@.skip(taken as int) == input@.skip(at + taken));
                    let next = items_decoding(input@.skip(at + taken), (count - i - 1) as nat);
                    if let Ok((rest, m)) = next {
                        assert(views(values@.push(value)) + rest == views(values@) + (seq![
                            value@,
                        ] + rest));
                    }
                }
                values.push(value);
                at = at + taken;
            },
        }
        i += 1;
    }
    proof {
        assert(views(values@) + Seq::<ValueView>::empty() == views(values@));
    }
    Ok((values, at))
}

/// How many more bytes a reader has to fetch before `count` values can be
/// read from `bytes`: what the first value wants that is not all there.
pub open spec fn items_wanted(bytes: Seq<u8>, count: nat) -> nat
    decreases count,
{
    if count == 0 {
        0
    } else {
        match ValueView::decoding(bytes) {
            Ok((_, n)) => items_wanted(bytes.skip(n as int), (count - 1) as nat),
            Err(_) => ValueView::wanted(bytes),
        }
    }
}

/// How many more bytes a reader has to fetch before a sequence of values
/// can be read from `bytes`: what is left of the count while that is
/// incomplete, then what the values want.
pub open spec fn values_wanted(bytes: Seq<u8>) -> nat {
    if bytes.len() < 8 {
        (8 - bytes.len()) as nat
    } else {
        items_wanted(bytes.skip(8), le_value(bytes.take(8)))
    }
}

/// Values are read from their own bytes alone, see
/// [`lemma_values_decoding_extends`].
pub proof fn lemma_items_decoding_extends(bytes: Seq<u8>, count: nat, more: Seq<u8>)
    ensures
        items_wanted(bytes, count) == 0 <==> items_decoding(bytes, count) != Err::<
            (Seq<ValueView>, nat),
            _,
        >(DecodeError::UnexpectedEnd),
        items_wanted(bytes, count) == 0 ==> items_decoding(bytes + more, count) == items_decoding(
            bytes,
            count,
        ),
        more.len() < items_wanted(bytes, count) ==> items_decoding(bytes + more, count) == Err::<
            (Seq<ValueView>, nat),
            _,
        >(DecodeError::UnexpectedEnd),
    decreases count,
{
    if count > 0 {
        lemma_value_decoding_extends(bytes, more);
        lemma_value_decoding_taken(bytes);
        if let Ok((_, n)) = ValueView::decoding(bytes) {
            assert((bytes + more).skip(n as int) == bytes.skip(n as int) + more);
            lemma_items_decoding_extends(bytes.skip(n as int), (count - 1) as nat, more);
        }
    }
}

/// A sequence of values is read from its own bytes alone. Bytes that hold a
/// whole sequence, or that cannot become one, are read the same whatever
/// follows them, and want nothing more; bytes that are cut short want more,
/// and stay cut short until as many as they want have come.
pub proof fn lemma_values_decoding_extends(bytes: Seq<u8>, more: Seq<u8>)
    ensures
        values_wanted(bytes) == 0 <==> values_decoding(bytes) != Err::<(Seq<ValueView>, nat), _>(
            DecodeError::UnexpectedEnd,
        ),
        values_wanted(bytes) == 0 ==> values_decoding(bytes + more) == values_decoding(bytes),
        more.len() < values_wanted(bytes) ==> values_decoding(bytes + more) == Err::<
            (Seq<ValueView>, nat),
            _,
        >(DecodeError::UnexpectedEnd),
{
    if bytes.len() >= 8 {
        assert((bytes + more).take(8) == bytes.take(8));
        assert((bytes + more).skip(8) == bytes.skip(8) + more);
        lemma_items_decoding_extends(bytes.skip(8), le_value(bytes.take(8)), more);
    }
}

/// How many more bytes a reader has to fetch before a sequence of values
/// can be read from `input`, see [`values_wanted`].
pub fn want_values(input: &[u8]) -> (r: u64)
    ensures
        r == values_wanted(input@),
{
    if input.len() < 8 {
        return (8 - input.len()) as u64;
    }
    let count = get_le(input, 0, 8);
    proof {
        assert(input@.subrange(0, 8) == input@.take(8));
        assert(input@.skip(8).skip(0) == input@.skip(8));
    }
    let mut at: usize = 8;
    let mut i: u64 = 0;
    while i < count
        invariant
            i <= count,
            8 <= at <= input@.len(),
            count == le_value(input@.take(8)),
            items_wanted(input@.skip(8), count as nat) == items_wanted(
                input@.skip(at as int),
                (count - i) as nat,
            ),
        decreases count - i,
    {
        let left = slice_subrange(input, at, input.len());
        proof {
            assert(left@ == input@.skip(at as int));
        }
        match Value::decode(left) {
            Err(_) => {
                return Value::wanted(left);
            },
            Ok((_, taken)) => {
                proof {
                    assert(left@.skip(taken as int) == input@.skip(at + taken));
                }
                at = at + taken;
            },
        }
        i += 1;
    }
    0
}

} // verus!
