//! The ends of a range of keys, and their bytes.

use std::ops::Bound;
use vstd::prelude::*;
use vstd::slice::slice_subrange;

use crate::record::runtime::value::{
    lemma_value_decoding_extends, lemma_value_round_trip, Value, ValueView,
};
use crate::serdes::DecodeError;

verus! {

/// The standard library's end of a range: none, or a value that the range
/// includes, or one that it leaves out.
#[verifier::external_type_specification]
#[verifier::reject_recursive_types(T)]
pub struct ExBound<T>(Bound<T>);

/// What a bound holds, its value by its view.
pub open spec fn bound_view(bound: Bound<Value>) -> Bound<ValueView> {
    match bound {
        Bound::Unbounded => Bound::Unbounded,
        Bound::Included(v) => Bound::Included(v@),
        Bound::Excluded(v) => Bound::Excluded(v@),
    }
}

/// The bytes of a bound: a tag, 0 for no bound, 1 for a value that is
/// included and 2 for one that is left out, then the value if there is one.
pub open spec fn bound_encoding(bound: Bound<ValueView>) -> Seq<u8> {
    match bound {
        Bound::Unbounded => seq![0u8],
        Bound::Included(v) => seq![1u8] + v.encoding(),
        Bound::Excluded(v) => seq![2u8] + v.encoding(),
    }
}

/// What `bytes` start with, read as a bound: the bound and how many bytes it
/// took.
pub open spec fn bound_decoding(bytes: Seq<u8>) -> Result<(Bound<ValueView>, nat), DecodeError> {
    if bytes.len() == 0 {
        Err(DecodeError::UnexpectedEnd)
    } else if bytes[0] == 0 {
        Ok((Bound::Unbounded, 1))
    } else if bytes[0] == 1 {
        match ValueView::decoding(bytes.skip(1)) {
            Ok((v, n)) => Ok((Bound::Included(v), n + 1)),
            Err(e) => Err(e),
        }
    } else if bytes[0] == 2 {
        match ValueView::decoding(bytes.skip(1)) {
            Ok((v, n)) => Ok((Bound::Excluded(v), n + 1)),
            Err(e) => Err(e),
        }
    } else {
        Err(DecodeError::InvalidTag)
    }
}

/// The bound can be encoded: its value can, if it has one.
pub open spec fn bound_representable(bound: Bound<ValueView>) -> bool {
    match bound {
        Bound::Unbounded => true,
        Bound::Included(v) => v.representable(),
        Bound::Excluded(v) => v.representable(),
    }
}

/// Decoding what was encoded gives the bound back, whatever follows it, and
/// takes as many bytes as the encoding has.
pub proof fn lemma_bound_round_trip(bound: Bound<ValueView>, rest: Seq<u8>)
    requires
        bound_representable(bound),
    ensures
        bound_decoding(bound_encoding(bound) + rest) == Ok::<_, DecodeError>(
            (bound, bound_encoding(bound).len()),
        ),
{
    let bytes = bound_encoding(bound) + rest;
    match bound {
        Bound::Unbounded => {},
        Bound::Included(v) => {
            assert(bytes.skip(1) == v.encoding() + rest);
            lemma_value_round_trip(v, rest);
        },
        Bound::Excluded(v) => {
            assert(bytes.skip(1) == v.encoding() + rest);
            lemma_value_round_trip(v, rest);
        },
    }
}

/// Appends the bytes of `bound` to `out`.
pub fn encode_bound(bound: &Bound<Value>, out: &mut Vec<u8>)
    ensures
        final(out)@ == old(out)@ + bound_encoding(bound_view(*bound)),
{
    match bound {
        Bound::Unbounded => {
            out.push(0);
        },
        Bound::Included(v) => {
            out.push(1);
            v.encode(out);
        },
        Bound::Excluded(v) => {
            out.push(2);
            v.encode(out);
        },
    }
    proof {
        assert(out@ == old(out)@ + bound_encoding(bound_view(*bound)));
    }
}

/// How many bytes [`encode_bound`] appends.
pub fn bound_size(bound: &Bound<Value>) -> (n: usize)
    requires
        bound_encoding(bound_view(*bound)).len() <= usize::MAX,
    ensures
        n == bound_encoding(bound_view(*bound)).len(),
{
    match bound {
        Bound::Unbounded => 1,
        Bound::Included(v) => 1 + v.size(),
        Bound::Excluded(v) => 1 + v.size(),
    }
}

/// How many bytes [`encode_bound`] appends, if that many can be counted on
/// this machine.
pub fn checked_bound_size(bound: &Bound<Value>) -> (r: Option<usize>)
    ensures
        match r {
            Some(n) => n == bound_encoding(bound_view(*bound)).len(),
            None => bound_encoding(bound_view(*bound)).len() > usize::MAX,
        },
{
    match bound {
        Bound::Unbounded => Some(1),
        Bound::Included(v) => match v.checked_size() {
            Some(n) => n.checked_add(1),
            None => None,
        },
        Bound::Excluded(v) => match v.checked_size() {
            Some(n) => n.checked_add(1),
            None => None,
        },
    }
}

/// Reads a bound from the start of `input`; gives the bound and how many
/// bytes it took.
pub fn decode_bound(input: &[u8]) -> (r: Result<(Bound<Value>, usize), DecodeError>)
    ensures
        match r {
            Ok((bound, taken)) => bound_decoding(input@) == Ok::<_, DecodeError>(
                (bound_view(bound), taken as nat),
            ),
            Err(e) => bound_decoding(input@) == Err::<(Bound<ValueView>, nat), _>(e),
        },
{
    if input.len() == 0 {
        return Err(DecodeError::UnexpectedEnd);
    }
    let tag = input[0];
    if tag == 0 {
        return Ok((Bound::Unbounded, 1));
    }
    if tag > 2 {
        return Err(DecodeError::InvalidTag);
    }
    let body = slice_subrange(input, 1, input.len());
    proof {
        assert(body@ == input@.skip(1));
    }
    match Value::decode(body) {
        Ok((value, taken)) => {
            if tag == 1 {
                Ok((Bound::Included(value), taken + 1))
            } else {
                Ok((Bound::Excluded(value), taken + 1))
            }
        },
        Err(e) => Err(e),
    }
}

/// How many more bytes a reader has to fetch before a bound can be read
/// from `bytes`: one where there are none, then what the value wants, if the
/// tag announces one.
pub open spec fn bound_wanted(bytes: Seq<u8>) -> nat {
    if bytes.len() == 0 {
        1
    } else if bytes[0] == 1 || bytes[0] == 2 {
        ValueView::wanted(bytes.skip(1))
    } else {
        0
    }
}

/// A bound is read from its own bytes alone. Bytes that hold a whole bound,
/// or that cannot become one, are read the same whatever follows them, and
/// want nothing more; bytes that are cut short want more, and stay cut short
/// until as many as they want have come.
pub proof fn lemma_bound_decoding_extends(bytes: Seq<u8>, more: Seq<u8>)
    ensures
        bound_wanted(bytes) == 0 <==> bound_decoding(bytes) != Err::<(Bound<ValueView>, nat), _>(
            DecodeError::UnexpectedEnd,
        ),
        bound_wanted(bytes) == 0 ==> bound_decoding(bytes + more) == bound_decoding(bytes),
        more.len() < bound_wanted(bytes) ==> bound_decoding(bytes + more) == Err::<
            (Bound<ValueView>, nat),
            _,
        >(DecodeError::UnexpectedEnd),
{
    if bytes.len() > 0 {
        assert((bytes + more)[0] == bytes[0]);
        assert((bytes + more).skip(1) == bytes.skip(1) + more);
        lemma_value_decoding_extends(bytes.skip(1), more);
    } else if more.len() == 0 {
        assert(bytes + more == bytes);
    }
}

/// How many more bytes a reader has to fetch before a bound can be read
/// from `input`, see [`bound_wanted`].
pub fn want_bound(input: &[u8]) -> (r: u64)
    ensures
        r == bound_wanted(input@),
{
    if input.len() == 0 {
        return 1;
    }
    let tag = input[0];
    if tag == 1 || tag == 2 {
        let body = slice_subrange(input, 1, input.len());
        proof {
            assert(body@ == input@.skip(1));
        }
        Value::wanted(body)
    } else {
        0
    }
}

} // verus!
