//! The byte layout shared by every key and value: integers of a fixed width
//! in little-endian order, signed ones in two's complement.

use vstd::prelude::*;
use vstd::slice::{slice_subrange, slice_to_vec};

verus! {

/// Why bytes are not the encoding of a value.
#[derive(Debug, Clone, Copy, PartialEq, Eq, Structural)]
pub enum DecodeError {
    /// The bytes end before the value does.
    UnexpectedEnd,
    /// A byte that selects a variant selects none.
    InvalidTag,
    /// The bytes of a string are not UTF-8.
    InvalidUtf8,
}

impl DecodeError {
    /// The error in words.
    pub fn message(&self) -> (text: &'static str)
        ensures
            text@ == match *self {
                DecodeError::UnexpectedEnd => "unexpected end of input"@,
                DecodeError::InvalidTag => "invalid tag"@,
                DecodeError::InvalidUtf8 => "invalid UTF-8"@,
            },
    {
        match self {
            DecodeError::UnexpectedEnd => "unexpected end of input",
            DecodeError::InvalidTag => "invalid tag",
            DecodeError::InvalidUtf8 => "invalid UTF-8",
        }
    }
}

/// 256 to the power of `width`: how many values `width` bytes can tell apart.
pub open spec fn pow256(width: nat) -> nat
    decreases width,
{
    if width == 0 {
        1
    } else {
        256 * pow256((width - 1) as nat)
    }
}

/// The `width` low bytes of `value`, the least significant first.
pub open spec fn le_bytes(value: nat, width: nat) -> Seq<u8>
    decreases width,
{
    if width == 0 {
        Seq::empty()
    } else {
        seq![(value % 256) as u8] + le_bytes(value / 256, (width - 1) as nat)
    }
}

/// The number whose bytes, the least significant first, are `bytes`.
pub open spec fn le_value(bytes: Seq<u8>) -> nat
    decreases bytes.len(),
{
    if bytes.len() == 0 {
        0
    } else {
        bytes[0] as nat + 256 * le_value(bytes.drop_first())
    }
}

/// The number that stands for `value` in two's complement on `width` bytes.
pub open spec fn unsigned_of(value: int, width: nat) -> nat {
    if value >= 0 {
        value as nat
    } else {
        (value + pow256(width)) as nat
    }
}

/// The number for which `raw` stands in two's complement on `width` bytes.
pub open spec fn signed_of(raw: nat, width: nat) -> int {
    if 2 * raw < pow256(width) {
        raw as int
    } else {
        raw - pow256(width)
    }
}

/// Whether `value` can be written in two's complement on `width` bytes.
pub open spec fn fits_signed(value: int, width: nat) -> bool {
    -(pow256(width) as int) <= 2 * value < pow256(width)
}

/// The values of `pow256` at the widths of the machine's integers.
pub proof fn lemma_pow256_values()
    ensures
        pow256(0) == 1,
        pow256(1) == 0x100,
        pow256(2) == 0x1_0000,
        pow256(3) == 0x100_0000,
        pow256(4) == 0x1_0000_0000,
        pow256(5) == 0x100_0000_0000,
        pow256(6) == 0x1_0000_0000_0000,
        pow256(7) == 0x100_0000_0000_0000,
        pow256(8) == 0x1_0000_0000_0000_0000,
{
    reveal_with_fuel(pow256, 9);
}

/// `le_bytes` gives as many bytes as it is asked for.
pub proof fn lemma_le_bytes_len(value: nat, width: nat)
    ensures
        le_bytes(value, width).len() == width,
    decreases width,
{
    if width > 0 {
        lemma_le_bytes_len(value / 256, (width - 1) as nat);
    }
}

/// A number of `n` bytes is below 256 to the power of `n`.
pub proof fn lemma_le_value_bound(bytes: Seq<u8>)
    ensures
        le_value(bytes) < pow256(bytes.len()),
    decreases bytes.len(),
{
    if bytes.len() > 0 {
        lemma_le_value_bound(bytes.drop_first());
    }
}

/// Reading back the bytes of a number that fits in them gives the number.
pub proof fn lemma_le_value_of_bytes(value: nat, width: nat)
    requires
        value < pow256(width),
    ensures
        le_value(le_bytes(value, width)) == value,
    decreases width,
{
    if width > 0 {
        let rest = le_bytes(value / 256, (width - 1) as nat);
        lemma_le_bytes_len(value / 256, (width - 1) as nat);
        lemma_le_value_of_bytes(value / 256, (width - 1) as nat);
        assert(le_bytes(value, width).drop_first() == rest);
    }
}

/// Writing the number that bytes stand for gives those bytes.
pub proof fn lemma_le_bytes_of_value(bytes: Seq<u8>)
    ensures
        le_bytes(le_value(bytes), bytes.len()) == bytes,
    decreases bytes.len(),
{
    if bytes.len() > 0 {
        let rest = bytes.drop_first();
        lemma_le_bytes_of_value(rest);
        let value = le_value(bytes);
        assert(value % 256 == bytes[0] as nat);
        assert(value / 256 == le_value(rest));
        assert(le_bytes(value, bytes.len()) == seq![bytes[0]] + rest);
        assert(seq![bytes[0]] + rest == bytes);
    }
}

/// Two's complement loses nothing: a number that fits comes back.
pub proof fn lemma_signed_round_trip(value: int, width: nat)
    requires
        fits_signed(value, width),
    ensures
        unsigned_of(value, width) < pow256(width),
        signed_of(unsigned_of(value, width), width) == value,
{
}

/// Every number below 256 to the power of `width` stands for a signed
/// number that fits, and is what stands for it.
pub proof fn lemma_unsigned_round_trip(raw: nat, width: nat)
    requires
        raw < pow256(width),
        width > 0,
    ensures
        fits_signed(signed_of(raw, width), width),
        unsigned_of(signed_of(raw, width), width) == raw,
{
    assert(pow256(width) == 256 * pow256((width - 1) as nat));
}

/// Appends the `width` low bytes of `value` to `out`, the least significant
/// first.
pub fn put_le(out: &mut Vec<u8>, value: u64, width: usize)
    ensures
        final(out)@ == old(out)@ + le_bytes(value as nat, width as nat),
    decreases width,
{
    if width > 0 {
        out.push((value % 256) as u8);
        let ghost mid = out@;
        put_le(out, value / 256, width - 1);
        proof {
            let rest = le_bytes((value / 256) as nat, (width - 1) as nat);
            assert(out@ == mid + rest);
            assert(mid + rest == old(out)@ + (seq![(value % 256) as u8] + rest));
        }
    } else {
        proof {
            assert(out@ == old(out)@ + Seq::<u8>::empty());
        }
    }
}

/// The number whose `width` bytes, the least significant first, start at
/// `at` in `input`.
pub(crate) fn get_le(input: &[u8], at: usize, width: usize) -> (r: u64)
    requires
        width <= 8,
        at + width <= input@.len(),
    ensures
        r == le_value(input@.subrange(at as int, at + width)),
    decreases width,
{
    if width == 0 {
        0
    } else {
        assert(at < input.len());
        let rest = get_le(input, at + 1, width - 1);
        proof {
            let bytes = input@.subrange(at as int, at + width);
            let tail = input@.subrange(at + 1, at + width);
            assert(bytes.drop_first() == tail);
            assert(bytes[0] == input@[at as int]);
            lemma_le_value_bound(tail);
            lemma_pow256_values();
        }
        input[at] as u64 + 256 * rest
    }
}

/// The number that stands for `value` in two's complement on `width` bytes.
pub(crate) fn to_unsigned(value: i64, width: usize) -> (r: u64)
    requires
        width == 1 || width == 2 || width == 4 || width == 8,
        fits_signed(value as int, width as nat),
    ensures
        r == unsigned_of(value as int, width as nat),
{
    proof {
        lemma_pow256_values();
    }
    if value >= 0 {
        value as u64
    } else if width == 1 {
        (value + 0x100) as u64
    } else if width == 2 {
        (value + 0x1_0000) as u64
    } else if width == 4 {
        (value + 0x1_0000_0000) as u64
    } else {
        (value - i64::MIN) as u64 + 0x8000_0000_0000_0000
    }
}

/// The number for which `raw` stands in two's complement on `width` bytes.
pub(crate) fn to_signed(raw: u64, width: usize) -> (r: i64)
    requires
        width == 1 || width == 2 || width == 4 || width == 8,
        raw < pow256(width as nat),
    ensures
        r == signed_of(raw as nat, width as nat),
{
    proof {
        lemma_pow256_values();
    }
    if width == 1 {
        if raw < 0x80 {
            raw as i64
        } else {
            raw as i64 - 0x100
        }
    } else if width == 2 {
        if raw < 0x8000 {
            raw as i64
        } else {
            raw as i64 - 0x1_0000
        }
    } else if width == 4 {
        if raw < 0x8000_0000 {
            raw as i64
        } else {
            raw as i64 - 0x1_0000_0000
        }
    } else {
        if raw < 0x8000_0000_0000_0000 {
            raw as i64
        } else {
            (raw - 0x8000_0000_0000_0000) as i64 + i64::MIN
        }
    }
}

/// What `bytes` start with, read as an unsigned number of `width` bytes: the
/// number and how many bytes it took.
pub open spec fn unsigned_decoding(bytes: Seq<u8>, width: nat) -> Result<(nat, nat), DecodeError> {
    if bytes.len() < width {
        Err(DecodeError::UnexpectedEnd)
    } else {
        Ok((le_value(bytes.take(width as int)), width))
    }
}

/// What `bytes` start with, read as a signed number of `width` bytes: the
/// number and how many bytes it took.
pub open spec fn signed_decoding(bytes: Seq<u8>, width: nat) -> Result<(int, nat), DecodeError> {
    if bytes.len() < width {
        Err(DecodeError::UnexpectedEnd)
    } else {
        Ok((signed_of(le_value(bytes.take(width as int)), width), width))
    }
}

/// The bytes of a run of bytes: how many there are, on eight bytes, then the
/// run itself.
pub open spec fn run_encoding(run: Seq<u8>) -> Seq<u8> {
    le_bytes(run.len(), 8) + run
}

/// What `bytes` start with, read as a run of bytes: the run and how many
/// bytes it took, the length in front included.
pub open spec fn run_decoding(bytes: Seq<u8>) -> Result<(Seq<u8>, nat), DecodeError> {
    if bytes.len() < 8 {
        Err(DecodeError::UnexpectedEnd)
    } else {
        let len = le_value(bytes.take(8));
        if bytes.len() - 8 < len {
            Err(DecodeError::UnexpectedEnd)
        } else {
            Ok((bytes.subrange(8, 8 + len as int), 8 + len))
        }
    }
}

/// An unsigned number that fits in `width` bytes is read back from them,
/// whatever follows.
pub proof fn lemma_unsigned_decoding(value: nat, width: nat, rest: Seq<u8>)
    requires
        value < pow256(width),
    ensures
        le_bytes(value, width).len() == width,
        unsigned_decoding(le_bytes(value, width) + rest, width) == Ok::<_, DecodeError>(
            (value, width),
        ),
{
    let bytes = le_bytes(value, width);
    lemma_le_bytes_len(value, width);
    lemma_le_value_of_bytes(value, width);
    assert((bytes + rest).take(width as int) == bytes);
}

/// A signed number that fits in `width` bytes is read back from them,
/// whatever follows.
pub proof fn lemma_signed_decoding(value: int, width: nat, rest: Seq<u8>)
    requires
        fits_signed(value, width),
    ensures
        le_bytes(unsigned_of(value, width), width).len() == width,
        signed_decoding(le_bytes(unsigned_of(value, width), width) + rest, width) == Ok::<
            _,
            DecodeError,
        >((value, width)),
{
    lemma_signed_round_trip(value, width);
    lemma_unsigned_decoding(unsigned_of(value, width), width, rest);
}

/// A run of bytes whose length fits in eight bytes is read back, whatever
/// follows.
pub proof fn lemma_run_decoding(run: Seq<u8>, rest: Seq<u8>)
    requires
        run.len() < pow256(8),
    ensures
        run_encoding(run).len() == 8 + run.len(),
        run_decoding(run_encoding(run) + rest) == Ok::<_, DecodeError>((run, 8 + run.len())),
{
    let head = le_bytes(run.len(), 8);
    let bytes = run_encoding(run) + rest;
    lemma_le_bytes_len(run.len(), 8);
    lemma_le_value_of_bytes(run.len(), 8);
    assert(bytes.take(8) == head);
    assert(bytes.subrange(8, 8 + run.len() as int) == run);
}

/// Reads an unsigned number of `width` bytes from the start of `input`; gives
/// the number and how many bytes it took.
pub(crate) fn read_unsigned(input: &[u8], width: usize) -> (r: Result<(u64, usize), DecodeError>)
    requires
        width <= 8,
    ensures
        match r {
            Ok((value, taken)) => {
                &&& unsigned_decoding(input@, width as nat) == Ok::<_, DecodeError>(
                    (value as nat, taken as nat),
                )
                &&& value < pow256(width as nat)
            },
            Err(e) => unsigned_decoding(input@, width as nat) == Err::<(nat, nat), _>(e),
        },
{
    if input.len() < width {
        return Err(DecodeError::UnexpectedEnd);
    }
    let value = get_le(input, 0, width);
    proof {
        assert(input@.subrange(0, width as int) == input@.take(width as int));
        lemma_le_value_bound(input@.take(width as int));
    }
    Ok((value, width))
}

/// Reads a signed number of `width` bytes from the start of `input`; gives
/// the number and how many bytes it took.
pub(crate) fn read_signed(input: &[u8], width: usize) -> (r: Result<(i64, usize), DecodeError>)
    requires
        width == 1 || width == 2 || width == 4 || width == 8,
    ensures
        match r {
            Ok((value, taken)) => {
                &&& signed_decoding(input@, width as nat) == Ok::<_, DecodeError>(
                    (value as int, taken as nat),
                )
                &&& fits_signed(value as int, width as nat)
            },
            Err(e) => signed_decoding(input@, width as nat) == Err::<(int, nat), _>(e),
        },
{
    if input.len() < width {
        return Err(DecodeError::UnexpectedEnd);
    }
    let raw = get_le(input, 0, width);
    proof {
        assert(input@.subrange(0, width as int) == input@.take(width as int));
        lemma_le_value_bound(input@.take(width as int));
        lemma_unsigned_round_trip(raw as nat, width as nat);
    }
    Ok((to_signed(raw, width), width))
}

/// Appends `run` to `out`, its length in front.
pub fn write_run(out: &mut Vec<u8>, run: &[u8])
    ensures
        final(out)@ == old(out)@ + run_encoding(run@),
{
    put_le(out, run.len() as u64, 8);
    let mut i: usize = 0;
    while i < run.len()
        invariant
            i <= run.len(),
            out@ == old(out)@ + le_bytes(run@.len(), 8) + run@.take(i as int),
        decreases run.len() - i,
    {
        out.push(run[i]);
        proof {
            assert(run@.take(i + 1) == run@.take(i as int).push(run@[i as int]));
        }
        i += 1;
    }
    proof {
        assert(run@.take(i as int) == run@);
        assert(old(out)@ + le_bytes(run@.len(), 8) + run@ == old(out)@ + run_encoding(run@));
    }
}

/// Reads a run of bytes from the start of `input`; gives the run and how many
/// bytes it took, the length in front included.
pub fn read_run(input: &[u8]) -> (r: Result<(Vec<u8>, usize), DecodeError>)
    ensures
        match r {
            Ok((run, taken)) => run_decoding(input@) == Ok::<_, DecodeError>(
                (run@, taken as nat),
            ),
            Err(e) => run_decoding(input@) == Err::<(Seq<u8>, nat), _>(e),
        },
{
    if input.len() < 8 {
        return Err(DecodeError::UnexpectedEnd);
    }
    let len = get_le(input, 0, 8);
    proof {
        assert(input@.subrange(0, 8) == input@.take(8));
    }
    let left = input.len() - 8;
    if (left as u64) < len {
        return Err(DecodeError::UnexpectedEnd);
    }
    let end = 8 + len as usize;
    let run = slice_to_vec(slice_subrange(input, 8, end));
    Ok((run, end))
}

/// How many bytes are still to come where `have` of `width` are there.
pub open spec fn fixed_wanted(have: nat, width: nat) -> nat {
    if have < width {
        (width - have) as nat
    } else {
        0
    }
}

/// How many more bytes a reader has to fetch before a run of bytes can be
/// read from `bytes`: what is left of the length while that is incomplete,
/// then what is left of the run. Nothing where the run is all there.
pub open spec fn run_wanted(bytes: Seq<u8>) -> nat {
    if bytes.len() < 8 {
        (8 - bytes.len()) as nat
    } else {
        fixed_wanted((bytes.len() - 8) as nat, le_value(bytes.take(8)))
    }
}

/// A number is read from its own bytes alone: what follows them changes
/// nothing, and with fewer bytes than are wanted the number is still cut
/// short.
pub proof fn lemma_unsigned_decoding_extends(bytes: Seq<u8>, width: nat, more: Seq<u8>)
    ensures
        unsigned_decoding(bytes, width) is Ok ==> unsigned_decoding(bytes + more, width)
            == unsigned_decoding(bytes, width),
        more.len() < fixed_wanted(bytes.len(), width) ==> unsigned_decoding(bytes + more, width)
            == Err::<(nat, nat), _>(DecodeError::UnexpectedEnd),
        signed_decoding(bytes, width) is Ok ==> signed_decoding(bytes + more, width)
            == signed_decoding(bytes, width),
        more.len() < fixed_wanted(bytes.len(), width) ==> signed_decoding(bytes + more, width)
            == Err::<(int, nat), _>(DecodeError::UnexpectedEnd),
        fixed_wanted(bytes.len(), width) == 0 <==> unsigned_decoding(bytes, width) is Ok,
        fixed_wanted(bytes.len(), width) == 0 <==> signed_decoding(bytes, width) is Ok,
{
    if bytes.len() >= width {
        assert((bytes + more).take(width as int) == bytes.take(width as int));
    }
}

/// A run is read from its own bytes alone: what follows them changes
/// nothing, and with fewer bytes than are wanted the run is still cut short.
pub proof fn lemma_run_decoding_extends(bytes: Seq<u8>, more: Seq<u8>)
    ensures
        run_decoding(bytes) is Ok ==> run_decoding(bytes + more) == run_decoding(bytes),
        more.len() < run_wanted(bytes) ==> run_decoding(bytes + more) == Err::<(Seq<u8>, nat), _>(
            DecodeError::UnexpectedEnd,
        ),
        run_wanted(bytes) == 0 <==> run_decoding(bytes) is Ok,
{
    if bytes.len() >= 8 {
        assert((bytes + more).take(8) == bytes.take(8));
        let len = le_value(bytes.take(8));
        if bytes.len() - 8 >= len {
            assert((bytes + more).subrange(8, 8 + len as int) == bytes.subrange(8, 8 + len as int));
        }
    }
}

/// How many more bytes a reader has to fetch before a run of bytes can be
/// read from `input`, see [`run_wanted`].
pub fn want_run(input: &[u8]) -> (r: u64)
    ensures
        r == run_wanted(input@),
{
    if input.len() < 8 {
        return (8 - input.len()) as u64;
    }
    let len = get_le(input, 0, 8);
    proof {
        assert(input@.subrange(0, 8) == input@.take(8));
    }
    let have = (input.len() - 8) as u64;
    if have < len {
        len - have
    } else {
        0
    }
}

} // verus!
