//! Counts as unsigned LEB128 numbers, written and read by the `leb128` crate.
use vstd::prelude::*;

verus! {

/// The bytes of `v` as an unsigned LEB128 number: seven bits to a byte, the
/// lowest first, with the top bit set on every byte but the last.
pub open spec fn varint_bytes(v: nat) -> Seq<u8>
    decreases v,
{
    if v < 128 {
        seq![v as u8]
    } else {
        seq![(v % 128 + 128) as u8] + varint_bytes(v / 128)
    }
}

/// The number that `bytes` begin with, read as unsigned LEB128 into 64 bits,
/// and how many bytes it takes; `depth` bytes of the number came before.
/// There is none where the bytes end before the number does, or where the
/// tenth byte holds more than the one bit that is left of the 64.
pub open spec fn varint_value(bytes: Seq<u8>, depth: nat) -> Option<(nat, nat)>
    decreases bytes.len(),
{
    if bytes.len() == 0 {
        None
    } else if depth == 9 && bytes[0] > 1 {
        None
    } else if bytes[0] < 128 {
        Some((bytes[0] as nat, 1))
    } else {
        match varint_value(bytes.drop_first(), depth + 1) {
            Some((high, taken)) => Some(((bytes[0] - 128 + 128 * high) as nat, taken + 1)),
            None => None,
        }
    }
}

/// Appends `value` to `out` as an unsigned LEB128 number, by
/// `leb128::write::unsigned`. Writing to a vector cannot fail; the contract
/// claims that the bytes appended are those of [`varint_bytes`].
#[verifier::external_body]
pub(crate) fn write_varint(out: &mut Vec<u8>, value: u64)
    ensures
        final(out)@ == old(out)@ + varint_bytes(value as nat),
{
    let _ = leb128::write::unsigned(out, value);
}

/// Reads an unsigned LEB128 number from `input` at `pos`, by
/// `leb128::read::unsigned`, and returns it with the position behind it. The
/// contract claims that the call succeeds exactly where [`varint_value`] has
/// a value, with that value and length.
#[verifier::external_body]
pub(crate) fn read_varint(input: &[u8], pos: usize) -> (r: Option<(u64, usize)>)
    requires
        pos <= input@.len(),
    ensures
        match r {
            Some((value, next)) => pos < next <= input@.len() && varint_value(
                input@.skip(pos as int),
                0,
            ) == Some((value as nat, (next - pos) as nat)),
            None => varint_value(input@.skip(pos as int), 0) is None,
        },
{
    let mut rest = &input[pos..];
    match leb128::read::unsigned(&mut rest) {
        Ok(value) => Some((value, input.len() - rest.len())),
        Err(_) => None,
    }
}

/// A number that was read takes at least one byte and none but those given.
pub proof fn lemma_varint_value_len(bytes: Seq<u8>, depth: nat)
    ensures
        match varint_value(bytes, depth) {
            Some((value, taken)) => 1 <= taken <= bytes.len(),
            None => true,
        },
    decreases bytes.len(),
{
    if bytes.len() > 0 && !(depth == 9 && bytes[0] > 1) && bytes[0] >= 128 {
        lemma_varint_value_len(bytes.drop_first(), depth + 1);
    }
}

/// A number that is not zero has no zero byte.
pub proof fn lemma_varint_no_zero(v: nat, i: int)
    requires
        v >= 1,
        0 <= i < varint_bytes(v).len(),
    ensures
        varint_bytes(v)[i] != 0,
    decreases v,
{
    if v >= 128 && i > 0 {
        lemma_varint_no_zero(v / 128, i - 1);
    }
}

/// A count takes at most five bytes.
pub proof fn lemma_varint_len(v: nat)
    requires
        v <= u32::MAX,
    ensures
        1 <= varint_bytes(v).len() <= 5,
{
    reveal_with_fuel(varint_bytes, 6);
}

/// Reading what was written gives the number back, whatever follows it.
pub proof fn lemma_varint_round_trip(v: nat, depth: nat, rest: Seq<u8>)
    requires
        depth + varint_bytes(v).len() <= 9,
    ensures
        varint_value(varint_bytes(v) + rest, depth) == Some((v, varint_bytes(v).len())),
    decreases v,
{
    let bytes = varint_bytes(v) + rest;
    if v >= 128 {
        lemma_varint_round_trip(v / 128, depth + 1, rest);
        assert(bytes.drop_first() =~= varint_bytes(v / 128) + rest);
    }
}

} // verus!
