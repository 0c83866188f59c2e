//! Symbols as UTF-8 bytes, read by the `read_char` crate.
use vstd::prelude::*;
use vstd::utf8::{decode_first_scalar, encode_scalar, encode_utf8, length_of_first_scalar, valid_first_scalar};
use vstd::utf8::{encode_utf8_first_scalar, char_is_scalar};

verus! {

/// The UTF-8 bytes of one symbol.
pub open spec fn symbol_bytes(symbol: char) -> Seq<u8> {
    encode_scalar(symbol as u32)
}

/// Appends one symbol to a string, by `String::push`.
#[verifier::external_body]
pub(crate) fn push_symbol(text: &mut String, symbol: char)
    ensures
        final(text)@ == old(text)@.push(symbol),
{
    text.push(symbol)
}

/// Reads one symbol from `input` at `pos`, by `read_char::read_next_char`,
/// and returns it with the position behind it. That function takes one byte
/// after another until the bytes it has are valid UTF-8, and gives up at the
/// end of the input or after six bytes. The contract claims that it succeeds
/// exactly where the input goes on with the UTF-8 bytes of one symbol, and
/// then returns that symbol.
#[verifier::external_body]
pub(crate) fn read_symbol(input: &[u8], pos: usize) -> (r: Option<(char, usize)>)
    requires
        pos <= input@.len(),
    ensures
        match r {
            Some((symbol, next)) => {
                &&& valid_first_scalar(input@.skip(pos as int))
                &&& symbol as u32 == decode_first_scalar(input@.skip(pos as int))
                &&& next == pos + length_of_first_scalar(input@.skip(pos as int))
                &&& pos < next <= input@.len()
            },
            None => !valid_first_scalar(input@.skip(pos as int)),
        },
{
    let mut rest = &input[pos..];
    match read_char::read_next_char(&mut rest) {
        Ok(symbol) => Some((symbol, input.len() - rest.len())),
        Err(_) => None,
    }
}

/// Appends the UTF-8 bytes of one symbol to `out`.
pub fn write_symbol(out: &mut Vec<u8>, symbol: char)
    ensures
        final(out)@ == old(out)@ + symbol_bytes(symbol),
{
    let mut text = String::new();
    push_symbol(&mut text, symbol);
    let bytes = text.as_str().as_bytes();
    proof {
        assert(text@ =~= seq![symbol]);
        assert(text@.drop_first() =~= Seq::<char>::empty());
        assert(encode_utf8(text@) =~= symbol_bytes(symbol)) by {
            reveal_with_fuel(encode_utf8, 2);
        }
    }
    let ghost before = out@;
    let mut i: usize = 0;
    while i < bytes.len()
        invariant
            i <= bytes@.len(),
            out@ == before + bytes@.take(i as int),
        decreases bytes@.len() - i,
    {
        out.push(bytes[i]);
        proof {
            assert(bytes@.take(i + 1) =~= bytes@.take(i as int).push(bytes@[i as int]));
            assert(out@ =~= before + bytes@.take(i + 1));
        }
        i += 1;
    }
    proof {
        assert(bytes@.take(i as int) =~= bytes@);
    }
}

/// Only the null character has a zero byte.
pub proof fn lemma_symbol_no_zero(symbol: char, i: int)
    requires
        symbol != '\0',
        0 <= i < symbol_bytes(symbol).len(),
    ensures
        symbol_bytes(symbol)[i] != 0,
{
    let s = symbol as u32;
    char_is_scalar(symbol);
    assert(s != 0);
    assert(s != 0 && s <= 0x7F ==> (s & 0x7F) as u8 != 0) by (bit_vector);
    assert(0xC0 | ((s >> 6) & 0x1F) as u8 != 0) by (bit_vector);
    assert(0xE0 | ((s >> 12) & 0x0F) as u8 != 0) by (bit_vector);
    assert(0xF0 | ((s >> 18) & 0x7) as u8 != 0) by (bit_vector);
    assert(0x80 | (s & 0x3F) as u8 != 0) by (bit_vector);
    assert(0x80 | ((s >> 6) & 0x3F) as u8 != 0) by (bit_vector);
    assert(0x80 | ((s >> 12) & 0x3F) as u8 != 0) by (bit_vector);
}

/// Bytes that begin with the UTF-8 bytes of a symbol begin with a valid
/// scalar, which is that symbol.
pub proof fn lemma_symbol_round_trip(symbol: char, rest: Seq<u8>)
    ensures
        valid_first_scalar(symbol_bytes(symbol) + rest),
        decode_first_scalar(symbol_bytes(symbol) + rest) == symbol as u32,
        length_of_first_scalar(symbol_bytes(symbol) + rest) == symbol_bytes(symbol).len(),
{
    let one = seq![symbol];
    let own = symbol_bytes(symbol);
    let all = own + rest;
    assert(one.drop_first() =~= Seq::<char>::empty());
    assert(encode_utf8(one) =~= own) by {
        reveal_with_fuel(encode_utf8, 2);
    }
    encode_utf8_first_scalar(one);
    assert(forall|i: int| 0 <= i < own.len() ==> all[i] == own[i]);
    assert(all[0] == own[0]);
    if own.len() >= 2 {
        assert(all[1] == own[1]);
    }
    if own.len() >= 3 {
        assert(all[2] == own[2]);
    }
    if own.len() >= 4 {
        assert(all[3] == own[3]);
    }
}

} // verus!
