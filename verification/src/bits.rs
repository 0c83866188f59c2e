//! Bits packed eight to a byte, the first in the highest place, kept in a
//! bit vector of the `bitvec` crate.
use vstd::prelude::*;
use bitvec::order::Msb0;
use bitvec::vec::BitVec;

verus! {

/// A growable sequence of bits, kept eight to a byte with the first bit of
/// each byte in the byte's highest place. A buffer starts empty or as the
/// bits of given bytes and only ever grows at its end, so that it begins at
/// the first bit of its first byte and every bit of its last byte behind its
/// end is zero.
#[verifier::external_body]
pub struct BitBuffer {
    bits: BitVec<u8, Msb0>,
}

/// The bits that a buffer holds.
pub uninterp spec fn bit_contents(buffer: BitBuffer) -> Seq<bool>;

/// The most bits that a buffer takes on this machine.
pub open spec fn max_buffer_bits() -> nat {
    (usize::MAX / 8) as nat
}

/// What the place `k` of a byte counts, the highest place being place 0.
pub open spec fn place_value(k: int) -> int {
    if k == 0 {
        128
    } else if k == 1 {
        64
    } else if k == 2 {
        32
    } else if k == 3 {
        16
    } else if k == 4 {
        8
    } else if k == 5 {
        4
    } else if k == 6 {
        2
    } else {
        1
    }
}

/// What the bit `i` adds to its byte when it stands in place `k` of it:
/// nothing where it is clear or lies behind the end of the bits.
pub open spec fn bit_share(bits: Seq<bool>, i: int, k: int) -> int {
    if i < bits.len() && bits[i] {
        place_value(k)
    } else {
        0
    }
}

/// The byte that holds the bits `8 * j` to `8 * j + 7`.
pub open spec fn packed_byte(bits: Seq<bool>, j: int) -> u8 {
    (bit_share(bits, 8 * j, 0) + bit_share(bits, 8 * j + 1, 1) + bit_share(bits, 8 * j + 2, 2)
        + bit_share(bits, 8 * j + 3, 3) + bit_share(bits, 8 * j + 4, 4) + bit_share(
        bits,
        8 * j + 5,
        5,
    ) + bit_share(bits, 8 * j + 6, 6) + bit_share(bits, 8 * j + 7, 7)) as u8
}

/// The bits packed eight to a byte, the first in the highest place, with
/// zero bits filling the last byte.
pub open spec fn pack_bits(bits: Seq<bool>) -> Seq<u8> {
    Seq::new(((bits.len() + 7) / 8) as nat, |j: int| packed_byte(bits, j))
}

/// The bit in place `k` of a byte, the highest place being place 0.
pub open spec fn bit_of(byte: u8, k: int) -> bool {
    (byte as int / place_value(k)) % 2 == 1
}

/// All bits of the bytes, those of each byte from its highest place down.
pub open spec fn unpack_bits(bytes: Seq<u8>) -> Seq<bool> {
    Seq::new(8 * bytes.len(), |i: int| bit_of(bytes[i / 8], i % 8))
}

/// An empty buffer, by `BitVec::new`.
#[verifier::external_body]
pub(crate) fn bits_new() -> (buffer: BitBuffer)
    ensures
        bit_contents(buffer) == Seq::<bool>::empty(),
{
    BitBuffer { bits: BitVec::new() }
}

/// Appends one bit, by `BitVec::push`, which panics where the buffer is
/// full.
#[verifier::external_body]
pub(crate) fn bits_push(buffer: &mut BitBuffer, value: bool)
    requires
        bit_contents(*old(buffer)).len() < max_buffer_bits(),
    ensures
        bit_contents(*final(buffer)) == bit_contents(*old(buffer)).push(value),
{
    buffer.bits.push(value)
}

/// The bytes that hold the bits of the buffer, by `BitVec::into_vec`. The
/// contract claims that they are the bits packed from the first place of the
/// first byte on, with zero bits behind the last: `BitVec::push` adds each
/// byte as zero and sets no bit but the one pushed.
#[verifier::external_body]
pub(crate) fn bits_into_bytes(buffer: BitBuffer) -> (bytes: Vec<u8>)
    ensures
        bytes@ == pack_bits(bit_contents(buffer)),
{
    buffer.bits.into_vec()
}

/// A buffer of all bits of the given bytes, by `BitVec::from_slice`, which
/// panics where they hold more bits than a buffer takes.
#[verifier::external_body]
pub(crate) fn bits_from_bytes(bytes: &[u8]) -> (buffer: BitBuffer)
    requires
        8 * bytes@.len() <= max_buffer_bits(),
    ensures
        bit_contents(buffer) == unpack_bits(bytes@),
{
    BitBuffer { bits: BitVec::from_slice(bytes) }
}

/// The bit at place `index` of the buffer, by indexing the `BitVec`.
#[verifier::external_body]
pub(crate) fn bits_get(buffer: &BitBuffer, index: usize) -> (bit: bool)
    requires
        index < bit_contents(*buffer).len(),
    ensures
        bit == bit_contents(*buffer)[index as int],
{
    buffer.bits[index]
}

/// A place of a byte can be read back from the sum of what the places add:
/// `high` counts what the places above it add, in units of twice the place's
/// value `w`, `mid` is what the place adds, and `low` what those below it add.
proof fn lemma_place(high: int, mid: int, low: int, w: int)
    requires
        w == 1 || w == 2 || w == 4 || w == 8 || w == 16 || w == 32 || w == 64 || w == 128,
        mid == 0 || mid == w,
        0 <= low < w,
    ensures
        ((high * (2 * w) + mid + low) / w) % 2 == 1 <==> mid == w,
{
    let n = high * (2 * w) + mid + low;
    let q = if mid == w {
        2 * high + 1
    } else {
        2 * high
    };
    assert(n == q * w + low) by (nonlinear_arith)
        requires
            n == high * (2 * w) + mid + low,
            mid == 0 || mid == w,
            q == if mid == w {
                2 * high + 1
            } else {
                2 * high
            },
    ;
    vstd::arithmetic::div_mod::lemma_fundamental_div_mod_converse(n, w, q, low);
}

/// The place `k` of a packed byte holds the bit that was packed into it.
proof fn lemma_packed_bit(bits: Seq<bool>, j: int, k: int)
    requires
        0 <= j,
        0 <= k < 8,
    ensures
        bit_of(packed_byte(bits, j), k) == (8 * j + k < bits.len() && bits[8 * j + k]),
{
    let b0 = bit_share(bits, 8 * j, 0);
    let b1 = bit_share(bits, 8 * j + 1, 1);
    let b2 = bit_share(bits, 8 * j + 2, 2);
    let b3 = bit_share(bits, 8 * j + 3, 3);
    let b4 = bit_share(bits, 8 * j + 4, 4);
    let b5 = bit_share(bits, 8 * j + 5, 5);
    let b6 = bit_share(bits, 8 * j + 6, 6);
    let b7 = bit_share(bits, 8 * j + 7, 7);
    let h0: int = if b0 == 128 { 1 } else { 0 };
    let h1: int = if b1 == 64 { 1 } else { 0 };
    let h2: int = if b2 == 32 { 1 } else { 0 };
    let h3: int = if b3 == 16 { 1 } else { 0 };
    let h4: int = if b4 == 8 { 1 } else { 0 };
    let h5: int = if b5 == 4 { 1 } else { 0 };
    let h6: int = if b6 == 2 { 1 } else { 0 };
    let sum = b0 + b1 + b2 + b3 + b4 + b5 + b6 + b7;
    assert(0 <= sum < 256);
    assert(packed_byte(bits, j) == sum);
    if k == 0 {
        lemma_place(0, b0, b1 + b2 + b3 + b4 + b5 + b6 + b7, 128);
    } else if k == 1 {
        lemma_place(h0, b1, b2 + b3 + b4 + b5 + b6 + b7, 64);
    } else if k == 2 {
        lemma_place(2 * h0 + h1, b2, b3 + b4 + b5 + b6 + b7, 32);
    } else if k == 3 {
        lemma_place(4 * h0 + 2 * h1 + h2, b3, b4 + b5 + b6 + b7, 16);
    } else if k == 4 {
        lemma_place(8 * h0 + 4 * h1 + 2 * h2 + h3, b4, b5 + b6 + b7, 8);
    } else if k == 5 {
        lemma_place(16 * h0 + 8 * h1 + 4 * h2 + 2 * h3 + h4, b5, b6 + b7, 4);
    } else if k == 6 {
        lemma_place(32 * h0 + 16 * h1 + 8 * h2 + 4 * h3 + 2 * h4 + h5, b6, b7, 2);
    } else {
        lemma_place(64 * h0 + 32 * h1 + 16 * h2 + 8 * h3 + 4 * h4 + 2 * h5 + h6, b7, 0, 1);
    }
}

/// Unpacking packed bits gives the bits back, followed by the zero bits that
/// fill the last byte.
pub proof fn lemma_unpack_pack(bits: Seq<bool>, i: int)
    requires
        0 <= i < 8 * pack_bits(bits).len(),
    ensures
        unpack_bits(pack_bits(bits)).len() == 8 * pack_bits(bits).len(),
        bits.len() <= 8 * pack_bits(bits).len() < bits.len() + 8,
        unpack_bits(pack_bits(bits))[i] == (i < bits.len() && bits[i]),
{
    let j = i / 8;
    let k = i % 8;
    lemma_packed_bit(bits, j, k);
    assert(pack_bits(bits)[j] == packed_byte(bits, j));
    assert(unpack_bits(pack_bits(bits))[i] == bit_of(pack_bits(bits)[j], k));
}

} // verus!
