//! From a byte buffer back to its text.
use vstd::prelude::*;
use vstd::slice::slice_subrange;
use vstd::utf8::{decode_first_scalar, length_of_first_scalar, valid_first_scalar};
use crate::error::CodecError;
use crate::bits::{BitBuffer, bit_contents, bits_from_bytes, bits_get, max_buffer_bits, unpack_bits};
use crate::huffman::{FrequencyTable, Tree, generate_tree, huffman_tree, is_leaf, table_bytes, well_formed};
use crate::symbol::{lemma_symbol_round_trip, push_symbol, read_symbol, symbol_bytes};
use crate::symbol_map::entries_map;
use crate::varint::{lemma_varint_len, lemma_varint_round_trip, lemma_varint_value_len};
use crate::varint::{read_varint, varint_bytes, varint_value};

verus! {

/// What reading a table of counts from the front of `bytes` gives: the pairs
/// in the order read, how many bytes they take, and whether a count was met
/// that is too large for a counter.
///
/// A pair is the UTF-8 bytes of a symbol and a count, not zero, as an
/// unsigned LEB128 number. Reading ends before the first bytes that are no
/// such pair, and with a count that is too large.
pub open spec fn read_entries(bytes: Seq<u8>) -> (Seq<(char, u32)>, nat, bool)
    decreases bytes.len(),
{
    if !valid_first_scalar(bytes) {
        (Seq::empty(), 0, false)
    } else {
        let symbol = decode_first_scalar(bytes) as char;
        let width = length_of_first_scalar(bytes);
        match varint_value(bytes.skip(width), 0) {
            None => (Seq::empty(), 0, false),
            Some((count, taken)) => {
                if count == 0 {
                    (Seq::empty(), 0, false)
                } else if count > u32::MAX {
                    (Seq::empty(), 0, true)
                } else {
                    proof {
                        lemma_varint_value_len(bytes.skip(width), 0);
                    }
                    let rest = read_entries(bytes.skip(width + taken));
                    (
                        seq![(symbol, count as u32)] + rest.0,
                        (width + taken + rest.1) as nat,
                        rest.2,
                    )
                }
            },
        }
    }
}

/// Reading the bytes of a table whose counts are not zero gives its pairs
/// back and takes all the bytes.
pub proof fn lemma_read_table_bytes(entries: Seq<(char, u32)>)
    requires
        forall|i: int| 0 <= i < entries.len() ==> (#[trigger] entries[i]).1 >= 1,
    ensures
        read_entries(table_bytes(entries)) == (entries, table_bytes(entries).len(), false),
    decreases entries.len(),
{
    let bytes = table_bytes(entries);
    if entries.len() == 0 {
        assert(read_entries(bytes).0 =~= entries);
    } else {
        let symbol = entries[0].0;
        let count = entries[0].1 as nat;
        let later = entries.drop_first();
        let tail = table_bytes(later);
        let own = symbol_bytes(symbol);
        let number = varint_bytes(count);
        assert(bytes =~= own + (number + tail));
        lemma_symbol_round_trip(symbol, number + tail);
        vstd::utf8::char_u32_cast(symbol, symbol as u32);
        assert(bytes.skip(own.len() as int) =~= number + tail);
        lemma_varint_len(count);
        lemma_varint_round_trip(count, 0, tail);
        assert(bytes.skip((own.len() + number.len()) as int) =~= tail);
        assert forall|i: int| 0 <= i < later.len() implies (#[trigger] later[i]).1 >= 1 by {
            assert(later[i] == entries[i + 1]);
        }
        lemma_read_table_bytes(later);
        assert(seq![(symbol, count as u32)] + later =~= entries);
    }
}

/// Reads a table of counts from the front of `input`: the table, and the
/// place in `input` behind the last pair that could be read.
pub fn read_character_counts(input: &[u8]) -> (r: Result<(FrequencyTable, usize), CodecError>)
    ensures
        match r {
            Ok((table, end)) => {
                &&& !read_entries(input@).2
                &&& table@ == entries_map(read_entries(input@).0)
                &&& end == read_entries(input@).1
                &&& end <= input@.len()
            },
            Err(e) => e == CodecError::CountOverflow && read_entries(input@).2,
        },
{
    let mut character_counts = FrequencyTable::new();
    let mut pos: usize = 0;
    let mut more: bool = true;
    let ghost mut seen: Seq<(char, u32)> = Seq::empty();
    proof {
        assert(input@.skip(0) =~= input@);
        assert(seen + read_entries(input@).0 =~= read_entries(input@).0);
    }
    while more
        invariant
            pos <= input@.len(),
            character_counts@ == entries_map(seen),
            read_entries(input@).0 == seen + read_entries(input@.skip(pos as int)).0,
            read_entries(input@).1 == pos + read_entries(input@.skip(pos as int)).1,
            read_entries(input@).2 == read_entries(input@.skip(pos as int)).2,
            !more ==> read_entries(input@.skip(pos as int)) == (Seq::<(char, u32)>::empty(), 0nat, false),
        decreases input@.len() - pos + if more { 1int } else { 0int },
    {
        let ghost rest = input@.skip(pos as int);
        match read_symbol(input, pos) {
            None => {
                more = false;
            },
            Some((symbol, at)) => {
                proof {
                    assert(rest.skip(at - pos) =~= input@.skip(at as int));
                }
                match read_varint(input, at) {
                    None => {
                        more = false;
                    },
                    Some((count, next)) => {
                        if count == 0 {
                            more = false;
                        } else if count > u32::MAX as u64 {
                            return Err(CodecError::CountOverflow);
                        } else {
                            proof {
                                vstd::utf8::char_u32_cast(symbol, symbol as u32);
                                assert(rest.skip(next - pos) =~= input@.skip(next as int));
                                let pair = (symbol, count as u32);
                                let later = read_entries(input@.skip(next as int)).0;
                                assert(seen.push(pair).drop_last() =~= seen);
                                assert(seen + (seq![pair] + later) =~= seen.push(pair) + later);
                                seen = seen.push(pair);
                            }
                            character_counts.insert(symbol, count as u32);
                            pos = next;
                        }
                    },
                }
            },
        }
    }
    proof {
        assert(seen + Seq::<(char, u32)>::empty() =~= seen);
    }
    Ok((character_counts, pos))
}

/// Reads a table of counts from the front of `input`, as far as it goes:
/// bytes from the first on that are no pair are left unread.
pub fn decode_character_counts(input: &[u8]) -> (r: Result<FrequencyTable, CodecError>)
    ensures
        match r {
            Ok(table) => !read_entries(input@).2 && table@ == entries_map(read_entries(input@).0),
            Err(e) => e == CodecError::CountOverflow && read_entries(input@).2,
        },
{
    match read_character_counts(input) {
        Ok((table, _)) => Ok(table),
        Err(e) => Err(e),
    }
}

/// The leaf that the bits lead to from the root of `t`, `false` for left and
/// `true` for right: its symbol, and how many bits the way takes. There is
/// none where the bits end above a leaf.
pub open spec fn descend(t: Tree, bits: Seq<bool>) -> Option<(char, nat)>
    decreases t,
{
    if is_leaf(t) {
        match t.value.1 {
            Some(symbol) => Some((symbol, 0)),
            None => None,
        }
    } else if bits.len() == 0 {
        None
    } else {
        let below = if bits[0] {
            t.right
        } else {
            t.left
        };
        match below {
            Some(child) => match descend(*child, bits.drop_first()) {
                Some((symbol, taken)) => Some((symbol, taken + 1)),
                None => None,
            },
            None => None,
        }
    }
}

/// The symbols that the bits spell in the code of the tree `root`: each
/// symbol is the leaf that the next bits lead to from the root. There is no
/// text where the bits end between two leaves, or where the root is itself a
/// leaf and bits are left.
pub open spec fn decode_bits(root: Tree, bits: Seq<bool>) -> Option<Seq<char>>
    decreases bits.len(),
{
    if bits.len() == 0 {
        Some(Seq::empty())
    } else {
        match descend(root, bits) {
            Some((symbol, taken)) => if 0 < taken <= bits.len() {
                match decode_bits(root, bits.skip(taken as int)) {
                    Some(rest) => Some(seq![symbol] + rest),
                    None => None,
                }
            } else {
                None
            },
            None => None,
        }
    }
}

/// A way down the tree takes no more bits than there are.
pub proof fn lemma_descend_taken(t: Tree, bits: Seq<bool>)
    ensures
        match descend(t, bits) {
            Some((symbol, taken)) => taken <= bits.len(),
            None => true,
        },
    decreases t,
{
    if !is_leaf(t) && bits.len() > 0 {
        let below = if bits[0] {
            t.right
        } else {
            t.left
        };
        match below {
            Some(child) => {
                lemma_descend_taken(*child, bits.drop_first());
            },
            None => {},
        }
    }
}

/// What is left to decode when the walk stands at `node`: at the root, if
/// `fresh`, and else below it, on the way to a leaf.
pub open spec fn resume(root: Tree, node: Tree, fresh: bool, bits: Seq<bool>) -> Option<Seq<char>> {
    if fresh {
        decode_bits(root, bits)
    } else {
        match descend(node, bits) {
            Some((symbol, taken)) => match decode_bits(root, bits.skip(taken as int)) {
                Some(rest) => Some(seq![symbol] + rest),
                None => None,
            },
            None => None,
        }
    }
}

/// The text `done` followed by `rest`, where there is a rest.
pub open spec fn followed_by(done: Seq<char>, rest: Option<Seq<char>>) -> Option<Seq<char>> {
    match rest {
        Some(more) => Some(done + more),
        None => None,
    }
}

/// One step of the walk: what is left to decode before a bit is what is left
/// after it, with the symbol in front where the bit led to a leaf.
pub proof fn lemma_walk_step(root: Tree, node: Tree, fresh: bool, rest: Seq<bool>)
    requires
        well_formed(root),
        well_formed(node),
        fresh ==> node == root,
        !fresh ==> !is_leaf(node),
        rest.len() > 0,
    ensures
        match (if rest[0] {
            node.right
        } else {
            node.left
        }) {
            None => resume(root, node, fresh, rest) is None,
            Some(child) => well_formed(*child) && match child.value.1 {
                Some(c) => resume(root, node, fresh, rest) == followed_by(
                    seq![c],
                    resume(root, root, true, rest.drop_first()),
                ),
                None => !is_leaf(*child) && resume(root, node, fresh, rest) == resume(
                    root,
                    *child,
                    false,
                    rest.drop_first(),
                ),
            },
        },
{
    let below = if rest[0] {
        node.right
    } else {
        node.left
    };
    let later = rest.drop_first();
    lemma_descend_taken(node, rest);
    match below {
        None => {
            assert(is_leaf(node));
            assert(descend(node, rest) == Some((node.value.1->0, 0nat)));
        },
        Some(child) => {
            assert(!is_leaf(node));
            assert(well_formed(*child));
            lemma_descend_taken(*child, later);
            assert(descend(node, rest) == match descend(*child, later) {
                Some((symbol, taken)) => Some((symbol, taken + 1)),
                None => None,
            });
            match child.value.1 {
                Some(c) => {
                    assert(is_leaf(*child));
                    assert(descend(*child, later) == Some((c, 0nat)));
                    assert(descend(node, rest) == Some((c, 1nat)));
                    assert(rest.skip(1) =~= later);
                },
                None => {
                    assert(!is_leaf(*child));
                    match descend(*child, later) {
                        Some((symbol, taken)) => {
                            assert(rest.skip((taken + 1) as int) =~= later.skip(taken as int));
                        },
                        None => {},
                    }
                },
            }
        },
    }
}

/// Walks the first `encoding_length` bits of the message through the code
/// tree and collects the symbols of the leaves that it reaches.
pub(crate) fn decode_message(encoded_msg: BitBuffer, root: Tree, encoding_length: u32) -> (r: Result<
    String,
    CodecError,
>)
    requires
        well_formed(root),
        encoding_length <= bit_contents(encoded_msg).len(),
    ensures
        match decode_bits(root, bit_contents(encoded_msg).take(encoding_length as int)) {
            Some(text) => r matches Ok(s) && s@ == text,
            None => r == Err::<String, CodecError>(CodecError::CorruptStream),
        },
{
    let ghost bits = bit_contents(encoded_msg).take(encoding_length as int);
    let mut decoded_message = String::new();
    let mut current_node: &Tree = &root;
    let mut fresh: bool = true;
    let mut current_length: u32 = 0;
    proof {
        assert(bits.skip(0) =~= bits);
        assert(decoded_message@ + decode_bits(root, bits)->0 =~= decode_bits(root, bits)->0);
    }
    while current_length < encoding_length
        invariant
            current_length <= encoding_length,
            encoding_length <= bit_contents(encoded_msg).len(),
            bits == bit_contents(encoded_msg).take(encoding_length as int),
            well_formed(root),
            well_formed(*current_node),
            fresh ==> *current_node == root,
            !fresh ==> !is_leaf(*current_node),
            decode_bits(root, bits) == followed_by(
                decoded_message@,
                resume(root, *current_node, fresh, bits.skip(current_length as int)),
            ),
        decreases encoding_length - current_length,
    {
        let ghost rest = bits.skip(current_length as int);
        let ghost done = decoded_message@;
        let bit: bool = bits_get(&encoded_msg, current_length as usize);
        proof {
            assert(rest[0] == bit);
            assert(rest.drop_first() =~= bits.skip(current_length + 1));
            lemma_walk_step(root, *current_node, fresh, rest);
        }
        let next_node = if bit {
            &current_node.right
        } else {
            &current_node.left
        };
        match next_node {
            Some(next) => {
                current_node = &**next;
            },
            None => {
                return Err(CodecError::CorruptStream);
            },
        }
        if let Some(c) = current_node.value.1 {
            push_symbol(&mut decoded_message, c);
            current_node = &root;
            fresh = true;
            proof {
                let after = decode_bits(root, rest.drop_first());
                if after is Some {
                    assert(done + (seq![c] + after->0) =~= done.push(c) + after->0);
                }
            }
        } else {
            fresh = false;
        }
        current_length += 1;
    }
    proof {
        assert(bits.skip(current_length as int) =~= Seq::<bool>::empty());
        assert(decoded_message@ + Seq::<char>::empty() =~= decoded_message@);
    }
    if fresh {
        Ok(decoded_message)
    } else {
        Err(CodecError::CorruptStream)
    }
}

/// The place of the first zero byte, or the number of bytes if none is zero.
pub open spec fn first_zero(bytes: Seq<u8>) -> nat
    decreases bytes.len(),
{
    if bytes.len() == 0 || bytes[0] == 0 {
        0
    } else {
        1 + first_zero(bytes.drop_first())
    }
}

/// The number that four bytes hold, the highest byte first.
pub open spec fn length_of(header: Seq<u8>) -> nat {
    (header[0] * 0x100_0000 + header[1] * 0x1_0000 + header[2] * 0x100 + header[3]) as nat
}

/// The text of `count` times the same symbol.
pub open spec fn repeated(symbol: char, count: nat) -> Seq<char> {
    Seq::new(count, |i: int| symbol)
}

/// What a byte buffer decodes to.
///
/// The buffer holds a table of counts up to its first zero byte, behind that
/// byte four bytes with the number of bits of the message, the highest byte
/// first, and then the message, eight bits to a byte. Bits and bytes behind
/// the message are not looked at. Where the table holds a single symbol, the
/// message has no bits and the text is that symbol as often as it is counted.
///
/// A buffer is malformed where it has no zero byte (the offset is its
/// length), where the table cannot be read up to the zero byte (the offset is
/// that of the first pair that cannot be read), and where it ends before the
/// length does or before the message does (the offset is its length). It is
/// refused where the table is empty, where a count is too large for a
/// counter, and where the message has more bits than a bit buffer of this
/// machine takes. The message is corrupt where it ends between two symbols,
/// or has bits although the table holds a single symbol.
pub open spec fn decoded(bytes: Seq<u8>) -> Result<Seq<char>, CodecError> {
    let split = first_zero(bytes) as int;
    let scan = read_entries(bytes.take(split));
    let length = length_of(bytes.subrange(split + 1, split + 5));
    let packed = bytes.skip(split + 5);
    let tree = huffman_tree(entries_map(scan.0));
    if split >= bytes.len() {
        Err(CodecError::MalformedArtifact { offset: bytes.len() as usize })
    } else if scan.2 {
        Err(CodecError::CountOverflow)
    } else if scan.1 != split {
        Err(CodecError::MalformedArtifact { offset: scan.1 as usize })
    } else if bytes.len() < split + 5 {
        Err(CodecError::MalformedArtifact { offset: bytes.len() as usize })
    } else if packed.len() < (length + 7) / 8 {
        Err(CodecError::MalformedArtifact { offset: bytes.len() as usize })
    } else if entries_map(scan.0).len() == 0 {
        Err(CodecError::EmptyInput)
    } else if length + 7 > max_buffer_bits() {
        Err(CodecError::CountOverflow)
    } else if is_leaf(tree) {
        if length == 0 {
            Ok(repeated(tree.value.1->0, tree.value.0 as nat))
        } else {
            Err(CodecError::CorruptStream)
        }
    } else {
        match decode_bits(tree, unpack_bits(packed).take(length as int)) {
            Some(text) => Ok(text),
            None => Err(CodecError::CorruptStream),
        }
    }
}

/// The number that four bytes hold, the highest byte first.
pub fn u8_to_u32(array: &[u8; 4]) -> (n: u32)
    ensures
        n == length_of(array@),
{
    (array[0] as u32) * 0x100_0000 + (array[1] as u32) * 0x1_0000 + (array[2] as u32) * 0x100 + (
    array[3] as u32)
}

/// Recovers the text from a byte buffer that [`crate::encode::encode`] made,
/// and says of any other buffer what is wrong with it.
pub fn decode(input: &[u8]) -> (r: Result<String, CodecError>)
    ensures
        match decoded(input@) {
            Ok(text) => r matches Ok(s) && s@ == text,
            Err(e) => r == Err::<String, CodecError>(e),
        },
{
    let mut split_index: usize = 0;
    proof {
        assert(input@.skip(0) =~= input@);
    }
    while split_index < input.len() && input[split_index] != 0
        invariant
            split_index <= input@.len(),
            first_zero(input@) == split_index + first_zero(input@.skip(split_index as int)),
        decreases input@.len() - split_index,
    {
        proof {
            assert(input@.skip(split_index as int)[0] == input@[split_index as int]);
            assert(input@.skip(split_index as int).drop_first() =~= input@.skip(split_index + 1));
        }
        split_index += 1;
    }
    proof {
        if split_index < input@.len() {
            assert(input@.skip(split_index as int)[0] == input@[split_index as int]);
        }
    }
    if split_index == input.len() {
        return Err(CodecError::MalformedArtifact { offset: input.len() });
    }
    let character_slice = slice_subrange(input, 0, split_index);
    proof {
        assert(character_slice@ =~= input@.take(split_index as int));
    }
    let (character_counts, end) = match read_character_counts(character_slice) {
        Ok(read) => read,
        Err(e) => {
            return Err(e);
        },
    };
    if end != split_index {
        return Err(CodecError::MalformedArtifact { offset: end });
    }
    if input.len() - split_index < 5 {
        return Err(CodecError::MalformedArtifact { offset: input.len() });
    }
    let length: [u8; 4] = [
        input[split_index + 1],
        input[split_index + 2],
        input[split_index + 3],
        input[split_index + 4],
    ];
    proof {
        assert(length@ =~= input@.subrange(split_index + 1, split_index + 5));
    }
    let message_len: u32 = u8_to_u32(&length);
    let first: usize = split_index + 5;
    let needed: u64 = (message_len as u64 + 7) / 8;
    if ((input.len() - first) as u64) < needed {
        return Err(CodecError::MalformedArtifact { offset: input.len() });
    }
    if character_counts.is_empty() {
        return Err(CodecError::EmptyInput);
    }
    if message_len as u64 + 7 > (usize::MAX / 8) as u64 {
        return Err(CodecError::CountOverflow);
    }
    let huffman_graph = generate_tree(&character_counts);
    if huffman_graph.left.is_none() && huffman_graph.right.is_none() {
        if message_len != 0 {
            return Err(CodecError::CorruptStream);
        }
        let mut text = String::new();
        if let Some(symbol) = huffman_graph.value.1 {
            let count: u64 = huffman_graph.value.0;
            let mut written: u64 = 0;
            proof {
                assert(text@ =~= repeated(symbol, 0));
            }
            while written < count
                invariant
                    written <= count,
                    text@ == repeated(symbol, written as nat),
                decreases count - written,
            {
                push_symbol(&mut text, symbol);
                written += 1;
                proof {
                    assert(text@ =~= repeated(symbol, written as nat));
                }
            }
        }
        return Ok(text);
    }
    let message = slice_subrange(input, first, first + needed as usize);
    let bits = bits_from_bytes(message);
    proof {
        let packed = input@.skip(first as int);
        assert(message@ =~= packed.take(needed as int));
        assert(bit_contents(bits).take(message_len as int) =~= unpack_bits(packed).take(
            message_len as int,
        ));
    }
    decode_message(bits, huffman_graph, message_len)
}

} // verus!
