//! What holds of encoding and decoding together: the table of counts ends at
//! the first zero byte of a buffer, decoding gives back what was encoded, and
//! only the counted bits of a message matter.
use vstd::prelude::*;
use crate::bits::{lemma_unpack_pack, pack_bits, unpack_bits};
use crate::decode::{decode_bits, decoded, descend, first_zero, length_of, repeated};
use crate::decode::lemma_read_table_bytes;
use crate::encode::{artifact, code_or_empty, encode_error, length_bytes};
use crate::encode::{lemma_occurs, message_bits, occurrences, tally};
use crate::error::CodecError;
use crate::huffman::{Tree, code_of, has_leaf, huffman_tree, is_leaf, lemma_huffman_tree};
use crate::huffman::{lemma_leaf_has_code, table_bytes, well_formed};
use crate::symbol::{lemma_symbol_no_zero, symbol_bytes};
use crate::symbol_map::{lemma_entries_map_value, lemma_sorted_entries_exist, sorted_entries};
use crate::varint::{lemma_varint_no_zero, varint_bytes};

verus! {

/// The bytes of a table of counts hold no zero byte, as long as the table
/// does not count the null character and counts nothing zero times: the
/// zero byte that ends the table in a buffer is the first one there.
pub proof fn lemma_table_bytes_no_zero(entries: Seq<(char, u32)>, i: int)
    requires
        forall|k: int| 0 <= k < entries.len() ==> (#[trigger] entries[k]).0 != '\0' && entries[k].1 >= 1,
        0 <= i < table_bytes(entries).len(),
    ensures
        table_bytes(entries)[i] != 0,
    decreases entries.len(),
{
    if entries.len() > 0 {
        let own = symbol_bytes(entries[0].0);
        let number = varint_bytes(entries[0].1 as nat);
        let later = entries.drop_first();
        assert(entries[0].0 != '\0' && entries[0].1 >= 1);
        if i < own.len() {
            lemma_symbol_no_zero(entries[0].0, i);
        } else if i < own.len() + number.len() {
            lemma_varint_no_zero(entries[0].1 as nat, i - own.len());
        } else {
            assert forall|k: int| 0 <= k < later.len() implies (#[trigger] later[k]).0 != '\0'
                && later[k].1 >= 1 by {
                assert(later[k] == entries[k + 1]);
            }
            lemma_table_bytes_no_zero(later, i - own.len() - number.len());
        }
    }
}

/// The bytes that are written for a table of counts hold no zero byte, as
/// long as the table does not count the null character and holds no count of
/// zero.
pub proof fn lemma_saved_table_no_zero(table: Map<char, u32>, i: int)
    requires
        table.dom().finite(),
        !table.contains_key('\0'),
        forall|c: char| table.contains_key(c) ==> #[trigger] table[c] >= 1,
        0 <= i < table_bytes(sorted_entries(table)).len(),
    ensures
        table_bytes(sorted_entries(table))[i] != 0,
{
    let entries = sorted_entries(table);
    lemma_sorted_entries_exist(table);
    assert forall|k: int| 0 <= k < entries.len() implies (#[trigger] entries[k]).0 != '\0'
        && entries[k].1 >= 1 by {
        lemma_entries_map_value(entries, k);
        assert(table[entries[k].0] >= 1);
    }
    lemma_table_bytes_no_zero(entries, i);
}

/// The first zero byte is the one before which no byte is zero.
pub proof fn lemma_first_zero(bytes: Seq<u8>, n: int)
    requires
        0 <= n < bytes.len(),
        forall|i: int| 0 <= i < n ==> bytes[i] != 0,
        bytes[n] == 0,
    ensures
        first_zero(bytes) == n,
    decreases n,
{
    if n > 0 {
        let rest = bytes.drop_first();
        assert forall|i: int| 0 <= i < n - 1 implies rest[i] != 0 by {
            assert(rest[i] == bytes[i + 1]);
        }
        lemma_first_zero(rest, n - 1);
    }
}

/// The four bytes of a number hold that number.
pub proof fn lemma_length_bytes(n: nat)
    requires
        n <= u32::MAX,
    ensures
        length_bytes(n).len() == 4,
        length_of(length_bytes(n)) == n,
{
}

/// A symbol that is counted occurs in the text.
pub proof fn lemma_counted_occurs(text: Seq<char>, c: char)
    requires
        occurrences(text, c) > 0,
    ensures
        text.contains(c),
    decreases text.len(),
{
    if text.last() == c {
        assert(text[text.len() - 1] == c);
    } else {
        lemma_counted_occurs(text.drop_last(), c);
        let i = choose|i: int| 0 <= i < text.drop_last().len() && text.drop_last()[i] == c;
        assert(text[i] == c);
    }
}

/// The table of a text has finitely many symbols.
pub proof fn lemma_tally_finite(text: Seq<char>)
    ensures
        tally(text).dom().finite(),
    decreases text.len(),
{
    if text.len() == 0 {
        assert(tally(text).dom() =~= Set::empty());
    } else {
        lemma_tally_finite(text.drop_last());
        assert(tally(text).dom() =~= tally(text.drop_last()).dom().insert(text.last()));
    }
}

/// A text of one symbol alone is that symbol as often as it occurs.
pub proof fn lemma_all_same(text: Seq<char>, c: char)
    requires
        forall|i: int| 0 <= i < text.len() ==> text[i] == c,
    ensures
        occurrences(text, c) == text.len(),
        text == repeated(c, text.len()),
    decreases text.len(),
{
    if text.len() > 0 {
        lemma_all_same(text.drop_last(), c);
    }
    assert(text =~= repeated(c, text.len()));
}

/// The bits of a text begin with the code of its first symbol.
pub proof fn lemma_message_bits_first(tree: Tree, text: Seq<char>)
    requires
        text.len() > 0,
    ensures
        message_bits(tree, text) == code_or_empty(tree, text[0]) + message_bits(
            tree,
            text.drop_first(),
        ),
    decreases text.len(),
{
    if text.len() == 1 {
        assert(text.drop_last() =~= Seq::<char>::empty());
        assert(text.drop_first() =~= Seq::<char>::empty());
        assert(message_bits(tree, text) =~= code_or_empty(tree, text[0]) + message_bits(
            tree,
            text.drop_first(),
        ));
    } else {
        lemma_message_bits_first(tree, text.drop_last());
        assert(text.drop_last().drop_first() =~= text.drop_first().drop_last());
        assert(text.drop_last()[0] == text[0]);
        assert(text.drop_first().last() == text.last());
        assert(message_bits(tree, text) =~= code_or_empty(tree, text[0]) + message_bits(
            tree,
            text.drop_first(),
        ));
    }
}

/// The code of a symbol leads to the symbol's leaf, whatever bits follow it.
pub proof fn lemma_descend_code(t: Tree, c: char, rest: Seq<bool>)
    requires
        well_formed(t),
        code_of(t, c) is Some,
    ensures
        descend(t, code_of(t, c)->0 + rest) == Some((c, (code_of(t, c)->0).len())),
        !is_leaf(t) ==> (code_of(t, c)->0).len() > 0,
    decreases t,
{
    let code = code_of(t, c)->0;
    let bits = code + rest;
    if is_leaf(t) {
    } else {
        let l = *(t.left->0);
        let r = *(t.right->0);
        if code_of(r, c) is Some {
            let path = code_of(r, c)->0;
            lemma_descend_code(r, c, rest);
            assert(bits[0] == true);
            assert(bits.drop_first() =~= path + rest);
        } else {
            let path = code_of(l, c)->0;
            lemma_descend_code(l, c, rest);
            assert(bits[0] == false);
            assert(bits.drop_first() =~= path + rest);
        }
    }
}

/// Walking the codes of a text through the tree spells the text.
pub proof fn lemma_decode_message_bits(tree: Tree, text: Seq<char>)
    requires
        well_formed(tree),
        !is_leaf(tree),
        forall|i: int| 0 <= i < text.len() ==> code_of(tree, #[trigger] text[i]) is Some,
    ensures
        decode_bits(tree, message_bits(tree, text)) == Some(text),
    decreases text.len(),
{
    if text.len() == 0 {
        assert(decode_bits(tree, message_bits(tree, text))->0 =~= text);
    } else {
        let later = text.drop_first();
        let code = code_of(tree, text[0])->0;
        let rest = message_bits(tree, later);
        lemma_message_bits_first(tree, text);
        lemma_descend_code(tree, text[0], rest);
        assert forall|i: int| 0 <= i < later.len() implies code_of(tree, #[trigger] later[i]) is Some by {
            assert(later[i] == text[i + 1]);
        }
        lemma_decode_message_bits(tree, later);
        assert((code + rest).skip(code.len() as int) =~= rest);
        assert(seq![text[0]] + later =~= text);
    }
}

/// In a tree that is a single leaf every code is empty, and so is every
/// message.
pub proof fn lemma_leaf_message_empty(tree: Tree, text: Seq<char>)
    requires
        is_leaf(tree),
    ensures
        message_bits(tree, text).len() == 0,
    decreases text.len(),
{
    if text.len() > 0 {
        lemma_leaf_message_empty(tree, text.drop_last());
    }
}

/// Decoding what encoding made gives the text back: for every text that can
/// be encoded, the buffer that `encode` returns for it is one that `decode`
/// turns into the same text.
pub proof fn lemma_round_trip(text: Seq<char>)
    requires
        encode_error(text) is None,
    ensures
        decoded(artifact(text)) == Ok::<Seq<char>, CodecError>(text),
{
    let table = tally(text);
    let entries = sorted_entries(table);
    let tree = huffman_tree(table);
    let bits = message_bits(tree, text);
    let segment = table_bytes(entries);
    let header = length_bytes(bits.len());
    let body = pack_bits(bits);
    let bytes = artifact(text);
    let split = segment.len() as int;

    lemma_tally_finite(text);
    lemma_sorted_entries_exist(table);
    lemma_occurs(text, 0);
    assert(table.contains_key(text[0]));
    assert(table.len() > 0);
    lemma_huffman_tree(table);
    lemma_length_bytes(bits.len());

    assert forall|k: int| 0 <= k < entries.len() implies (#[trigger] entries[k]).0 != '\0'
        && entries[k].1 >= 1 by {
        lemma_entries_map_value(entries, k);
        let c = entries[k].0;
        assert(occurrences(text, c) > 0);
        assert(occurrences(text, c) <= u32::MAX);
        lemma_counted_occurs(text, c);
    }
    assert forall|i: int| 0 <= i < split implies bytes[i] != 0 by {
        lemma_table_bytes_no_zero(entries, i);
        assert(bytes[i] == segment[i]);
    }
    assert(bytes[split] == 0);
    lemma_first_zero(bytes, split);
    assert(bytes.take(split) =~= segment);
    lemma_read_table_bytes(entries);
    assert(bytes.subrange(split + 1, split + 5) =~= header);
    assert(bytes.skip(split + 5) =~= body);
    assert(body.len() == (bits.len() + 7) / 8);

    assert forall|i: int| 0 <= i < text.len() implies code_of(tree, #[trigger] text[i]) is Some by {
        lemma_occurs(text, i);
        assert(occurrences(text, text[i]) <= u32::MAX);
        assert(table.contains_key(text[i]));
        assert(has_leaf(tree, text[i], table[text[i]] as u64));
        lemma_leaf_has_code(tree, text[i], table[text[i]] as u64);
    }
    if is_leaf(tree) {
        let c = tree.value.1->0;
        let w = tree.value.0;
        lemma_leaf_message_empty(tree, text);
        assert(has_leaf(tree, c, w));
        assert(table.contains_key(c) && table[c] == w);
        assert(occurrences(text, c) <= u32::MAX);
        assert forall|i: int| 0 <= i < text.len() implies text[i] == c by {
            assert(code_of(tree, text[i]) is Some);
        }
        lemma_all_same(text, c);
    } else {
        assert(unpack_bits(body).take(bits.len() as int) =~= bits) by {
            if bits.len() > 0 {
                lemma_unpack_pack(bits, 0);
            }
            assert forall|i: int| 0 <= i < bits.len() implies unpack_bits(body)[i] == bits[i] by {
                lemma_unpack_pack(bits, i);
            }
        }
        lemma_decode_message_bits(tree, text);
    }
}

/// The place of the first byte of the message in a buffer.
pub open spec fn message_start(bytes: Seq<u8>) -> int {
    first_zero(bytes) as int + 5
}

/// The number of bits of the message that a buffer states.
pub open spec fn stated_length(bytes: Seq<u8>) -> int {
    length_of(bytes.subrange(first_zero(bytes) as int + 1, first_zero(bytes) as int + 5)) as int
}

/// What a buffer decodes to depends on the bits of the message alone: two
/// buffers that agree up to the end of the length, and in as many bits of the
/// message as the length counts, decode to the same, whatever bits fill the
/// last byte of the message and whatever bytes follow it.
pub proof fn lemma_padding_ignored(a: Seq<u8>, b: Seq<u8>)
    requires
        message_start(a) <= a.len() <= b.len(),
        a.take(message_start(a)) == b.take(message_start(a)),
        (stated_length(a) + 7) / 8 <= a.len() - message_start(a),
        unpack_bits(a.skip(message_start(a))).take(stated_length(a)) == unpack_bits(
            b.skip(message_start(a)),
        ).take(stated_length(a)),
    ensures
        decoded(a) == decoded(b),
{
    let split = first_zero(a) as int;
    assert forall|i: int| 0 <= i < split + 5 implies a[i] == b[i] by {
        assert(a.take(split + 5)[i] == b.take(split + 5)[i]);
    }
    lemma_first_zero_holds(a);
    lemma_first_zero(b, split);
    assert(a.take(split) =~= b.take(split));
    assert(a.subrange(split + 1, split + 5) =~= b.subrange(split + 1, split + 5));
}

/// No byte before the first zero byte is zero, and the byte there is.
pub proof fn lemma_first_zero_holds(bytes: Seq<u8>)
    ensures
        first_zero(bytes) <= bytes.len(),
        forall|i: int| 0 <= i < first_zero(bytes) ==> bytes[i] != 0,
        first_zero(bytes) < bytes.len() ==> bytes[first_zero(bytes) as int] == 0,
    decreases bytes.len(),
{
    if bytes.len() == 0 || bytes[0] == 0 {
    } else {
        let rest = bytes.drop_first();
        lemma_first_zero_holds(rest);
        assert forall|i: int| 0 <= i < first_zero(bytes) implies bytes[i] != 0 by {
            if i > 0 {
                assert(bytes[i] == rest[i - 1]);
            }
        }
        if first_zero(bytes) < bytes.len() {
            assert(bytes[first_zero(bytes) as int] == rest[first_zero(rest) as int]);
        }
    }
}

} // verus!
