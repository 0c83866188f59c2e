//! From a text to its byte buffer.
use vstd::prelude::*;
use crate::error::CodecError;
use crate::bits::{bit_contents, bits_into_bytes, bits_new, bits_push, max_buffer_bits, pack_bits};
use crate::huffman::{FrequencyTable, Tree, code_map, code_of, codes_view, generate_codes, generate_tree, has_leaf};
use crate::huffman::{huffman_tree, lemma_leaf_has_code, save_tree, table_bytes};
use crate::symbol_map::sorted_entries;

verus! {

broadcast use vstd::string::group_string_axioms;

/// How often the symbol `c` occurs in the text.
pub open spec fn occurrences(text: Seq<char>, c: char) -> nat
    decreases text.len(),
{
    if text.len() == 0 {
        0
    } else {
        occurrences(text.drop_last(), c) + if text.last() == c {
            1nat
        } else {
            0nat
        }
    }
}

/// No symbol occurs more often in the text than a counter can count.
pub open spec fn counts_fit(text: Seq<char>) -> bool {
    forall|c: char| occurrences(text, c) <= u32::MAX
}

/// The count of every symbol that occurs in the text.
pub open spec fn tally(text: Seq<char>) -> Map<char, u32> {
    Map::new(|c: char| occurrences(text, c) > 0, |c: char| occurrences(text, c) as u32)
}

/// A symbol occurs in the beginning of a text no more often than in all of it.
pub proof fn lemma_occurrences_prefix(text: Seq<char>, n: int, c: char)
    requires
        0 <= n <= text.len(),
    ensures
        occurrences(text.take(n), c) <= occurrences(text, c),
    decreases text.len(),
{
    if n == text.len() {
        assert(text.take(n) =~= text);
    } else {
        lemma_occurrences_prefix(text.drop_last(), n, c);
        assert(text.drop_last().take(n) =~= text.take(n));
    }
}

/// A symbol occurs in a text at most as often as the text has symbols.
pub proof fn lemma_occurrences_bound(text: Seq<char>, c: char)
    ensures
        occurrences(text, c) <= text.len(),
    decreases text.len(),
{
    if text.len() > 0 {
        lemma_occurrences_bound(text.drop_last(), c);
    }
}

/// The table of a text counts exactly the symbols of the text, each at least
/// once and at most as often as the text has symbols.
pub proof fn lemma_tally_counts(text: Seq<char>, c: char)
    requires
        counts_fit(text),
    ensures
        tally(text).contains_key(c) <==> text.contains(c),
        tally(text).contains_key(c) ==> 1 <= tally(text)[c] <= text.len(),
    decreases text.len(),
{
    lemma_occurrences_bound(text, c);
    assert(occurrences(text, c) <= u32::MAX);
    if text.len() > 0 {
        let shorter = text.drop_last();
        assert forall|k: char| occurrences(shorter, k) <= u32::MAX by {
            assert(occurrences(text, k) <= u32::MAX);
        }
        lemma_tally_counts(shorter, c);
        if shorter.contains(c) {
            let i = choose|i: int| 0 <= i < shorter.len() && shorter[i] == c;
            assert(text[i] == c);
        }
        if text.contains(c) && text.last() != c {
            let i = choose|i: int| 0 <= i < text.len() && text[i] == c;
            assert(shorter[i] == c);
        }
        if text.last() == c {
            assert(text[text.len() - 1] == c);
        }
    }
}

/// Counts one more occurrence of the symbol `c`, which follows the text
/// `seen` that the table counts. Returns `false`, and leaves the table as it
/// is, where the counter of the symbol is full.
fn count_symbol(character_counts: &mut FrequencyTable, c: char, Ghost(seen): Ghost<Seq<char>>) -> (counted: bool)
    requires
        counts_fit(seen),
        old(character_counts)@ == tally(seen),
    ensures
        counted ==> counts_fit(seen.push(c)) && final(character_counts)@ == tally(seen.push(c)),
        !counted ==> occurrences(seen.push(c), c) > u32::MAX,
{
    let ghost more = seen.push(c);
    proof {
        assert(more.drop_last() =~= seen);
        assert(occurrences(seen, c) <= u32::MAX);
    }
    let count: u32 = match character_counts.get(c) {
        Some(n) => *n,
        None => 0,
    };
    if count == u32::MAX {
        return false;
    }
    proof {
        assert forall|k: char| occurrences(more, k) <= u32::MAX by {
            assert(occurrences(seen, k) <= u32::MAX);
        }
    }
    character_counts.insert(c, count + 1);
    proof {
        assert(character_counts@ =~= tally(more));
    }
    true
}

/// Counts how often each symbol occurs in the text.
pub fn char_occurences_in_string(string: &str) -> (r: Result<FrequencyTable, CodecError>)
    ensures
        match r {
            Ok(table) => counts_fit(string@) && table@ == tally(string@),
            Err(e) => e == CodecError::CountOverflow && !counts_fit(string@),
        },
{
    let mut character_counts = FrequencyTable::new();
    proof {
        assert(character_counts@ =~= tally(string@.take(0)));
    }
    for c in it: string.chars()
        invariant
            it.seq() == string@,
            character_counts@ == tally(string@.take(it.index() as int)),
            counts_fit(string@.take(it.index() as int)),
    {
        proof {
            assert(string@.take(it.index() + 1) =~= string@.take(it.index() as int).push(c));
        }
        if !count_symbol(&mut character_counts, c, Ghost(string@.take(it.index() as int))) {
            proof {
                lemma_occurrences_prefix(string@, it.index() + 1, c);
            }
            return Err(CodecError::CountOverflow);
        }
    }
    proof {
        assert(string@.take(string@.len() as int) =~= string@);
    }
    Ok(character_counts)
}

/// Counts how often each symbol occurs in a text that is given symbol by
/// symbol.
pub fn get_character_counts(string: &Vec<char>) -> (r: Result<FrequencyTable, CodecError>)
    ensures
        match r {
            Ok(table) => counts_fit(string@) && table@ == tally(string@),
            Err(e) => e == CodecError::CountOverflow && !counts_fit(string@),
        },
{
    let mut character_counts = FrequencyTable::new();
    let mut i: usize = 0;
    proof {
        assert(character_counts@ =~= tally(string@.take(0)));
    }
    while i < string.len()
        invariant
            i <= string@.len(),
            character_counts@ == tally(string@.take(i as int)),
            counts_fit(string@.take(i as int)),
        decreases string@.len() - i,
    {
        proof {
            assert(string@.take(i + 1) =~= string@.take(i as int).push(string@[i as int]));
        }
        if !count_symbol(&mut character_counts, string[i], Ghost(string@.take(i as int))) {
            proof {
                lemma_occurrences_prefix(string@, i + 1, string@[i as int]);
            }
            return Err(CodecError::CountOverflow);
        }
        i += 1;
    }
    proof {
        assert(string@.take(string@.len() as int) =~= string@);
    }
    Ok(character_counts)
}

/// The code of the symbol `c` in the tree, or no bits where it has none.
pub open spec fn code_or_empty(tree: Tree, c: char) -> Seq<bool> {
    match code_of(tree, c) {
        Some(code) => code,
        None => Seq::empty(),
    }
}

/// The codes of the symbols of the text, one behind the other.
pub open spec fn message_bits(tree: Tree, text: Seq<char>) -> Seq<bool>
    decreases text.len(),
{
    if text.len() == 0 {
        Seq::empty()
    } else {
        message_bits(tree, text.drop_last()) + code_or_empty(tree, text.last())
    }
}

/// The most bits that a message can have: its length must fit in 32 bits,
/// and its bytes in a bit buffer of this machine.
pub open spec fn max_message_bits() -> nat {
    if max_buffer_bits() - 7 < u32::MAX {
        (max_buffer_bits() - 7) as nat
    } else {
        u32::MAX as nat
    }
}

/// The four bytes of a number, the highest byte first.
pub open spec fn length_bytes(n: nat) -> Seq<u8> {
    seq![
        (n / 0x100_0000) as u8,
        (n / 0x1_0000 % 0x100) as u8,
        (n / 0x100 % 0x100) as u8,
        (n % 0x100) as u8,
    ]
}

/// Why a text cannot be encoded, if it cannot: it is empty, it holds the
/// null character, a symbol occurs more often than a counter can count, or
/// its message has more bits than a message can have.
pub open spec fn encode_error(text: Seq<char>) -> Option<CodecError> {
    if text.len() == 0 {
        Some(CodecError::EmptyInput)
    } else if text.contains('\0') {
        Some(CodecError::UnsupportedSymbol)
    } else if !counts_fit(text) {
        Some(CodecError::CountOverflow)
    } else if message_bits(huffman_tree(tally(text)), text).len() > max_message_bits() {
        Some(CodecError::CountOverflow)
    } else {
        None
    }
}

/// The byte buffer for a text: the table of its counts, a zero byte, the
/// number of bits of the message in four bytes, and the message, which is
/// the codes of its symbols in the code tree of the table, packed eight bits
/// to a byte.
pub open spec fn artifact(text: Seq<char>) -> Seq<u8> {
    let tree = huffman_tree(tally(text));
    let bits = message_bits(tree, text);
    table_bytes(sorted_entries(tally(text))) + seq![0u8] + length_bytes(bits.len()) + pack_bits(bits)
}

/// The bits for the beginning of a text are no more than those for all of it.
pub proof fn lemma_message_bits_prefix(tree: Tree, text: Seq<char>, n: int)
    requires
        0 <= n <= text.len(),
    ensures
        message_bits(tree, text.take(n)).len() <= message_bits(tree, text).len(),
    decreases text.len(),
{
    if n == text.len() {
        assert(text.take(n) =~= text);
    } else {
        lemma_message_bits_prefix(tree, text.drop_last(), n);
        assert(text.drop_last().take(n) =~= text.take(n));
    }
}

/// A symbol of the text has a count in the text's table.
pub proof fn lemma_occurs(text: Seq<char>, i: int)
    requires
        0 <= i < text.len(),
    ensures
        occurrences(text, text[i]) > 0,
    decreases text.len(),
{
    if i < text.len() - 1 {
        lemma_occurs(text.drop_last(), i);
    }
}

/// Encodes a text: counts its symbols, builds the code tree of the counts,
/// and returns the table of counts, the number of bits of the message and
/// the message in one buffer.
///
/// The text must have a symbol and must not hold the null character; no
/// symbol may occur more than `u32::MAX` times, and the message may have no
/// more than [`max_message_bits`] bits.
pub fn encode(input: &str) -> (r: Result<Vec<u8>, CodecError>)
    ensures
        match r {
            Ok(bytes) => encode_error(input@) is None && bytes@ == artifact(input@),
            Err(e) => encode_error(input@) == Some(e),
        },
{
    let mut has_null: bool = false;
    for c in it: input.chars()
        invariant
            it.seq() == input@,
            has_null == input@.take(it.index() as int).contains('\0'),
    {
        let ghost seen = input@.take(it.index() as int);
        let ghost more = input@.take(it.index() + 1);
        proof {
            assert(more =~= seen.push(c));
            if seen.contains('\0') {
                let i = choose|i: int| 0 <= i < seen.len() && seen[i] == '\0';
                assert(more[i] == '\0');
            }
            if c == '\0' {
                assert(more[more.len() - 1] == '\0');
            }
        }
        if c == '\0' {
            has_null = true;
        }
    }
    proof {
        assert(input@.take(input@.len() as int) =~= input@);
    }
    if has_null {
        return Err(CodecError::UnsupportedSymbol);
    }
    let character_counts = match char_occurences_in_string(input) {
        Ok(table) => table,
        Err(e) => {
            return Err(e);
        },
    };
    if character_counts.is_empty() {
        proof {
            if input@.len() > 0 {
                lemma_occurs(input@, 0);
                assert(character_counts@.contains_key(input@[0]));
            }
        }
        return Err(CodecError::EmptyInput);
    }
    proof {
        if input@.len() == 0 {
            assert(character_counts@.dom() =~= Set::empty());
        }
    }
    let huffman_graph = generate_tree(&character_counts);
    let character_codes = generate_codes(&huffman_graph);

    let limit: usize = if usize::MAX / 8 - 7 < u32::MAX as usize {
        usize::MAX / 8 - 7
    } else {
        u32::MAX as usize
    };
    let mut encoding_buf = bits_new();
    let mut size: usize = 0;
    for c in it: input.chars()
        invariant
            it.seq() == input@,
            limit == max_message_bits(),
            size == bit_contents(encoding_buf).len(),
            size <= limit,
            bit_contents(encoding_buf) == message_bits(huffman_graph, input@.take(it.index() as int)),
            counts_fit(input@),
            character_counts@ == tally(input@),
            huffman_graph == huffman_tree(tally(input@)),
            codes_view(character_codes@) == code_map(huffman_graph),
            forall|c: char, w: u64| #[trigger]
                has_leaf(huffman_graph, c, w) <==> character_counts@.contains_key(c)
                    && character_counts@[c] == w,
            input@.len() > 0,
            !input@.contains('\0'),
    {
        let ghost seen = input@.take(it.index() as int);
        let ghost more = input@.take(it.index() + 1);
        let ghost before = bit_contents(encoding_buf);
        proof {
            assert(more.drop_last() =~= seen);
            assert(more.last() == c);
            lemma_occurs(input@, it.index() as int);
            assert(has_leaf(huffman_graph, c, character_counts@[c] as u64));
            lemma_leaf_has_code(huffman_graph, c, character_counts@[c] as u64);
            assert(code_map(huffman_graph).contains_key(c));
            assert(codes_view(character_codes@).contains_key(c));
        }
        if let Some(code) = character_codes.get(c) {
            proof {
                assert(codes_view(character_codes@)[c] == code@);
                assert(code@ == code_or_empty(huffman_graph, c));
                assert(message_bits(huffman_graph, more).len() == before.len() + code@.len());
                lemma_message_bits_prefix(huffman_graph, input@, it.index() + 1);
                assert(before + code@.take(0) =~= before);
            }
            let mut j: usize = 0;
            while j < code.len()
                invariant
                    j <= code@.len(),
                    size <= limit,
                    limit == max_message_bits(),
                    size == bit_contents(encoding_buf).len(),
                    bit_contents(encoding_buf) == before + code@.take(j as int),
                    before.len() + code@.len() <= message_bits(huffman_tree(tally(input@)), input@).len(),
                    input@.len() > 0,
                    !input@.contains('\0'),
                    counts_fit(input@),
                decreases code@.len() - j,
            {
                if size >= limit {
                    return Err(CodecError::CountOverflow);
                }
                bits_push(&mut encoding_buf, code[j]);
                proof {
                    assert(code@.take(j + 1) =~= code@.take(j as int).push(code@[j as int]));
                    assert(bit_contents(encoding_buf) =~= before + code@.take(j + 1));
                }
                size += 1;
                j += 1;
            }
            proof {
                assert(code@.take(j as int) =~= code@);
            }
        }
    }
    proof {
        assert(input@.take(input@.len() as int) =~= input@);
    }
    let mut io_buf = save_tree(character_counts);
    io_buf.push(0u8);
    let encoding_len: u32 = size as u32;
    io_buf.push((encoding_len / 0x100_0000) as u8);
    io_buf.push((encoding_len / 0x1_0000 % 0x100) as u8);
    io_buf.push((encoding_len / 0x100 % 0x100) as u8);
    io_buf.push((encoding_len % 0x100) as u8);
    let mut packed = bits_into_bytes(encoding_buf);
    io_buf.append(&mut packed);
    proof {
        assert(io_buf@ =~= artifact(input@));
    }
    Ok(io_buf)
}

} // verus!
