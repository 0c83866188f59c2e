use huff::decode::{decode_character_counts, read_character_counts};
use huff::encode::{char_occurences_in_string, get_character_counts};
use huff::error::CodecError;
use huff::huffman::{save_tree, FrequencyTable};

#[test]
fn decode_character_counts_ascii() {
    let code = [97, 1, 98, 2, 99, 3, 100];
    let mut map = FrequencyTable::new();
    map.insert('a', 1);
    map.insert('b', 2);
    map.insert('c', 3);

    assert_eq!(decode_character_counts(&code).unwrap(), map);
    assert_eq!(
        decode_character_counts(&code[..code.len() - 1]).unwrap(),
        map
    );
}

#[test]
fn decode_character_counts_utf8() {
    let mut code = Vec::new();
    code.append(&mut 'µ'.to_string().as_bytes().to_vec());
    code.push(1);
    code.append(&mut '¶'.to_string().as_bytes().to_vec());
    code.push(2);
    code.append(&mut '¼'.to_string().as_bytes().to_vec());
    code.push(3);
    code.append(&mut '⅓'.to_string().as_bytes().to_vec());

    let mut map = FrequencyTable::new();
    map.insert('µ', 1);
    map.insert('¶', 2);
    map.insert('¼', 3);

    assert_eq!(decode_character_counts(&code).unwrap(), map);
    assert_eq!(
        decode_character_counts(&code[..code.len() - 1]).unwrap(),
        map
    );
}

#[test]
fn counts_of_a_text() {
    let table = char_occurences_in_string("abracadabra").unwrap();
    assert_eq!(table.len(), 5);
    assert_eq!(table.get('a'), Some(&5));
    assert_eq!(table.get('b'), Some(&2));
    assert_eq!(table.get('r'), Some(&2));
    assert_eq!(table.get('c'), Some(&1));
    assert_eq!(table.get('d'), Some(&1));
    assert_eq!(table.get('z'), None);
    assert!(table.contains_key('a'));
    assert!(!table.contains_key('e'));
}

#[test]
fn counts_of_the_empty_text() {
    let table = char_occurences_in_string("").unwrap();
    assert!(table.is_empty());
    assert_eq!(table.len(), 0);
}

#[test]
fn table_hands_pairs_out_in_symbol_order() {
    let mut table = FrequencyTable::new();
    table.insert('z', 1);
    table.insert('a', 2);
    table.insert('m', 3);
    table.insert('a', 4);
    assert_eq!(table.len(), 3);
    assert_eq!(table.key_at(0), 'a');
    assert_eq!(*table.value_at(0), 4);
    assert_eq!(table.key_at(1), 'm');
    assert_eq!(*table.value_at(1), 3);
    assert_eq!(table.key_at(2), 'z');
    assert_eq!(*table.value_at(2), 1);
}

#[test]
fn tables_are_equal_however_they_were_filled() {
    let mut first = FrequencyTable::new();
    first.insert('x', 3);
    first.insert('a', 177);
    first.insert('f', 18);
    let mut second = FrequencyTable::new();
    second.insert('f', 18);
    second.insert('x', 3);
    second.insert('a', 177);
    assert_eq!(first, second);
}

#[test]
fn table_bytes_are_symbol_then_count() {
    let mut table = FrequencyTable::new();
    table.insert('b', 2);
    table.insert('a', 1);
    assert_eq!(save_tree(table), vec![0x61, 0x01, 0x62, 0x02]);
}

#[test]
fn table_bytes_of_a_wide_symbol_and_a_long_count() {
    let mut table = FrequencyTable::new();
    table.insert('⅓', 300);
    // U+2153 is E2 85 93 in UTF-8, and 300 is AC 02 in LEB128.
    assert_eq!(save_tree(table), vec![0xE2, 0x85, 0x93, 0xAC, 0x02]);
}

#[test]
fn table_bytes_of_the_largest_count() {
    let mut table = FrequencyTable::new();
    table.insert('a', u32::MAX);
    assert_eq!(save_tree(table), vec![0x61, 0xFF, 0xFF, 0xFF, 0xFF, 0x0F]);
}

#[test]
fn table_bytes_of_no_pairs() {
    assert_eq!(save_tree(FrequencyTable::new()), Vec::<u8>::new());
}

#[test]
fn reading_gives_the_place_behind_the_last_pair() {
    let code = [97, 1, 98, 2, 99, 3, 100];
    let (table, end) = read_character_counts(&code).unwrap();
    assert_eq!(table.len(), 3);
    assert_eq!(end, 6);
    let (table, end) = read_character_counts(&code[..6]).unwrap();
    assert_eq!(table.len(), 3);
    assert_eq!(end, 6);
}

#[test]
fn reading_what_was_written_gives_the_table_back() {
    let table = char_occurences_in_string("the quick brown fox — ¼ of a ⅓").unwrap();
    let copy = char_occurences_in_string("the quick brown fox — ¼ of a ⅓").unwrap();
    let bytes = save_tree(copy);
    let (read, end) = read_character_counts(&bytes).unwrap();
    assert_eq!(read, table);
    assert_eq!(end, bytes.len());
    assert!(!bytes.contains(&0));
}

#[test]
fn reading_a_long_count() {
    let code = [0x61, 0xAC, 0x02, 0x62, 0x80, 0x80, 0x01];
    let table = decode_character_counts(&code).unwrap();
    assert_eq!(table.get('a'), Some(&300));
    assert_eq!(table.get('b'), Some(&16384));
}

#[test]
fn reading_stops_at_a_count_that_breaks_off() {
    let code = [0x61, 0x05, 0x62, 0x80];
    let (table, end) = read_character_counts(&code).unwrap();
    assert_eq!(table.len(), 1);
    assert_eq!(table.get('a'), Some(&5));
    assert_eq!(end, 2);
}

#[test]
fn reading_stops_at_a_count_of_zero() {
    let code = [0x61, 0x05, 0x62, 0x00, 0x63, 0x01];
    let (table, end) = read_character_counts(&code).unwrap();
    assert_eq!(table.len(), 1);
    assert_eq!(end, 2);
}

#[test]
fn reading_stops_at_bytes_that_are_no_symbol() {
    let code = [0x61, 0x05, 0xFF, 0x01];
    let (table, end) = read_character_counts(&code).unwrap();
    assert_eq!(table.len(), 1);
    assert_eq!(end, 2);
    let code = [0x61, 0x05, 0xE2, 0x85];
    let (table, end) = read_character_counts(&code).unwrap();
    assert_eq!(table.len(), 1);
    assert_eq!(end, 2);
}

#[test]
fn reading_keeps_the_later_of_two_counts() {
    let code = [0x61, 0x05, 0x61, 0x07];
    let table = decode_character_counts(&code).unwrap();
    assert_eq!(table.len(), 1);
    assert_eq!(table.get('a'), Some(&7));
}

#[test]
fn reading_refuses_a_count_that_is_too_large() {
    // 2^32 in LEB128
    let code = [0x61, 0x80, 0x80, 0x80, 0x80, 0x10];
    assert_eq!(decode_character_counts(&code), Err(CodecError::CountOverflow));
    assert_eq!(
        read_character_counts(&code).map(|read| read.1),
        Err(CodecError::CountOverflow)
    );
    // the largest count that fits
    let code = [0x61, 0xFF, 0xFF, 0xFF, 0xFF, 0x0F];
    assert_eq!(
        decode_character_counts(&code).unwrap().get('a'),
        Some(&u32::MAX)
    );
}

#[test]
fn reading_stops_at_a_number_beyond_64_bits() {
    let code = [0x61, 0xFF, 0xFF, 0xFF, 0xFF, 0xFF, 0xFF, 0xFF, 0xFF, 0xFF, 0x02];
    let (table, end) = read_character_counts(&code).unwrap();
    assert!(table.is_empty());
    assert_eq!(end, 0);
}

#[test]
fn counts_of_a_text_given_symbol_by_symbol() {
    let symbols: Vec<char> = "abracadabra".chars().collect();
    let table = get_character_counts(&symbols).unwrap();
    assert_eq!(table, char_occurences_in_string("abracadabra").unwrap());
    assert_eq!(table.get('a'), Some(&5));
    assert!(get_character_counts(&Vec::new()).unwrap().is_empty());
}

#[test]
fn counts_lie_between_one_and_the_length_of_the_text() {
    let text = "so many symbols, some of them more than once";
    let table = char_occurences_in_string(text).unwrap();
    let mut sum = 0;
    for i in 0..table.len() {
        let count = *table.value_at(i) as usize;
        assert!(1 <= count && count <= text.chars().count());
        assert_eq!(count, text.chars().filter(|c| *c == table.key_at(i)).count());
        sum += count;
    }
    assert_eq!(sum, text.chars().count());
}
