use huff::error::CodecError;
use huff::{decode, encode};

fn round_trip(text: &str) {
    let encoded = encode(text).unwrap();
    let decoded = decode(&encoded).unwrap();
    assert_eq!(decoded, text);
}

#[test]
fn single_symbol_text() {
    let encoded = encode("aaa").unwrap();
    assert_eq!(encoded, vec![0x61, 0x03, 0x00, 0x00, 0x00, 0x00, 0x00]);
    assert_eq!(decode(&encoded).unwrap(), "aaa");
}

#[test]
fn two_symbol_text() {
    let encoded = encode("abb").unwrap();
    // a: 0, b: 1; the message is 011, padded with zero bits
    assert_eq!(
        encoded,
        vec![0x61, 0x01, 0x62, 0x02, 0x00, 0x00, 0x00, 0x00, 0x03, 0x60]
    );
    assert_eq!(decode(&encoded).unwrap(), "abb");
}

#[test]
fn empty_text_is_refused() {
    assert_eq!(encode(""), Err(CodecError::EmptyInput));
}

#[test]
fn null_character_is_refused() {
    assert_eq!(encode("a\0b"), Err(CodecError::UnsupportedSymbol));
    assert_eq!(encode("\0"), Err(CodecError::UnsupportedSymbol));
}

#[test]
fn missing_sentinel_is_malformed() {
    let mut encoded = encode("abb").unwrap();
    let at = encoded.iter().position(|&byte| byte == 0).unwrap();
    encoded.remove(at);
    // without the sentinel the first zero byte is the first byte of the length
    assert_eq!(
        decode(&encoded),
        Err(CodecError::MalformedArtifact { offset: encoded.len() })
    );
    assert_eq!(
        decode(&[0x61, 0x01, 0x62, 0x02]),
        Err(CodecError::MalformedArtifact { offset: 4 })
    );
    assert_eq!(decode(&[]), Err(CodecError::MalformedArtifact { offset: 0 }));
}

#[test]
fn length_beyond_the_message_is_malformed() {
    let mut encoded = encode("abb").unwrap();
    let at = encoded.iter().position(|&byte| byte == 0).unwrap();
    encoded[at + 4] = 9;
    assert_eq!(
        decode(&encoded),
        Err(CodecError::MalformedArtifact { offset: encoded.len() })
    );
    encoded[at + 4] = 8;
    assert_eq!(decode(&encoded).unwrap(), "abbaaaaa");
}

#[test]
fn truncated_length_is_malformed() {
    assert_eq!(
        decode(&[0x61, 0x01, 0x62, 0x02, 0x00, 0x00, 0x00, 0x00]),
        Err(CodecError::MalformedArtifact { offset: 8 })
    );
}

#[test]
fn table_that_breaks_off_is_malformed() {
    // the count of b is missing
    assert_eq!(
        decode(&[0x61, 0x01, 0x62, 0x00, 0x00, 0x00, 0x00, 0x01, 0x00]),
        Err(CodecError::MalformedArtifact { offset: 2 })
    );
    // 0xFF is no symbol
    assert_eq!(
        decode(&[0xFF, 0x01, 0x00, 0x00, 0x00, 0x00, 0x00]),
        Err(CodecError::MalformedArtifact { offset: 0 })
    );
}

#[test]
fn empty_table_is_refused() {
    assert_eq!(
        decode(&[0x00, 0x00, 0x00, 0x00, 0x00]),
        Err(CodecError::EmptyInput)
    );
}

#[test]
fn count_that_is_too_large_is_refused() {
    assert_eq!(
        decode(&[0x61, 0x80, 0x80, 0x80, 0x80, 0x10, 0x00, 0x00, 0x00, 0x00, 0x00]),
        Err(CodecError::CountOverflow)
    );
}

#[test]
fn message_that_ends_inside_a_code_is_corrupt() {
    // a: 11, b: 0, c: 10
    let table = [0x61, 0x02, 0x62, 0x02, 0x63, 0x01, 0x00];
    let mut artifact = table.to_vec();
    artifact.extend_from_slice(&[0x00, 0x00, 0x00, 0x01, 0x80]);
    assert_eq!(decode(&artifact), Err(CodecError::CorruptStream));
    let mut artifact = table.to_vec();
    artifact.extend_from_slice(&[0x00, 0x00, 0x00, 0x02, 0b0100_0000]);
    assert_eq!(decode(&artifact), Err(CodecError::CorruptStream));
    let mut artifact = table.to_vec();
    artifact.extend_from_slice(&[0x00, 0x00, 0x00, 0x03, 0b0110_0000]);
    assert_eq!(decode(&artifact).unwrap(), "ba");
    let mut artifact = table.to_vec();
    artifact.extend_from_slice(&[0x00, 0x00, 0x00, 0x05, 0b0111_0000]);
    assert_eq!(decode(&artifact).unwrap(), "bac");
}

#[test]
fn bits_for_a_single_symbol_are_corrupt() {
    assert_eq!(
        decode(&[0x61, 0x03, 0x00, 0x00, 0x00, 0x00, 0x01, 0x80]),
        Err(CodecError::CorruptStream)
    );
}

#[test]
fn three_symbol_text() {
    let encoded = encode("aabbc").unwrap();
    // a: 11, b: 0, c: 10; the message is 11 11 0 0 10
    assert_eq!(
        encoded,
        vec![0x61, 0x02, 0x62, 0x02, 0x63, 0x01, 0x00, 0x00, 0x00, 0x00, 0x08, 0b1111_0010]
    );
    assert_eq!(decode(&encoded).unwrap(), "aabbc");
}

#[test]
fn padding_and_trailing_bytes_are_ignored() {
    let mut encoded = encode("abb").unwrap();
    let last = encoded.len() - 1;
    encoded[last] |= 0b0001_1111;
    assert_eq!(decode(&encoded).unwrap(), "abb");
    encoded.push(0xFF);
    encoded.push(0x00);
    assert_eq!(decode(&encoded).unwrap(), "abb");
}

#[test]
fn message_of_exactly_one_byte() {
    let encoded = encode("abababab").unwrap();
    let at = encoded.iter().position(|&byte| byte == 0).unwrap();
    assert_eq!(&encoded[at + 1..at + 5], &[0, 0, 0, 8]);
    assert_eq!(encoded.len(), at + 6);
    assert_eq!(encoded[at + 5], 0b0101_0101);
    assert_eq!(decode(&encoded).unwrap(), "abababab");
}

#[test]
fn length_is_written_highest_byte_first() {
    let text = "ab".repeat(40_000);
    let encoded = encode(&text).unwrap();
    let at = encoded.iter().position(|&byte| byte == 0).unwrap();
    // 80 000 bits are 0x00013880
    assert_eq!(&encoded[at + 1..at + 5], &[0x00, 0x01, 0x38, 0x80]);
    assert_eq!(encoded.len(), at + 5 + 10_000);
    assert_eq!(decode(&encoded).unwrap(), text);
}

#[test]
fn fox_text() {
    round_trip("The quick brown fox jumps over the lazy dog");
}

#[test]
fn simple_text() {
    round_trip("aaaaabbbbcccdde");
    round_trip("ab");
    round_trip("a");
    round_trip("abc");
}

#[test]
fn utf8_text() {
    round_trip("µ¶¼⅓ — ‘quoted’ 日本語のテキスト 🦀🦀 end");
}

#[test]
fn example_text() {
    round_trip(
        "Lorem ipsum dolor sit amet, consectetur adipiscing elit, sed do eiusmod tempor \
         incididunt ut labore et dolore magna aliqua.\nUt enim ad minim veniam, quis nostrud \
         exercitation ullamco laboris nisi ut aliquip ex ea commodo consequat.\n",
    );
}

#[test]
fn long_text() {
    let mut text = String::new();
    for i in 0..20_000u32 {
        text.push(char::from_u32(0x21 + (i * i + 7 * i) % 90).unwrap());
        if i % 13 == 0 {
            text.push(' ');
        }
    }
    round_trip(&text);
}

#[test]
fn many_symbols_of_equal_count() {
    let text: String = (0x100u32..0x500).filter_map(char::from_u32).collect();
    round_trip(&text);
}

#[test]
fn single_symbol_with_a_long_count() {
    let text = "z".repeat(1000);
    let encoded = encode(&text).unwrap();
    assert_eq!(encoded, vec![0x7A, 0xE8, 0x07, 0x00, 0x00, 0x00, 0x00, 0x00]);
    assert_eq!(decode(&encoded).unwrap(), text);
}

#[test]
fn encoding_is_the_same_each_time() {
    let text = "the same text gives the same bytes";
    assert_eq!(encode(text).unwrap(), encode(text).unwrap());
}

#[test]
fn table_segment_has_no_zero_byte() {
    let encoded = encode("a text with many different symbols: µ¶¼⅓🦀").unwrap();
    let at = encoded.iter().position(|&byte| byte == 0).unwrap();
    let (read, end) = huff::decode::read_character_counts(&encoded[..at]).unwrap();
    assert_eq!(end, at);
    assert_eq!(
        read,
        huff::encode::char_occurences_in_string("a text with many different symbols: µ¶¼⅓🦀")
            .unwrap()
    );
}
