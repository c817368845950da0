use codecs::huffman::error::HuffmanError;
use codecs::huffman::tree::Node;
use codecs::huffman::{
    decode_from_bitstream, decode_payload, easy_encode, encode_to_bitstream, payload_table,
    recombine_u16, split_u16,
};

fn bits(text: &str) -> Vec<bool> {
    text.chars().map(|c| c == '1').collect()
}

fn round_trip(text: &str) {
    let bytes = encode_to_bitstream(text).unwrap();
    assert_eq!(decode_from_bitstream(&bytes).unwrap(), text);
}

#[test]
fn split_u16_is_big_endian() {
    assert_eq!(split_u16(0), vec![0, 0]);
    assert_eq!(split_u16(7), vec![0, 7]);
    assert_eq!(split_u16(0x1234), vec![0x12, 0x34]);
    assert_eq!(split_u16(0xFFFF), vec![0xFF, 0xFF]);
}

#[test]
fn recombine_u16_is_big_endian() {
    assert_eq!(recombine_u16(&[0, 0]), 0);
    assert_eq!(recombine_u16(&[0, 7]), 7);
    assert_eq!(recombine_u16(&[0x12, 0x34]), 0x1234);
    assert_eq!(recombine_u16(&[0xFF, 0xFF, 0x55]), 0xFFFF);
}

#[test]
fn container_of_abracadabra() {
    assert_eq!(
        encode_to_bitstream("abracadabra"),
        Ok(vec![0, 7, 88, 75, 29, 145, 98, 185, 0, 1, 110, 138, 220])
    );
}

#[test]
fn round_trip_abracadabra() {
    round_trip("abracadabra");
}

#[test]
fn abracadabra_payload_is_smaller_than_the_text() {
    let bytes = encode_to_bitstream("abracadabra").unwrap();
    let tree_len = (bytes[0] as usize) * 256 + bytes[1] as usize;
    let payload = &bytes[3 + tree_len..];
    assert!(payload.len() < 11);
    assert_eq!(payload.len(), 3);
    assert_eq!(bytes[2 + tree_len], 1);
}

#[test]
fn container_of_a_single_symbol_text() {
    let bytes = encode_to_bitstream("aaaa").unwrap();
    assert_eq!(bytes, vec![0, 2, 0xB0, 0x80, 4, 0x00]);
    assert_eq!(decode_from_bitstream(&bytes).unwrap(), "aaaa");
}

#[test]
fn single_symbol_texts_round_trip() {
    round_trip("a");
    round_trip("aaaaaaaa");
    round_trip("aaaaaaaaa");
    round_trip("語語語");
    let long = "x".repeat(1000);
    round_trip(&long);
}

#[test]
fn single_symbol_payload_with_a_one_bit_fails() {
    assert_eq!(
        decode_from_bitstream(&[0, 2, 0xB0, 0x80, 4, 0x40]),
        Err(HuffmanError::DecodeError)
    );
}

#[test]
fn empty_text_is_refused() {
    assert_eq!(encode_to_bitstream(""), Err(HuffmanError::EmptyInput));
    assert!(matches!(easy_encode(""), Err(HuffmanError::EmptyInput)));
}

#[test]
fn empty_container_is_malformed() {
    assert_eq!(decode_from_bitstream(&[]), Err(HuffmanError::MalformedInput));
}

#[test]
fn short_container_is_malformed() {
    assert_eq!(
        decode_from_bitstream(&[0, 0, 0]),
        Err(HuffmanError::MalformedInput)
    );
    assert_eq!(
        decode_from_bitstream(&[0, 2, 0xB0]),
        Err(HuffmanError::MalformedInput)
    );
}

#[test]
fn tree_that_takes_the_whole_container_leaves_no_payload() {
    assert_eq!(
        decode_from_bitstream(&[0, 3, 0xB0, 0x80, 4, 0x00]),
        Err(HuffmanError::DecodeError)
    );
}

#[test]
fn tree_longer_than_the_container_is_malformed() {
    assert_eq!(
        decode_from_bitstream(&[0, 4, 0xB0, 0x80, 4, 0x00]),
        Err(HuffmanError::MalformedInput)
    );
    assert_eq!(
        decode_from_bitstream(&[0xFF, 0xFF, 0xB0, 0x80, 4, 0x00]),
        Err(HuffmanError::MalformedInput)
    );
}

#[test]
fn container_without_a_tree_fails_to_decode() {
    assert_eq!(
        decode_from_bitstream(&[0, 0, 0, 0]),
        Err(HuffmanError::DecodeError)
    );
    assert_eq!(
        decode_from_bitstream(&[0, 1, 0x00, 0]),
        Err(HuffmanError::DecodeError)
    );
}

#[test]
fn container_without_payload_fails_to_decode() {
    assert_eq!(
        decode_from_bitstream(&[0, 2, 0xB0, 0x80, 0]),
        Err(HuffmanError::DecodeError)
    );
    assert_eq!(
        decode_from_bitstream(&[0, 2, 0xB0, 0x80, 8, 0x00]),
        Err(HuffmanError::DecodeError)
    );
}

#[test]
fn padding_count_above_eight_counts_as_eight() {
    assert_eq!(
        decode_from_bitstream(&[0, 3, 88, 108, 64, 200, 0x55, 0xFF]).unwrap(),
        "abababab"
    );
    assert_eq!(
        decode_from_bitstream(&[0, 3, 88, 108, 64, 8, 0x55, 0xFF]).unwrap(),
        "abababab"
    );
}

#[test]
fn truncated_payload_is_detected() {
    let bytes = encode_to_bitstream("go go gophers").unwrap();
    assert_eq!(
        bytes,
        vec![0, 10, 44, 246, 242, 231, 32, 46, 22, 133, 150, 228, 3, 26, 52, 115, 123, 224]
    );
    let cut = &bytes[..bytes.len() - 1];
    assert_eq!(decode_from_bitstream(cut), Err(HuffmanError::DecodeError));
}

#[test]
fn payload_of_one_byte_that_is_lost_is_detected() {
    for text in ["ab", "café", "日本語", "aaaa"] {
        let bytes = encode_to_bitstream(text).unwrap();
        let cut = &bytes[..bytes.len() - 1];
        assert_eq!(decode_from_bitstream(cut), Err(HuffmanError::DecodeError));
    }
}

#[test]
fn payload_cut_at_the_end_of_a_code_reads_as_a_shorter_text() {
    let bytes = encode_to_bitstream("abracadabra").unwrap();
    let cut = &bytes[..bytes.len() - 1];
    assert_eq!(decode_from_bitstream(cut).unwrap(), "abracad");
}

#[test]
fn multi_byte_symbols_round_trip() {
    assert_eq!(
        encode_to_bitstream("café"),
        Ok(vec![0, 6, 44, 118, 21, 155, 135, 82, 0, 27])
    );
    assert_eq!(
        encode_to_bitstream("日本語"),
        Ok(vec![0, 10, 122, 42, 167, 158, 105, 122, 95, 52, 229, 96, 3, 176])
    );
    round_trip("café");
    round_trip("日本語");
    round_trip("a€😀b€a é 日本語 \u{10FFFF}\u{0}\u{7F}\u{80}\u{7FF}\u{800}\u{FFFF}\u{10000}");
}

#[test]
fn longer_texts_round_trip() {
    round_trip("hello world");
    round_trip("the quick brown fox jumps over the lazy dog");
    round_trip(
        "Lorem ipsum dolor sit amet, consectetur adipiscing elit, sed do eiusmod tempor \
         incididunt ut labore et dolore magna aliqua. Ut enim ad minim veniam, quis nostrud \
         exercitation ullamco laboris nisi ut aliquip ex ea commodo consequat.",
    );
    let mut text = String::new();
    let mut state: u32 = 7;
    for _ in 0..5000 {
        state = state.wrapping_mul(1103515245).wrapping_add(12345);
        let point = 0x20 + (state >> 16) % 600;
        text.push(char::from_u32(point).unwrap());
    }
    round_trip(&text);
}

#[test]
fn text_with_too_many_symbols_has_no_container() {
    let mut text = String::new();
    for i in 0..15500u32 {
        text.push(char::from_u32(0x10000 + i).unwrap());
    }
    assert_eq!(encode_to_bitstream(&text), Err(HuffmanError::TreeTooLarge));
    assert!(easy_encode(&text).is_ok());
}

#[test]
fn largest_tree_that_fits_round_trips() {
    let mut text = String::new();
    for i in 0..15420u32 {
        text.push(char::from_u32(0x10000 + i).unwrap());
    }
    let bytes = encode_to_bitstream(&text).unwrap();
    assert_eq!((bytes[0], bytes[1]), (0xFF, 0xFF));
    assert_eq!(decode_from_bitstream(&bytes).unwrap(), text);
}

#[test]
fn easy_encode_of_abracadabra() {
    let (codes, encoded) = easy_encode("abracadabra").unwrap();
    assert_eq!(encoded, "01101110100010101101110");
    assert_eq!(codes.get('a'), Some(&bits("0")));
    assert_eq!(codes.get('b'), Some(&bits("110")));
    assert_eq!(codes.get('r'), Some(&bits("111")));
    assert_eq!(codes.get('c'), Some(&bits("100")));
    assert_eq!(codes.get('d'), Some(&bits("101")));
    assert_eq!(codes.get('e'), None);
}

#[test]
fn easy_encode_of_a_single_symbol_text_has_no_bits() {
    let (codes, encoded) = easy_encode("aaaa").unwrap();
    assert_eq!(encoded, "");
    assert_eq!(codes.get('a'), Some(&Vec::new()));
}

#[test]
fn payload_table_of_a_leaf_is_one_zero_bit() {
    let table = payload_table(&Node::new_leaf('a'));
    assert_eq!(table.get('a'), Some(&bits("0")));
    let tree = Node::new_node(Box::new(Node::new_leaf('a')), Box::new(Node::new_leaf('b')));
    let table = payload_table(&tree);
    assert_eq!(table.get('a'), Some(&bits("0")));
    assert_eq!(table.get('b'), Some(&bits("1")));
}

#[test]
fn decode_payload_walks_the_tree() {
    let tree = Node::new_node(
        Box::new(Node::new_leaf('a')),
        Box::new(Node::new_node(
            Box::new(Node::new_leaf('b')),
            Box::new(Node::new_leaf('c')),
        )),
    );
    assert_eq!(
        decode_payload(&tree, &[0b0101_1000], 3),
        Some(vec!['a', 'b', 'c'])
    );
    assert_eq!(
        decode_payload(&tree, &[0b0101_1000], 0),
        Some(vec!['a', 'b', 'c', 'a', 'a', 'a'])
    );
    assert_eq!(decode_payload(&tree, &[0b0101_1000], 4), None);
    assert_eq!(decode_payload(&tree, &[0b0101_1000, 0b1000_0000], 7), None);
    assert_eq!(decode_payload(&tree, &[], 0), None);
    assert_eq!(decode_payload(&tree, &[0x00], 8), None);
    assert_eq!(
        decode_payload(&tree, &[0x00, 0xFF], 8),
        Some(vec!['a'; 8])
    );
}

#[test]
fn error_messages() {
    assert_eq!(HuffmanError::EmptyInput.message(), "Input string is empty.");
    assert_eq!(HuffmanError::MalformedInput.message(), "Malformed input.");
    assert_eq!(
        HuffmanError::DecodeError.message(),
        "Corrupt or truncated data."
    );
    assert_eq!(
        HuffmanError::TreeTooLarge.message(),
        "Too many distinct symbols."
    );
}
