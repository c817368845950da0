use codecs::huffman::bits::bits_to_bytes;
use codecs::huffman::decode_from_bitstream;
use codecs::huffman::error::HuffmanError;
use codecs::huffman::serial::des_tree;

fn push_leaf(bits: &mut Vec<bool>, symbol: u8) {
    bits.push(true);
    for j in 0..8 {
        bits.push((symbol >> (7 - j)) & 1 == 1);
    }
}

fn container(tree_bits: &Vec<bool>, pad: u8, payload: &[u8]) -> Vec<u8> {
    let (section, _) = bits_to_bytes(tree_bits);
    let mut bytes = vec![(section.len() >> 8) as u8, (section.len() & 0xFF) as u8];
    bytes.extend(section);
    bytes.push(pad);
    bytes.extend_from_slice(payload);
    bytes
}

#[test]
fn tree_section_of_zeros_fails_to_decode() {
    let zeros = vec![0u8; 65535];
    assert_eq!(des_tree(&zeros), Err(HuffmanError::DecodeError));
}

#[test]
fn container_with_a_tree_section_of_zeros_fails_to_decode() {
    let mut bytes = vec![0xFFu8, 0xFF];
    bytes.extend(vec![0u8; 65535]);
    bytes.push(0);
    bytes.push(0);
    assert_eq!(decode_from_bitstream(&bytes), Err(HuffmanError::DecodeError));
}

#[test]
fn tree_that_leans_far_to_the_right_is_decoded() {
    let depth = 50_000;
    let mut bits = Vec::new();
    for _ in 0..depth {
        bits.push(false);
        push_leaf(&mut bits, b'a');
    }
    push_leaf(&mut bits, b'b');
    let bytes = container(&bits, 5, &[0b0100_0000]);
    assert_eq!(decode_from_bitstream(&bytes).unwrap(), "aa");
    let mut payload = vec![0xFFu8; depth / 8];
    payload.push(0x00);
    let bytes = container(&bits, 7, &payload);
    assert_eq!(decode_from_bitstream(&bytes).unwrap(), "ba");
}

#[test]
fn tree_that_leans_far_to_the_left_is_decoded() {
    let depth = 50_000;
    let mut bits = Vec::new();
    for _ in 0..depth {
        bits.push(false);
    }
    push_leaf(&mut bits, b'b');
    for _ in 0..depth {
        push_leaf(&mut bits, b'a');
    }
    let bytes = container(&bits, 6, &[0b1100_0000]);
    assert_eq!(decode_from_bitstream(&bytes).unwrap(), "aa");
    let mut payload = vec![0x00u8; depth / 8];
    payload.push(0x80);
    let bytes = container(&bits, 7, &payload);
    assert_eq!(decode_from_bitstream(&bytes).unwrap(), "ba");
}
