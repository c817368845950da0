use codecs::huffman::bits::{bits_to_bytes, push_byte, BitBundle};

#[test]
fn read_bit_goes_from_the_top_bit_down() {
    let data = [0b1010_0000u8, 0b0000_0001];
    let mut reader = BitBundle::new(&data);
    let mut seen = Vec::new();
    while let Some(bit) = reader.read_bit() {
        seen.push(bit);
    }
    assert_eq!(seen, vec![1, 0, 1, 0, 0, 0, 0, 0, 0, 0, 0, 0, 0, 0, 0, 1]);
    assert_eq!(reader.read_bit(), None);
}

#[test]
fn read_bit_on_an_empty_buffer_is_none() {
    let data: [u8; 0] = [];
    let mut reader = BitBundle::new(&data);
    assert_eq!(reader.read_bit(), None);
    assert_eq!(reader.read_byte(), None);
}

#[test]
fn read_byte_reads_across_a_byte_boundary() {
    let data = [0b1011_0000u8, 0b1000_0000];
    let mut reader = BitBundle::new(&data);
    assert_eq!(reader.read_bit(), Some(1));
    assert_eq!(reader.read_byte(), Some(0x61));
    assert_eq!(reader.read_bit(), Some(0));
}

#[test]
fn read_byte_with_fewer_than_eight_bits_left_uses_them_up() {
    let data = [0xFFu8, 0xFF];
    let mut reader = BitBundle::new(&data);
    assert_eq!(reader.read_byte(), Some(0xFF));
    assert_eq!(reader.read_bit(), Some(1));
    assert_eq!(reader.read_byte(), None);
    assert_eq!(reader.read_bit(), None);
}

#[test]
fn in_last_byte_tells_the_last_byte() {
    let data = [0u8, 0];
    let mut reader = BitBundle::new(&data);
    assert!(!reader.in_last_byte());
    for _ in 0..7 {
        reader.read_bit();
    }
    assert!(!reader.in_last_byte());
    reader.read_bit();
    assert!(reader.in_last_byte());
    for _ in 0..8 {
        reader.read_bit();
    }
    assert!(!reader.in_last_byte());
}

#[test]
fn bits_to_bytes_pads_the_last_byte_with_zeros() {
    let bits = vec![true, false, true, true, false, false, false, false, true];
    assert_eq!(bits_to_bytes(&bits), (vec![0b1011_0000, 0b1000_0000], 7));
}

#[test]
fn bits_to_bytes_of_whole_bytes_has_no_padding() {
    let bits = vec![false, true, false, true, false, true, false, true];
    assert_eq!(bits_to_bytes(&bits), (vec![0x55], 0));
    assert_eq!(bits_to_bytes(&Vec::new()), (Vec::new(), 0));
}

#[test]
fn push_byte_appends_eight_bits() {
    let mut bits = vec![true];
    push_byte(&mut bits, 0x61);
    assert_eq!(
        bits,
        vec![true, false, true, true, false, false, false, false, true]
    );
}

#[test]
fn packed_bits_read_back() {
    let bits: Vec<bool> = (0..37).map(|i| i % 3 == 0 || i % 5 == 0).collect();
    let (bytes, pad) = bits_to_bytes(&bits);
    assert_eq!(pad, 3);
    assert_eq!(bytes.len(), 5);
    let mut reader = BitBundle::new(&bytes);
    for (i, bit) in bits.iter().enumerate() {
        assert_eq!(reader.read_bit(), Some(*bit as u8), "bit {}", i);
    }
    for _ in 0..pad {
        assert_eq!(reader.read_bit(), Some(0));
    }
    assert_eq!(reader.read_bit(), None);
}
