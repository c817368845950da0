use codecs::huffman::symbol::{encode_symbol, vec_to_char, width_of};
use codecs::huffman::text::{render_bits, symbols, text_of};

#[test]
fn encode_symbol_gives_one_to_four_bytes() {
    assert_eq!(encode_symbol('a'), vec![0x61]);
    assert_eq!(encode_symbol('é'), vec![0xC3, 0xA9]);
    assert_eq!(encode_symbol('€'), vec![0xE2, 0x82, 0xAC]);
    assert_eq!(encode_symbol('😀'), vec![0xF0, 0x9F, 0x98, 0x80]);
}

#[test]
fn encode_symbol_at_the_edges_of_each_width() {
    for c in [
        '\u{0}', '\u{7F}', '\u{80}', '\u{7FF}', '\u{800}', '\u{D7FF}', '\u{E000}', '\u{FFFF}',
        '\u{10000}', '\u{10FFFF}',
    ] {
        let mut buffer = [0u8; 4];
        let expected = c.encode_utf8(&mut buffer).as_bytes().to_vec();
        let bytes = encode_symbol(c);
        assert_eq!(bytes, expected);
        assert_eq!(width_of(bytes[0]), bytes.len());
        assert_eq!(vec_to_char(bytes), Some(c));
    }
}

#[test]
fn every_symbol_reads_back_from_its_bytes() {
    let mut point: u32 = 0;
    while point <= 0x10FFFF {
        if let Some(c) = char::from_u32(point) {
            let mut buffer = [0u8; 4];
            let expected = c.encode_utf8(&mut buffer).as_bytes().to_vec();
            let bytes = encode_symbol(c);
            assert_eq!(bytes, expected);
            assert_eq!(vec_to_char(bytes), Some(c));
        }
        point += 7;
    }
}

#[test]
fn width_of_follows_the_lead_byte() {
    assert_eq!(width_of(0x00), 1);
    assert_eq!(width_of(0x7F), 1);
    assert_eq!(width_of(0x80), 2);
    assert_eq!(width_of(0xDF), 2);
    assert_eq!(width_of(0xE0), 3);
    assert_eq!(width_of(0xEF), 3);
    assert_eq!(width_of(0xF0), 4);
    assert_eq!(width_of(0xFF), 4);
}

#[test]
fn vec_to_char_refuses_malformed_groups() {
    assert_eq!(vec_to_char(vec![]), None);
    assert_eq!(vec_to_char(vec![0x80]), None);
    assert_eq!(vec_to_char(vec![0x80, 0x80]), None);
    assert_eq!(vec_to_char(vec![0xC3]), None);
    assert_eq!(vec_to_char(vec![0xC3, 0x41]), None);
    assert_eq!(vec_to_char(vec![0xE2, 0x82]), None);
    assert_eq!(vec_to_char(vec![0xE2, 0x82, 0x2C]), None);
    assert_eq!(vec_to_char(vec![0xF0, 0x9F, 0x98]), None);
    assert_eq!(vec_to_char(vec![0xF8, 0x88, 0x80, 0x80]), None);
    assert_eq!(vec_to_char(vec![0xFF, 0x80, 0x80, 0x80]), None);
}

#[test]
fn vec_to_char_refuses_overlong_and_forbidden_values() {
    assert_eq!(vec_to_char(vec![0xC0, 0x80]), None);
    assert_eq!(vec_to_char(vec![0xC1, 0xBF]), None);
    assert_eq!(vec_to_char(vec![0xE0, 0x9F, 0xBF]), None);
    assert_eq!(vec_to_char(vec![0xED, 0xA0, 0x80]), None);
    assert_eq!(vec_to_char(vec![0xED, 0xBF, 0xBF]), None);
    assert_eq!(vec_to_char(vec![0xF0, 0x8F, 0xBF, 0xBF]), None);
    assert_eq!(vec_to_char(vec![0xF4, 0x90, 0x80, 0x80]), None);
}

#[test]
fn vec_to_char_refuses_bytes_left_over() {
    assert_eq!(vec_to_char(vec![0x61, 0x62]), None);
    assert_eq!(vec_to_char(vec![0xC3, 0xA9, 0x61]), None);
    assert_eq!(vec_to_char(vec![0xE2, 0x82, 0xAC, 0x80]), None);
}

#[test]
fn vec_to_char_agrees_with_the_standard_decoder() {
    let mut state: u32 = 12345;
    for _ in 0..200_000 {
        state = state.wrapping_mul(1664525).wrapping_add(1013904223);
        let len = (state >> 30) as usize + 1;
        let mut bytes = Vec::new();
        let mut s = state;
        for _ in 0..len {
            s = s.wrapping_mul(1664525).wrapping_add(1013904223);
            bytes.push((s >> 24) as u8);
        }
        let expected = match std::str::from_utf8(&bytes) {
            Ok(text) if text.chars().count() == 1 => text.chars().next(),
            _ => None,
        };
        assert_eq!(vec_to_char(bytes.clone()), expected, "{:?}", bytes);
    }
}

#[test]
fn symbols_and_text_of_are_inverse() {
    let text = "a€😀b é";
    let chars = symbols(text);
    assert_eq!(chars, vec!['a', '€', '😀', 'b', ' ', 'é']);
    assert_eq!(text_of(&chars), text);
    assert_eq!(symbols(""), Vec::<char>::new());
    assert_eq!(text_of(&Vec::new()), "");
}

#[test]
fn render_bits_writes_zeros_and_ones() {
    assert_eq!(render_bits(&vec![true, false, false, true]), "1001");
    assert_eq!(render_bits(&Vec::new()), "");
}
