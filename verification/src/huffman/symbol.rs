//! The byte form of a single symbol: its UTF-8 encoding.

use vstd::prelude::*;
use vstd::utf8::*;

verus! {

/// `char::from_u32` of the standard library: a number is turned into the
/// character with that scalar value, and refused when it is a surrogate or
/// lies above the last code point.
pub assume_specification[ char::from_u32 ](i: u32) -> (c: Option<char>)
    ensures
        is_scalar(i) ==> c == Some(i as char),
        !is_scalar(i) ==> c is None,
;

/// Every symbol is a Unicode scalar value.
pub proof fn lemma_symbol_range(c: char)
    ensures
        0 <= c as int <= 0xD7FF || 0xE000 <= c as int <= 0x10FFFF,
{
}

/// The bytes that stand for the symbol `c`: between one and four of them.
pub open spec fn symbol_bytes(c: char) -> Seq<u8> {
    encode_scalar(c as u32)
}

/// The number of bytes in the group that the lead byte `lead` announces.
pub open spec fn group_width(lead: u8) -> int {
    if lead < 0x80 {
        1
    } else if lead < 0xE0 {
        2
    } else if lead < 0xF0 {
        3
    } else {
        4
    }
}

/// The symbol that the byte group spells, if the group is the well-formed
/// encoding of exactly one symbol.
pub open spec fn group_symbol(group: Seq<u8>) -> Option<char> {
    if valid_first_scalar(group) && length_of_first_scalar(group) == group.len() {
        Some(decode_first_scalar(group) as char)
    } else {
        None
    }
}

/// The byte form of a symbol announces its own length and spells the symbol.
pub proof fn lemma_symbol_round_trip(c: char)
    ensures
        1 <= symbol_bytes(c).len() <= 4,
        symbol_bytes(c).len() == group_width(symbol_bytes(c)[0]),
        group_symbol(symbol_bytes(c)) == Some(c),
{
    let one = seq![c];
    assert(one.drop_first() =~= Seq::<char>::empty());
    assert(encode_utf8(one.drop_first()) =~= Seq::<u8>::empty()) by {
        reveal_with_fuel(encode_utf8, 2);
    }
    assert(encode_utf8(one) =~= symbol_bytes(c)) by {
        reveal_with_fuel(encode_utf8, 2);
    }
    encode_utf8_first_scalar(one);
    char_u32_cast(c, decode_first_scalar(symbol_bytes(c)));
}

/// The parts of a scalar value that go into single bytes fit into a byte.
proof fn lemma_encode_fits(v: u32)
    by (bit_vector)
    ensures
        v & 0x7F < 256,
        (v >> 6) & 0x1F < 256,
        (v >> 12) & 0x0F < 256,
        (v >> 18) & 0x7 < 256,
        v & 0x3F < 256,
        (v >> 6) & 0x3F < 256,
        (v >> 12) & 0x3F < 256,
{
}

/// The bytes that stand for the symbol `c`.
pub fn encode_symbol(c: char) -> (bytes: Vec<u8>)
    ensures
        bytes@ == symbol_bytes(c),
{
    let v: u32 = c as u32;
    proof {
        lemma_encode_fits(v);
    }
    let bytes: Vec<u8> = if v <= 0x7F {
        vec![(v & 0x7F) as u8]
    } else if v <= 0x7FF {
        vec![0xC0 | ((v >> 6) & 0x1F) as u8, 0x80 | (v & 0x3F) as u8]
    } else if v <= 0xFFFF {
        vec![
            0xE0 | ((v >> 12) & 0x0F) as u8,
            0x80 | ((v >> 6) & 0x3F) as u8,
            0x80 | (v & 0x3F) as u8,
        ]
    } else {
        vec![
            0xF0 | ((v >> 18) & 0x7) as u8,
            0x80 | ((v >> 12) & 0x3F) as u8,
            0x80 | ((v >> 6) & 0x3F) as u8,
            0x80 | (v & 0x3F) as u8,
        ]
    };
    assert(bytes@ =~= symbol_bytes(c));
    bytes
}

/// The number of bytes in the group that starts with `lead`.
pub fn width_of(lead: u8) -> (width: usize)
    ensures
        width == group_width(lead),
{
    if lead < 0x80 {
        1
    } else if lead < 0xE0 {
        2
    } else if lead < 0xF0 {
        3
    } else {
        4
    }
}

/// What the data bits of a group of each width spell at most.
proof fn lemma_decode_bounds(b0: u8, b1: u8, b2: u8, b3: u8)
    by (bit_vector)
    ensures
        (b0 & 0x7F) as u32 <= 0x7F,
        (((b0 & 0x1F) as u32) << 6) | ((b1 & 0x3F) as u32) <= 0x7FF,
        (((b0 & 0x0F) as u32) << 12) | (((b1 & 0x3F) as u32) << 6) | ((b2 & 0x3F) as u32)
            <= 0xFFFF,
        (((b0 & 0x07) as u32) << 18) | (((b1 & 0x3F) as u32) << 12) | (((b2 & 0x3F) as u32) << 6)
            | ((b3 & 0x3F) as u32) <= 0x1FFFFF,
{
}

/// Whether `byte` has the form of a continuation byte.
fn is_continuation(byte: u8) -> (yes: bool)
    ensures
        yes == is_continuation_byte(byte),
{
    0x80 <= byte && byte <= 0xBF
}

/// Reads a byte group back as the symbol that it spells. The result is `None`
/// unless the group is the byte form of exactly one symbol: a malformed,
/// overlong, surrogate or out-of-range group is refused, and so is one with
/// bytes missing or left over.
pub fn vec_to_char(bytes: Vec<u8>) -> (symbol: Option<char>)
    ensures
        symbol == group_symbol(bytes@),
{
    let n: usize = bytes.len();
    if n == 0 {
        return None;
    }
    let b0: u8 = bytes[0];
    let b1: u8 = if n > 1 { bytes[1] } else { 0 };
    let b2: u8 = if n > 2 { bytes[2] } else { 0 };
    let b3: u8 = if n > 3 { bytes[3] } else { 0 };
    proof {
        lemma_decode_bounds(b0, b1, b2, b3);
    }
    if b0 <= 0x7F {
        if n != 1 {
            return None;
        }
        let point: u32 = (b0 & 0x7F) as u32;
        char::from_u32(point)
    } else if 0xC0 <= b0 && b0 <= 0xDF {
        if n != 2 || !is_continuation(b1) {
            return None;
        }
        let point: u32 = (((b0 & 0x1F) as u32) << 6) | ((b1 & 0x3F) as u32);
        if point < 0x80 {
            return None;
        }
        char::from_u32(point)
    } else if 0xE0 <= b0 && b0 <= 0xEF {
        if n != 3 || !is_continuation(b1) || !is_continuation(b2) {
            return None;
        }
        let point: u32 = (((b0 & 0x0F) as u32) << 12) | (((b1 & 0x3F) as u32) << 6) | ((b2
            & 0x3F) as u32);
        if point < 0x800 || (0xD800 <= point && point <= 0xDFFF) {
            return None;
        }
        char::from_u32(point)
    } else if 0xF0 <= b0 && b0 <= 0xF7 {
        if n != 4 || !is_continuation(b1) || !is_continuation(b2) || !is_continuation(b3) {
            return None;
        }
        let point: u32 = (((b0 & 0x07) as u32) << 18) | (((b1 & 0x3F) as u32) << 12) | (((b2
            & 0x3F) as u32) << 6) | ((b3 & 0x3F) as u32);
        if point < 0x10000 || point > 0x10FFFF {
            return None;
        }
        char::from_u32(point)
    } else {
        None
    }
}

} // verus!
