//! Huffman coding over Unicode scalar values.
//!
//! A text is compressed by giving each of its symbols a code of bits, short
//! codes for frequent symbols. The codes are the paths of a binary tree that
//! is built from the symbol counts. A container holds that tree and the
//! encoded text:
//!
//! ```text
//! [0, 2)        length L of the tree section, big-endian
//! [2, 2 + L)    the tree, as packed bits
//! [2 + L]       the number of padding bits in the last byte of the payload
//! [3 + L, end)  the payload: the codes of the symbols, as packed bits
//! ```
//!
//! - [`easy_encode`] shows the codes and the encoded bits of a text.
//! - [`encode_to_bitstream`] writes a text into a container.
//! - [`decode_from_bitstream`] reads the text back out of a container.

pub mod bits;
pub mod builder;
pub mod codes;
pub mod cost;
pub mod error;
pub mod laws;
pub mod lengths;
pub mod prefix;
pub mod serial;
pub mod symbol;
pub mod text;
pub mod tree;

use self::bits::{bit_of, bits_of, bits_to_bytes, pack_bits, pad_len};
use self::builder::{gen_tree, huffman_tree, lemma_huffman_tree_leaves};
use self::codes::{assign_codes, encode, CodeTable};
use self::error::HuffmanError;
use self::serial::{des_tree, parsed_tree, ser_tree};
use self::text::{bit_text, render_bits, text_of};
use self::tree::{dismantle, encode_with, prepend, Node};
use vstd::prelude::*;
use vstd::slice::slice_subrange;

verus! {

/// A length written in two bytes, the high byte first.
pub open spec fn length_bytes(n: nat) -> Seq<u8> {
    seq![(n / 256) as u8, (n % 256) as u8]
}

/// The container that holds `tree` and the text `text` encoded with it.
pub open spec fn container(tree: Node, text: Seq<char>) -> Seq<u8> {
    let section = pack_bits(tree.tree_bits());
    let payload = tree.payload_bits(text);
    length_bytes(section.len()) + section + seq![pad_len(payload.len()) as u8] + pack_bits(
        payload,
    )
}

/// What encoding gives for `text`: its container, or the reason why it has
/// none.
pub open spec fn encoded(text: Seq<char>) -> Result<Seq<u8>, HuffmanError> {
    if text.len() == 0 {
        Err(HuffmanError::EmptyInput)
    } else if pack_bits(huffman_tree(text).tree_bits()).len() > 0xFFFF {
        Err(HuffmanError::TreeTooLarge)
    } else {
        Ok(container(huffman_tree(text), text))
    }
}

/// The bits of the payload bytes `data` that count: all of them but the
/// last `pad` bits of the last byte. A `pad` above 8 counts as 8.
pub open spec fn payload_window(data: Seq<u8>, pad: u8) -> Seq<bool> {
    if data.len() == 0 {
        Seq::empty()
    } else {
        bits_of(data).take(
            8 * data.len() - if pad < 8 {
                pad as int
            } else {
                8
            },
        )
    }
}

/// The text that the payload bytes `data` spell under `tree`. There is none
/// when no bit counts, and none when the bits do not end with the end of a
/// code.
pub open spec fn payload_text(tree: Node, data: Seq<u8>, pad: u8) -> Option<Seq<char>> {
    let bits = payload_window(data, pad);
    if bits.len() == 0 {
        None
    } else {
        tree.decode_bits(bits)
    }
}

/// What decoding gives for the container `bytes`: its text, or the reason
/// why it has none.
pub open spec fn decoded(bytes: Seq<u8>) -> Result<Seq<char>, HuffmanError> {
    if bytes.len() < 4 {
        Err(HuffmanError::MalformedInput)
    } else {
        let n = bytes[0] as int * 256 + bytes[1] as int;
        if 3 + n > bytes.len() {
            Err(HuffmanError::MalformedInput)
        } else {
            match parsed_tree(bytes.subrange(2, 2 + n)) {
                None => Err(HuffmanError::DecodeError),
                Some(tree) => match payload_text(
                    tree,
                    bytes.subrange(3 + n, bytes.len() as int),
                    bytes[2 + n],
                ) {
                    None => Err(HuffmanError::DecodeError),
                    Some(text) => Ok(text),
                },
            }
        }
    }
}

/// Splits a 16-bit length into its high and its low byte.
pub fn split_u16(value: u16) -> (bytes: Vec<u8>)
    ensures
        bytes@ == length_bytes(value as nat),
{
    let high: u8 = (value >> 8) as u8;
    let low: u8 = (value & 0xFF) as u8;
    assert(((value >> 8) as u8) as int == value as int / 256) by (bit_vector);
    assert(((value & 0xFF) as u8) as int == value as int % 256) by (bit_vector);
    let bytes: Vec<u8> = vec![high, low];
    assert(bytes@ =~= length_bytes(value as nat));
    bytes
}

/// Reads a length from its high and its low byte.
pub fn recombine_u16(bytes: &[u8]) -> (value: usize)
    requires
        bytes@.len() >= 2,
    ensures
        value == bytes@[0] as int * 256 + bytes@[1] as int,
{
    let high: u8 = bytes[0];
    let low: u8 = bytes[1];
    assert(((high as usize) << 8) | (low as usize) == high as usize * 256 + low as usize)
        by (bit_vector);
    (high as usize) << 8 | low as usize
}

/// The table that the payload is written with: the code table of `tree`,
/// but for a single-leaf tree one 0 bit for its symbol.
pub fn payload_table(tree: &Node) -> (table: CodeTable)
    ensures
        table@ == tree.payload_codes(),
{
    match tree {
        Node::Leaf { symbol } => {
            let mut table = CodeTable::new();
            let code: Vec<bool> = vec![false];
            assert(code@ =~= seq![false]);
            table.insert(*symbol, code);
            assert(table@ =~= tree.payload_codes());
            table
        },
        Node::Internal { .. } => assign_codes(tree),
    }
}

/// Reads the payload bytes `data` as a text: bit by bit down the tree, a
/// symbol at each leaf, then from the root again. The last `pad` bits of
/// the last byte are not read. The result is `None` when no bit is read,
/// or when the bits end in the middle of a code.
pub fn decode_payload(tree: &Node, data: &[u8], pad: u8) -> (text: Option<Vec<char>>)
    ensures
        match text {
            Some(chars) => payload_text(*tree, data@, pad) == Some(chars@),
            None => payload_text(*tree, data@, pad) is None,
        },
{
    let n: usize = data.len();
    let skip: u8 = if pad < 8 { pad } else { 8 };
    if n == 0 || (n == 1 && skip == 8) {
        return None;
    }
    let ghost window = payload_window(data@, pad);
    let mut out: Vec<char> = Vec::new();
    let mut at: &Node = tree;
    let mut fresh: bool = true;
    let mut k: usize = 0;
    proof {
        assert(window.skip(0) =~= window);
        assert(Seq::<char>::empty() + tree.decode_bits(window)->0 =~= tree.decode_bits(
            window,
        )->0);
    }
    while k < n
        invariant
            n == data@.len(),
            n > 0,
            skip == if pad < 8 { pad } else { 8 },
            window == payload_window(data@, pad),
            window.len() == 8 * n - skip,
            window.len() > 0,
            k <= n,
            8 * k <= window.len() || k == n,
            fresh ==> *at == *tree,
            !fresh ==> *at is Internal,
            tree.decode_bits(window) == prepend(
                out@,
                if fresh {
                    tree.decode_bits(window.skip(if k == n { window.len() as int } else { 8 * k }))
                } else {
                    tree.resume(*at, window.skip(if k == n { window.len() as int } else { 8 * k }))
                },
            ),
        decreases n - k,
    {
        let byte: u8 = data[k];
        let limit: u8 = if k == n - 1 { 8 - skip } else { 8 };
        let mut j: u8 = 0;
        while j < limit
            invariant
                n == data@.len(),
                k < n,
                byte == data@[k as int],
                limit == if k == n - 1 { 8 - skip } else { 8 },
                skip <= 8,
                window == payload_window(data@, pad),
                window.len() == 8 * n - skip,
                j <= limit,
                fresh ==> *at == *tree,
                !fresh ==> *at is Internal,
                tree.decode_bits(window) == prepend(
                    out@,
                    if fresh {
                        tree.decode_bits(window.skip(8 * k + j))
                    } else {
                        tree.resume(*at, window.skip(8 * k + j))
                    },
                ),
            decreases limit - j,
        {
            let bit: bool = (byte >> (7 - j)) & 1 == 1;
            let ghost rest = window.skip(8 * k + j);
            let ghost tail = window.skip(8 * k + j + 1);
            let ghost before = out@;
            proof {
                assert(rest.len() > 0);
                assert(rest[0] == window[8 * k + j]);
                assert(window[8 * k + j] == bits_of(data@)[8 * k + j]);
                assert(bit == bit_of(byte, j as int));
                assert(rest.drop_first() =~= tail);
            }
            match at {
                Node::Leaf { symbol } => {
                    if bit {
                        return None;
                    }
                    out.push(*symbol);
                    proof {
                        assert(rest.skip(1) =~= tail);
                        match tree.decode_bits(tail) {
                            Some(more) => {
                                assert(before + (seq![*symbol] + more) =~= out@ + more);
                            },
                            None => {},
                        }
                    }
                },
                Node::Internal { left, right } => {
                    proof {
                        if fresh {
                            tree.lemma_decode_is_resume(rest);
                        }
                        tree.lemma_resume_step(*at, rest);
                    }
                    let child: &Node = if bit { right } else { left };
                    match child {
                        Node::Leaf { symbol } => {
                            out.push(*symbol);
                            at = tree;
                            fresh = true;
                            proof {
                                match tree.decode_bits(tail) {
                                    Some(more) => {
                                        assert(before + (seq![*symbol] + more) =~= out@ + more);
                                    },
                                    None => {},
                                }
                            }
                        },
                        Node::Internal { .. } => {
                            at = child;
                            fresh = false;
                        },
                    }
                },
            }
            j += 1;
        }
        k += 1;
    }
    proof {
        assert(window.skip(window.len() as int) =~= Seq::<bool>::empty());
    }
    if !fresh {
        return None;
    }
    proof {
        assert(out@ + Seq::<char>::empty() =~= out@);
    }
    Some(out)
}

/// The code table of `input` and its encoded bits, written with the
/// characters `0` and `1`. A text of one distinct symbol has the empty code
/// for it, and no bits.
pub fn easy_encode(input: &str) -> (result: Result<(CodeTable, String), HuffmanError>)
    ensures
        input@.len() == 0 ==> result == Err::<(CodeTable, String), HuffmanError>(
            HuffmanError::EmptyInput,
        ),
        input@.len() > 0 ==> result is Ok && result->Ok_0.0@ == huffman_tree(input@).codes()
            && result->Ok_0.1@ == bit_text(encode_with(huffman_tree(input@).codes(), input@)),
{
    let tree: Node = match gen_tree(input) {
        Ok(tree) => tree,
        Err(e) => {
            return Err(e);
        },
    };
    let codes: CodeTable = assign_codes(&tree);
    proof {
        lemma_huffman_tree_leaves(input@);
        tree.lemma_codes_dom();
        assert forall|i: int| 0 <= i < input@.len() implies codes@.contains_key(
            #[trigger] input@[i],
        ) by {
            assert(input@.contains(input@[i]));
        }
    }
    let bits: Vec<bool> = encode(input, &codes);
    let encoded: String = render_bits(&bits);
    Ok((codes, encoded))
}

/// Writes `input` into a container: the length of the tree section, the
/// code tree, the number of padding bits, and the encoded text.
///
/// An empty text has no container. Neither has a text whose tree section
/// would be longer than the two length bytes can say.
pub fn encode_to_bitstream(input: &str) -> (result: Result<Vec<u8>, HuffmanError>)
    ensures
        match result {
            Ok(bytes) => encoded(input@) == Ok::<Seq<u8>, HuffmanError>(bytes@),
            Err(e) => encoded(input@) == Err::<Seq<u8>, HuffmanError>(e),
        },
{
    let tree: Node = match gen_tree(input) {
        Ok(tree) => tree,
        Err(e) => {
            return Err(e);
        },
    };
    let table: CodeTable = payload_table(&tree);
    proof {
        lemma_huffman_tree_leaves(input@);
        tree.lemma_codes_dom();
        assert forall|i: int| 0 <= i < input@.len() implies table@.contains_key(
            #[trigger] input@[i],
        ) by {
            assert(input@.contains(input@[i]));
            assert(tree.codes().contains_key(input@[i]));
        }
    }
    let payload: Vec<bool> = encode(input, &table);
    let packed: (Vec<u8>, u8) = bits_to_bytes(&payload);
    let section: Vec<u8> = ser_tree(tree);
    if section.len() > 0xFFFF {
        return Err(HuffmanError::TreeTooLarge);
    }
    let mut glob: Vec<u8> = split_u16(section.len() as u16);
    let mut i: usize = 0;
    while i < section.len()
        invariant
            i <= section.len(),
            glob@ == length_bytes(section@.len()) + section@.take(i as int),
        decreases section.len() - i,
    {
        glob.push(section[i]);
        assert(section@.take(i + 1) =~= section@.take(i as int).push(section@[i as int]));
        i += 1;
    }
    assert(section@.take(section.len() as int) =~= section@);
    glob.push(packed.1);
    let ghost head = glob@;
    let mut j: usize = 0;
    while j < packed.0.len()
        invariant
            j <= packed.0.len(),
            glob@ == head + packed.0@.take(j as int),
        decreases packed.0.len() - j,
    {
        glob.push(packed.0[j]);
        assert(packed.0@.take(j + 1) =~= packed.0@.take(j as int).push(packed.0@[j as int]));
        j += 1;
    }
    assert(packed.0@.take(packed.0.len() as int) =~= packed.0@);
    assert(glob@ =~= container(huffman_tree(input@), input@));
    Ok(glob)
}

/// Reads the text out of a container.
///
/// The container is malformed when it has fewer than 4 bytes, or when the
/// tree section that it announces and the byte with the padding count do
/// not fit into it. It fails to decode when the tree section does not spell
/// a tree, when the payload holds no bit, or when the payload ends in the
/// middle of a code.
pub fn decode_from_bitstream(input: &[u8]) -> (result: Result<String, HuffmanError>)
    ensures
        match result {
            Ok(text) => decoded(input@) == Ok::<Seq<char>, HuffmanError>(text@),
            Err(e) => decoded(input@) == Err::<Seq<char>, HuffmanError>(e),
        },
{
    if input.len() < 4 {
        return Err(HuffmanError::MalformedInput);
    }
    let tree_len: usize = recombine_u16(slice_subrange(input, 0, 2));
    if tree_len > input.len() - 3 {
        return Err(HuffmanError::MalformedInput);
    }
    let tree_bytes: &[u8] = slice_subrange(input, 2, 2 + tree_len);
    let pack: u8 = input[2 + tree_len];
    let data: &[u8] = slice_subrange(input, 3 + tree_len, input.len());
    let tree: Node = match des_tree(tree_bytes) {
        Ok(tree) => tree,
        Err(e) => {
            return Err(e);
        },
    };
    let text: Option<Vec<char>> = decode_payload(&tree, data, pack);
    dismantle(tree);
    match text {
        Some(chars) => Ok(text_of(&chars)),
        None => Err(HuffmanError::DecodeError),
    }
}

} // verus!
