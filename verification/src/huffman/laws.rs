//! What holds of the codec as a whole.

use super::bits::{bits_of, lemma_bits_of_pack, pack_bits, pad_len};
use super::builder::{
    distinct, huffman_tree, initial_forest, lemma_distinct, lemma_huffman_tree_leaves,
};
use super::cost::{
    code_lengths, lemma_cost_in, lemma_encoded_cost, lemma_encoded_len, lemma_leaf_forest_cost,
    lemma_merge_tree_cost, tally,
};
use super::error::HuffmanError;
use super::lengths::{first_max, lemma_first_max, lemma_merge_cost_least};
use super::prefix::{lemma_kraft, lengths_of, prefix_free};
use super::serial::{lemma_parse_serialized, lemma_tree_bits_len};
use super::tree::{encode_with, lemma_encode_with_front, Node};
use super::{container, decoded, encoded, payload_window};
use vstd::prelude::*;

verus! {

/// No code of a tree is the beginning of the code of another symbol.
pub proof fn lemma_prefix_free(tree: Node, a: char, b: char)
    requires
        tree.codes().contains_key(a),
        tree.codes().contains_key(b),
        a != b,
    ensures
        !tree.codes()[a].is_prefix_of(tree.codes()[b]),
{
    let short = tree.codes()[a];
    let long = tree.codes()[b];
    if short.is_prefix_of(long) {
        let rest = long.skip(short.len() as int);
        assert(short + rest =~= long);
        assert(long + Seq::<bool>::empty() =~= long);
        tree.lemma_descend_code(a, rest);
        tree.lemma_descend_code(b, Seq::<bool>::empty());
    }
}

/// The payload of a text that holds a symbol holds a bit.
pub proof fn lemma_payload_not_empty(tree: Node, text: Seq<char>)
    requires
        text.len() > 0,
        forall|i: int| 0 <= i < text.len() ==> tree.leaves().contains(#[trigger] text[i]),
    ensures
        tree.payload_bits(text).len() > 0,
{
    lemma_encode_with_front(tree.payload_codes(), text);
    tree.lemma_codes_dom();
    match tree {
        Node::Leaf { symbol } => {
            assert(tree.leaves() =~= seq![symbol]);
            assert(tree.leaves().contains(text[0]));
        },
        Node::Internal { .. } => {
            assert(tree.leaves().contains(text[0]));
            tree.lemma_descend_code(text[0], Seq::<bool>::empty());
        },
    }
}

/// The parts of a container, for a tree that has every symbol of the text
/// and whose section fits the two length bytes.
proof fn lemma_container_parts(tree: Node, text: Seq<char>)
    requires
        pack_bits(tree.tree_bits()).len() <= 0xFFFF,
    ensures
        ({
            let bytes = container(tree, text);
            let section = pack_bits(tree.tree_bits());
            let payload = tree.payload_bits(text);
            let n = section.len() as int;
            &&& n >= 2
            &&& bytes.len() == 3 + n + pack_bits(payload).len()
            &&& bytes[0] as int * 256 + bytes[1] as int == n
            &&& bytes.subrange(2, 2 + n) == section
            &&& bytes[2 + n] == pad_len(payload.len())
            &&& bytes.subrange(3 + n, bytes.len() as int) == pack_bits(payload)
        }),
{
    let bytes = container(tree, text);
    let section = pack_bits(tree.tree_bits());
    let payload = tree.payload_bits(text);
    let n = section.len() as int;
    lemma_tree_bits_len(tree);
    lemma_bits_of_pack(tree.tree_bits());
    assert(bytes.subrange(2, 2 + n) =~= section);
    assert(bytes.subrange(3 + n, bytes.len() as int) =~= pack_bits(payload));
}

/// Decoding the container of a text gives the text back. This holds of
/// every text that has a container: of every text that is not empty and
/// whose tree section fits the two length bytes.
pub proof fn lemma_round_trip(text: Seq<char>)
    requires
        text.len() > 0,
        pack_bits(huffman_tree(text).tree_bits()).len() <= 0xFFFF,
    ensures
        encoded(text) is Ok,
        decoded(encoded(text)->Ok_0) == Ok::<Seq<char>, HuffmanError>(text),
{
    let tree = huffman_tree(text);
    let bytes = container(tree, text);
    let payload = tree.payload_bits(text);
    let data = pack_bits(payload);
    let pad = pad_len(payload.len()) as u8;
    lemma_container_parts(tree, text);
    lemma_parse_serialized(tree);
    lemma_huffman_tree_leaves(text);
    assert forall|i: int| 0 <= i < text.len() implies tree.leaves().contains(
        #[trigger] text[i],
    ) by {
        assert(text.contains(text[i]));
    }
    lemma_payload_not_empty(tree, text);
    lemma_bits_of_pack(payload);
    assert(payload_window(data, pad) =~= payload);
    tree.lemma_decode_payload(text);
}

/// Payload bits that are cut off in the middle of a code are not read as a
/// text: reading the first `m` payload bits of `text` fails unless some
/// beginning of `text` has exactly `m` payload bits.
pub proof fn lemma_cut_payload(tree: Node, text: Seq<char>, m: int)
    requires
        forall|i: int| 0 <= i < text.len() ==> tree.leaves().contains(#[trigger] text[i]),
        0 <= m <= tree.payload_bits(text).len(),
        forall|k: int|
            0 <= k <= text.len() ==> (#[trigger] tree.payload_bits(text.take(k))).len() != m,
    ensures
        tree.decode_bits(tree.payload_bits(text).take(m)) is None,
    decreases text.len(),
{
    let table = tree.payload_codes();
    assert(tree.payload_bits(text.take(0)).len() != m);
    assert(text.take(0) =~= Seq::<char>::empty());
    assert(m > 0);
    if text.len() == 0 {
    } else {
        let c = text[0];
        let rest = text.drop_first();
        let code = table[c];
        let tail = tree.payload_bits(rest);
        let bits = tree.payload_bits(text).take(m);
        lemma_encode_with_front(table, text);
        tree.lemma_codes_dom();
        assert(tree.leaves().contains(c));
        assert forall|i: int| 0 <= i < rest.len() implies tree.leaves().contains(
            #[trigger] rest[i],
        ) by {
            assert(rest[i] == text[i + 1]);
        }
        match tree {
            Node::Leaf { symbol } => {
                assert(tree.leaves() =~= seq![symbol]);
                assert(c == symbol);
            },
            Node::Internal { .. } => {
                tree.lemma_descend_code(c, Seq::<bool>::empty());
            },
        }
        if m < code.len() {
            assert(bits =~= code.take(m));
            tree.lemma_descend_cut_code(c, m);
        } else {
            let less = m - code.len();
            assert(bits =~= code + tail.take(less));
            assert(bits.skip(code.len() as int) =~= tail.take(less));
            if tree is Internal {
                tree.lemma_descend_code(c, tail.take(less));
            }
            assert forall|k: int| 0 <= k <= rest.len() implies (#[trigger] tree.payload_bits(
                rest.take(k),
            )).len() != less by {
                let longer = text.take(k + 1);
                assert(longer.drop_first() =~= rest.take(k));
                lemma_encode_with_front(table, longer);
                assert(tree.payload_bits(longer).len() != m);
            }
            lemma_cut_payload(tree, rest, less);
        }
    }
}

/// A container that has lost its last payload byte is not decoded. This
/// holds unless the loss goes unseen: the eight bits that went were whole
/// codes, so that what is left is the payload of a beginning of the text.
pub proof fn lemma_truncation_detected(text: Seq<char>)
    requires
        text.len() > 0,
        pack_bits(huffman_tree(text).tree_bits()).len() <= 0xFFFF,
        forall|k: int|
            1 <= k <= text.len() ==> (#[trigger] huffman_tree(text).payload_bits(
                text.take(k),
            )).len() != huffman_tree(text).payload_bits(text).len() - 8,
    ensures
        encoded(text) is Ok,
        decoded(encoded(text)->Ok_0.drop_last()) == Err::<Seq<char>, HuffmanError>(
            HuffmanError::DecodeError,
        ),
{
    let tree = huffman_tree(text);
    let bytes = container(tree, text);
    let cut = bytes.drop_last();
    let section = pack_bits(tree.tree_bits());
    let n = section.len() as int;
    let payload = tree.payload_bits(text);
    let data = pack_bits(payload);
    let pad = pad_len(payload.len()) as u8;
    let kept = payload.len() - 8;
    lemma_container_parts(tree, text);
    lemma_parse_serialized(tree);
    lemma_huffman_tree_leaves(text);
    assert forall|i: int| 0 <= i < text.len() implies tree.leaves().contains(
        #[trigger] text[i],
    ) by {
        assert(text.contains(text[i]));
    }
    lemma_payload_not_empty(tree, text);
    lemma_bits_of_pack(payload);
    assert(cut.subrange(2, 2 + n) =~= section);
    assert(cut.subrange(3 + n, cut.len() as int) =~= data.drop_last());
    assert(cut[2 + n] == pad);
    if data.len() > 1 {
        assert(bits_of(data.drop_last()) =~= bits_of(data).take(8 * (data.len() - 1)));
        assert(payload_window(data.drop_last(), pad) =~= payload.take(kept));
        assert forall|k: int| 0 <= k <= text.len() implies (#[trigger] tree.payload_bits(
            text.take(k),
        )).len() != kept by {
            if k == 0 {
                assert(text.take(0) =~= Seq::<char>::empty());
            }
        }
        lemma_cut_payload(tree, text, kept);
    }
}

/// No two symbols of `text` have codes in `codes` of which one begins the
/// other.
pub open spec fn prefix_free_on(codes: Map<char, Seq<bool>>, text: Seq<char>) -> bool {
    forall|a: char, b: char|
        text.contains(a) && text.contains(b) && a != b ==> !(#[trigger] codes[a]).is_prefix_of(
            #[trigger] codes[b],
        )
}

/// The code tree of a text encodes the text in as few bits as any code
/// can: whatever codes are given to the symbols of the text, as long as no
/// code begins the code of another symbol, the text has at least as many
/// bits under them as under the codes of its tree.
pub proof fn lemma_huffman_optimal(text: Seq<char>, other: Map<char, Seq<bool>>)
    requires
        text.len() > 0,
        forall|c: char| text.contains(c) ==> other.contains_key(c),
        prefix_free_on(other, text),
    ensures
        encode_with(huffman_tree(text).codes(), text).len() <= encode_with(other, text).len(),
{
    let tree = huffman_tree(text);
    let alphabet = distinct(text);
    let ws = tally(alphabet, text);
    let ls = code_lengths(other, alphabet);
    lemma_distinct(text);
    // What the text costs under its tree.
    lemma_huffman_tree_leaves(text);
    assert forall|i: int| 0 <= i < text.len() implies tree.leaves().contains(
        #[trigger] text[i],
    ) by {
        assert(text.contains(text[i]));
    }
    lemma_encoded_cost(tree, text);
    lemma_cost_in(tree, text);
    lemma_leaf_forest_cost(alphabet, text);
    lemma_merge_tree_cost(initial_forest(text), text);
    // What it costs under the other codes.
    lemma_encoded_len(other, text);
    let words = Seq::new(alphabet.len(), |j: int| other[alphabet[j]]);
    assert(prefix_free(words)) by {
        assert forall|i: int, j: int|
            0 <= i < words.len() && 0 <= j < words.len() && i != j implies !(
            #[trigger] words[i]).is_prefix_of(#[trigger] words[j]) by {
            assert(alphabet.contains(alphabet[i]));
            assert(alphabet.contains(alphabet[j]));
            assert(alphabet[i] != alphabet[j]);
        }
    }
    assert(lengths_of(words) =~= ls);
    lemma_first_max(ls);
    let d = ls[first_max(ls)];
    lemma_kraft(words, d);
    lemma_merge_cost_least(ws, ls, d);
}

} // verus!
