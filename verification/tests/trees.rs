use codecs::huffman::bits::BitBundle;
use codecs::huffman::builder::{count_symbols, gen_tree, index_of_min, Branch};
use codecs::huffman::codes::{assign_codes, encode, CodeTable, _assign_codes};
use codecs::huffman::error::HuffmanError;
use codecs::huffman::serial::{build_tree, des_tree, ser_tree, traverse_tree};
use codecs::huffman::tree::Node;

fn leaf(c: char) -> Node {
    Node::new_leaf(c)
}

fn fork(left: Node, right: Node) -> Node {
    Node::new_node(Box::new(left), Box::new(right))
}

fn abracadabra_tree() -> Node {
    fork(
        leaf('a'),
        fork(fork(leaf('c'), leaf('d')), fork(leaf('b'), leaf('r'))),
    )
}

fn bits(text: &str) -> Vec<bool> {
    text.chars().map(|c| c == '1').collect()
}

#[test]
fn new_leaf_and_new_node_build_the_variants() {
    assert_eq!(Node::new_leaf('x'), Node::Leaf { symbol: 'x' });
    assert_eq!(
        Node::new_node(Box::new(leaf('x')), Box::new(leaf('y'))),
        Node::Internal {
            left: Box::new(Node::Leaf { symbol: 'x' }),
            right: Box::new(Node::Leaf { symbol: 'y' }),
        }
    );
}

#[test]
fn branch_new_keeps_tree_and_weight() {
    let branch = Branch::new(Box::new(leaf('q')), 7);
    assert_eq!(*branch.node, leaf('q'));
    assert_eq!(branch.freq, 7);
}

#[test]
fn count_symbols_lists_symbols_in_order_of_first_occurrence() {
    let text: Vec<char> = "abracadabra".chars().collect();
    let queue = count_symbols(&text);
    let seen: Vec<(Node, usize)> = queue.into_iter().map(|b| (*b.node, b.freq)).collect();
    assert_eq!(
        seen,
        vec![
            (leaf('a'), 5),
            (leaf('b'), 2),
            (leaf('r'), 2),
            (leaf('c'), 1),
            (leaf('d'), 1),
        ]
    );
}

#[test]
fn count_symbols_of_nothing_is_empty() {
    assert!(count_symbols(&Vec::new()).is_empty());
}

#[test]
fn index_of_min_takes_the_first_of_the_lightest() {
    let queue = vec![
        Branch::new(Box::new(leaf('a')), 5),
        Branch::new(Box::new(leaf('b')), 2),
        Branch::new(Box::new(leaf('c')), 9),
        Branch::new(Box::new(leaf('d')), 2),
    ];
    assert_eq!(index_of_min(&queue), 1);
    let single = vec![Branch::new(Box::new(leaf('a')), 5)];
    assert_eq!(index_of_min(&single), 0);
}

#[test]
fn gen_tree_of_abracadabra() {
    assert_eq!(gen_tree("abracadabra"), Ok(abracadabra_tree()));
}

#[test]
fn gen_tree_breaks_ties_by_position() {
    assert_eq!(
        gen_tree("abcd"),
        Ok(fork(fork(leaf('a'), leaf('b')), fork(leaf('c'), leaf('d'))))
    );
    assert_eq!(gen_tree("ba"), Ok(fork(leaf('b'), leaf('a'))));
    assert_eq!(
        gen_tree("日本語"),
        Ok(fork(leaf('語'), fork(leaf('日'), leaf('本'))))
    );
}

#[test]
fn gen_tree_of_one_symbol_is_a_leaf() {
    assert_eq!(gen_tree("aaaa"), Ok(leaf('a')));
    assert_eq!(gen_tree("z"), Ok(leaf('z')));
}

#[test]
fn gen_tree_of_the_empty_text_fails() {
    assert_eq!(gen_tree(""), Err(HuffmanError::EmptyInput));
}

#[test]
fn assign_codes_follows_the_paths() {
    let codes = assign_codes(&abracadabra_tree());
    assert_eq!(codes.get('a'), Some(&bits("0")));
    assert_eq!(codes.get('c'), Some(&bits("100")));
    assert_eq!(codes.get('d'), Some(&bits("101")));
    assert_eq!(codes.get('b'), Some(&bits("110")));
    assert_eq!(codes.get('r'), Some(&bits("111")));
    assert_eq!(codes.get('x'), None);
}

#[test]
fn code_text_writes_zeros_and_ones() {
    let codes = assign_codes(&abracadabra_tree());
    assert_eq!(codes.code_text('a'), Some(String::from("0")));
    assert_eq!(codes.code_text('d'), Some(String::from("101")));
    assert_eq!(codes.code_text('x'), None);
    assert_eq!(assign_codes(&leaf('a')).code_text('a'), Some(String::new()));
}

#[test]
fn assign_codes_of_a_leaf_is_the_empty_code() {
    let codes = assign_codes(&leaf('a'));
    assert_eq!(codes.get('a'), Some(&Vec::new()));
    assert_eq!(codes.get('b'), None);
}

#[test]
fn assign_codes_takes_the_rightmost_leaf_of_a_repeated_symbol() {
    let codes = assign_codes(&fork(leaf('a'), fork(leaf('b'), leaf('a'))));
    assert_eq!(codes.get('a'), Some(&bits("11")));
    assert_eq!(codes.get('b'), Some(&bits("10")));
}

#[test]
fn assign_codes_helper_puts_the_path_in_front() {
    let mut codes = CodeTable::new();
    let mut path = bits("01");
    _assign_codes(&fork(leaf('x'), leaf('y')), &mut codes, &mut path);
    assert_eq!(path, bits("01"));
    assert_eq!(codes.get('x'), Some(&bits("010")));
    assert_eq!(codes.get('y'), Some(&bits("011")));
}

#[test]
fn code_table_insert_replaces() {
    let mut codes = CodeTable::new();
    assert_eq!(codes.get('a'), None);
    codes.insert('a', bits("0"));
    codes.insert('a', bits("11"));
    codes.insert('é', bits("10"));
    assert_eq!(codes.get('a'), Some(&bits("11")));
    assert_eq!(codes.get('é'), Some(&bits("10")));
}

#[test]
fn no_code_begins_another() {
    let text = "the quick brown fox jumps over the lazy dog";
    let codes = assign_codes(&gen_tree(text).unwrap());
    let alphabet: Vec<char> = "thequickbrownfxjmpsvlazydg ".chars().collect();
    for a in alphabet.iter() {
        for b in alphabet.iter() {
            if a != b {
                let short = codes.get(*a).unwrap();
                let long = codes.get(*b).unwrap();
                assert!(!long.starts_with(short), "{} begins {}", a, b);
            }
        }
    }
}

#[test]
fn encode_concatenates_the_codes() {
    let codes = assign_codes(&abracadabra_tree());
    assert_eq!(
        encode("abracadabra", &codes),
        bits("01101110100010101101110")
    );
    assert_eq!(encode("", &codes), Vec::<bool>::new());
}

#[test]
fn huffman_codes_are_no_longer_than_other_prefix_free_codes() {
    let text = "abracadabra";
    let codes = assign_codes(&gen_tree(text).unwrap());
    let best = encode(text, &codes).len();
    assert_eq!(best, 23);
    let mut fixed = CodeTable::new();
    fixed.insert('a', bits("000"));
    fixed.insert('b', bits("001"));
    fixed.insert('r', bits("010"));
    fixed.insert('c', bits("011"));
    fixed.insert('d', bits("100"));
    assert!(best <= encode(text, &fixed).len());
    let mut skewed = CodeTable::new();
    skewed.insert('a', bits("0"));
    skewed.insert('b', bits("10"));
    skewed.insert('r', bits("110"));
    skewed.insert('c', bits("1110"));
    skewed.insert('d', bits("1111"));
    assert_eq!(encode(text, &skewed).len(), 23);
    let mut other = CodeTable::new();
    other.insert('d', bits("0"));
    other.insert('c', bits("10"));
    other.insert('r', bits("110"));
    other.insert('b', bits("1110"));
    other.insert('a', bits("1111"));
    assert_eq!(encode(text, &other).len(), 37);
}

#[test]
fn traverse_tree_writes_preorder_bits() {
    let mut out = bits("1");
    traverse_tree(&fork(leaf('a'), leaf('b')), &mut out);
    assert_eq!(out, bits("10101100001101100010"));
}

#[test]
fn ser_tree_of_abracadabra() {
    assert_eq!(
        ser_tree(abracadabra_tree()),
        vec![88, 75, 29, 145, 98, 185, 0]
    );
}

#[test]
fn ser_tree_of_a_leaf() {
    assert_eq!(ser_tree(leaf('a')), vec![0xB0, 0x80]);
    assert_eq!(ser_tree(leaf('語')), vec![0xF4, 0x55, 0x4F, 0x00]);
}

#[test]
fn des_tree_reads_what_ser_tree_wrote() {
    for tree in [
        abracadabra_tree(),
        leaf('a'),
        leaf('😀'),
        fork(leaf('é'), leaf('€')),
        fork(fork(fork(leaf('a'), leaf('b')), leaf('c')), leaf('d')),
        fork(leaf('a'), fork(leaf('b'), leaf('a'))),
    ] {
        let bytes = ser_tree(fork(tree, leaf('!')));
        let again = des_tree(&bytes).unwrap();
        assert_eq!(ser_tree(again), bytes);
    }
    assert_eq!(
        des_tree(&[88, 75, 29, 145, 98, 185, 0]),
        Ok(abracadabra_tree())
    );
    assert_eq!(des_tree(&[0xB0, 0x80]), Ok(leaf('a')));
}

#[test]
fn des_tree_does_not_look_behind_the_tree() {
    assert_eq!(des_tree(&[0xB0, 0xFF, 0xFF]), Ok(leaf('a')));
}

#[test]
fn des_tree_fails_when_the_bits_end_early() {
    assert_eq!(des_tree(&[]), Err(HuffmanError::DecodeError));
    assert_eq!(des_tree(&[0xB0]), Err(HuffmanError::DecodeError));
    assert_eq!(des_tree(&[88, 75, 29]), Err(HuffmanError::DecodeError));
    assert_eq!(
        des_tree(&[88, 75, 29, 145, 98, 185]),
        Err(HuffmanError::DecodeError)
    );
}

#[test]
fn des_tree_takes_a_zero_in_the_last_byte_for_padding() {
    assert_eq!(des_tree(&[0x00]), Err(HuffmanError::DecodeError));
    assert_eq!(des_tree(&[0x00, 0x00, 0x00]), Err(HuffmanError::DecodeError));
    assert_eq!(des_tree(&[0xB0, 0x80]), Ok(leaf('a')));
}

#[test]
fn des_tree_fails_on_bytes_that_spell_no_symbol() {
    assert_eq!(des_tree(&[0xC0, 0x00, 0x00]), Err(HuffmanError::DecodeError));
    assert_eq!(des_tree(&[0xE0, 0x40, 0x00]), Err(HuffmanError::DecodeError));
    assert_eq!(
        des_tree(&[0xF6, 0xD0, 0x40, 0x00]),
        Err(HuffmanError::DecodeError)
    );
}

#[test]
fn build_tree_leaves_the_cursor_behind_the_tree() {
    let data = [0xB0u8, 0xC0];
    let mut reader = BitBundle::new(&data);
    assert_eq!(build_tree(&mut reader), Some(leaf('a')));
    assert_eq!(reader.read_bit(), Some(1));
    assert_eq!(reader.read_bit(), Some(0));
}
