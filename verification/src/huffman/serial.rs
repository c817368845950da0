//! The tree section of a container: a code tree written as packed bits, and
//! read back from them.

use super::bits::{
    bits_of, bits_to_bytes, bits_value, lemma_bits_of_concat, lemma_bits_of_pack,
    lemma_value_of_byte_bits, pack_bits, push_byte, BitBundle,
};
use super::error::HuffmanError;
use super::symbol::{
    encode_symbol, group_symbol, group_width, lemma_symbol_round_trip, symbol_bytes, vec_to_char,
    width_of,
};
use super::tree::Node;
use vstd::prelude::*;

verus! {

/// The byte that the eight bits from position `pos` on spell.
pub open spec fn byte_at(bits: Seq<bool>, pos: int) -> u8 {
    bits_value(bits.subrange(pos, pos + 8)) as u8
}

/// Reads the bytes of one symbol from bit `pos` of `bytes` on. The result is
/// the leaf for that symbol and the position behind it, or `None` when the
/// bits end too early or the bytes do not spell a symbol.
pub open spec fn parse_leaf(bytes: Seq<u8>, pos: int) -> Option<(Node, int)> {
    let bits = bits_of(bytes);
    if pos + 8 > bits.len() {
        None
    } else {
        let width = group_width(byte_at(bits, pos));
        if pos + 8 * width > bits.len() {
            None
        } else {
            let group = Seq::new(width as nat, |i: int| byte_at(bits, pos + 8 * i));
            match group_symbol(group) {
                Some(symbol) => Some((Node::Leaf { symbol }, pos + 8 * width)),
                None => None,
            }
        }
    }
}

/// Reads one tree from bit `pos` of `bytes` on. The result is the tree and
/// the position behind it.
///
/// A 1 bit starts a leaf. A 0 bit starts an internal node, unless the bit
/// that follows it lies in the last byte of `bytes`: no internal node fits
/// there, so such a 0 is padding, and the bits have ended too early.
pub open spec fn parse_node(bytes: Seq<u8>, pos: int) -> Option<(Node, int)>
    decreases 8 * bytes.len() - pos,
{
    let bits = bits_of(bytes);
    if pos < 0 || pos >= bits.len() {
        None
    } else if bits[pos] {
        parse_leaf(bytes, pos + 1)
    } else if (pos + 1) / 8 + 1 == bytes.len() {
        None
    } else {
        let first = parse_node(bytes, pos + 1);
        let (left, mid) = first->0;
        if first is Some && pos < mid <= bits.len() {
            let second = parse_node(bytes, mid);
            let (right, end) = second->0;
            if second is Some {
                Some((Node::Internal { left: Box::new(left), right: Box::new(right) }, end))
            } else {
                None
            }
        } else {
            None
        }
    }
}

/// The tree that the bytes of a tree section spell, if they spell one.
pub open spec fn parsed_tree(bytes: Seq<u8>) -> Option<Node> {
    match parse_node(bytes, 0) {
        Some((tree, _)) => Some(tree),
        None => None,
    }
}

/// Appends the bits of `node` to `bits`.
pub fn traverse_tree(node: &Node, bits: &mut Vec<bool>)
    ensures
        final(bits)@ == old(bits)@ + node.tree_bits(),
    decreases *node,
{
    match node {
        Node::Leaf { symbol } => {
            bits.push(true);
            let group: Vec<u8> = encode_symbol(*symbol);
            let ghost start = bits@;
            let mut i: usize = 0;
            while i < group.len()
                invariant
                    i <= group.len(),
                    group@ == symbol_bytes(*symbol),
                    bits@ == start + bits_of(group@.take(i as int)),
                decreases group.len() - i,
            {
                push_byte(bits, group[i]);
                proof {
                    lemma_bits_of_concat(group@.take(i as int), seq![group@[i as int]]);
                    assert(group@.take(i + 1) =~= group@.take(i as int) + seq![group@[i as int]]);
                }
                i += 1;
            }
            assert(group@.take(group.len() as int) =~= group@);
            assert(bits@ =~= old(bits)@ + node.tree_bits());
        },
        Node::Internal { left, right } => {
            bits.push(false);
            traverse_tree(left, bits);
            traverse_tree(right, bits);
            assert(bits@ =~= old(bits)@ + node.tree_bits());
        },
    }
}

/// Writes a tree as the bytes of a tree section: its bits in preorder,
/// packed, the last byte filled up with zero bits.
pub fn ser_tree(tree: Node) -> (bytes: Vec<u8>)
    ensures
        bytes@ == pack_bits(tree.tree_bits()),
{
    let mut bits: Vec<bool> = Vec::new();
    traverse_tree(&tree, &mut bits);
    assert(bits@ =~= tree.tree_bits());
    let packed = bits_to_bytes(&bits);
    packed.0
}

/// What becomes of the tree `node`, read up to bit `pos`, when the internal
/// nodes above it are completed. `pending` holds those nodes from the root
/// down: `Some(left)` for a node whose left subtree is read and whose right
/// subtree is `node`, `None` for a node whose left subtree is `node` and
/// whose right subtree is still to be read from `pos` on.
pub open spec fn complete(
    bytes: Seq<u8>,
    node: Node,
    pos: int,
    pending: Seq<Option<Node>>,
) -> Option<(Node, int)>
    decreases pending.len(),
{
    if pending.len() == 0 {
        Some((node, pos))
    } else {
        match pending.last() {
            Some(left) => complete(
                bytes,
                Node::Internal { left: Box::new(left), right: Box::new(node) },
                pos,
                pending.drop_last(),
            ),
            None => {
                let second = parse_node(bytes, pos);
                let (right, end) = second->0;
                if second is Some {
                    complete(
                        bytes,
                        Node::Internal { left: Box::new(node), right: Box::new(right) },
                        end,
                        pending.drop_last(),
                    )
                } else {
                    None
                }
            },
        }
    }
}

/// What becomes of the tree that is read from bit `pos` on when the
/// internal nodes above it are completed.
pub open spec fn resume_parse(bytes: Seq<u8>, pos: int, pending: Seq<Option<Node>>) -> Option<
    (Node, int),
> {
    let first = parse_node(bytes, pos);
    let (node, end) = first->0;
    if first is Some {
        complete(bytes, node, end, pending)
    } else {
        None
    }
}

/// A tree that is read ends behind the bit where it starts, and within the
/// bytes.
pub proof fn lemma_parse_advances(bytes: Seq<u8>, pos: int)
    ensures
        match parse_node(bytes, pos) {
            Some((_, end)) => pos < end <= 8 * bytes.len(),
            None => true,
        },
    decreases 8 * bytes.len() - pos,
{
    let bits = bits_of(bytes);
    if 0 <= pos < bits.len() && !bits[pos] && (pos + 1) / 8 + 1 != bytes.len() {
        lemma_parse_advances(bytes, pos + 1);
        let first = parse_node(bytes, pos + 1);
        let (left, mid) = first->0;
        if first is Some && pos < mid <= bits.len() {
            lemma_parse_advances(bytes, mid);
        }
    }
}

/// Reads the bytes of one symbol from the cursor on and gives its leaf.
fn read_leaf(bundle: &mut BitBundle) -> (leaf: Option<Node>)
    requires
        old(bundle).wf(),
    ensures
        final(bundle).wf(),
        final(bundle).bytes() == old(bundle).bytes(),
        old(bundle).position() <= final(bundle).position(),
        match parse_leaf(old(bundle).bytes(), old(bundle).position()) {
            Some((node, end)) => leaf == Some(node) && final(bundle).position() == end,
            None => leaf is None,
        },
{
    proof {
        bundle.lemma_position_bounds();
    }
    let ghost bytes = bundle.bytes();
    let ghost bits = bits_of(bytes);
    let ghost pos = bundle.position();
    let lead: u8 = match bundle.read_byte() {
        Some(byte) => byte,
        None => {
            return None;
        },
    };
    let width: usize = width_of(lead);
    let mut group: Vec<u8> = Vec::new();
    group.push(lead);
    let mut i: usize = 1;
    while i < width
        invariant
            bundle.wf(),
            bundle.bytes() == bytes,
            bytes == old(bundle).bytes(),
            pos == old(bundle).position(),
            bits == bits_of(bytes),
            1 <= i <= width <= 4,
            width == group_width(byte_at(bits, pos)),
            bundle.position() == pos + 8 * i,
            bundle.position() <= bits.len(),
            group@.len() == i,
            forall|k: int| 0 <= k < i ==> group@[k] == byte_at(bits, pos + 8 * k),
        decreases width - i,
    {
        match bundle.read_byte() {
            Some(byte) => {
                group.push(byte);
            },
            None => {
                proof {
                    bundle.lemma_position_bounds();
                }
                return None;
            },
        }
        i += 1;
    }
    assert(group@ =~= Seq::new(width as nat, |k: int| byte_at(bits, pos + 8 * k)));
    match vec_to_char(group) {
        Some(symbol) => Some(Node::new_leaf(symbol)),
        None => None,
    }
}

/// Puts the finished tree `done` below the internal nodes that wait for
/// it. The result is the whole tree when none is left waiting; otherwise
/// the tree has become a left subtree, and a right subtree is to be read.
fn attach(
    done: Node,
    pending: &mut Vec<Option<Node>>,
    Ghost(bytes): Ghost<Seq<u8>>,
    Ghost(pos): Ghost<int>,
) -> (root: Option<Node>)
    ensures
        match root {
            Some(tree) => complete(bytes, done, pos, old(pending)@) == Some((tree, pos)),
            None => complete(bytes, done, pos, old(pending)@) == resume_parse(
                bytes,
                pos,
                final(pending)@,
            ),
        },
{
    let mut node: Node = done;
    loop
        invariant
            complete(bytes, node, pos, pending@) == complete(bytes, done, pos, old(pending)@),
        decreases pending@.len(),
    {
        let ghost before = pending@;
        let ghost below = node;
        match pending.pop() {
            None => {
                return Some(node);
            },
            Some(Some(left)) => {
                assert(pending@ =~= before.drop_last());
                node = Node::new_node(Box::new(left), Box::new(node));
            },
            Some(None) => {
                assert(pending@ =~= before.drop_last());
                let ghost above = pending@;
                pending.push(Some(node));
                proof {
                    assert(pending@.drop_last() =~= above);
                    let second = parse_node(bytes, pos);
                    if second is Some {
                        let (right, end) = second->0;
                        assert(complete(bytes, right, end, pending@) == complete(
                            bytes,
                            Node::Internal { left: Box::new(below), right: Box::new(right) },
                            end,
                            above,
                        ));
                    }
                }
                return None;
            },
        }
    }
}

/// Reads one tree from the cursor on, and leaves the cursor behind it.
///
/// The tree is read without recursion: the internal nodes whose subtrees
/// are still being read wait on a stack of their own, so that a section of
/// many nested nodes cannot exhaust the call stack.
pub fn build_tree(bundle: &mut BitBundle) -> (tree: Option<Node>)
    requires
        old(bundle).wf(),
    ensures
        final(bundle).wf(),
        final(bundle).bytes() == old(bundle).bytes(),
        match parse_node(old(bundle).bytes(), old(bundle).position()) {
            Some((node, end)) => tree == Some(node) && final(bundle).position() == end && old(
                bundle,
            ).position() < end <= 8 * old(bundle).bytes().len(),
            None => tree is None,
        },
{
    let ghost bytes = bundle.bytes();
    let ghost bits = bits_of(bytes);
    let ghost start = bundle.position();
    let mut pending: Vec<Option<Node>> = Vec::new();
    proof {
        bundle.lemma_position_bounds();
        lemma_parse_advances(bytes, start);
    }
    loop
        invariant
            bundle.wf(),
            bundle.bytes() == bytes,
            bytes == old(bundle).bytes(),
            start == old(bundle).position(),
            bits == bits_of(bytes),
            0 <= start <= bundle.position(),
            parse_node(bytes, start) == resume_parse(bytes, bundle.position(), pending@),
        decreases 8 * bytes.len() - bundle.position(),
    {
        proof {
            bundle.lemma_position_bounds();
        }
        let ghost pos = bundle.position();
        let ghost waiting = pending@;
        match bundle.read_bit() {
            None => {
                return None;
            },
            Some(bit) => {
                if bit == 1 {
                    let leaf: Node = match read_leaf(bundle) {
                        Some(node) => node,
                        None => {
                            return None;
                        },
                    };
                    match attach(leaf, &mut pending, Ghost(bytes), Ghost(bundle.position())) {
                        Some(root) => {
                            proof {
                                bundle.lemma_position_bounds();
                            }
                            return Some(root);
                        },
                        None => {},
                    }
                } else if bundle.in_last_byte() {
                    return None;
                } else {
                    pending.push(None);
                    proof {
                        lemma_parse_advances(bytes, pos + 1);
                        assert(pending@.drop_last() =~= waiting);
                    }
                }
            },
        }
    }
}

/// Reads the tree that a tree section spells. Bits behind the tree are not
/// looked at.
pub fn des_tree(bytes: &[u8]) -> (tree: Result<Node, HuffmanError>)
    ensures
        match parsed_tree(bytes@) {
            Some(node) => tree == Ok::<Node, HuffmanError>(node),
            None => tree == Err::<Node, HuffmanError>(HuffmanError::DecodeError),
        },
{
    let mut bundle = BitBundle::new(bytes);
    match build_tree(&mut bundle) {
        Some(node) => Ok(node),
        None => Err(HuffmanError::DecodeError),
    }
}

/// The eight bits from position `8 * i` on are the bits of byte `i`.
proof fn lemma_bits_of_byte(bytes: Seq<u8>, i: int)
    requires
        0 <= i < bytes.len(),
    ensures
        bits_of(bytes).subrange(8 * i, 8 * i + 8) == bits_of(seq![bytes[i]]),
{
    assert(bits_of(bytes).subrange(8 * i, 8 * i + 8) =~= bits_of(seq![bytes[i]]));
}

/// The bits of a tree hold at least one symbol.
pub proof fn lemma_tree_bits_len(tree: Node)
    ensures
        tree.tree_bits().len() >= 9,
        tree is Internal ==> tree.tree_bits().len() >= 19,
    decreases tree,
{
    match tree {
        Node::Leaf { symbol } => {
            lemma_symbol_round_trip(symbol);
        },
        Node::Internal { left, right } => {
            lemma_tree_bits_len(*left);
            lemma_tree_bits_len(*right);
        },
    }
}

/// Where the bits of a tree stand in a buffer, that tree is read from them.
pub proof fn lemma_parse_tree_bits(bytes: Seq<u8>, pos: int, tree: Node)
    requires
        0 <= pos,
        pos + tree.tree_bits().len() <= 8 * bytes.len(),
        bits_of(bytes).subrange(pos, pos + tree.tree_bits().len()) == tree.tree_bits(),
    ensures
        parse_node(bytes, pos) == Some((tree, pos + tree.tree_bits().len())),
    decreases tree,
{
    let bits = bits_of(bytes);
    let own = tree.tree_bits();
    lemma_tree_bits_len(tree);
    assert(bits[pos] == bits.subrange(pos, pos + own.len())[0]);
    match tree {
        Node::Leaf { symbol } => {
            let group = symbol_bytes(symbol);
            lemma_symbol_round_trip(symbol);
            assert forall|i: int| 0 <= i < group.len() implies byte_at(bits, pos + 1 + 8 * i)
                == group[i] by {
                lemma_bits_of_byte(group, i);
                lemma_value_of_byte_bits(group[i]);
                assert(bits.subrange(pos + 1 + 8 * i, pos + 1 + 8 * i + 8) =~= own.subrange(
                    1 + 8 * i,
                    1 + 8 * i + 8,
                ));
                assert(own.subrange(1 + 8 * i, 1 + 8 * i + 8) =~= bits_of(group).subrange(
                    8 * i,
                    8 * i + 8,
                ));
            }
            assert(byte_at(bits, pos + 1 + 8 * 0) == group[0]);
            let width = group_width(byte_at(bits, pos + 1));
            assert(Seq::new(width as nat, |i: int| byte_at(bits, pos + 1 + 8 * i)) =~= group);
        },
        Node::Internal { left, right } => {
            let lb = left.tree_bits();
            let rb = right.tree_bits();
            lemma_tree_bits_len(*left);
            lemma_tree_bits_len(*right);
            let window = bits.subrange(pos, pos + own.len());
            let nl = lb.len() as int;
            let nr = rb.len() as int;
            assert(window.subrange(1, 1 + nl) =~= lb);
            assert(window.subrange(1 + nl, 1 + nl + nr) =~= rb);
            assert(bits.subrange(pos + 1, pos + 1 + nl) =~= window.subrange(1, 1 + nl));
            assert(bits.subrange(pos + 1 + nl, pos + 1 + nl + nr) =~= window.subrange(
                1 + nl,
                1 + nl + nr,
            ));
            lemma_parse_tree_bits(bytes, pos + 1, *left);
            lemma_parse_tree_bits(bytes, pos + 1 + lb.len(), *right);
        },
    }
}

/// A tree is read back from the bytes that it was written as.
pub proof fn lemma_parse_serialized(tree: Node)
    ensures
        parsed_tree(pack_bits(tree.tree_bits())) == Some(tree),
{
    let own = tree.tree_bits();
    let bytes = pack_bits(own);
    lemma_bits_of_pack(own);
    assert(bits_of(bytes).subrange(0, own.len() as int) =~= own);
    lemma_parse_tree_bits(bytes, 0, tree);
}

} // verus!
