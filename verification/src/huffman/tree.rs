//! The code tree and what it means: the bits that spell it, the code of each
//! symbol, and the walk that reads symbols back from bits.

use super::bits::bits_of;
use super::symbol::symbol_bytes;
use vstd::prelude::*;

verus! {

/// A node of a code tree. A leaf holds one symbol; an internal node has
/// exactly two children, reached by the bits 0 (left) and 1 (right).
#[derive(Debug, PartialEq, Eq)]
pub enum Node {
    /// A symbol of the alphabet.
    Leaf { symbol: char },
    /// A fork.
    Internal { left: Box<Node>, right: Box<Node> },
}

/// Every code of `table` with the bit `bit` put in front.
pub open spec fn prefixed(table: Map<char, Seq<bool>>, bit: bool) -> Map<char, Seq<bool>> {
    table.map_values(|code: Seq<bool>| seq![bit] + code)
}

/// The bits that `codes` assigns to `text`, symbol after symbol.
pub open spec fn encode_with(codes: Map<char, Seq<bool>>, text: Seq<char>) -> Seq<bool>
    decreases text.len(),
{
    if text.len() == 0 {
        Seq::empty()
    } else {
        encode_with(codes, text.drop_last()) + codes[text.last()]
    }
}

impl Node {
    /// The symbols at the leaves, from left to right.
    pub open spec fn leaves(self) -> Seq<char>
        decreases self,
    {
        match self {
            Node::Leaf { symbol } => seq![symbol],
            Node::Internal { left, right } => left.leaves() + right.leaves(),
        }
    }

    /// The tree written as bits in preorder: a leaf is a 1 followed by the
    /// bytes of its symbol, an internal node a 0 followed by its left and
    /// then its right subtree.
    pub open spec fn tree_bits(self) -> Seq<bool>
        decreases self,
    {
        match self {
            Node::Leaf { symbol } => seq![true] + bits_of(symbol_bytes(symbol)),
            Node::Internal { left, right } => seq![false] + left.tree_bits() + right.tree_bits(),
        }
    }

    /// The code of each symbol: the path from the root to its leaf, 0 for a
    /// step to the left and 1 for a step to the right. Where a symbol sits at
    /// several leaves, the rightmost one counts.
    pub open spec fn codes(self) -> Map<char, Seq<bool>>
        decreases self,
    {
        match self {
            Node::Leaf { symbol } => map![symbol => Seq::<bool>::empty()],
            Node::Internal { left, right } => prefixed(left.codes(), false).union_prefer_right(
                prefixed(right.codes(), true),
            ),
        }
    }

    /// The codes that the payload is written in. They are the codes of the
    /// tree, except that the only symbol of a single-leaf tree, whose code is
    /// empty, is written as one 0 bit.
    pub open spec fn payload_codes(self) -> Map<char, Seq<bool>> {
        match self {
            Node::Leaf { symbol } => map![symbol => seq![false]],
            Node::Internal { .. } => self.codes(),
        }
    }

    /// The payload bits of `text`.
    pub open spec fn payload_bits(self, text: Seq<char>) -> Seq<bool> {
        encode_with(self.payload_codes(), text)
    }

    /// Walks down from this node along `bits` until a leaf is reached. The
    /// result is the symbol of that leaf and the number of bits used, or
    /// `None` when the bits end first.
    pub open spec fn descend(self, bits: Seq<bool>) -> Option<(char, nat)>
        decreases self,
    {
        match self {
            Node::Leaf { symbol } => Some((symbol, 0nat)),
            Node::Internal { left, right } => if bits.len() == 0 {
                None
            } else {
                let child = if bits[0] {
                    *right
                } else {
                    *left
                };
                match child.descend(bits.drop_first()) {
                    Some((symbol, used)) => Some((symbol, used + 1)),
                    None => None,
                }
            },
        }
    }

    /// Reads one symbol from the front of `bits`, with this node as the root.
    /// In a single-leaf tree the symbol is written as one 0 bit.
    pub open spec fn next_symbol(self, bits: Seq<bool>) -> Option<(char, nat)> {
        match self {
            Node::Leaf { symbol } => if bits.len() > 0 && !bits[0] {
                Some((symbol, 1nat))
            } else {
                None
            },
            Node::Internal { .. } => self.descend(bits),
        }
    }

    /// Reads `bits` as a text, with this node as the root: symbol after
    /// symbol until the bits are used up. The result is `None` when the bits
    /// end in the middle of a code, or when a single-leaf tree meets a 1 bit.
    pub open spec fn decode_bits(self, bits: Seq<bool>) -> Option<Seq<char>>
        decreases bits.len(),
    {
        if bits.len() == 0 {
            Some(Seq::empty())
        } else {
            match self.next_symbol(bits) {
                None => None,
                Some((symbol, used)) => if 0 < used <= bits.len() {
                    match self.decode_bits(bits.skip(used as int)) {
                        Some(rest) => Some(seq![symbol] + rest),
                        None => None,
                    }
                } else {
                    None
                },
            }
        }
    }

    /// The number of nodes of the tree.
    pub open spec fn size(self) -> nat
        decreases self,
    {
        match self {
            Node::Leaf { .. } => 1,
            Node::Internal { left, right } => 1 + left.size() + right.size(),
        }
    }

    /// Goes on with a walk that has come to the node `at`: the walk runs down
    /// to a leaf, and the bits behind it are read from the root again.
    pub open spec fn resume(self, at: Node, bits: Seq<bool>) -> Option<Seq<char>> {
        match at.descend(bits) {
            None => None,
            Some((symbol, used)) => if used <= bits.len() {
                match self.decode_bits(bits.skip(used as int)) {
                    Some(rest) => Some(seq![symbol] + rest),
                    None => None,
                }
            } else {
                None
            },
        }
    }

    /// A leaf for the symbol `ch`.
    pub fn new_leaf(ch: char) -> (node: Self)
        ensures
            node == (Node::Leaf { symbol: ch }),
    {
        Node::Leaf { symbol: ch }
    }

    /// An internal node above `left` and `right`.
    pub fn new_node(left: Box<Node>, right: Box<Node>) -> (node: Self)
        ensures
            node == (Node::Internal { left, right }),
    {
        Node::Internal { left, right }
    }
}

/// Encoding a text symbol by symbol from the front.
pub proof fn lemma_encode_with_front(codes: Map<char, Seq<bool>>, text: Seq<char>)
    requires
        text.len() > 0,
    ensures
        encode_with(codes, text) == codes[text[0]] + encode_with(codes, text.drop_first()),
    decreases text.len(),
{
    if text.len() == 1 {
        assert(text.drop_last() =~= Seq::<char>::empty());
        assert(text.drop_first() =~= Seq::<char>::empty());
        assert(encode_with(codes, text) =~= codes[text[0]] + encode_with(
            codes,
            text.drop_first(),
        ));
    } else {
        lemma_encode_with_front(codes, text.drop_last());
        assert(text.drop_last().drop_first() =~= text.drop_first().drop_last());
        assert(encode_with(codes, text) =~= codes[text[0]] + encode_with(
            codes,
            text.drop_first(),
        ));
    }
}

/// Encoding the first `n + 1` symbols appends one code to the encoding of the
/// first `n`.
pub proof fn lemma_encode_with_step(codes: Map<char, Seq<bool>>, text: Seq<char>, n: int)
    requires
        0 <= n < text.len(),
    ensures
        encode_with(codes, text.take(n + 1)) == encode_with(codes, text.take(n)) + codes[text[n]],
{
    assert(text.take(n + 1).drop_last() =~= text.take(n));
}

/// `text` in front of what `rest` holds, if it holds anything.
pub open spec fn prepend(text: Seq<char>, rest: Option<Seq<char>>) -> Option<Seq<char>> {
    match rest {
        Some(more) => Some(text + more),
        None => None,
    }
}

impl Node {
    /// A walk uses at most the bits that there are.
    pub proof fn lemma_descend_used(self, bits: Seq<bool>)
        ensures
            match self.descend(bits) {
                Some((_, used)) => used <= bits.len() && (self is Internal ==> used > 0),
                None => true,
            },
        decreases self,
    {
        match self {
            Node::Leaf { .. } => {},
            Node::Internal { left, right } => {
                if bits.len() > 0 {
                    left.lemma_descend_used(bits.drop_first());
                    right.lemma_descend_used(bits.drop_first());
                }
            },
        }
    }

    /// One step of a walk: from an internal node the bit `bits[0]` leads to
    /// a child. At a leaf a symbol is read; at an internal node the walk goes
    /// on.
    pub proof fn lemma_resume_step(self, at: Node, bits: Seq<bool>)
        requires
            at is Internal,
            bits.len() > 0,
        ensures
            ({
                let child = if bits[0] {
                    *at->right
                } else {
                    *at->left
                };
                self.resume(at, bits) == match child {
                    Node::Leaf { symbol } => prepend(
                        seq![symbol],
                        self.decode_bits(bits.drop_first()),
                    ),
                    Node::Internal { .. } => self.resume(child, bits.drop_first()),
                }
            }),
    {
        let child = if bits[0] {
            *at->right
        } else {
            *at->left
        };
        let tail = bits.drop_first();
        child.lemma_descend_used(tail);
        match child {
            Node::Leaf { symbol } => {
                assert(bits.skip(1) =~= tail);
            },
            Node::Internal { .. } => {
                match child.descend(tail) {
                    Some((symbol, used)) => {
                        assert(bits.skip(used as int + 1) =~= tail.skip(used as int));
                    },
                    None => {},
                }
            },
        }
    }

    /// Reading from the root of a tree with more than one leaf is a walk
    /// that starts at the root.
    pub proof fn lemma_decode_is_resume(self, bits: Seq<bool>)
        requires
            self is Internal,
            bits.len() > 0,
        ensures
            self.decode_bits(bits) == self.resume(self, bits),
    {
        self.lemma_descend_used(bits);
    }

    /// The symbols that have a code are the symbols at the leaves.
    pub proof fn lemma_codes_dom(self)
        ensures
            forall|c: char| self.codes().contains_key(c) <==> self.leaves().contains(c),
            self.leaves().len() > 0,
        decreases self,
    {
        match self {
            Node::Leaf { symbol } => {
                assert(self.leaves()[0] == symbol);
            },
            Node::Internal { left, right } => {
                left.lemma_codes_dom();
                right.lemma_codes_dom();
                let l = left.leaves();
                let r = right.leaves();
                assert forall|c: char| self.codes().contains_key(c) <==> self.leaves().contains(
                    c,
                ) by {
                    if l.contains(c) {
                        let i = choose|i: int| 0 <= i < l.len() && l[i] == c;
                        assert((l + r)[i] == c);
                    }
                    if r.contains(c) {
                        let i = choose|i: int| 0 <= i < r.len() && r[i] == c;
                        assert((l + r)[l.len() + i] == c);
                    }
                    if (l + r).contains(c) {
                        let i = choose|i: int| 0 <= i < (l + r).len() && (l + r)[i] == c;
                        if i < l.len() {
                            assert(l[i] == c);
                        } else {
                            assert(r[i - l.len()] == c);
                        }
                    }
                }
            },
        }
    }

    /// Walking along the code of a symbol ends at that symbol, whatever bits
    /// follow, and uses exactly the bits of the code.
    pub proof fn lemma_descend_code(self, c: char, rest: Seq<bool>)
        requires
            self.codes().contains_key(c),
        ensures
            self.descend(self.codes()[c] + rest) == Some((c, self.codes()[c].len())),
            self is Internal ==> self.codes()[c].len() > 0,
        decreases self,
    {
        match self {
            Node::Leaf { symbol } => {
                assert(self.codes()[c] + rest =~= rest);
            },
            Node::Internal { left, right } => {
                let bits = self.codes()[c] + rest;
                if right.codes().contains_key(c) {
                    right.lemma_descend_code(c, rest);
                    assert(bits.drop_first() =~= right.codes()[c] + rest);
                } else {
                    left.lemma_descend_code(c, rest);
                    assert(bits.drop_first() =~= left.codes()[c] + rest);
                }
            },
        }
    }

    /// Walking along a proper beginning of a code ends before a leaf is
    /// reached.
    pub proof fn lemma_descend_cut_code(self, c: char, m: int)
        requires
            self.codes().contains_key(c),
            0 <= m < self.codes()[c].len(),
        ensures
            self.descend(self.codes()[c].take(m)) is None,
        decreases self,
    {
        match self {
            Node::Leaf { .. } => {},
            Node::Internal { left, right } => {
                let bits = self.codes()[c].take(m);
                if m > 0 {
                    if right.codes().contains_key(c) {
                        right.lemma_descend_cut_code(c, m - 1);
                        assert(bits.drop_first() =~= right.codes()[c].take(m - 1));
                    } else {
                        left.lemma_descend_cut_code(c, m - 1);
                        assert(bits.drop_first() =~= left.codes()[c].take(m - 1));
                    }
                }
            },
        }
    }

    /// Reading the payload bits of a text gives the text back.
    pub proof fn lemma_decode_payload(self, text: Seq<char>)
        requires
            forall|i: int| 0 <= i < text.len() ==> self.leaves().contains(#[trigger] text[i]),
        ensures
            self.decode_bits(self.payload_bits(text)) == Some(text),
        decreases text.len(),
    {
        let table = self.payload_codes();
        if text.len() == 0 {
        } else {
            let c = text[0];
            let rest = text.drop_first();
            lemma_encode_with_front(table, text);
            assert forall|i: int| 0 <= i < rest.len() implies self.leaves().contains(
                #[trigger] rest[i],
            ) by {
                assert(rest[i] == text[i + 1]);
            }
            self.lemma_decode_payload(rest);
            self.lemma_codes_dom();
            let tail = encode_with(table, rest);
            let bits = table[c] + tail;
            match self {
                Node::Leaf { symbol } => {
                    assert(self.leaves() =~= seq![symbol]);
                    assert(c == symbol);
                    assert(bits[0] == false);
                },
                Node::Internal { .. } => {
                    self.lemma_descend_code(c, tail);
                },
            }
            assert(bits.skip(table[c].len() as int) =~= tail);
            assert(seq![c] + rest =~= text);
        }
    }
}

/// The number of nodes of the trees of `stack`, taken together.
spec fn node_count(stack: Seq<Node>) -> nat
    decreases stack.len(),
{
    if stack.len() == 0 {
        0
    } else {
        node_count(stack.drop_last()) + stack.last().size()
    }
}

/// Takes a tree apart node by node, without recursion. A tree that is
/// simply dropped is freed recursively, and a very deep one can exhaust
/// the call stack on the way.
pub(crate) fn dismantle(tree: Node) {
    let mut stack: Vec<Node> = Vec::new();
    stack.push(tree);
    loop
        decreases node_count(stack@),
    {
        let ghost before = stack@;
        match stack.pop() {
            None => {
                return ;
            },
            Some(Node::Leaf { .. }) => {
                assert(stack@ =~= before.drop_last());
                assert(before.last().size() == 1);
            },
            Some(Node::Internal { left, right }) => {
                assert(stack@ =~= before.drop_last());
                assert(before.last().size() == 1 + left.size() + right.size());
                let ghost rest = stack@;
                stack.push(*left);
                assert(stack@.drop_last() =~= rest);
                assert(node_count(stack@) == node_count(rest) + left.size());
                let ghost more = stack@;
                stack.push(*right);
                assert(stack@.drop_last() =~= more);
                assert(node_count(stack@) == node_count(more) + right.size());
            },
        }
    }
}

} // verus!
