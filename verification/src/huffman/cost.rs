//! What a text costs under a code: the number of its encoded bits, counted
//! symbol by symbol, alphabet by alphabet and tree by tree.

use super::builder::{
    count, distinct, first_min, huffman_merge, leaf_forest, lemma_distinct, lemma_first_min,
    lemma_merge_step_len, merge_step, weights,
};
use super::lengths::{lemma_weighted_bump, merge_cost, merge_weights, weighted_sum};
use super::symbol::lemma_symbol_range;
use super::tree::{encode_with, Node};
use vstd::prelude::*;

verus! {

/// How often each symbol of `alphabet` occurs in `text`.
pub open spec fn tally(alphabet: Seq<char>, text: Seq<char>) -> Seq<nat> {
    Seq::new(alphabet.len(), |j: int| count(text, alphabet[j]))
}

/// The length of the code of each symbol of `alphabet`.
pub open spec fn code_lengths(codes: Map<char, Seq<bool>>, alphabet: Seq<char>) -> Seq<nat> {
    Seq::new(alphabet.len(), |j: int| codes[alphabet[j]].len())
}

/// The number of encoded bits of a text is the sum, over its distinct
/// symbols, of the length of the code times the number of occurrences.
pub proof fn lemma_encoded_len(codes: Map<char, Seq<bool>>, text: Seq<char>)
    ensures
        encode_with(codes, text).len() == weighted_sum(
            tally(distinct(text), text),
            code_lengths(codes, distinct(text)),
        ),
    decreases text.len(),
{
    if text.len() > 0 {
        let front = text.drop_last();
        let c = text.last();
        let before = distinct(front);
        let after = distinct(text);
        let lens = code_lengths(codes, before);
        let was = tally(before, front);
        let now = tally(after, text);
        lemma_encoded_len(codes, front);
        lemma_distinct(front);
        if before.contains(c) {
            let at = choose|j: int| 0 <= j < before.len() && before[j] == c;
            assert forall|j: int| 0 <= j < before.len() implies now[j] == was.update(
                at,
                was[at] + 1,
            )[j] by {
                if j != at {
                    assert(before[j] != before[at]);
                }
            }
            assert(now =~= was.update(at, was[at] + 1));
            lemma_weighted_bump(was, lens, at);
        } else {
            assert(count(front, c) == 0);
            assert forall|j: int| 0 <= j < before.len() implies now[j] == was[j] by {
                assert(before.contains(before[j]));
                assert(after[j] == before[j]);
            }
            assert(now.drop_last() =~= was);
            assert(now.last() == 1);
            assert(code_lengths(codes, after).drop_last() =~= lens);
            assert(code_lengths(codes, after).last() == codes[c].len());
            let l = codes[c].len();
            assert(1 * l == l) by (nonlinear_arith);
        }
    }
}

/// How often the symbols at the leaves of `tree` occur in `text`, taken
/// together.
pub open spec fn tree_weight(tree: Node, text: Seq<char>) -> nat
    decreases tree,
{
    match tree {
        Node::Leaf { symbol } => count(text, symbol),
        Node::Internal { left, right } => tree_weight(*left, text) + tree_weight(*right, text),
    }
}

/// The number of bits that `text` costs under `tree`, added up over the
/// tree: every internal node costs one bit for each occurrence of a symbol
/// below it.
pub open spec fn tree_cost(tree: Node, text: Seq<char>) -> nat
    decreases tree,
{
    match tree {
        Node::Leaf { .. } => 0,
        Node::Internal { left, right } => tree_cost(*left, text) + tree_cost(*right, text)
            + tree_weight(*left, text) + tree_weight(*right, text),
    }
}

/// The costs of the trees of a forest, taken together.
pub open spec fn forest_cost(forest: Seq<(Node, nat)>, text: Seq<char>) -> nat
    decreases forest.len(),
{
    if forest.len() == 0 {
        0
    } else {
        forest_cost(forest.drop_last(), text) + tree_cost(forest.last().0, text)
    }
}

/// Every tree of the forest weighs what its symbols weigh in `text`.
pub open spec fn weighed(forest: Seq<(Node, nat)>, text: Seq<char>) -> bool {
    forall|i: int|
        0 <= i < forest.len() ==> (#[trigger] forest[i]).1 == tree_weight(forest[i].0, text)
}

/// Taking a tree out of a forest takes its cost out of the sum.
proof fn lemma_forest_cost_remove(forest: Seq<(Node, nat)>, text: Seq<char>, i: int)
    requires
        0 <= i < forest.len(),
    ensures
        forest_cost(forest, text) == forest_cost(forest.remove(i), text) + tree_cost(
            forest[i].0,
            text,
        ),
    decreases forest.len(),
{
    if i == forest.len() - 1 {
        assert(forest.remove(i) =~= forest.drop_last());
    } else {
        lemma_forest_cost_remove(forest.drop_last(), text, i);
        assert(forest.remove(i).drop_last() =~= forest.drop_last().remove(i));
    }
}

/// A step of merging on a forest is a step of merging on its weights, and
/// raises the cost of the forest by the weight of the new tree.
proof fn lemma_merge_step_cost(forest: Seq<(Node, nat)>, text: Seq<char>)
    requires
        forest.len() >= 2,
        weighed(forest, text),
    ensures
        weighed(merge_step(forest), text),
        weights(merge_step(forest)) == merge_weights(weights(forest)),
        forest_cost(merge_step(forest), text) + merge_cost(merge_weights(weights(forest)))
            == forest_cost(forest, text) + merge_cost(weights(forest)),
{
    let ws = weights(forest);
    let a = first_min(ws);
    lemma_first_min(ws);
    let rest = forest.remove(a);
    let rs = weights(rest);
    assert(rs =~= ws.remove(a));
    let b = first_min(rs);
    lemma_first_min(rs);
    let others = rest.remove(b);
    let merged = merge_step(forest);
    let joined = Node::Internal { left: Box::new(forest[a].0), right: Box::new(rest[b].0) };
    assert(merged.drop_last() =~= others);
    assert(merged.last() == (joined, forest[a].1 + rest[b].1));
    assert(weights(merged) =~= merge_weights(ws));
    lemma_forest_cost_remove(forest, text, a);
    lemma_forest_cost_remove(rest, text, b);
    assert(rest[b] == forest[if b < a {
        b
    } else {
        b + 1
    }]);
    assert(weighed(merged, text)) by {
        assert forall|i: int| 0 <= i < merged.len() implies (#[trigger] merged[i]).1
            == tree_weight(merged[i].0, text) by {
            if i < others.len() {
                let k = if i < b {
                    i
                } else {
                    i + 1
                };
                assert(merged[i] == rest[k]);
                let k2 = if k < a {
                    k
                } else {
                    k + 1
                };
                assert(rest[k] == forest[k2]);
            }
        }
    }
}

/// The tree that merging ends with costs what the trees of the forest cost
/// and what merging their weights costs.
pub proof fn lemma_merge_tree_cost(forest: Seq<(Node, nat)>, text: Seq<char>)
    requires
        forest.len() >= 1,
        weighed(forest, text),
    ensures
        tree_cost(huffman_merge(forest), text) == forest_cost(forest, text) + merge_cost(
            weights(forest),
        ),
    decreases forest.len(),
{
    if forest.len() < 2 {
        assert(forest.drop_last() =~= Seq::<(Node, nat)>::empty());
        assert(forest_cost(forest.drop_last(), text) == 0);
        assert(forest.last() == forest[0]);
        assert(weights(forest).len() == 1);
        assert(merge_cost(weights(forest)) == 0);
    } else {
        lemma_merge_step_len(forest);
        lemma_merge_step_cost(forest, text);
        lemma_merge_tree_cost(merge_step(forest), text);
        assert(huffman_merge(forest) == huffman_merge(merge_step(forest)));
    }
}

/// A forest of leaves costs nothing, weighs what its symbols weigh, and
/// has the tally of its alphabet as its weights.
pub proof fn lemma_leaf_forest_cost(alphabet: Seq<char>, text: Seq<char>)
    ensures
        leaf_forest(alphabet, text).len() == alphabet.len(),
        forest_cost(leaf_forest(alphabet, text), text) == 0,
        weighed(leaf_forest(alphabet, text), text),
        weights(leaf_forest(alphabet, text)) == tally(alphabet, text),
    decreases alphabet.len(),
{
    let forest = leaf_forest(alphabet, text);
    if alphabet.len() > 0 {
        let front = alphabet.drop_last();
        let last = alphabet.last();
        lemma_leaf_forest_cost(front, text);
        lemma_symbol_range(last);
        let before = leaf_forest(front, text);
        assert(forest.drop_last() =~= before);
        assert(forest.last() == (Node::Leaf { symbol: last }, count(text, last)));
        assert(weighed(forest, text)) by {
            assert forall|i: int| 0 <= i < forest.len() implies (#[trigger] forest[i]).1
                == tree_weight(forest[i].0, text) by {
                if i < before.len() {
                    assert(forest[i] == before[i]);
                }
            }
        }
        assert(weights(forest) =~= tally(alphabet, text)) by {
            assert forall|i: int| 0 <= i < forest.len() implies weights(forest)[i] == tally(
                alphabet,
                text,
            )[i] by {
                if i < before.len() {
                    assert(forest[i] == before[i]);
                    assert(weights(before)[i] == tally(front, text)[i]);
                }
            }
        }
    } else {
        assert(weights(forest) =~= tally(alphabet, text));
    }
}

/// The bits that the symbols of `text` at the leaves of `tree` cost.
pub open spec fn cost_in(tree: Node, text: Seq<char>) -> nat
    decreases text.len(),
{
    if text.len() == 0 {
        0
    } else {
        cost_in(tree, text.drop_last()) + if tree.leaves().contains(text.last()) {
            tree.codes()[text.last()].len()
        } else {
            0
        }
    }
}

/// How many symbols of `text` stand at a leaf of `tree`.
pub open spec fn hits(tree: Node, text: Seq<char>) -> nat
    decreases text.len(),
{
    if text.len() == 0 {
        0
    } else {
        hits(tree, text.drop_last()) + if tree.leaves().contains(text.last()) {
            1nat
        } else {
            0nat
        }
    }
}

/// Where a sequence in two parts holds nothing twice, neither part does,
/// and the parts share nothing.
proof fn lemma_no_duplicates_split(a: Seq<char>, b: Seq<char>)
    requires
        (a + b).no_duplicates(),
    ensures
        a.no_duplicates(),
        b.no_duplicates(),
        forall|c: char| !(a.contains(c) && b.contains(c)),
        forall|c: char| (a + b).contains(c) <==> a.contains(c) || b.contains(c),
{
    let s = a + b;
    assert forall|i: int, j: int| 0 <= i < a.len() && 0 <= j < a.len() && i != j implies a[i]
        != a[j] by {
        assert(s[i] == a[i] && s[j] == a[j]);
    }
    assert forall|i: int, j: int| 0 <= i < b.len() && 0 <= j < b.len() && i != j implies b[i]
        != b[j] by {
        assert(s[a.len() + i] == b[i] && s[a.len() + j] == b[j]);
    }
    assert forall|c: char| !(a.contains(c) && b.contains(c)) by {
        if a.contains(c) && b.contains(c) {
            let i = choose|i: int| 0 <= i < a.len() && a[i] == c;
            let j = choose|j: int| 0 <= j < b.len() && b[j] == c;
            assert(s[i] == c && s[a.len() + j] == c);
        }
    }
    assert forall|c: char| s.contains(c) <==> a.contains(c) || b.contains(c) by {
        if a.contains(c) {
            let i = choose|i: int| 0 <= i < a.len() && a[i] == c;
            assert(s[i] == c);
        }
        if b.contains(c) {
            let j = choose|j: int| 0 <= j < b.len() && b[j] == c;
            assert(s[a.len() + j] == c);
        }
        if s.contains(c) {
            let i = choose|i: int| 0 <= i < s.len() && s[i] == c;
            if i < a.len() {
                assert(a[i] == c);
            } else {
                assert(b[i - a.len()] == c);
            }
        }
    }
}

/// At an internal node, hits and cost are those of the two subtrees, and
/// one bit more for each hit.
proof fn lemma_split(left: Node, right: Node, text: Seq<char>)
    requires
        (left.leaves() + right.leaves()).no_duplicates(),
    ensures
        ({
            let tree = Node::Internal { left: Box::new(left), right: Box::new(right) };
            &&& hits(tree, text) == hits(left, text) + hits(right, text)
            &&& cost_in(tree, text) == cost_in(left, text) + cost_in(right, text) + hits(
                left,
                text,
            ) + hits(right, text)
        }),
    decreases text.len(),
{
    let tree = Node::Internal { left: Box::new(left), right: Box::new(right) };
    if text.len() > 0 {
        let c = text.last();
        lemma_split(left, right, text.drop_last());
        lemma_no_duplicates_split(left.leaves(), right.leaves());
        left.lemma_codes_dom();
        right.lemma_codes_dom();
        tree.lemma_codes_dom();
        assert(tree.leaves() == left.leaves() + right.leaves());
        if right.leaves().contains(c) {
            assert(tree.codes()[c] == seq![true] + right.codes()[c]);
        } else if left.leaves().contains(c) {
            assert(tree.codes()[c] == seq![false] + left.codes()[c]);
        }
    }
}

/// The hits of a leaf are the occurrences of its symbol, and cost nothing.
proof fn lemma_leaf(symbol: char, text: Seq<char>)
    ensures
        hits(Node::Leaf { symbol }, text) == count(text, symbol),
        cost_in(Node::Leaf { symbol }, text) == 0,
    decreases text.len(),
{
    let tree = Node::Leaf { symbol };
    if text.len() > 0 {
        lemma_leaf(symbol, text.drop_last());
        assert(tree.leaves() =~= seq![symbol]);
        assert(tree.leaves()[0] == symbol);
        assert(tree.leaves().contains(text.last()) <==> text.last() == symbol);
    }
}

/// Counted symbol by symbol, a text costs under a tree what it costs
/// counted node by node.
pub proof fn lemma_cost_in(tree: Node, text: Seq<char>)
    requires
        tree.leaves().no_duplicates(),
    ensures
        hits(tree, text) == tree_weight(tree, text),
        cost_in(tree, text) == tree_cost(tree, text),
    decreases tree,
{
    match tree {
        Node::Leaf { symbol } => {
            lemma_leaf(symbol, text);
        },
        Node::Internal { left, right } => {
            lemma_no_duplicates_split(left.leaves(), right.leaves());
            lemma_cost_in(*left, text);
            lemma_cost_in(*right, text);
            lemma_split(*left, *right, text);
        },
    }
}

/// A text whose symbols all stand in the tree has as many encoded bits as
/// its symbols cost.
pub proof fn lemma_encoded_cost(tree: Node, text: Seq<char>)
    requires
        forall|i: int| 0 <= i < text.len() ==> tree.leaves().contains(#[trigger] text[i]),
    ensures
        encode_with(tree.codes(), text).len() == cost_in(tree, text),
    decreases text.len(),
{
    if text.len() > 0 {
        let front = text.drop_last();
        assert forall|i: int| 0 <= i < front.len() implies tree.leaves().contains(
            #[trigger] front[i],
        ) by {
            assert(front[i] == text[i]);
        }
        lemma_encoded_cost(tree, front);
        assert(text.last() == text[text.len() - 1]);
    }
}

} // verus!
