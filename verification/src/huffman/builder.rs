//! Building the code tree of a text: counting its symbols, then merging the
//! two lightest trees until one is left.
//!
//! Ties are broken by position. The symbols start out in the order in which
//! the text first shows them; of several lightest trees the one nearest the
//! front is taken; a merged tree joins at the back.

use super::error::HuffmanError;
use super::symbol::lemma_symbol_range;
use super::text::symbols;
use super::tree::Node;
use std::collections::HashMap;
use vstd::multiset::Multiset;
use vstd::prelude::*;

verus! {

broadcast use vstd::std_specs::hash::group_hash_axioms;

/// How often the symbol `c` occurs in `text`.
pub open spec fn count(text: Seq<char>, c: char) -> nat
    decreases text.len(),
{
    if text.len() == 0 {
        0
    } else {
        count(text.drop_last(), c) + if text.last() == c {
            1nat
        } else {
            0nat
        }
    }
}

/// The symbols of `text`, each once, in the order of their first occurrence.
pub open spec fn distinct(text: Seq<char>) -> Seq<char>
    decreases text.len(),
{
    if text.len() == 0 {
        Seq::empty()
    } else {
        let before = distinct(text.drop_last());
        if before.contains(text.last()) {
            before
        } else {
            before.push(text.last())
        }
    }
}

/// The sum of the numbers in `ws`.
pub open spec fn total(ws: Seq<nat>) -> nat
    decreases ws.len(),
{
    if ws.len() == 0 {
        0
    } else {
        total(ws.drop_last()) + ws.last()
    }
}

/// The position of the smallest number in `ws`; of several smallest, the
/// first.
pub open spec fn first_min(ws: Seq<nat>) -> int
    decreases ws.len(),
{
    if ws.len() <= 1 {
        0
    } else {
        let best = first_min(ws.drop_last());
        if ws.last() < ws[best] {
            ws.len() - 1
        } else {
            best
        }
    }
}

/// The weights of the trees of a forest.
pub open spec fn weights(forest: Seq<(Node, nat)>) -> Seq<nat> {
    Seq::new(forest.len(), |i: int| forest[i].1)
}

/// One leaf for each symbol of `alphabet`, in that order, weighted by the
/// number of its occurrences in `text`.
pub open spec fn leaf_forest(alphabet: Seq<char>, text: Seq<char>) -> Seq<(Node, nat)>
    decreases alphabet.len(),
{
    if alphabet.len() == 0 {
        Seq::empty()
    } else {
        leaf_forest(alphabet.drop_last(), text).push(
            (Node::Leaf { symbol: alphabet.last() }, count(text, alphabet.last())),
        )
    }
}

/// The forest that the merging starts from: one leaf for each symbol of
/// `text`, in the order of first occurrence.
pub open spec fn initial_forest(text: Seq<char>) -> Seq<(Node, nat)> {
    leaf_forest(distinct(text), text)
}

/// One step of merging: the lightest tree and the lightest of the others
/// leave the forest, and the tree with the first as its left and the second
/// as its right child joins at the back, weighing what the two weighed
/// together.
pub open spec fn merge_step(forest: Seq<(Node, nat)>) -> Seq<(Node, nat)> {
    let a = first_min(weights(forest));
    let rest = forest.remove(a);
    let b = first_min(weights(rest));
    rest.remove(b).push(
        (
            Node::Internal { left: Box::new(forest[a].0), right: Box::new(rest[b].0) },
            forest[a].1 + rest[b].1,
        ),
    )
}

/// The tree that is left when a forest has been merged down to one tree.
pub open spec fn huffman_merge(forest: Seq<(Node, nat)>) -> Node
    decreases forest.len(),
    via huffman_merge_terminates
{
    if forest.len() < 2 {
        forest[0].0
    } else {
        huffman_merge(merge_step(forest))
    }
}

/// Merging ends: each step leaves one tree less.
#[via_fn]
proof fn huffman_merge_terminates(forest: Seq<(Node, nat)>) {
    if forest.len() >= 2 {
        lemma_merge_step_len(forest);
    }
}

/// The code tree of a text that holds at least one symbol.
pub open spec fn huffman_tree(text: Seq<char>) -> Node {
    huffman_merge(initial_forest(text))
}

/// Where the smallest number stands.
pub proof fn lemma_first_min(ws: Seq<nat>)
    requires
        ws.len() >= 1,
    ensures
        0 <= first_min(ws) < ws.len(),
        forall|i: int| 0 <= i < ws.len() ==> ws[first_min(ws)] <= #[trigger] ws[i],
        forall|i: int| 0 <= i < first_min(ws) ==> ws[first_min(ws)] < #[trigger] ws[i],
    decreases ws.len(),
{
    if ws.len() > 1 {
        let front = ws.drop_last();
        lemma_first_min(front);
        assert forall|i: int| 0 <= i < ws.len() implies ws[first_min(ws)] <= #[trigger] ws[i] by {
            if i < front.len() {
                assert(front[i] == ws[i]);
            }
        }
        assert forall|i: int| 0 <= i < first_min(ws) implies ws[first_min(ws)] < #[trigger] ws[i] by {
            if i < front.len() {
                assert(front[i] == ws[i]);
            }
        }
    }
}

/// A step of merging makes the forest one tree shorter.
pub proof fn lemma_merge_step_len(forest: Seq<(Node, nat)>)
    requires
        forest.len() >= 2,
    ensures
        merge_step(forest).len() == forest.len() - 1,
{
    let a = first_min(weights(forest));
    lemma_first_min(weights(forest));
    let rest = forest.remove(a);
    lemma_first_min(weights(rest));
}

/// Taking a number out of a sequence takes it out of the sum.
pub proof fn lemma_total_remove(ws: Seq<nat>, i: int)
    requires
        0 <= i < ws.len(),
    ensures
        total(ws) == total(ws.remove(i)) + ws[i],
    decreases ws.len(),
{
    if i == ws.len() - 1 {
        assert(ws.remove(i) =~= ws.drop_last());
    } else {
        lemma_total_remove(ws.drop_last(), i);
        assert(ws.remove(i).drop_last() =~= ws.drop_last().remove(i));
    }
}

/// Changing one number of a sequence changes the sum by the difference.
pub proof fn lemma_total_update(ws: Seq<nat>, i: int, w: nat)
    requires
        0 <= i < ws.len(),
    ensures
        total(ws.update(i, w)) + ws[i] == total(ws) + w,
    decreases ws.len(),
{
    if i == ws.len() - 1 {
        assert(ws.update(i, w).drop_last() =~= ws.drop_last());
    } else {
        lemma_total_update(ws.drop_last(), i, w);
        assert(ws.update(i, w).drop_last() =~= ws.drop_last().update(i, w));
    }
}

/// A step of merging leaves the sum of the weights as it is.
pub proof fn lemma_merge_step_total(forest: Seq<(Node, nat)>)
    requires
        forest.len() >= 2,
    ensures
        total(weights(merge_step(forest))) == total(weights(forest)),
{
    let ws = weights(forest);
    let a = first_min(ws);
    lemma_first_min(ws);
    let rest = forest.remove(a);
    let rs = weights(rest);
    let b = first_min(rs);
    lemma_first_min(rs);
    assert(rs =~= ws.remove(a));
    lemma_total_remove(ws, a);
    lemma_total_remove(rs, b);
    let merged = merge_step(forest);
    assert(weights(merged).drop_last() =~= rs.remove(b));
}

/// A forest of leaves has one tree for each symbol.
pub proof fn lemma_leaf_forest_len(alphabet: Seq<char>, text: Seq<char>)
    ensures
        leaf_forest(alphabet, text).len() == alphabet.len(),
    decreases alphabet.len(),
{
    if alphabet.len() > 0 {
        lemma_leaf_forest_len(alphabet.drop_last(), text);
        lemma_symbol_range(alphabet.last());
    }
}

/// A symbol occurs at most as often as the text is long.
pub proof fn lemma_count_le_len(text: Seq<char>, c: char)
    ensures
        count(text, c) <= text.len(),
    decreases text.len(),
{
    if text.len() > 0 {
        lemma_count_le_len(text.drop_last(), c);
    }
}

/// The distinct symbols of a text are the symbols that occur in it, and none
/// of them is listed twice.
pub proof fn lemma_distinct(text: Seq<char>)
    ensures
        distinct(text).no_duplicates(),
        forall|c: char| distinct(text).contains(c) <==> count(text, c) > 0,
        forall|c: char| distinct(text).contains(c) <==> text.contains(c),
        text.len() > 0 ==> distinct(text).len() > 0,
    decreases text.len(),
{
    if text.len() > 0 {
        let front = text.drop_last();
        let before = distinct(front);
        let last = text.last();
        lemma_distinct(front);
        assert forall|c: char| distinct(text).contains(c) <==> (before.contains(c) || c
            == last) by {
            if before.contains(last) {
            } else {
                let after = before.push(last);
                assert(after[before.len() as int] == last);
                if before.contains(c) {
                    let i = choose|i: int| 0 <= i < before.len() && before[i] == c;
                    assert(after[i] == c);
                }
            }
        }
        assert forall|c: char| distinct(text).contains(c) <==> count(text, c) > 0 by {
            assert(before.contains(c) <==> count(front, c) > 0);
        }
        assert forall|c: char| distinct(text).contains(c) <==> text.contains(c) by {
            assert(before.contains(c) <==> front.contains(c));
            assert(text[text.len() - 1] == last);
            if front.contains(c) {
                let i = choose|i: int| 0 <= i < front.len() && front[i] == c;
                assert(text[i] == c);
            }
            if text.contains(c) {
                let i = choose|i: int| 0 <= i < text.len() && text[i] == c;
                if i < text.len() - 1 {
                    assert(front[i] == c);
                }
            }
        }
    } else {
        assert forall|c: char| !distinct(text).contains(c) && count(text, c) == 0
            && !text.contains(c) by {}
    }
}

/// The symbols at the leaves of all trees of a forest, each as often as it
/// stands there.
pub open spec fn leaf_bag(forest: Seq<(Node, nat)>) -> Multiset<char>
    decreases forest.len(),
{
    if forest.len() == 0 {
        Multiset::empty()
    } else {
        leaf_bag(forest.drop_last()).add(forest.last().0.leaves().to_multiset())
    }
}

/// Taking a tree out of a forest takes its leaves out of the bag.
proof fn lemma_leaf_bag_remove(forest: Seq<(Node, nat)>, i: int)
    requires
        0 <= i < forest.len(),
    ensures
        leaf_bag(forest) == leaf_bag(forest.remove(i)).add(forest[i].0.leaves().to_multiset()),
    decreases forest.len(),
{
    if i == forest.len() - 1 {
        assert(forest.remove(i) =~= forest.drop_last());
    } else {
        lemma_leaf_bag_remove(forest.drop_last(), i);
        assert(forest.remove(i).drop_last() =~= forest.drop_last().remove(i));
        assert(leaf_bag(forest) =~= leaf_bag(forest.remove(i)).add(
            forest[i].0.leaves().to_multiset(),
        ));
    }
}

/// A step of merging moves leaves from tree to tree, and neither adds nor
/// drops one.
proof fn lemma_leaf_bag_merge(forest: Seq<(Node, nat)>)
    requires
        forest.len() >= 2,
    ensures
        leaf_bag(merge_step(forest)) == leaf_bag(forest),
{
    let a = first_min(weights(forest));
    lemma_first_min(weights(forest));
    let rest = forest.remove(a);
    let b = first_min(weights(rest));
    lemma_first_min(weights(rest));
    let others = rest.remove(b);
    let merged = merge_step(forest);
    lemma_leaf_bag_remove(forest, a);
    lemma_leaf_bag_remove(rest, b);
    assert(merged.drop_last() =~= others);
    vstd::seq_lib::lemma_multiset_commutative(forest[a].0.leaves(), rest[b].0.leaves());
    assert(leaf_bag(merged) =~= leaf_bag(forest));
}

/// The tree that merging ends with has the leaves of the forest that it
/// began with.
proof fn lemma_merge_bag(forest: Seq<(Node, nat)>)
    requires
        forest.len() >= 1,
    ensures
        huffman_merge(forest).leaves().to_multiset() == leaf_bag(forest),
    decreases forest.len(),
{
    broadcast use vstd::multiset::group_multiset_axioms;

    if forest.len() < 2 {
        assert(forest.drop_last() =~= Seq::<(Node, nat)>::empty());
        assert(leaf_bag(forest.drop_last()) =~= Multiset::<char>::empty());
        assert(leaf_bag(forest) =~= forest[0].0.leaves().to_multiset());
    } else {
        lemma_merge_step_len(forest);
        lemma_leaf_bag_merge(forest);
        lemma_merge_bag(merge_step(forest));
    }
}

/// A forest of leaves has the alphabet at its leaves.
proof fn lemma_leaf_forest_bag(alphabet: Seq<char>, text: Seq<char>)
    ensures
        leaf_bag(leaf_forest(alphabet, text)) == alphabet.to_multiset(),
    decreases alphabet.len(),
{
    broadcast use vstd::seq_lib::group_to_multiset_ensures;

    if alphabet.len() == 0 {
        assert(alphabet.to_multiset().len() == 0);
        assert(alphabet.to_multiset() =~= Multiset::<char>::empty());
    } else {
        let front = alphabet.drop_last();
        let last = alphabet.last();
        lemma_leaf_forest_bag(front, text);
        lemma_symbol_range(last);
        let forest = leaf_forest(alphabet, text);
        assert(forest.drop_last() =~= leaf_forest(front, text));
        assert(forest.last().0.leaves() =~= Seq::<char>::empty().push(last));
        assert(Seq::<char>::empty().to_multiset().len() == 0);
        assert(Seq::<char>::empty().to_multiset() =~= Multiset::<char>::empty());
        assert(front.push(last) =~= alphabet);
        assert(leaf_bag(forest) =~= alphabet.to_multiset());
    }
}

/// The code tree of a text has exactly the symbols of the text at its
/// leaves, each at one leaf.
pub proof fn lemma_huffman_tree_leaves(text: Seq<char>)
    requires
        text.len() > 0,
    ensures
        huffman_tree(text).leaves().no_duplicates(),
        huffman_tree(text).leaves().to_multiset() == distinct(text).to_multiset(),
        forall|c: char| huffman_tree(text).leaves().contains(c) <==> text.contains(c),
{
    broadcast use vstd::seq_lib::group_to_multiset_ensures;

    let alphabet = distinct(text);
    let leaves = huffman_tree(text).leaves();
    lemma_distinct(text);
    lemma_leaf_forest_len(alphabet, text);
    lemma_leaf_forest_bag(alphabet, text);
    lemma_merge_bag(initial_forest(text));
    alphabet.lemma_multiset_has_no_duplicates();
    leaves.lemma_multiset_has_no_duplicates_conv();
    assert forall|c: char| leaves.contains(c) <==> text.contains(c) by {
        assert(leaves.contains(c) <==> leaves.to_multiset().count(c) > 0);
        assert(alphabet.contains(c) <==> alphabet.to_multiset().count(c) > 0);
    }
}

/// A tree of the forest with its weight.
pub struct Branch {
    /// The tree.
    pub node: Box<Node>,
    /// How often the symbols at its leaves occur, taken together.
    pub freq: usize,
}

impl View for Branch {
    type V = (Node, nat);

    /// The tree and its weight.
    open spec fn view(&self) -> (Node, nat) {
        (*self.node, self.freq as nat)
    }
}

impl Branch {
    /// The tree `node` with the weight `freq`.
    pub fn new(node: Box<Node>, freq: usize) -> (branch: Self)
        ensures
            branch@ == (*node, freq as nat),
    {
        Self { node, freq }
    }
}

/// The forest that a queue of branches stands for.
pub open spec fn entries(queue: Seq<Branch>) -> Seq<(Node, nat)> {
    Seq::new(queue.len(), |i: int| queue[i]@)
}

/// The position of the lightest branch; of several lightest, the first.
pub fn index_of_min(queue: &Vec<Branch>) -> (best: usize)
    requires
        queue@.len() >= 1,
    ensures
        best == first_min(weights(entries(queue@))),
        best < queue@.len(),
{
    let ghost ws = weights(entries(queue@));
    let mut best: usize = 0;
    let mut i: usize = 1;
    while i < queue.len()
        invariant
            1 <= i <= queue.len(),
            ws == weights(entries(queue@)),
            best < i,
            best == first_min(ws.take(i as int)),
        decreases queue.len() - i,
    {
        proof {
            assert(ws.take(i + 1).drop_last() =~= ws.take(i as int));
        }
        if queue[i].freq < queue[best].freq {
            best = i;
        }
        i += 1;
    }
    assert(ws.take(queue.len() as int) =~= ws);
    best
}

/// Counts the symbols of `text`. The result holds one leaf for each symbol,
/// weighted by the number of its occurrences, in the order in which the text
/// first shows the symbols.
pub fn count_symbols(text: &Vec<char>) -> (queue: Vec<Branch>)
    ensures
        entries(queue@) == initial_forest(text@),
        total(weights(entries(queue@))) == text@.len(),
{
    let mut index: HashMap<u32, usize> = HashMap::new();
    let mut found: Vec<char> = Vec::new();
    let mut counts: Vec<usize> = Vec::new();
    let mut i: usize = 0;
    while i < text.len()
        invariant
            i <= text.len(),
            found@ == distinct(text@.take(i as int)),
            counts@.len() == found@.len(),
            forall|j: int|
                0 <= j < found@.len() ==> counts@[j] == count(
                    text@.take(i as int),
                    #[trigger] found@[j],
                ),
            forall|j: int|
                0 <= j < found@.len() ==> index@.contains_key(#[trigger] found@[j] as u32)
                    && index@[found@[j] as u32] == j,
            forall|k: u32| #[trigger]
                index@.contains_key(k) ==> index@[k] < found@.len() && found@[index@[k] as int]
                    as u32 == k,
            total(counts@.map_values(|n: usize| n as nat)) == i,
        decreases text.len() - i,
    {
        let c: char = text[i];
        let key: u32 = c as u32;
        let ghost seen = text@.take(i as int);
        let ghost next = text@.take(i + 1);
        let ghost tally = counts@.map_values(|n: usize| n as nat);
        proof {
            assert(next.drop_last() =~= seen);
            assert(next.last() == c);
            lemma_distinct(seen);
            lemma_count_le_len(seen, c);
        }
        let slot: Option<usize> = match index.get(&key) {
            Some(j) => Some(*j),
            None => None,
        };
        match slot {
            Some(j) => {
                assert(found@[j as int] == c) by {
                    vstd::utf8::char_u32_cast(c, key);
                    vstd::utf8::char_u32_cast(found@[j as int], key);
                }
                let n: usize = counts[j];
                counts.set(j, n + 1);
                proof {
                    lemma_total_update(tally, j as int, (n + 1) as nat);
                    assert(counts@.map_values(|n: usize| n as nat) =~= tally.update(
                        j as int,
                        (n + 1) as nat,
                    ));
                }
            },
            None => {
                assert(!found@.contains(c)) by {
                    if found@.contains(c) {
                        let j = choose|j: int| 0 <= j < found@.len() && found@[j] == c;
                        assert(index@.contains_key(found@[j] as u32));
                    }
                }
                index.insert(key, found.len());
                found.push(c);
                counts.push(1);
                proof {
                    assert(counts@.map_values(|n: usize| n as nat).drop_last() =~= tally);
                }
            },
        }
        i += 1;
    }
    assert(text@.take(text.len() as int) =~= text@);
    let ghost tally = counts@.map_values(|n: usize| n as nat);
    let mut queue: Vec<Branch> = Vec::new();
    let mut j: usize = 0;
    while j < found.len()
        invariant
            j <= found.len(),
            counts@.len() == found@.len(),
            forall|k: int|
                0 <= k < found@.len() ==> counts@[k] == count(text@, #[trigger] found@[k]),
            tally == counts@.map_values(|n: usize| n as nat),
            queue@.len() == j,
            entries(queue@) == leaf_forest(found@.take(j as int), text@),
            weights(entries(queue@)) == tally.take(j as int),
        decreases found.len() - j,
    {
        let ghost before = entries(queue@);
        queue.push(Branch::new(Box::new(Node::new_leaf(found[j])), counts[j]));
        proof {
            assert(found@.take(j + 1).drop_last() =~= found@.take(j as int));
            assert(entries(queue@) =~= before.push(
                (Node::Leaf { symbol: found@[j as int] }, counts@[j as int] as nat),
            ));
            assert(weights(entries(queue@)) =~= tally.take(j + 1));
        }
        j += 1;
    }
    assert(found@.take(found.len() as int) =~= found@);
    assert(tally.take(found.len() as int) =~= tally);
    queue
}

/// Builds the code tree of `input`: the symbols are counted, and the two
/// lightest trees are merged until one tree is left. A text of one distinct
/// symbol gives a single leaf.
pub fn gen_tree(input: &str) -> (tree: Result<Node, HuffmanError>)
    ensures
        input@.len() == 0 ==> tree == Err::<Node, HuffmanError>(HuffmanError::EmptyInput),
        input@.len() > 0 ==> tree == Ok::<Node, HuffmanError>(huffman_tree(input@)),
{
    let text: Vec<char> = symbols(input);
    if text.len() == 0 {
        return Err(HuffmanError::EmptyInput);
    }
    let mut queue: Vec<Branch> = count_symbols(&text);
    proof {
        lemma_distinct(text@);
        lemma_leaf_forest_len(distinct(text@), text@);
    }
    while queue.len() > 1
        invariant
            queue@.len() >= 1,
            huffman_merge(entries(queue@)) == huffman_tree(input@),
            total(weights(entries(queue@))) <= usize::MAX,
        decreases queue@.len(),
    {
        let ghost forest = entries(queue@);
        let ghost ws = weights(forest);
        let a: usize = index_of_min(&queue);
        let left: Branch = queue.remove(a);
        let ghost rest = entries(queue@);
        let ghost rs = weights(rest);
        let b: usize = index_of_min(&queue);
        let right: Branch = queue.remove(b);
        proof {
            assert(rest =~= forest.remove(a as int));
            assert(rs =~= ws.remove(a as int));
            lemma_total_remove(ws, a as int);
            lemma_total_remove(rs, b as int);
            lemma_merge_step_total(forest);
        }
        let weight: usize = left.freq + right.freq;
        queue.push(Branch::new(Box::new(Node::new_node(left.node, right.node)), weight));
        assert(entries(queue@) =~= merge_step(forest));
    }
    let last: Branch = queue.remove(0);
    Ok(*last.node)
}

} // verus!
