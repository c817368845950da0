//! The code table of a tree, and the encoding of a text with it.

use super::text::{bit_text, render_bits, symbols};
use super::tree::{encode_with, lemma_encode_with_step, prefixed, Node};
use std::collections::HashMap;
use vstd::prelude::*;

verus! {

broadcast use vstd::std_specs::hash::group_hash_axioms;

/// A table that gives each symbol of an alphabet its code.
pub struct CodeTable {
    map: HashMap<u32, Vec<bool>>,
}

impl View for CodeTable {
    type V = Map<char, Seq<bool>>;

    /// The code of each symbol that has one.
    closed spec fn view(&self) -> Map<char, Seq<bool>> {
        Map::new(|c: char| self.map@.contains_key(c as u32), |c: char| self.map@[c as u32]@)
    }
}

/// Every code of `table` with the bits `prefix` put in front.
pub open spec fn extended(table: Map<char, Seq<bool>>, prefix: Seq<bool>) -> Map<
    char,
    Seq<bool>,
> {
    table.map_values(|code: Seq<bool>| prefix + code)
}

/// Putting one bit and then a prefix in front is putting the longer prefix
/// in front.
proof fn lemma_extended_prefixed(table: Map<char, Seq<bool>>, prefix: Seq<bool>, bit: bool)
    ensures
        extended(prefixed(table, bit), prefix) == extended(table, prefix.push(bit)),
{
    let a = extended(prefixed(table, bit), prefix);
    let b = extended(table, prefix.push(bit));
    assert forall|c: char| a.contains_key(c) implies a[c] == b[c] by {
        assert(prefix + (seq![bit] + table[c]) =~= prefix.push(bit) + table[c]);
    }
    assert(a =~= b);
}

impl CodeTable {
    /// A table without entries.
    pub fn new() -> (table: Self)
        ensures
            table@ == Map::<char, Seq<bool>>::empty(),
    {
        let table = CodeTable { map: HashMap::new() };
        assert(table@ =~= Map::<char, Seq<bool>>::empty());
        table
    }

    /// Gives `symbol` the code `code`, in place of any code it had.
    pub fn insert(&mut self, symbol: char, code: Vec<bool>)
        ensures
            final(self)@ == old(self)@.insert(symbol, code@),
    {
        self.map.insert(symbol as u32, code);
        proof {
            let want = old(self)@.insert(symbol, code@);
            assert forall|c: char| self@.contains_key(c) <==> want.contains_key(c) by {
                vstd::utf8::char_u32_cast(c, c as u32);
                vstd::utf8::char_u32_cast(symbol, symbol as u32);
            }
            assert forall|c: char| self@.contains_key(c) implies self@[c] == want[c] by {
                vstd::utf8::char_u32_cast(c, c as u32);
                vstd::utf8::char_u32_cast(symbol, symbol as u32);
            }
            assert(self@ =~= want);
        }
    }

    /// The code of `symbol`, if it has one.
    pub fn get(&self, symbol: char) -> (code: Option<&Vec<bool>>)
        ensures
            match code {
                Some(bits) => self@.contains_key(symbol) && bits@ == self@[symbol],
                None => !self@.contains_key(symbol),
            },
    {
        let key: u32 = symbol as u32;
        self.map.get(&key)
    }

    /// The code of `symbol`, if it has one, written with the characters
    /// `0` and `1`.
    pub fn code_text(&self, symbol: char) -> (text: Option<String>)
        ensures
            match text {
                Some(written) => self@.contains_key(symbol) && written@ == bit_text(
                    self@[symbol],
                ),
                None => !self@.contains_key(symbol),
            },
    {
        match self.get(symbol) {
            Some(bits) => Some(render_bits(bits)),
            None => None,
        }
    }
}

/// Adds the codes of the tree below `node` to `codes`, each with the bits of
/// `code`, the path from the root to `node`, in front. `code` is left as it
/// was.
pub fn _assign_codes(node: &Node, codes: &mut CodeTable, code: &mut Vec<bool>)
    ensures
        final(code)@ == old(code)@,
        final(codes)@ == old(codes)@.union_prefer_right(extended(node.codes(), old(code)@)),
    decreases *node,
{
    let ghost path = code@;
    let ghost before = codes@;
    match node {
        Node::Leaf { symbol } => {
            let own: Vec<bool> = code.clone();
            assert(own@ =~= code@);
            codes.insert(*symbol, own);
            assert(path + Seq::<bool>::empty() =~= path);
            assert(codes@ =~= before.union_prefer_right(extended(node.codes(), path)));
        },
        Node::Internal { left, right } => {
            code.push(false);
            _assign_codes(left, codes, code);
            code.pop();
            assert(code@ =~= path);
            let ghost middle = codes@;
            code.push(true);
            _assign_codes(right, codes, code);
            code.pop();
            assert(code@ =~= path);
            proof {
                lemma_extended_prefixed(left.codes(), path, false);
                lemma_extended_prefixed(right.codes(), path, true);
                assert(codes@ =~= before.union_prefer_right(extended(node.codes(), path)));
            }
        },
    }
}

/// The code table of the tree `root`: each symbol with the path from the
/// root to its leaf, 0 for left and 1 for right. The only symbol of a
/// single-leaf tree has the empty code.
pub fn assign_codes(root: &Node) -> (codes: CodeTable)
    ensures
        codes@ == root.codes(),
{
    let mut codes = CodeTable::new();
    let mut code: Vec<bool> = Vec::new();
    _assign_codes(root, &mut codes, &mut code);
    proof {
        let got = extended(root.codes(), Seq::<bool>::empty());
        assert forall|c: char| got.contains_key(c) implies got[c] == root.codes()[c] by {
            assert(Seq::<bool>::empty() + root.codes()[c] =~= root.codes()[c]);
        }
        assert(got =~= root.codes());
        assert(codes@ =~= root.codes());
    }
    codes
}

/// The codes of the symbols of `input`, one after the other.
pub fn encode(input: &str, codes: &CodeTable) -> (output: Vec<bool>)
    requires
        forall|i: int| 0 <= i < input@.len() ==> codes@.contains_key(#[trigger] input@[i]),
    ensures
        output@ == encode_with(codes@, input@),
{
    let text: Vec<char> = symbols(input);
    let mut output: Vec<bool> = Vec::new();
    let mut i: usize = 0;
    while i < text.len()
        invariant
            i <= text.len(),
            text@ == input@,
            forall|k: int| 0 <= k < text@.len() ==> codes@.contains_key(#[trigger] text@[k]),
            output@ == encode_with(codes@, text@.take(i as int)),
        decreases text.len() - i,
    {
        let code: &Vec<bool> = match codes.get(text[i]) {
            Some(bits) => bits,
            None => {
                assert(false);
                return output;
            },
        };
        let ghost before = output@;
        let mut j: usize = 0;
        while j < code.len()
            invariant
                j <= code.len(),
                output@ == before + code@.take(j as int),
            decreases code.len() - j,
        {
            output.push(code[j]);
            assert(code@.take(j + 1) =~= code@.take(j as int).push(code@[j as int]));
            j += 1;
        }
        proof {
            assert(code@.take(code.len() as int) =~= code@);
            lemma_encode_with_step(codes@, text@, i as int);
        }
        i += 1;
    }
    assert(text@.take(text.len() as int) =~= text@);
    output
}

} // verus!
