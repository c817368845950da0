//! Texts as sequences of symbols.

use vstd::prelude::*;

verus! {

/// `String::push` of the standard library appends one character to the end
/// of the string.
pub assume_specification[ String::push ](s: &mut String, ch: char)
    ensures
        final(s)@ == old(s)@.push(ch),
;

/// The symbols of `input`, in order.
pub fn symbols(input: &str) -> (out: Vec<char>)
    ensures
        out@ == input@,
{
    let mut out: Vec<char> = Vec::new();
    for c in it: input.chars()
        invariant
            out@ == it.seq().take(it.index() as int),
            it.seq() == input@,
    {
        out.push(c);
    }
    out
}

/// The text that `chars` spell.
pub fn text_of(chars: &Vec<char>) -> (out: String)
    ensures
        out@ == chars@,
{
    let mut out = String::new();
    let mut i: usize = 0;
    while i < chars.len()
        invariant
            i <= chars.len(),
            out@ == chars@.take(i as int),
        decreases chars.len() - i,
    {
        out.push(chars[i]);
        i += 1;
    }
    out
}

/// A bit sequence written with the characters `0` and `1`.
pub open spec fn bit_text(bits: Seq<bool>) -> Seq<char> {
    Seq::new(
        bits.len(),
        |i: int|
            if bits[i] {
                '1'
            } else {
                '0'
            },
    )
}

/// Writes `bits` with the characters `0` and `1`.
pub fn render_bits(bits: &Vec<bool>) -> (out: String)
    ensures
        out@ == bit_text(bits@),
{
    let mut out = String::new();
    let mut i: usize = 0;
    while i < bits.len()
        invariant
            i <= bits.len(),
            out@ == bit_text(bits@).take(i as int),
        decreases bits.len() - i,
    {
        out.push(if bits[i] { '1' } else { '0' });
        assert(bit_text(bits@).take(i + 1) =~= bit_text(bits@).take(i as int).push(
            bit_text(bits@)[i as int],
        ));
        i += 1;
    }
    assert(bit_text(bits@).take(bits.len() as int) =~= bit_text(bits@));
    out
}

} // verus!
