//! Codes in which no word begins another, and Kraft's inequality for them.

use super::lengths::{kraft_holds, kraft_sum, within};
use vstd::arithmetic::power2::{lemma_pow2_pos, lemma_pow2_unfold};
use vstd::prelude::*;

verus! {

/// No word of `codes` is the beginning of a word at another position.
pub open spec fn prefix_free(codes: Seq<Seq<bool>>) -> bool {
    forall|i: int, j: int|
        0 <= i < codes.len() && 0 <= j < codes.len() && i != j ==> !(#[trigger] codes[i]).is_prefix_of(
            #[trigger] codes[j],
        )
}

/// The lengths of the words of `codes`.
pub open spec fn lengths_of(codes: Seq<Seq<bool>>) -> Seq<nat> {
    Seq::new(codes.len(), |i: int| codes[i].len())
}

/// The words of `codes` that start with `bit`, each without that first bit.
pub open spec fn tails(codes: Seq<Seq<bool>>, bit: bool) -> Seq<Seq<bool>>
    decreases codes.len(),
{
    if codes.len() == 0 {
        Seq::empty()
    } else {
        let front = tails(codes.drop_last(), bit);
        let last = codes.last();
        if last.len() > 0 && last[0] == bit {
            front.push(last.drop_first())
        } else {
            front
        }
    }
}

/// Every tail comes from a word that starts with the bit.
proof fn lemma_tails_member(codes: Seq<Seq<bool>>, bit: bool, k: int)
    requires
        0 <= k < tails(codes, bit).len(),
    ensures
        exists|i: int|
            0 <= i < codes.len() && (#[trigger] codes[i]).len() > 0 && codes[i][0] == bit
                && codes[i].drop_first() == tails(codes, bit)[k],
    decreases codes.len(),
{
    let front = codes.drop_last();
    let last = codes.last();
    let n = codes.len() - 1;
    if last.len() > 0 && last[0] == bit && k == tails(front, bit).len() {
        assert(codes[n] == last);
    } else {
        lemma_tails_member(front, bit, k);
        let i = choose|i: int|
            0 <= i < front.len() && (#[trigger] front[i]).len() > 0 && front[i][0] == bit
                && front[i].drop_first() == tails(front, bit)[k];
        assert(codes[i] == front[i]);
    }
}

/// Two words with the same first bit: where the one without it begins the
/// other without it, the one begins the other.
proof fn lemma_prefix_of_tails(x: Seq<bool>, y: Seq<bool>)
    requires
        x.len() > 0,
        y.len() > 0,
        x[0] == y[0],
        x.drop_first().is_prefix_of(y.drop_first()),
    ensures
        x.is_prefix_of(y),
{
    let xt = x.drop_first();
    let yt = y.drop_first();
    assert(xt =~= yt.subrange(0, xt.len() as int));
    assert forall|i: int| 0 <= i < x.len() implies x[i] == y.subrange(0, x.len() as int)[i] by {
        if i > 0 {
            assert(x[i] == xt[i - 1]);
            assert(yt.subrange(0, xt.len() as int)[i - 1] == yt[i - 1]);
            assert(yt[i - 1] == y[i]);
        }
    }
    assert(x =~= y.subrange(0, x.len() as int));
}

/// The tails of a prefix-free code are a prefix-free code.
proof fn lemma_tails_prefix_free(codes: Seq<Seq<bool>>, bit: bool)
    requires
        prefix_free(codes),
    ensures
        prefix_free(tails(codes, bit)),
    decreases codes.len(),
{
    if codes.len() > 0 {
        let front = codes.drop_last();
        let last = codes.last();
        let n = codes.len() - 1;
        assert(prefix_free(front)) by {
            assert forall|i: int, j: int|
                0 <= i < front.len() && 0 <= j < front.len() && i != j implies !(
                #[trigger] front[i]).is_prefix_of(#[trigger] front[j]) by {
                assert(front[i] == codes[i]);
                assert(front[j] == codes[j]);
            }
        }
        lemma_tails_prefix_free(front, bit);
        let before = tails(front, bit);
        let all = tails(codes, bit);
        if last.len() > 0 && last[0] == bit {
            let t = last.drop_first();
            assert forall|i: int, j: int|
                0 <= i < all.len() && 0 <= j < all.len() && i != j implies !(
                #[trigger] all[i]).is_prefix_of(#[trigger] all[j]) by {
                if i < before.len() && j < before.len() {
                    assert(all[i] == before[i]);
                    assert(all[j] == before[j]);
                } else {
                    let k = if i < before.len() {
                        i
                    } else {
                        j
                    };
                    lemma_tails_member(front, bit, k);
                    let src = choose|s: int|
                        0 <= s < front.len() && (#[trigger] front[s]).len() > 0 && front[s][0]
                            == bit && front[s].drop_first() == before[k];
                    assert(codes[src] == front[src]);
                    assert(codes[n] == last);
                    assert(all[k] == before[k]);
                    if all[i].is_prefix_of(all[j]) {
                        if i < before.len() {
                            lemma_prefix_of_tails(codes[src], codes[n]);
                        } else {
                            lemma_prefix_of_tails(codes[n], codes[src]);
                        }
                        assert(false);
                    }
                }
            }
        }
    }
}

/// Kraft's sum of a code without the empty word is the sum of the sums of
/// its two halves of tails, each with one bit less to spare.
proof fn lemma_tails_kraft(codes: Seq<Seq<bool>>, d: nat)
    requires
        d >= 1,
        within(lengths_of(codes), d),
        forall|i: int| 0 <= i < codes.len() ==> (#[trigger] codes[i]).len() > 0,
    ensures
        within(lengths_of(tails(codes, false)), (d - 1) as nat),
        within(lengths_of(tails(codes, true)), (d - 1) as nat),
        kraft_sum(lengths_of(codes), d) == kraft_sum(
            lengths_of(tails(codes, false)),
            (d - 1) as nat,
        ) + kraft_sum(lengths_of(tails(codes, true)), (d - 1) as nat),
    decreases codes.len(),
{
    let less = (d - 1) as nat;
    if codes.len() > 0 {
        let front = codes.drop_last();
        let last = codes.last();
        let n = codes.len() - 1;
        assert(codes[n] == last);
        assert(lengths_of(codes)[n] <= d);
        assert(lengths_of(codes).drop_last() =~= lengths_of(front));
        assert(within(lengths_of(front), d)) by {
            assert forall|i: int| 0 <= i < front.len() implies #[trigger] lengths_of(front)[i]
                <= d by {
                assert(lengths_of(codes)[i] <= d);
            }
        }
        assert forall|i: int| 0 <= i < front.len() implies (#[trigger] front[i]).len() > 0 by {
            assert(front[i] == codes[i]);
        }
        lemma_tails_kraft(front, d);
        let bit = last[0];
        let grown = tails(codes, bit);
        let before = tails(front, bit);
        assert(grown == before.push(last.drop_first()));
        assert(tails(codes, !bit) == tails(front, !bit));
        assert(lengths_of(grown).drop_last() =~= lengths_of(before));
        assert(lengths_of(grown).last() == last.len() - 1);
        assert((less - (last.len() - 1)) as nat == (d - last.len()) as nat);
        assert(within(lengths_of(grown), less)) by {
            assert forall|i: int| 0 <= i < grown.len() implies #[trigger] lengths_of(grown)[i]
                <= less by {
                if i < before.len() {
                    assert(lengths_of(before)[i] <= less);
                }
            }
        }
    }
}

/// Kraft's inequality: the lengths of a prefix-free code obey it.
pub proof fn lemma_kraft(codes: Seq<Seq<bool>>, d: nat)
    requires
        prefix_free(codes),
        within(lengths_of(codes), d),
    ensures
        kraft_holds(lengths_of(codes), d),
    decreases d,
{
    let ls = lengths_of(codes);
    lemma_pow2_pos(d);
    if codes.len() == 0 {
    } else if exists|i: int| 0 <= i < codes.len() && (#[trigger] codes[i]).len() == 0 {
        let i = choose|i: int| 0 <= i < codes.len() && (#[trigger] codes[i]).len() == 0;
        if codes.len() > 1 {
            let j = if i == 0 {
                1int
            } else {
                0int
            };
            assert(codes[i] =~= codes[j].subrange(0, 0));
            assert(codes[i].is_prefix_of(codes[j]));
            assert(false);
        }
        assert(ls.drop_last() =~= Seq::<nat>::empty());
        assert(kraft_sum(ls.drop_last(), d) == 0);
        assert(ls.last() == 0);
    } else {
        assert(ls[0] <= d);
        assert(codes[0].len() > 0);
        let less = (d - 1) as nat;
        lemma_tails_kraft(codes, d);
        lemma_tails_prefix_free(codes, false);
        lemma_tails_prefix_free(codes, true);
        lemma_kraft(tails(codes, false), less);
        lemma_kraft(tails(codes, true), less);
        lemma_pow2_unfold(d);
    }
}

} // verus!
