//! Code lengths and what they cost: the sum that merging arrives at is the
//! least that any assignment of code lengths can have, as long as the
//! lengths are those of a code in which no word begins another.
//!
//! Such lengths are told by Kraft's inequality: with `d` at least the
//! longest of them, the numbers `2^(d - length)` add up to at most `2^d`.

use super::builder::{first_min, lemma_first_min, total};
use vstd::arithmetic::power2::{lemma_pow2_adds, lemma_pow2_pos, lemma_pow2_unfold, pow2};
use vstd::prelude::*;

verus! {

/// The sum of the products of weights and lengths, position by position.
pub open spec fn weighted_sum(ws: Seq<nat>, ls: Seq<nat>) -> nat
    decreases ws.len(),
{
    if ws.len() == 0 {
        0
    } else {
        weighted_sum(ws.drop_last(), ls.drop_last()) + ws.last() * ls.last()
    }
}

/// The sum of `2^(d - length)` over the lengths `ls`.
pub open spec fn kraft_sum(ls: Seq<nat>, d: nat) -> nat
    decreases ls.len(),
{
    if ls.len() == 0 {
        0
    } else {
        kraft_sum(ls.drop_last(), d) + pow2((d - ls.last()) as nat)
    }
}

/// No length is above `d`.
pub open spec fn within(ls: Seq<nat>, d: nat) -> bool {
    forall|i: int| 0 <= i < ls.len() ==> #[trigger] ls[i] <= d
}

/// The lengths `ls` obey Kraft's inequality.
pub open spec fn kraft_holds(ls: Seq<nat>, d: nat) -> bool {
    within(ls, d) && kraft_sum(ls, d) <= pow2(d)
}

/// The weights after one step of merging: the smallest weight and the
/// smallest of the others leave, and their sum joins at the back.
pub open spec fn merge_weights(ws: Seq<nat>) -> Seq<nat> {
    let a = first_min(ws);
    let rest = ws.remove(a);
    let b = first_min(rest);
    rest.remove(b).push(ws[a] + rest[b])
}

/// The sum of the weights of all trees that merging makes.
pub open spec fn merge_cost(ws: Seq<nat>) -> nat
    decreases ws.len(),
    via merge_cost_terminates
{
    if ws.len() < 2 {
        0
    } else {
        let a = first_min(ws);
        let rest = ws.remove(a);
        let b = first_min(rest);
        ws[a] + rest[b] + merge_cost(merge_weights(ws))
    }
}

/// Merging ends: each step leaves one weight less.
#[via_fn]
proof fn merge_cost_terminates(ws: Seq<nat>) {
    if ws.len() >= 2 {
        lemma_merge_weights_len(ws);
    }
}

/// A step of merging leaves one weight less.
pub proof fn lemma_merge_weights_len(ws: Seq<nat>)
    requires
        ws.len() >= 2,
    ensures
        merge_weights(ws).len() == ws.len() - 1,
{
    lemma_first_min(ws);
    lemma_first_min(ws.remove(first_min(ws)));
}

/// Taking a position out takes its product out of the sum.
proof fn lemma_weighted_remove(ws: Seq<nat>, ls: Seq<nat>, i: int)
    requires
        ws.len() == ls.len(),
        0 <= i < ws.len(),
    ensures
        weighted_sum(ws, ls) == weighted_sum(ws.remove(i), ls.remove(i)) + ws[i] * ls[i],
    decreases ws.len(),
{
    if i == ws.len() - 1 {
        assert(ws.remove(i) =~= ws.drop_last());
        assert(ls.remove(i) =~= ls.drop_last());
    } else {
        lemma_weighted_remove(ws.drop_last(), ls.drop_last(), i);
        assert(ws.remove(i).drop_last() =~= ws.drop_last().remove(i));
        assert(ls.remove(i).drop_last() =~= ls.drop_last().remove(i));
    }
}

/// Changing one length changes the sum by the weight times the difference.
proof fn lemma_weighted_update(ws: Seq<nat>, ls: Seq<nat>, i: int, v: nat)
    requires
        ws.len() == ls.len(),
        0 <= i < ws.len(),
    ensures
        weighted_sum(ws, ls.update(i, v)) + ws[i] * ls[i] == weighted_sum(ws, ls) + ws[i] * v,
    decreases ws.len(),
{
    if i == ws.len() - 1 {
        assert(ls.update(i, v).drop_last() =~= ls.drop_last());
    } else {
        lemma_weighted_update(ws.drop_last(), ls.drop_last(), i, v);
        assert(ls.update(i, v).drop_last() =~= ls.drop_last().update(i, v));
    }
}

/// One more of the weight at position `i` costs its length more.
pub proof fn lemma_weighted_bump(ws: Seq<nat>, ls: Seq<nat>, i: int)
    requires
        ws.len() == ls.len(),
        0 <= i < ws.len(),
    ensures
        weighted_sum(ws.update(i, ws[i] + 1), ls) == weighted_sum(ws, ls) + ls[i],
    decreases ws.len(),
{
    if i == ws.len() - 1 {
        assert(ws.update(i, ws[i] + 1).drop_last() =~= ws.drop_last());
        let w = ws[i];
        let l = ls[i];
        assert((w + 1) * l == w * l + l) by (nonlinear_arith);
    } else {
        lemma_weighted_bump(ws.drop_last(), ls.drop_last(), i);
        assert(ws.update(i, ws[i] + 1).drop_last() =~= ws.drop_last().update(i, ws[i] + 1));
    }
}

/// Taking a length out takes its term out of Kraft's sum.
proof fn lemma_kraft_remove(ls: Seq<nat>, d: nat, i: int)
    requires
        0 <= i < ls.len(),
    ensures
        kraft_sum(ls, d) == kraft_sum(ls.remove(i), d) + pow2((d - ls[i]) as nat),
    decreases ls.len(),
{
    if i == ls.len() - 1 {
        assert(ls.remove(i) =~= ls.drop_last());
    } else {
        lemma_kraft_remove(ls.drop_last(), d, i);
        assert(ls.remove(i).drop_last() =~= ls.drop_last().remove(i));
    }
}

/// Changing one length changes its term of Kraft's sum, and no other.
proof fn lemma_kraft_update(ls: Seq<nat>, d: nat, i: int, v: nat)
    requires
        0 <= i < ls.len(),
    ensures
        kraft_sum(ls.update(i, v), d) + pow2((d - ls[i]) as nat) == kraft_sum(ls, d) + pow2(
            (d - v) as nat,
        ),
    decreases ls.len(),
{
    if i == ls.len() - 1 {
        assert(ls.update(i, v).drop_last() =~= ls.drop_last());
    } else {
        lemma_kraft_update(ls.drop_last(), d, i, v);
        assert(ls.update(i, v).drop_last() =~= ls.drop_last().update(i, v));
    }
}

/// With `e` more bits to spare, every term of the sum is `2^e` times as
/// large.
proof fn lemma_kraft_scale(ls: Seq<nat>, d: nat, e: nat)
    requires
        within(ls, d),
    ensures
        kraft_sum(ls, d + e) == pow2(e) * kraft_sum(ls, d),
    decreases ls.len(),
{
    if ls.len() == 0 {
        assert(pow2(e) * 0 == 0) by (nonlinear_arith);
    } else {
        let front = ls.drop_last();
        let last = ls.last();
        assert(within(front, d)) by {
            assert forall|i: int| 0 <= i < front.len() implies #[trigger] front[i] <= d by {
                assert(front[i] == ls[i]);
            }
        }
        lemma_kraft_scale(front, d, e);
        assert(ls[ls.len() - 1] <= d);
        let small = (d - last) as nat;
        lemma_pow2_adds(e, small);
        assert((d + e - last) as nat == e + small);
        let k = kraft_sum(front, d);
        let p = pow2(small);
        let q = pow2(e);
        assert(q * (k + p) == q * k + q * p) by (nonlinear_arith);
    }
}

/// Where one length is longer than all others, Kraft's inequality leaves
/// room to make it one shorter.
proof fn lemma_shorten_longest(ls: Seq<nat>, d: nat, m: int)
    requires
        kraft_holds(ls, d),
        0 <= m < ls.len(),
        ls[m] >= 1,
        forall|i: int| 0 <= i < ls.len() && i != m ==> #[trigger] ls[i] < ls[m],
    ensures
        kraft_holds(ls.update(m, (ls[m] - 1) as nat), d),
{
    let top = ls[m];
    let below = (top - 1) as nat;
    let others = ls.remove(m);
    let spare = (d - top) as nat;
    let e = spare + 1;
    assert(ls[m] <= d);
    assert(within(others, below)) by {
        assert forall|i: int| 0 <= i < others.len() implies #[trigger] others[i] <= below by {
            if i < m {
                assert(others[i] == ls[i]);
            } else {
                assert(others[i] == ls[i + 1]);
            }
        }
    }
    lemma_kraft_remove(ls, d, m);
    lemma_kraft_scale(others, below, e);
    assert(below + e == d);
    lemma_pow2_adds(below, e);
    lemma_pow2_unfold(e);
    lemma_pow2_pos(spare);
    let u = pow2(spare);
    let k = kraft_sum(others, below);
    let p = pow2(below);
    assert(pow2(e) == 2 * u);
    assert(kraft_sum(ls, d) == (2 * u) * k + u);
    assert(pow2(d) == p * (2 * u));
    assert((2 * u) * k + 2 * u <= p * (2 * u)) by (nonlinear_arith)
        requires
            u > 0,
            (2 * u) * k + u <= p * (2 * u),
    ;
    lemma_kraft_update(ls, d, m, below);
    assert((d - below) as nat == e);
    let shorter = ls.update(m, below);
    assert(within(shorter, d)) by {
        assert forall|i: int| 0 <= i < shorter.len() implies #[trigger] shorter[i] <= d by {
            if i != m {
                assert(shorter[i] == ls[i]);
            }
        }
    }
}

/// The position of the largest number in `ls`; of several largest, the
/// first.
pub open spec fn first_max(ls: Seq<nat>) -> int
    decreases ls.len(),
{
    if ls.len() <= 1 {
        0
    } else {
        let best = first_max(ls.drop_last());
        if ls.last() > ls[best] {
            ls.len() - 1
        } else {
            best
        }
    }
}

/// Where the largest number stands.
pub proof fn lemma_first_max(ls: Seq<nat>)
    requires
        ls.len() >= 1,
    ensures
        0 <= first_max(ls) < ls.len(),
        forall|i: int| 0 <= i < ls.len() ==> #[trigger] ls[i] <= ls[first_max(ls)],
    decreases ls.len(),
{
    if ls.len() > 1 {
        let front = ls.drop_last();
        lemma_first_max(front);
        assert forall|i: int| 0 <= i < ls.len() implies #[trigger] ls[i] <= ls[first_max(ls)] by {
            if i < front.len() {
                assert(front[i] == ls[i]);
            }
        }
    }
}

/// Lengths that obey Kraft's inequality can be made no more costly and
/// such that two of them are the longest, and not zero.
proof fn lemma_two_longest(ws: Seq<nat>, ls: Seq<nat>, d: nat) -> (r: (Seq<nat>, int, int))
    requires
        ws.len() == ls.len(),
        ls.len() >= 2,
        kraft_holds(ls, d),
    ensures
        ({
            let (out, p, q) = r;
            &&& out.len() == ls.len()
            &&& kraft_holds(out, d)
            &&& weighted_sum(ws, out) <= weighted_sum(ws, ls)
            &&& 0 <= p < out.len()
            &&& 0 <= q < out.len()
            &&& p != q
            &&& out[p] == out[q]
            &&& out[p] >= 1
            &&& forall|i: int| 0 <= i < out.len() ==> #[trigger] out[i] <= out[p]
        }),
    decreases total(ls),
{
    let m = first_max(ls);
    lemma_first_max(ls);
    let top = ls[m];
    if exists|q: int| 0 <= q < ls.len() && q != m && ls[q] == top {
        let q = choose|q: int| 0 <= q < ls.len() && q != m && ls[q] == top;
        if top == 0 {
            lemma_kraft_remove(ls, d, m);
            let others = ls.remove(m);
            let at = if q < m {
                q
            } else {
                q - 1
            };
            assert(others[at] == ls[q]);
            lemma_kraft_remove(others, d, at);
            lemma_pow2_pos(d);
            assert(false);
        }
        (ls, m, q)
    } else {
        assert forall|i: int| 0 <= i < ls.len() && i != m implies #[trigger] ls[i] < top by {
            assert(ls[i] <= ls[m]);
        }
        let other = if m == 0 {
            1int
        } else {
            0int
        };
        assert(ls[other] < top);
        lemma_shorten_longest(ls, d, m);
        let below = (top - 1) as nat;
        let shorter = ls.update(m, below);
        lemma_weighted_update(ws, ls, m, below);
        assert(ws[m] * below <= ws[m] * top) by (nonlinear_arith)
            requires
                below <= top,
        ;
        super::builder::lemma_total_update(ls, m, below);
        lemma_two_longest(ws, shorter, d)
    }
}

/// Two positions change their lengths. Where the lighter weight had the
/// shorter length, the cost does not rise.
proof fn lemma_swap(ws: Seq<nat>, ls: Seq<nat>, d: nat, i: int, j: int)
    requires
        ws.len() == ls.len(),
        0 <= i < ls.len(),
        0 <= j < ls.len(),
        i != j,
        ws[i] <= ws[j],
        ls[i] <= ls[j],
        kraft_holds(ls, d),
    ensures
        kraft_holds(ls.update(i, ls[j]).update(j, ls[i]), d),
        weighted_sum(ws, ls.update(i, ls[j]).update(j, ls[i])) <= weighted_sum(ws, ls),
{
    let one = ls.update(i, ls[j]);
    let two = one.update(j, ls[i]);
    lemma_weighted_update(ws, ls, i, ls[j]);
    lemma_weighted_update(ws, one, j, ls[i]);
    lemma_kraft_update(ls, d, i, ls[j]);
    lemma_kraft_update(one, d, j, ls[i]);
    let wi = ws[i];
    let wj = ws[j];
    let li = ls[i];
    let lj = ls[j];
    assert(wi * lj + wj * li <= wi * li + wj * lj) by (nonlinear_arith)
        requires
            wi <= wj,
            li <= lj,
    ;
    assert(within(two, d)) by {
        assert forall|k: int| 0 <= k < two.len() implies #[trigger] two[k] <= d by {
            assert(ls[i] <= d);
            assert(ls[j] <= d);
            if k != i && k != j {
                assert(two[k] == ls[k]);
            }
        }
    }
}

/// The position in `ws` of the weight that leaves second in a step of
/// merging.
pub open spec fn second_min(ws: Seq<nat>) -> int {
    let a = first_min(ws);
    let b = first_min(ws.remove(a));
    if b < a {
        b
    } else {
        b + 1
    }
}

/// The weight that leaves second is the lightest of all but the first.
proof fn lemma_second_min(ws: Seq<nat>)
    requires
        ws.len() >= 2,
    ensures
        0 <= second_min(ws) < ws.len(),
        second_min(ws) != first_min(ws),
        ws[second_min(ws)] == ws.remove(first_min(ws))[first_min(ws.remove(first_min(ws)))],
        forall|i: int|
            0 <= i < ws.len() && i != first_min(ws) ==> ws[second_min(ws)] <= #[trigger] ws[i],
{
    let a = first_min(ws);
    lemma_first_min(ws);
    let rest = ws.remove(a);
    let b = first_min(rest);
    lemma_first_min(rest);
    let bf = second_min(ws);
    assert(rest[b] == ws[bf]);
    assert forall|i: int| 0 <= i < ws.len() && i != a implies ws[bf] <= #[trigger] ws[i] by {
        let k = if i < a {
            i
        } else {
            i - 1
        };
        assert(rest[k] == ws[i]);
        assert(rest[b] <= rest[k]);
    }
}

/// Lengths that obey Kraft's inequality can be made no more costly and
/// such that the two weights that merge first have the longest length.
proof fn lemma_lightest_longest(ws: Seq<nat>, ls: Seq<nat>, d: nat) -> (out: Seq<nat>)
    requires
        ws.len() == ls.len(),
        ls.len() >= 2,
        kraft_holds(ls, d),
    ensures
        out.len() == ls.len(),
        kraft_holds(out, d),
        weighted_sum(ws, out) <= weighted_sum(ws, ls),
        out[first_min(ws)] == out[second_min(ws)],
        out[first_min(ws)] >= 1,
{
    let a = first_min(ws);
    let bf = second_min(ws);
    lemma_first_min(ws);
    lemma_second_min(ws);
    let (l1, p, q) = lemma_two_longest(ws, ls, d);
    let top = l1[p];
    let l2 = if l1[a] < top {
        l1.update(a, l1[p]).update(p, l1[a])
    } else {
        l1
    };
    let q2 = if l1[a] < top {
        q
    } else if p != a {
        p
    } else {
        q
    };
    assert(l1[a] <= top);
    if l1[a] < top {
        assert(ws[a] <= ws[p]);
        lemma_swap(ws, l1, d, a, p);
    }
    assert(l2[a] == top);
    assert(q2 != a && l2[q2] == top);
    assert(l2[bf] <= top) by {
        assert(l1[bf] <= top);
    }
    let l3 = if l2[bf] < top {
        l2.update(bf, l2[q2]).update(q2, l2[bf])
    } else {
        l2
    };
    if l2[bf] < top {
        assert(ws[bf] <= ws[q2]);
        lemma_swap(ws, l2, d, bf, q2);
    }
    l3
}

/// Where the two weights that merge first have the same length, and not
/// zero, the merged weights have lengths that cost less by the sum of the
/// two.
proof fn lemma_merge_lengths(ws: Seq<nat>, ls: Seq<nat>, d: nat) -> (out: Seq<nat>)
    requires
        ws.len() == ls.len(),
        ls.len() >= 2,
        kraft_holds(ls, d),
        ls[first_min(ws)] == ls[second_min(ws)],
        ls[first_min(ws)] >= 1,
    ensures
        out.len() == merge_weights(ws).len(),
        kraft_holds(out, d),
        weighted_sum(merge_weights(ws), out) + ws[first_min(ws)] + ws[second_min(ws)]
            == weighted_sum(ws, ls),
{
    let a = first_min(ws);
    lemma_first_min(ws);
    lemma_second_min(ws);
    let rest = ws.remove(a);
    let b = first_min(rest);
    lemma_first_min(rest);
    let top = ls[a];
    let cut = ls.remove(a);
    assert(cut[b] == ls[second_min(ws)]);
    let below = (top - 1) as nat;
    let merged = cut.remove(b).push(below);
    let sums = merge_weights(ws);
    lemma_merge_weights_len(ws);
    lemma_weighted_remove(ws, ls, a);
    lemma_weighted_remove(rest, cut, b);
    assert(sums.drop_last() =~= rest.remove(b));
    assert(merged.drop_last() =~= cut.remove(b));
    let wa = ws[a];
    let wb = rest[b];
    assert((wa + wb) * below + wa + wb == wa * top + wb * top) by (nonlinear_arith)
        requires
            below + 1 == top,
    ;
    lemma_kraft_remove(ls, d, a);
    lemma_kraft_remove(cut, d, b);
    assert(ls[a] <= d);
    lemma_pow2_unfold((d - below) as nat);
    assert(within(merged, d)) by {
        assert forall|i: int| 0 <= i < merged.len() implies #[trigger] merged[i] <= d by {
            if i < merged.len() - 1 {
                let k = if i < b {
                    i
                } else {
                    i + 1
                };
                assert(merged[i] == cut[k]);
                let k2 = if k < a {
                    k
                } else {
                    k + 1
                };
                assert(cut[k] == ls[k2]);
                assert(ls[k2] <= d);
            }
        }
    }
    merged
}

/// No lengths that obey Kraft's inequality cost less than merging does.
pub proof fn lemma_merge_cost_least(ws: Seq<nat>, ls: Seq<nat>, d: nat)
    requires
        ws.len() == ls.len(),
        ws.len() >= 1,
        kraft_holds(ls, d),
    ensures
        merge_cost(ws) <= weighted_sum(ws, ls),
    decreases ws.len(),
{
    if ws.len() >= 2 {
        lemma_second_min(ws);
        lemma_merge_weights_len(ws);
        let exchanged = lemma_lightest_longest(ws, ls, d);
        let merged = lemma_merge_lengths(ws, exchanged, d);
        lemma_merge_cost_least(merge_weights(ws), merged, d);
    }
}

} // verus!
