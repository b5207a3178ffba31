//! Scored points and top-k selection.
//!
//! A score travels as the bit pattern of the caller's 32-bit float.
//! `score_order_key` maps a pattern to an unsigned key whose order is the
//! numeric order of the scores (for patterns that stand for ordered values),
//! so selection is stated and verified over integers; ties break toward the
//! smaller point id.

use vstd::prelude::*;
use vstd::math::min;
use vstd::relations::{antisymmetric, reflexive, sorted_by, strongly_connected, total_ordering, transitive};
use vstd::seq_lib::lemma_sorted_unique;

verus! {

/// A point id together with the bit pattern of its score.
#[derive(Clone, Copy, PartialEq, Eq, Structural, Debug)]
pub struct ScoredPointOffset {
    pub idx: u32,
    pub score_bits: u32,
}

pub open spec fn spec_score_order_key(bits: u32) -> u32 {
    if bits & 0x8000_0000u32 != 0 {
        !bits
    } else {
        bits | 0x8000_0000u32
    }
}

/// Order key of a score pattern: the sign bit is flipped for non-negative
/// patterns and every bit for negative ones, so unsigned comparison of keys
/// is the numeric comparison of the scores (the caller keeps NaN out).
pub fn score_order_key(bits: u32) -> (r: u32)
    ensures
        r == spec_score_order_key(bits),
{
    if bits & 0x8000_0000u32 != 0 {
        !bits
    } else {
        bits | 0x8000_0000u32
    }
}

/// Distinct score patterns get distinct keys.
pub proof fn lemma_score_order_key_injective(a: u32, b: u32)
    requires
        spec_score_order_key(a) == spec_score_order_key(b),
    ensures
        a == b,
{
    assert(a == b) by (bit_vector)
        requires
            (if a & 0x8000_0000u32 != 0 {
                !a
            } else {
                a | 0x8000_0000u32
            }) == (if b & 0x8000_0000u32 != 0 {
                !b
            } else {
                b | 0x8000_0000u32
            }),;
}

/// `a` ranks at least as high as `b`: greater key, or equal key and an id
/// that is not larger (ties break toward the smaller id).
pub open spec fn ranks_geq(a: ScoredPointOffset, b: ScoredPointOffset) -> bool {
    spec_score_order_key(a.score_bits) > spec_score_order_key(b.score_bits)
        || (spec_score_order_key(a.score_bits) == spec_score_order_key(b.score_bits) && a.idx
            <= b.idx)
}

/// The ranking relation as a value, for ordering statements.
pub open spec fn rank_order() -> spec_fn(ScoredPointOffset, ScoredPointOffset) -> bool {
    |a: ScoredPointOffset, b: ScoredPointOffset| ranks_geq(a, b)
}

/// The ranking is a total order.
pub proof fn lemma_rank_order_total()
    ensures
        total_ordering(rank_order()),
{
    let leq = rank_order();
    assert forall|a: ScoredPointOffset| #[trigger] leq(a, a) by {}
    assert(reflexive(leq));
    assert forall|a: ScoredPointOffset, b: ScoredPointOffset|
        #[trigger] leq(a, b) && #[trigger] leq(b, a) implies a == b by {
        lemma_score_order_key_injective(a.score_bits, b.score_bits);
    }
    assert(antisymmetric(leq));
    assert forall|a: ScoredPointOffset, b: ScoredPointOffset, c: ScoredPointOffset|
        #[trigger] leq(a, b) && #[trigger] leq(b, c) implies leq(a, c) by {}
    assert(transitive(leq));
    assert forall|a: ScoredPointOffset, b: ScoredPointOffset| true implies #[trigger] leq(a, b)
        || #[trigger] leq(b, a) by {}
    assert(strongly_connected(leq));
}

/// Non-increasing rank order, element by element.
pub open spec fn ranked(s: Seq<ScoredPointOffset>) -> bool {
    forall|i: int, j: int| 0 <= i < j < s.len() ==> ranks_geq(#[trigger] s[i], #[trigger] s[j])
}

/// Exec mirror of `ranks_geq`.
fn ranks_geq_exec(a: &ScoredPointOffset, b: &ScoredPointOffset) -> (r: bool)
    ensures
        r == ranks_geq(*a, *b),
{
    let ka = score_order_key(a.score_bits);
    let kb = score_order_key(b.score_bits);
    ka > kb || (ka == kb && a.idx <= b.idx)
}

/// Keeps the `top` highest-ranked entries, best first: the result is the
/// ranked ordering of the input cut to `top` entries.
pub fn peek_top_largest(points: &Vec<ScoredPointOffset>, top: usize) -> (r: Vec<
    ScoredPointOffset,
>)
    ensures
        r@ == points@.sort_by(rank_order()).take(min(top as int, points@.len() as int)),
        sorted_by(r@, rank_order()),
        r@.len() == min(top as int, points@.len() as int),
        forall|i: int| 0 <= i < r@.len() ==> points@.contains(#[trigger] r@[i]),
{
    broadcast use vstd::seq_lib::group_to_multiset_ensures;
    broadcast use vstd::multiset::group_multiset_axioms;

    let ghost leq = rank_order();
    proof {
        lemma_rank_order_total();
        points@.lemma_sort_by_ensures(leq);
    }
    let mut rest: Vec<ScoredPointOffset> = Vec::new();
    let mut i: usize = 0;
    while i < points.len()
        invariant
            i <= points@.len(),
            rest@ == points@.take(i as int),
        decreases points@.len() - i,
    {
        rest.push(points[i]);
        proof {
            assert(rest@ =~= points@.take(i + 1 as int));
        }
        i = i + 1;
    }
    proof {
        assert(rest@ =~= points@);
    }
    let mut out: Vec<ScoredPointOffset> = Vec::new();
    while rest.len() > 0
        invariant
            out@.to_multiset().add(rest@.to_multiset()) == points@.to_multiset(),
            ranked(out@),
            forall|a: int, b: int|
                0 <= a < out@.len() && 0 <= b < rest@.len() ==> ranks_geq(
                    #[trigger] out@[a],
                    #[trigger] rest@[b],
                ),
        decreases rest@.len(),
    {
        let mut p: usize = 0;
        let mut q: usize = 1;
        while q < rest.len()
            invariant
                0 < rest@.len(),
                p < q,
                q <= rest@.len(),
                forall|j: int| 0 <= j < q ==> ranks_geq(rest@[p as int], #[trigger] rest@[j]),
            decreases rest@.len() - q,
        {
            if ranks_geq_exec(&rest[q], &rest[p]) {
                p = q;
            }
            q = q + 1;
        }
        let ghost old_out = out@;
        let ghost old_rest = rest@;
        let x = rest.remove(p);
        out.push(x);
        proof {
            old_rest.to_multiset_ensures();
            old_out.to_multiset_ensures();
            assert(rest@ == old_rest.remove(p as int));
            assert(out@ == old_out.push(x));
            assert(old_rest.remove(p as int).to_multiset() =~= old_rest.to_multiset().remove(
                old_rest[p as int],
            ));
            assert(old_out.push(x).to_multiset() =~= old_out.to_multiset().insert(x));
            assert(old_rest.to_multiset().contains(x));
            assert(out@.to_multiset().add(rest@.to_multiset()) =~= points@.to_multiset());
            assert forall|a: int, b: int|
                0 <= a < out@.len() && 0 <= b < rest@.len() implies ranks_geq(
                #[trigger] out@[a],
                #[trigger] rest@[b],
            ) by {
                assert(rest@[b] == old_rest[if b < p as int {
                    b
                } else {
                    b + 1
                }]);
                if a < out@.len() - 1 {
                    assert(ranks_geq(out@[a], x));
                }
            }
            assert forall|a: int, b: int| 0 <= a < b < out@.len() implies ranks_geq(
                #[trigger] out@[a],
                #[trigger] out@[b],
            ) by {
                if b < out@.len() - 1 {
                    assert(ranks_geq(old_out[a], old_out[b]));
                } else {
                    assert(ranks_geq(old_out[a], old_rest[p as int]));
                }
            }
            assert(ranked(out@));
        }
    }
    proof {
        assert(rest@ =~= Seq::<ScoredPointOffset>::empty());
        assert(out@.to_multiset() =~= points@.to_multiset());
        assert forall|a: int, b: int| 0 <= a < b < out@.len() implies #[trigger] leq(
            out@[a],
            out@[b],
        ) by {
            assert(ranks_geq(out@[a], out@[b]));
        }
        assert(sorted_by(out@, leq));
        lemma_sorted_unique(out@, points@.sort_by(leq), leq);
        assert(out@ == points@.sort_by(leq));
        out@.to_multiset_ensures();
        points@.to_multiset_ensures();
        assert(out@.len() == points@.len());
    }
    let m = if top < out.len() {
        top
    } else {
        out.len()
    };
    let ghost whole = out@;
    out.truncate(m);
    proof {
        assert(out@ =~= whole.take(min(top as int, points@.len() as int)));
        assert forall|a: int, b: int| 0 <= a < b < out@.len() implies #[trigger] leq(
            out@[a],
            out@[b],
        ) by {
            assert(ranks_geq(whole[a], whole[b]));
        }
        assert(sorted_by(out@, leq));
        assert forall|j: int| 0 <= j < out@.len() implies points@.contains(#[trigger] out@[j]) by {
            assert(whole.contains(whole[j]));
            assert(points@.to_multiset().contains(out@[j]));
        }
    }
    out
}

} // verus!
