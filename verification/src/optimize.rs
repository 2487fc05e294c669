//! Selection of a maximal-score, non-conflicting subset of repeat candidates:
//! dynamic programming over candidates ordered by bounding end. Compatibility
//! is checked at the block level (per occupied sub-range, not the bounding
//! range), so nested candidates co-exist; the coordinate index answers
//! "which candidates end before this one starts" in logarithmic time, and
//! only chains beyond that point need their blocks verified.

pub mod index;

use vstd::prelude::*;

use crate::repeats::Repeat;
use crate::repeats::SegmentView;
use index::end_key;
use index::start_key;
use index::Index;
use index::IndexAnchor;

verus! {

/// Sum of the scores of the listed candidates.
pub open spec fn sum_scores(scores: Seq<i64>, ids: Seq<usize>) -> int
    decreases ids.len(),
{
    if ids.len() == 0 {
        0
    } else {
        sum_scores(scores, ids.drop_last()) + scores[ids.last() as int]
    }
}

/// Candidate `a` is processed before `b`: earlier bounding end, ties broken
/// by lower id.
pub open spec fn lex_before(rs: Seq<Repeat>, a: int, b: int) -> bool {
    end_key(rs, a) < end_key(rs, b) || (end_key(rs, a) == end_key(rs, b) && a < b)
}

/// `order` enumerates every candidate exactly once, sorted by bounding end
/// with ties broken by id.
pub open spec fn is_processing_order(rs: Seq<Repeat>, order: Seq<usize>) -> bool {
    &&& forall|m: int| 0 <= m < order.len() ==> (#[trigger] order[m]) < rs.len()
    &&& forall|m1: int, m2: int|
        0 <= m1 < m2 < order.len() ==> lex_before(
            rs,
            (#[trigger] order[m1]) as int,
            (#[trigger] order[m2]) as int,
        )
    &&& forall|id: int| 0 <= id < rs.len() ==> #[trigger] order.contains(id as usize)
}

/// Two strictly ordered sequences over the same elements are identical.
proof fn lemma_sorted_same_elems(rs: Seq<Repeat>, o1: Seq<usize>, o2: Seq<usize>)
    requires
        forall|m1: int, m2: int|
            0 <= m1 < m2 < o1.len() ==> lex_before(
                rs,
                (#[trigger] o1[m1]) as int,
                (#[trigger] o1[m2]) as int,
            ),
        forall|m1: int, m2: int|
            0 <= m1 < m2 < o2.len() ==> lex_before(
                rs,
                (#[trigger] o2[m1]) as int,
                (#[trigger] o2[m2]) as int,
            ),
        forall|x: usize| o1.contains(x) <==> o2.contains(x),
    ensures
        o1 == o2,
    decreases o1.len(),
{
    if o1.len() == 0 {
        if o2.len() > 0 {
            assert(o2.contains(o2[0]));
            assert(o1.contains(o2[0]));
        }
        assert(o1 =~= o2);
    } else {
        assert(o1.contains(o1[0]));
        assert(o2.contains(o1[0]));
        let m2 = choose|m: int| 0 <= m < o2.len() && o2[m] == o1[0];
        assert(o2.contains(o2[0]));
        assert(o1.contains(o2[0]));
        let m1 = choose|m: int| 0 <= m < o1.len() && o1[m] == o2[0];
        // The two heads are mutually no later than each other, so equal.
        if m2 > 0 && m1 > 0 {
            assert(lex_before(rs, o2[0] as int, o2[m2] as int));
            assert(lex_before(rs, o1[0] as int, o1[m1] as int));
            assert(false);
        }
        assert(o1[0] == o2[0]);
        let t1 = o1.drop_first();
        let t2 = o2.drop_first();
        assert forall|x: usize| t1.contains(x) <==> t2.contains(x) by {
            if t1.contains(x) {
                let w = choose|w: int| 0 <= w < t1.len() && t1[w] == x;
                assert(o1[w + 1] == x);
                assert(o1.contains(x));
                assert(lex_before(rs, o1[0] as int, x as int));
                assert(o2.contains(x));
                let w2 = choose|w2: int| 0 <= w2 < o2.len() && o2[w2] == x;
                assert(w2 != 0);
                assert(t2[w2 - 1] == x);
                assert(t2.contains(x));
            }
            if t2.contains(x) {
                let w = choose|w: int| 0 <= w < t2.len() && t2[w] == x;
                assert(o2[w + 1] == x);
                assert(o2.contains(x));
                assert(lex_before(rs, o2[0] as int, x as int));
                assert(o1.contains(x));
                let w2 = choose|w2: int| 0 <= w2 < o1.len() && o1[w2] == x;
                assert(w2 != 0);
                assert(t1[w2 - 1] == x);
                assert(t1.contains(x));
            }
        }
        assert forall|m1a: int, m2a: int|
            0 <= m1a < m2a < t1.len() implies lex_before(
            rs,
            (#[trigger] t1[m1a]) as int,
            (#[trigger] t1[m2a]) as int,
        ) by {
            assert(o1[m1a + 1] == t1[m1a]);
            assert(o1[m2a + 1] == t1[m2a]);
        }
        assert forall|m1a: int, m2a: int|
            0 <= m1a < m2a < t2.len() implies lex_before(
            rs,
            (#[trigger] t2[m1a]) as int,
            (#[trigger] t2[m2a]) as int,
        ) by {
            assert(o2[m1a + 1] == t2[m1a]);
            assert(o2[m2a + 1] == t2[m2a]);
        }
        lemma_sorted_same_elems(rs, t1, t2);
        assert(o1 =~= seq![o1[0]] + t1);
        assert(o2 =~= seq![o2[0]] + t2);
        assert(o1 =~= o2);
    }
}

/// The processing order is canonical: any two orders of the same candidate
/// list coincide, so whatever is computed along it is a function of the
/// candidates and scores alone.
pub proof fn lemma_order_unique(rs: Seq<Repeat>, o1: Seq<usize>, o2: Seq<usize>)
    requires
        is_processing_order(rs, o1),
        is_processing_order(rs, o2),
    ensures
        o1 == o2,
{
    assert forall|x: usize| o1.contains(x) <==> o2.contains(x) by {
        if o1.contains(x) {
            let w = choose|w: int| 0 <= w < o1.len() && o1[w] == x;
            assert(o1[w] < rs.len());
            let xi = x as int;
            assert(0 <= xi < rs.len());
            assert(o2.contains(xi as usize));
            assert(xi as usize == x);
        }
        if o2.contains(x) {
            let w = choose|w: int| 0 <= w < o2.len() && o2[w] == x;
            assert(o2[w] < rs.len());
            let xi = x as int;
            assert(0 <= xi < rs.len());
            assert(o1.contains(xi as usize));
            assert(xi as usize == x);
        }
    }
    lemma_sorted_same_elems(rs, o1, o2);
}

/// How many of the first `k` processed candidates have a bounding end at or
/// before `bound`.
pub open spec fn count_compat(rs: Seq<Repeat>, order: Seq<usize>, k: int, bound: int) -> int
    decreases k,
{
    if k <= 0 {
        0
    } else {
        count_compat(rs, order, k - 1, bound) + (if end_key(rs, order[k - 1] as int) <= bound {
            1int
        } else {
            0int
        })
    }
}

/// The count stays between zero and `k`.
proof fn lemma_count_compat_range(rs: Seq<Repeat>, order: Seq<usize>, k: int, bound: int)
    ensures
        0 <= count_compat(rs, order, k, bound) <= (if k >= 0 {
            k
        } else {
            0
        }),
    decreases k,
{
    if k > 0 {
        lemma_count_compat_range(rs, order, k - 1, bound);
    }
}

/// If positions below `j` satisfy the bound and positions from `j` on do not,
/// the count is exactly `j`.
proof fn lemma_count_compat_eq(rs: Seq<Repeat>, order: Seq<usize>, k: int, bound: int, j: int)
    requires
        0 <= j <= k <= order.len(),
        forall|m: int| 0 <= m < j ==> end_key(rs, (#[trigger] order[m]) as int) <= bound,
        forall|m: int| j <= m < k ==> end_key(rs, (#[trigger] order[m]) as int) > bound,
    ensures
        count_compat(rs, order, k, bound) == j,
    decreases k,
{
    if k > 0 {
        if j == k {
            lemma_count_compat_eq(rs, order, k - 1, bound, j - 1);
        } else {
            lemma_count_compat_eq(rs, order, k - 1, bound, j);
        }
    }
}

/// When ends are sorted along the order, the counted candidates are exactly
/// an initial run of the processed prefix.
proof fn lemma_count_compat_prefix(rs: Seq<Repeat>, order: Seq<usize>, k: int, bound: int)
    requires
        0 <= k <= order.len(),
        forall|m1: int, m2: int|
            0 <= m1 < m2 < order.len() ==> end_key(rs, (#[trigger] order[m1]) as int) <= end_key(
                rs,
                (#[trigger] order[m2]) as int,
            ),
    ensures
        0 <= count_compat(rs, order, k, bound) <= k,
        forall|m: int|
            0 <= m < count_compat(rs, order, k, bound) ==> end_key(rs, (#[trigger] order[m]) as int)
                <= bound,
        forall|m: int|
            count_compat(rs, order, k, bound) <= m < k ==> end_key(
                rs,
                (#[trigger] order[m]) as int,
            ) > bound,
    decreases k,
{
    if k > 0 {
        lemma_count_compat_prefix(rs, order, k - 1, bound);
    }
}

/// Block-level disjointness of two repeats: every occupied range of one lies
/// entirely before or entirely after every occupied range of the other.
pub open spec fn blocks_disjoint(a: Seq<SegmentView>, b: Seq<SegmentView>) -> bool {
    forall|i: int, j: int|
        #![trigger Repeat::block_end(a, i), Repeat::block_end(b, j)]
        0 <= i < 2 * a.len() && 0 <= j < 2 * b.len() ==> Repeat::block_end(a, i)
            <= Repeat::block_start(b, j) || Repeat::block_end(b, j) <= Repeat::block_start(a, i)
}

/// Every member of a chain is block-disjoint from candidate `c`.
pub open spec fn chain_ok(rs: Seq<Repeat>, chain: Seq<usize>, c: int) -> bool {
    forall|a: int|
        0 <= a < chain.len() ==> blocks_disjoint(rs[(#[trigger] chain[a]) as int]@, rs[c]@)
}

/// The best previous prefix whose chain is block-compatible with `c`: the
/// empty chain of the zero prefix always qualifies, and among equal totals
/// the latest prefix wins.
pub open spec fn base_index(rs: Seq<Repeat>, scores: Seq<i64>, order: Seq<usize>, k: int, c: int) -> int
    decreases k, 1int,
{
    if k <= 0 {
        0
    } else {
        let prev0 = base_index(rs, scores, order, k - 1, c);
        let prev = if 0 <= prev0 <= k - 1 {
            prev0
        } else {
            0
        };
        if chain_ok(rs, dp(rs, scores, order, k).1, c) && dp(rs, scores, order, k).0 >= dp(
            rs,
            scores,
            order,
            prev,
        ).0 {
            k
        } else {
            prev
        }
    }
}

/// The chosen base prefix always lies between zero and `k`.
pub proof fn lemma_base_range(rs: Seq<Repeat>, scores: Seq<i64>, order: Seq<usize>, k: int, c: int)
    ensures
        0 <= base_index(rs, scores, order, k, c) <= (if k >= 0 {
            k
        } else {
            0
        }),
    decreases k,
{
    if k > 0 {
        lemma_base_range(rs, scores, order, k - 1, c);
    }
}

/// Best total score and chosen chain over the first `k` processed candidates.
///
/// For the `k`-th candidate: either skip it, or append it to the best earlier
/// chain whose every member is block-disjoint from it, whichever scores
/// higher; ties prefer taking the candidate.
pub open spec fn dp(rs: Seq<Repeat>, scores: Seq<i64>, order: Seq<usize>, k: int) -> (
    int,
    Seq<usize>,
)
    decreases k, 0int,
{
    if k <= 0 || k > order.len() {
        (0, Seq::<usize>::empty())
    } else {
        let c = order[k - 1] as int;
        let skip = dp(rs, scores, order, k - 1);
        let b0 = base_index(rs, scores, order, k - 1, c);
        let b = if 0 <= b0 <= k - 1 {
            b0
        } else {
            0
        };
        let base = dp(rs, scores, order, b);
        let take = base.0 + scores[c];
        if take >= skip.0 {
            (take, base.1.push(order[k - 1]))
        } else {
            skip
        }
    }
}

/// The DP total never drops and never exceeds `k` times the score bound.
proof fn lemma_dp_bounds(rs: Seq<Repeat>, scores: Seq<i64>, order: Seq<usize>, k: int, b: int)
    requires
        0 <= k <= order.len(),
        b >= 0,
        forall|m: int| 0 <= m < order.len() ==> (#[trigger] order[m]) < scores.len(),
        forall|i: int| 0 <= i < scores.len() ==> -b <= #[trigger] scores[i] <= b,
    ensures
        0 <= dp(rs, scores, order, k).0 <= k * b,
    decreases k,
{
    if k > 0 {
        let c = order[k - 1] as int;
        lemma_dp_bounds(rs, scores, order, k - 1, b);
        let bi = base_index(rs, scores, order, k - 1, c);
        lemma_base_range(rs, scores, order, k - 1, c);
        lemma_dp_bounds(rs, scores, order, bi, b);
        assert(bi * b <= (k - 1) * b) by (nonlinear_arith)
            requires
                bi <= k - 1,
                b >= 0,
        ;
        assert((k - 1) * b + b == k * b) by (nonlinear_arith);
    }
}

/// With non-negative scores the DP total never decreases.
proof fn lemma_dp_bounds_nonneg(rs: Seq<Repeat>, scores: Seq<i64>, order: Seq<usize>, k: int)
    requires
        0 <= k <= order.len(),
        forall|m: int| 0 <= m < order.len() ==> (#[trigger] order[m]) < scores.len(),
        forall|i: int| 0 <= i < scores.len() ==> #[trigger] scores[i] >= 0,
    ensures
        dp(rs, scores, order, k).0 >= 0,
    decreases k,
{
    if k > 0 {
        lemma_dp_bounds_nonneg(rs, scores, order, k - 1);
    }
}

/// The DP total never decreases along the processing order.
pub proof fn lemma_dp_monotone(rs: Seq<Repeat>, scores: Seq<i64>, order: Seq<usize>, m: int, k: int)
    requires
        0 <= m <= k <= order.len(),
    ensures
        dp(rs, scores, order, m).0 <= dp(rs, scores, order, k).0,
    decreases k - m,
{
    if m < k {
        lemma_dp_monotone(rs, scores, order, m, k - 1);
    }
}

/// With non-negative scores the selection is worth at least any single
/// processed candidate: the empty chain always qualifies as a base, so taking
/// the candidate alone was always on the table.
pub proof fn lemma_dp_at_least_each(
    rs: Seq<Repeat>,
    scores: Seq<i64>,
    order: Seq<usize>,
    m: int,
    k: int,
)
    requires
        0 <= m < k <= order.len(),
        forall|m2: int| 0 <= m2 < order.len() ==> (#[trigger] order[m2]) < scores.len(),
        forall|i: int| 0 <= i < scores.len() ==> #[trigger] scores[i] >= 0,
    ensures
        dp(rs, scores, order, k).0 >= scores[order[m] as int],
{
    let c = order[m] as int;
    let b0 = base_index(rs, scores, order, m, c);
    lemma_base_range(rs, scores, order, m, c);
    lemma_dp_bounds_nonneg(rs, scores, order, b0);
    lemma_dp_bounds_nonneg(rs, scores, order, m);
    assert(dp(rs, scores, order, m + 1).0 >= scores[c]);
    lemma_dp_monotone(rs, scores, order, m + 1, k);
}

/// What every DP chain guarantees: its total is the sum of its members'
/// scores, every member comes from the processed prefix, and the members are
/// pairwise block-disjoint.
pub proof fn lemma_dp_valid(rs: Seq<Repeat>, scores: Seq<i64>, order: Seq<usize>, k: int)
    requires
        0 <= k <= order.len(),
    ensures
        dp(rs, scores, order, k).0 == sum_scores(scores, dp(rs, scores, order, k).1),
        forall|a: int|
            0 <= a < dp(rs, scores, order, k).1.len() ==> exists|m: int|
                0 <= m < k && order[m] == #[trigger] dp(rs, scores, order, k).1[a],
        forall|a: int, b: int|
            0 <= a < b < dp(rs, scores, order, k).1.len() ==> blocks_disjoint(
                rs[(#[trigger] dp(rs, scores, order, k).1[a]) as int]@,
                rs[(#[trigger] dp(rs, scores, order, k).1[b]) as int]@,
            ) && blocks_disjoint(
                rs[dp(rs, scores, order, k).1[b] as int]@,
                rs[dp(rs, scores, order, k).1[a] as int]@,
            ),
    decreases k,
{
    if k > 0 {
        let c = order[k - 1] as int;
        lemma_dp_valid(rs, scores, order, k - 1);
        let bi = base_index(rs, scores, order, k - 1, c);
        lemma_base_range(rs, scores, order, k - 1, c);
        lemma_dp_valid(rs, scores, order, bi);
        lemma_base_compatible(rs, scores, order, k - 1, c);
        let base = dp(rs, scores, order, bi);
        let take = base.0 + scores[c];
        if take >= dp(rs, scores, order, k - 1).0 {
            let ch = base.1.push(order[k - 1]);
            assert(ch.drop_last() == base.1);
            assert(ch.last() == order[k - 1]);
            assert forall|a: int, b: int|
                0 <= a < b < ch.len() implies blocks_disjoint(
                rs[(#[trigger] ch[a]) as int]@,
                rs[(#[trigger] ch[b]) as int]@,
            ) && blocks_disjoint(rs[ch[b] as int]@, rs[ch[a] as int]@) by {
                if b == ch.len() - 1 {
                    assert(ch[a] == base.1[a]);
                    assert(blocks_disjoint(rs[base.1[a] as int]@, rs[c]@));
                    lemma_blocks_disjoint_sym(rs[base.1[a] as int]@, rs[c]@);
                } else {
                    assert(ch[a] == base.1[a]);
                    assert(ch[b] == base.1[b]);
                }
            }
            assert forall|a: int|
                0 <= a < ch.len() implies exists|m: int|
                0 <= m < k && order[m] == #[trigger] ch[a] by {
                if a < ch.len() - 1 {
                    let m = choose|m: int| 0 <= m < bi && order[m] == base.1[a];
                    assert(0 <= m < k && order[m] == ch[a]);
                } else {
                    assert(order[k - 1] == ch[a]);
                }
            }
        }
    }
}

/// Disjointness of block lists is symmetric.
proof fn lemma_blocks_disjoint_sym(a: Seq<SegmentView>, b: Seq<SegmentView>)
    requires
        blocks_disjoint(a, b),
    ensures
        blocks_disjoint(b, a),
{
    assert forall|i: int, j: int|
        #![trigger Repeat::block_end(b, i), Repeat::block_end(a, j)]
        0 <= i < 2 * b.len() && 0 <= j < 2 * a.len() implies Repeat::block_end(b, i)
        <= Repeat::block_start(a, j) || Repeat::block_end(a, j) <= Repeat::block_start(b, i) by {
        assert(Repeat::block_end(a, j) <= Repeat::block_start(b, i) || Repeat::block_end(b, i)
            <= Repeat::block_start(a, j));
    }
}

/// The chain behind the chosen base prefix is block-compatible with `c`.
proof fn lemma_base_compatible(rs: Seq<Repeat>, scores: Seq<i64>, order: Seq<usize>, k: int, c: int)
    ensures
        chain_ok(rs, dp(rs, scores, order, base_index(rs, scores, order, k, c)).1, c),
    decreases k,
{
    if k <= 0 {
        assert(chain_ok(rs, dp(rs, scores, order, 0).1, c));
    } else {
        lemma_base_compatible(rs, scores, order, k - 1, c);
    }
}

/// When every pair of candidates is block-disjoint and no score is negative,
/// the DP selects every candidate.
pub proof fn lemma_disjoint_all_selected(
    rs: Seq<Repeat>,
    scores: Seq<i64>,
    order: Seq<usize>,
    k: int,
)
    requires
        0 <= k <= order.len(),
        rs.len() == scores.len(),
        is_processing_order(rs, order),
        forall|i: int| 0 <= i < scores.len() ==> #[trigger] scores[i] >= 0,
        forall|a: int, b: int|
            0 <= a < rs.len() && 0 <= b < rs.len() && a != b ==> blocks_disjoint(
                (#[trigger] rs[a])@,
                (#[trigger] rs[b])@,
            ),
    ensures
        forall|m: int| 0 <= m < k ==> dp(rs, scores, order, k).1.contains(#[trigger] order[m]),
        dp(rs, scores, order, k).1.len() == k,
    decreases k,
{
    if k > 0 {
        lemma_disjoint_all_selected(rs, scores, order, k - 1);
        let c = order[k - 1] as int;
        let skip = dp(rs, scores, order, k - 1);
        // The whole previous chain is block-compatible with the newcomer.
        lemma_dp_valid(rs, scores, order, k - 1);
        assert forall|a: int|
            0 <= a < skip.1.len() implies blocks_disjoint(
            rs[(#[trigger] skip.1[a]) as int]@,
            rs[c]@,
        ) by {
            let m = choose|m: int| 0 <= m < k - 1 && order[m] == skip.1[a];
            assert(lex_before(rs, order[m] as int, c));
            assert(order[m] as int != c);
            assert(order[m] < rs.len());
        }
        assert(chain_ok(rs, skip.1, c));
        // The previous prefix is the best qualifying base.
        let bi = base_index(rs, scores, order, k - 1, c);
        lemma_base_range(rs, scores, order, k - 1, c);
        assert(bi == k - 1) by {
            if k - 1 > 0 {
                let prev = base_index(rs, scores, order, k - 2, c);
                lemma_base_range(rs, scores, order, k - 2, c);
                lemma_dp_monotone(rs, scores, order, prev, k - 1);
            }
        }
        lemma_dp_bounds_nonneg(rs, scores, order, k - 1);
        let take = skip.0 + scores[c];
        assert(take >= skip.0);
        let ch = skip.1.push(order[k - 1]);
        assert(dp(rs, scores, order, k).1 == ch);
        assert forall|m: int| 0 <= m < k implies ch.contains(#[trigger] order[m]) by {
            if m < k - 1 {
                let w = choose|w: int| 0 <= w < skip.1.len() && skip.1[w] == order[m];
                assert(ch[w] == order[m]);
            } else {
                assert(ch[ch.len() - 1] == order[m]);
            }
        }
    }
}

/// Of two candidates whose blocks overlap, with non-negative scores, exactly
/// the higher-scoring one is selected; an exact tie keeps the later-processed
/// one.
pub proof fn lemma_overlapping_pair(rs: Seq<Repeat>, scores: Seq<i64>, order: Seq<usize>)
    requires
        rs.len() == 2,
        scores.len() == 2,
        order.len() == 2,
        is_processing_order(rs, order),
        scores[0] >= 0,
        scores[1] >= 0,
        !blocks_disjoint(rs[0]@, rs[1]@),
        !blocks_disjoint(rs[1]@, rs[0]@),
    ensures
        ({
            let a = order[0] as int;
            let b = order[1] as int;
            &&& (scores[b] >= scores[a] ==> dp(rs, scores, order, 2) == (
                scores[b] as int,
                seq![order[1]],
            ))
            &&& (scores[b] < scores[a] ==> dp(rs, scores, order, 2) == (
                scores[a] as int,
                seq![order[0]],
            ))
        }),
{
    reveal_with_fuel(dp, 4);
    reveal_with_fuel(base_index, 4);
    let a = order[0] as int;
    let b = order[1] as int;
    assert(order.contains(0usize));
    assert(order.contains(1usize));
    let i0 = choose|i: int| 0 <= i < order.len() && order[i] == 0usize;
    let i1 = choose|i: int| 0 <= i < order.len() && order[i] == 1usize;
    assert(lex_before(rs, a, b));
    assert(a != b);
    assert(0 <= a < 2 && 0 <= b < 2);
    assert(scores[a] >= 0 && scores[b] >= 0);
    assert(base_index(rs, scores, order, 0, a) == 0);
    assert(dp(rs, scores, order, 1).0 == scores[a]);
    assert(dp(rs, scores, order, 1).1 =~= seq![order[0]]);
    // The single-element chain clashes with the other candidate.
    assert(!blocks_disjoint(rs[a]@, rs[b]@));
    assert(!chain_ok(rs, dp(rs, scores, order, 1).1, b)) by {
        assert(dp(rs, scores, order, 1).1[0] == order[0]);
    }
    assert(base_index(rs, scores, order, 1, b) == 0);
    if scores[b] >= scores[a] {
        assert(dp(rs, scores, order, 2).0 == scores[b]);
        assert(dp(rs, scores, order, 2).1 =~= seq![order[1]]);
    } else {
        assert(dp(rs, scores, order, 2).0 == scores[a]);
        assert(dp(rs, scores, order, 2).1 =~= seq![order[0]]);
    }
}

/// A block of a repeat lies inside the repeat's bounding range.
pub proof fn lemma_blocks_in_bounds(segs: Seq<SegmentView>, i: int)
    requires
        segs.len() > 0,
        forall|j: int| 0 <= j < segs.len() ==> segs[j].wf(),
        crate::repeats::chained(segs),
        0 <= i < 2 * segs.len(),
    ensures
        segs[0].l0 <= Repeat::block_start(segs, i),
        Repeat::block_end(segs, i) <= segs[0].r1,
        Repeat::block_start(segs, i) < Repeat::block_end(segs, i),
{
    let n = segs.len() as int;
    if i < n {
        Repeat::lemma_inside_bounds(segs, i);
        assert(segs[i].wf());
    } else {
        Repeat::lemma_inside_bounds(segs, 2 * n - 1 - i);
        assert(segs[2 * n - 1 - i].wf());
    }
}

/// Bounding-level compatibility gives block-level disjointness: when one
/// repeat's bounding range ends before another's begins, each block of the
/// first ends at or before every block of the second starts.
pub proof fn lemma_compatible_blocks_disjoint(
    x: Seq<SegmentView>,
    y: Seq<SegmentView>,
    i: int,
    j: int,
)
    requires
        x.len() > 0,
        y.len() > 0,
        forall|m: int| 0 <= m < x.len() ==> x[m].wf(),
        forall|m: int| 0 <= m < y.len() ==> y[m].wf(),
        crate::repeats::chained(x),
        crate::repeats::chained(y),
        x[0].r1 <= y[0].l0,
        0 <= i < 2 * x.len(),
        0 <= j < 2 * y.len(),
    ensures
        Repeat::block_end(x, i) <= Repeat::block_start(y, j),
{
    lemma_blocks_in_bounds(x, i);
    lemma_blocks_in_bounds(y, j);
}

/// Whether every occupied range of one repeat avoids every occupied range of
/// another, checked block pair by block pair.
fn blocks_disjoint_exec(x: &Repeat, y: &Repeat) -> (r: bool)
    requires
        x.wf(),
        y.wf(),
    ensures
        r == blocks_disjoint(x@, y@),
{
    let xb = x.seqranges();
    let yb = y.seqranges();
    let nx = xb.len();
    let ny = yb.len();
    let mut i: usize = 0;
    while i < nx
        invariant
            i <= nx,
            nx == 2 * x@.len(),
            ny == 2 * y@.len(),
            xb@.len() == nx,
            yb@.len() == ny,
            forall|i2: int|
                0 <= i2 < nx ==> (#[trigger] xb@[i2]).start == Repeat::block_start(x@, i2)
                    && xb@[i2].end == Repeat::block_end(x@, i2),
            forall|j2: int|
                0 <= j2 < ny ==> (#[trigger] yb@[j2]).start == Repeat::block_start(y@, j2)
                    && yb@[j2].end == Repeat::block_end(y@, j2),
            forall|i2: int, j2: int|
                #![trigger Repeat::block_end(x@, i2), Repeat::block_end(y@, j2)]
                0 <= i2 < i && 0 <= j2 < ny ==> Repeat::block_end(x@, i2) <= Repeat::block_start(
                    y@,
                    j2,
                ) || Repeat::block_end(y@, j2) <= Repeat::block_start(x@, i2),
        decreases nx - i,
    {
        let mut j: usize = 0;
        while j < ny
            invariant
                i < nx,
                j <= ny,
                nx == 2 * x@.len(),
                ny == 2 * y@.len(),
                xb@.len() == nx,
                yb@.len() == ny,
                forall|i2: int|
                    0 <= i2 < nx ==> (#[trigger] xb@[i2]).start == Repeat::block_start(x@, i2)
                        && xb@[i2].end == Repeat::block_end(x@, i2),
                forall|j2: int|
                    0 <= j2 < ny ==> (#[trigger] yb@[j2]).start == Repeat::block_start(y@, j2)
                        && yb@[j2].end == Repeat::block_end(y@, j2),
                forall|i2: int, j2: int|
                    #![trigger Repeat::block_end(x@, i2), Repeat::block_end(y@, j2)]
                    0 <= i2 < i && 0 <= j2 < ny ==> Repeat::block_end(x@, i2)
                        <= Repeat::block_start(y@, j2) || Repeat::block_end(y@, j2)
                        <= Repeat::block_start(x@, i2),
                forall|j2: int|
                    #![trigger Repeat::block_end(y@, j2)]
                    0 <= j2 < j ==> Repeat::block_end(x@, i as int) <= Repeat::block_start(y@, j2)
                        || Repeat::block_end(y@, j2) <= Repeat::block_start(x@, i as int),
            decreases ny - j,
        {
            let xi = &xb[i];
            let yj = &yb[j];
            if !(xi.end <= yj.start || yj.end <= xi.start) {
                proof {
                    assert(!(Repeat::block_end(x@, i as int) <= Repeat::block_start(y@, j as int)
                        || Repeat::block_end(y@, j as int) <= Repeat::block_start(x@, i as int)));
                }
                return false;
            }
            j = j + 1;
        }
        i = i + 1;
    }
    true
}

/// Whether every member of a chain is block-disjoint from candidate `c`.
fn chain_compatible(candidates: &Vec<Repeat>, chain: &Vec<usize>, c: usize) -> (r: bool)
    requires
        forall|q: int| 0 <= q < chain@.len() ==> (#[trigger] chain@[q]) < candidates@.len(),
        c < candidates@.len(),
        forall|i: int| 0 <= i < candidates@.len() ==> (#[trigger] candidates@[i]).wf(),
    ensures
        r == chain_ok(candidates@, chain@, c as int),
{
    let m = chain.len();
    let mut q: usize = 0;
    while q < m
        invariant
            q <= m,
            m == chain@.len(),
            c < candidates@.len(),
            forall|q2: int| 0 <= q2 < chain@.len() ==> (#[trigger] chain@[q2]) < candidates@.len(),
            forall|i: int| 0 <= i < candidates@.len() ==> (#[trigger] candidates@[i]).wf(),
            forall|q2: int|
                0 <= q2 < q ==> blocks_disjoint(
                    candidates@[(#[trigger] chain@[q2]) as int]@,
                    candidates@[c as int]@,
                ),
        decreases m - q,
    {
        let id = chain[q];
        if !blocks_disjoint_exec(&candidates[id], &candidates[c]) {
            return false;
        }
        q = q + 1;
    }
    true
}

/// A chain from a prefix of candidates whose bounding ends lie at or before
/// the newcomer's bounding start is block-compatible with it.
proof fn lemma_prefix_chain_ok(
    rs: Seq<Repeat>,
    scores: Seq<i64>,
    ord: Seq<usize>,
    m: int,
    c: int,
    bound: int,
)
    requires
        0 <= m <= ord.len(),
        0 <= c < rs.len(),
        forall|mm: int| 0 <= mm < ord.len() ==> (#[trigger] ord[mm]) < rs.len(),
        forall|i: int| 0 <= i < rs.len() ==> (#[trigger] rs[i]).wf(),
        forall|mm: int| 0 <= mm < m ==> end_key(rs, (#[trigger] ord[mm]) as int) <= bound,
        bound <= start_key(rs, c),
    ensures
        chain_ok(rs, dp(rs, scores, ord, m).1, c),
{
    lemma_dp_valid(rs, scores, ord, m);
    let ch = dp(rs, scores, ord, m).1;
    assert forall|a: int|
        0 <= a < ch.len() implies blocks_disjoint(rs[(#[trigger] ch[a]) as int]@, rs[c]@) by {
        let mm = choose|mm: int| 0 <= mm < m && ord[mm] == ch[a];
        let e = ch[a] as int;
        assert(end_key(rs, e) <= bound);
        assert(rs[e].wf());
        assert(rs[c].wf());
        assert forall|i: int, j: int|
            #![trigger Repeat::block_end(rs[e]@, i), Repeat::block_end(rs[c]@, j)]
            0 <= i < 2 * rs[e]@.len() && 0 <= j < 2 * rs[c]@.len() implies Repeat::block_end(
            rs[e]@,
            i,
        ) <= Repeat::block_start(rs[c]@, j) || Repeat::block_end(rs[c]@, j)
            <= Repeat::block_start(rs[e]@, i) by {
            lemma_compatible_blocks_disjoint(rs[e]@, rs[c]@, i, j);
        }
    }
}

/// Copies a list of candidate ids.
fn clone_ids(v: &Vec<usize>) -> (r: Vec<usize>)
    ensures
        r@ == v@,
{
    let mut out: Vec<usize> = Vec::new();
    let mut i: usize = 0;
    while i < v.len()
        invariant
            i <= v@.len(),
            out@ == v@.take(i as int),
        decreases v@.len() - i,
    {
        out.push(v[i]);
        proof {
            assert(out@ =~= v@.take(i + 1));
        }
        i = i + 1;
    }
    proof {
        assert(v@.take(v@.len() as int) =~= v@);
    }
    out
}

/// Adjacent monotonicity of the cumulative counts extends to any two positions.
proof fn lemma_cum_mono(cum: Seq<usize>, a: int, b: int)
    requires
        forall|q2: int| 0 <= q2 < cum.len() - 1 ==> #[trigger] cum[q2] <= cum[q2 + 1],
        0 <= a <= b < cum.len(),
    ensures
        cum[a] <= cum[b],
    decreases b - a,
{
    if a < b {
        lemma_cum_mono(cum, a, b - 1);
        assert(cum[b - 1] <= cum[b]);
    }
}

/// Any position under the cumulative count at `hi` falls into the span of
/// exactly one anchor between `lo` and `hi`.
proof fn lemma_cum_locate(cum: Seq<usize>, lo: int, hi: int, m: int)
    requires
        forall|q2: int| 0 <= q2 < cum.len() - 1 ==> #[trigger] cum[q2] <= cum[q2 + 1],
        0 <= lo < hi < cum.len(),
        cum[lo] <= m < cum[hi],
    ensures
        exists|q2: int| lo <= q2 < hi && #[trigger] cum[q2] <= m < cum[q2 + 1],
    decreases hi - lo,
{
    if cum[hi - 1] <= m {
        assert(cum[hi - 1] <= m < cum[hi]);
    } else {
        lemma_cum_locate(cum, lo, hi - 1, m);
    }
}

/// Within one anchor the member ids ascend between any two positions.
proof fn lemma_members_ascending(
    anchors: Seq<IndexAnchor>,
    rs: Seq<Repeat>,
    p: int,
    a: int,
    b: int,
)
    requires
        index::anchors_wf(anchors, rs, true),
        0 <= p < anchors.len(),
        0 <= a < b < anchors[p].repeats@.len(),
    ensures
        anchors[p].repeats@[a] < anchors[p].repeats@[b],
    decreases b - a,
{
    if a + 1 < b {
        lemma_members_ascending(anchors, rs, p, a, b - 1);
    }
    assert(anchors[p].repeats@[b - 1] < anchors[p].repeats@[b]);
}

/// A processing order never lists more entries than there are candidates:
/// its entries are pairwise distinct ids below the candidate count.
pub proof fn lemma_order_len(rs: Seq<Repeat>, ord: Seq<usize>)
    requires
        is_processing_order(rs, ord),
    ensures
        ord.len() <= rs.len(),
{
    broadcast use vstd::set::group_set_axioms;

    let n = rs.len() as int;
    let ordi = Seq::new(ord.len(), |m: int| ord[m] as int);
    assert(ordi.no_duplicates()) by {
        assert forall|m1: int, m2: int|
            0 <= m1 < ordi.len() && 0 <= m2 < ordi.len() && m1 != m2 implies ordi[m1]
            != ordi[m2] by {
            if m1 < m2 {
                assert(lex_before(rs, ord[m1] as int, ord[m2] as int));
            } else {
                assert(lex_before(rs, ord[m2] as int, ord[m1] as int));
            }
        }
    }
    ordi.unique_seq_to_set();
    assert forall|x: int|
        ordi.to_set().contains(x) implies vstd::set_lib::set_int_range(0, n).contains(x) by {
        let m = choose|m: int| 0 <= m < ordi.len() && ordi[m] == x;
        assert(ord[m] < rs.len());
    }
    assert(ordi.to_set().subset_of(vstd::set_lib::set_int_range(0, n)));
    vstd::set_lib::lemma_int_range(0, n);
    vstd::set_lib::lemma_len_subset(ordi.to_set(), vstd::set_lib::set_int_range(0, n));
}

/// Facts the flattened anchor array gives about the processing order:
/// a cumulative-count table that locates every position, sorted anchors, and
/// member lists gluing the order to the anchors.
pub open spec fn flat_wf(
    rs: Seq<Repeat>,
    ord: Seq<usize>,
    cumv: Seq<usize>,
    anchors: Seq<IndexAnchor>,
) -> bool {
    &&& cumv.len() == anchors.len() + 1
    &&& cumv[0] == 0
    &&& cumv[anchors.len() as int] == ord.len()
    &&& forall|q2: int|
        0 <= q2 < anchors.len() ==> #[trigger] cumv[q2 + 1] == cumv[q2]
            + anchors[q2].repeats@.len()
    &&& forall|q2: int, mi: int|
        0 <= q2 < anchors.len() && 0 <= mi < anchors[q2].repeats@.len() ==> ord[cumv[q2] + mi]
            == (#[trigger] anchors[q2].repeats@[mi])
    &&& index::anchors_wf(anchors, rs, true)
}

/// The cumulative table is monotone between adjacent entries.
proof fn lemma_flat_cum_adjacent(
    rs: Seq<Repeat>,
    ord: Seq<usize>,
    cumv: Seq<usize>,
    anchors: Seq<IndexAnchor>,
)
    requires
        flat_wf(rs, ord, cumv, anchors),
    ensures
        forall|q2: int| 0 <= q2 < cumv.len() - 1 ==> #[trigger] cumv[q2] <= cumv[q2 + 1],
{
    assert forall|q2: int|
        0 <= q2 < cumv.len() - 1 implies #[trigger] cumv[q2] <= cumv[q2 + 1] by {
        assert(cumv[q2 + 1] == cumv[q2] + anchors[q2].repeats@.len());
    }
}

/// Every flattened entry is a valid candidate id carrying its anchor's key.
proof fn lemma_flat_entry(
    rs: Seq<Repeat>,
    ord: Seq<usize>,
    cumv: Seq<usize>,
    anchors: Seq<IndexAnchor>,
    m: int,
)
    requires
        flat_wf(rs, ord, cumv, anchors),
        0 <= m < ord.len(),
    ensures
        ord[m] < rs.len(),
        exists|q2: int|
            0 <= q2 < anchors.len() && #[trigger] cumv[q2] <= m < cumv[q2 + 1] && end_key(
                rs,
                ord[m] as int,
            ) == anchors[q2].pos,
{
    let a_len = anchors.len() as int;
    lemma_flat_cum_adjacent(rs, ord, cumv, anchors);
    if a_len == 0 {
        assert(cumv[0] == ord.len());
    }
    lemma_cum_locate(cumv, 0, a_len, m);
    let q2 = choose|q2: int| 0 <= q2 < a_len && #[trigger] cumv[q2] <= m < cumv[q2 + 1];
    let mi = m - cumv[q2];
    assert(ord[m] == anchors[q2].repeats@[mi]);
    assert(end_key(rs, ord[m] as int) == anchors[q2].pos);
}

/// Two flattened entries stand in strict processing order.
#[verifier::rlimit(100)]
#[verifier::spinoff_prover]
proof fn lemma_flat_pair(
    rs: Seq<Repeat>,
    ord: Seq<usize>,
    cumv: Seq<usize>,
    anchors: Seq<IndexAnchor>,
    m1: int,
    m2: int,
)
    requires
        flat_wf(rs, ord, cumv, anchors),
        0 <= m1 < m2 < ord.len(),
    ensures
        lex_before(rs, ord[m1] as int, ord[m2] as int),
{
    let a_len = anchors.len() as int;
    lemma_flat_cum_adjacent(rs, ord, cumv, anchors);
    if a_len == 0 {
        assert(cumv[0] == ord.len());
    }
    lemma_cum_locate(cumv, 0, a_len, m1);
    lemma_cum_locate(cumv, 0, a_len, m2);
    let qa = choose|q2: int| 0 <= q2 < a_len && #[trigger] cumv[q2] <= m1 < cumv[q2 + 1];
    let qb = choose|q2: int| 0 <= q2 < a_len && #[trigger] cumv[q2] <= m2 < cumv[q2 + 1];
    let ma = m1 - cumv[qa];
    let mb = m2 - cumv[qb];
    assert(ord[m1] == anchors[qa].repeats@[ma]);
    assert(ord[m2] == anchors[qb].repeats@[mb]);
    if qa > qb {
        lemma_cum_mono(cumv, qb + 1, qa);
        assert(false);
    }
    assert(end_key(rs, ord[m1] as int) == anchors[qa].pos);
    assert(end_key(rs, ord[m2] as int) == anchors[qb].pos);
    if qa < qb {
        assert(anchors[qa].pos < anchors[qb].pos);
    } else {
        lemma_members_ascending(anchors, rs, qa, ma, mb);
    }
}

/// A flattened anchor array is a processing order, with ends sorted along it.
proof fn lemma_flat_order(
    rs: Seq<Repeat>,
    ord: Seq<usize>,
    cumv: Seq<usize>,
    anchors: Seq<IndexAnchor>,
    rev: Seq<usize>,
)
    requires
        flat_wf(rs, ord, cumv, anchors),
        index::revmap_wf(anchors, rev, rs, true),
    ensures
        is_processing_order(rs, ord),
        forall|m1: int, m2: int|
            0 <= m1 < m2 < ord.len() ==> end_key(rs, (#[trigger] ord[m1]) as int) <= end_key(
                rs,
                (#[trigger] ord[m2]) as int,
            ),
{
    let a_len = anchors.len() as int;
    lemma_flat_cum_adjacent(rs, ord, cumv, anchors);
    assert forall|m: int| 0 <= m < ord.len() implies (#[trigger] ord[m]) < rs.len() by {
        lemma_flat_entry(rs, ord, cumv, anchors, m);
    }
    assert forall|m1: int, m2: int|
        0 <= m1 < m2 < ord.len() implies lex_before(
        rs,
        (#[trigger] ord[m1]) as int,
        (#[trigger] ord[m2]) as int,
    ) by {
        lemma_flat_pair(rs, ord, cumv, anchors, m1, m2);
    }
    assert forall|id: int| 0 <= id < rs.len() implies #[trigger] ord.contains(id as usize) by {
        let p = rev[id] as int;
        assert(anchors[p].repeats@.contains(id as usize));
        let mi = choose|mi: int|
            0 <= mi < anchors[p].repeats@.len() && anchors[p].repeats@[mi] == id as usize;
        assert(cumv[p + 1] == cumv[p] + anchors[p].repeats@.len());
        lemma_cum_mono(cumv, p + 1, a_len);
        assert(ord[cumv[p] + mi] == id as usize);
    }
    assert forall|m1: int, m2: int|
        0 <= m1 < m2 < ord.len() implies end_key(rs, (#[trigger] ord[m1]) as int) <= end_key(
        rs,
        (#[trigger] ord[m2]) as int,
    ) by {
        assert(lex_before(rs, ord[m1] as int, ord[m2] as int));
    }
}

/// After bisecting the anchors at a candidate's bounding start, the
/// cumulative count at the found anchor equals the number of processed
/// candidates that end at or before that start.
#[verifier::rlimit(50)]
proof fn lemma_flat_count(
    rs: Seq<Repeat>,
    ord: Seq<usize>,
    cumv: Seq<usize>,
    anchors: Seq<IndexAnchor>,
    p: int,
    k: int,
    bound: int,
)
    requires
        flat_wf(rs, ord, cumv, anchors),
        0 <= p <= anchors.len(),
        forall|q2: int| 0 <= q2 < p ==> (#[trigger] anchors[q2]).pos <= bound,
        forall|q2: int| p <= q2 < anchors.len() ==> (#[trigger] anchors[q2]).pos > bound,
        0 <= k < ord.len(),
        end_key(rs, ord[k] as int) > bound,
    ensures
        0 <= cumv[p] <= k,
        count_compat(rs, ord, k, bound) == cumv[p],
{
    let a_len = anchors.len() as int;
    lemma_flat_cum_adjacent(rs, ord, cumv, anchors);
    let j = cumv[p] as int;
    lemma_cum_mono(cumv, p, a_len);
    assert forall|m: int|
        0 <= m < j implies end_key(rs, (#[trigger] ord[m]) as int) <= bound by {
        lemma_cum_locate(cumv, 0, p, m);
        let q2 = choose|q2: int| 0 <= q2 < p && #[trigger] cumv[q2] <= m < cumv[q2 + 1];
        let mi = m - cumv[q2];
        assert(ord[m] == anchors[q2].repeats@[mi]);
        assert(end_key(rs, ord[m] as int) == anchors[q2].pos);
    }
    assert forall|m: int|
        j <= m < ord.len() implies end_key(rs, (#[trigger] ord[m]) as int) > bound by {
        lemma_cum_locate(cumv, p, a_len, m);
        let q2 = choose|q2: int| p <= q2 < a_len && #[trigger] cumv[q2] <= m < cumv[q2 + 1];
        let mi = m - cumv[q2];
        assert(ord[m] == anchors[q2].repeats@[mi]);
        assert(end_key(rs, ord[m] as int) == anchors[q2].pos);
    }
    assert(j <= k) by {
        if j > k {
            assert(end_key(rs, ord[k] as int) <= bound);
        }
    }
    lemma_count_compat_eq(rs, ord, k, bound, j);
}

/// Chooses a maximal-score subset of candidates without block-level overlap,
/// by dynamic programming over candidates in increasing bounding-end order:
/// each candidate either extends the best earlier chain every member of which
/// is block-disjoint from it, or is skipped. Returns the chosen candidate ids
/// (in processing order) and their total score.
pub fn run(candidates: &Vec<Repeat>, scores: &Vec<i64>) -> (r: (Vec<usize>, i64))
    requires
        candidates@.len() == scores@.len(),
        candidates@.len() <= 1_000_000,
        forall|i: int| 0 <= i < candidates@.len() ==> (#[trigger] candidates@[i]).wf(),
        forall|i: int|
            0 <= i < scores@.len() ==> -1_000_000_000 <= #[trigger] scores@[i] <= 1_000_000_000,
    ensures
        exists|order: Seq<usize>|
            {
                let fin = dp(candidates@, scores@, order, order.len() as int);
                #[trigger] is_processing_order(candidates@, order) && r.1 == fin.0 && r.0@
                    == fin.1
            },
        forall|order: Seq<usize>|
            #[trigger] is_processing_order(candidates@, order) ==> {
                let fin = dp(candidates@, scores@, order, order.len() as int);
                r.1 == fin.0 && r.0@ == fin.1
            },
        r.1 == sum_scores(scores@, r.0@),
        forall|a: int| 0 <= a < r.0@.len() ==> (#[trigger] r.0@[a]) < candidates@.len(),
        forall|a: int, b: int|
            0 <= a < b < r.0@.len() ==> blocks_disjoint(
                candidates@[(#[trigger] r.0@[a]) as int]@,
                candidates@[(#[trigger] r.0@[b]) as int]@,
            ),
{
    let ghost rs = candidates@;
    let n = candidates.len();
    if n == 0 {
        let out: Vec<usize> = Vec::new();
        proof {
            let order = Seq::<usize>::empty();
            assert(is_processing_order(rs, order));
            assert(out@ == dp(rs, scores@, order, 0).1);
            assert forall|o2: Seq<usize>| #[trigger] is_processing_order(rs, o2) implies {
                let fin = dp(rs, scores@, o2, o2.len() as int);
                0 == fin.0 && out@ == fin.1
            } by {
                lemma_order_unique(rs, o2, order);
            }
        }
        return (out, 0);
    }

    let index = Index::new(candidates);
    let ends = index.ends();
    let a_len = ends.len();
    let ghost anchors = index.ends_view();

    // Flatten the end anchors into the processing order; cum[q] counts the
    // candidates held by anchors before q.
    let mut order: Vec<usize> = Vec::new();
    let mut cum: Vec<usize> = Vec::new();
    cum.push(0);
    let mut q: usize = 0;
    while q < a_len
        invariant
            q <= a_len,
            a_len == anchors.len(),
            ends@ == anchors,
            cum@.len() == q + 1,
            cum@[0] == 0,
            cum@[q as int] == order@.len(),
            forall|q2: int|
                0 <= q2 < q ==> #[trigger] cum@[q2 + 1] == cum@[q2] + anchors[q2].repeats@.len(),
            forall|q2: int, mi: int|
                0 <= q2 < q && 0 <= mi < anchors[q2].repeats@.len() ==> order@[cum@[q2] + mi]
                    == (#[trigger] anchors[q2].repeats@[mi]),
        decreases a_len - q,
    {
        let members_len = ends[q].repeats.len();
        let ghost base = order@.len() as int;
        let ghost order0 = order@;
        let mut mi: usize = 0;
        while mi < members_len
            invariant
                mi <= members_len,
                q < a_len,
                a_len == anchors.len(),
                ends@ == anchors,
                members_len == anchors[q as int].repeats@.len(),
                base == order0.len(),
                order@.len() == base + mi,
                forall|m: int| 0 <= m < base ==> order@[m] == order0[m],
                forall|mi2: int|
                    0 <= mi2 < mi ==> order@[base + mi2] == (#[trigger] anchors[
                        q as int
                    ].repeats@[mi2]),
            decreases members_len - mi,
        {
            let idv = ends[q].repeats[mi];
            order.push(idv);
            mi = mi + 1;
        }
        proof {
            let cprev = cum@;
            assert forall|q2: int| 0 <= q2 < cprev.len() - 1 implies #[trigger] cprev[q2]
                <= cprev[q2 + 1] by {
                assert(cprev[q2 + 1] == cprev[q2] + anchors[q2].repeats@.len());
            }
            assert forall|q2: int, mi2: int|
                0 <= q2 < q && 0 <= mi2 < anchors[q2].repeats@.len() implies order@[cprev[q2]
                + mi2] == (#[trigger] anchors[q2].repeats@[mi2]) by {
                assert(cprev[q2 + 1] == cprev[q2] + anchors[q2].repeats@.len());
                lemma_cum_mono(cprev, q2 + 1, q as int);
                assert(cprev[q2] + mi2 < base);
                assert(order@[cprev[q2] + mi2] == order0[cprev[q2] + mi2]);
            }
        }
        cum.push(order.len());
        q = q + 1;
    }
    let ghost ord = order@;
    let ghost cumv = cum@;

    proof {
        assert(flat_wf(rs, ord, cumv, anchors));
        lemma_flat_order(rs, ord, cumv, anchors, index.revmaps_view().1);
    }

    proof {
        lemma_order_len(rs, ord);
    }

    // Dynamic program over the processing order.
    let kk = order.len();
    let mut best: Vec<i64> = Vec::new();
    let mut chains: Vec<Vec<usize>> = Vec::new();
    best.push(0);
    chains.push(Vec::new());
    let mut k: usize = 0;
    while k < kk
        invariant
            k <= kk,
            kk == ord.len(),
            kk <= n,
            ord == order@,
            cumv == cum@,
            ends@ == anchors,
            rs == candidates@,
            rs.len() == n,
            n > 0,
            n <= 1_000_000,
            candidates@.len() == scores@.len(),
            forall|i: int| 0 <= i < candidates@.len() ==> (#[trigger] candidates@[i]).wf(),
            forall|i: int|
                0 <= i < scores@.len() ==> -1_000_000_000 <= #[trigger] scores@[i]
                    <= 1_000_000_000,
            is_processing_order(rs, ord),
            forall|m1: int, m2: int|
                0 <= m1 < m2 < ord.len() ==> end_key(rs, (#[trigger] ord[m1]) as int) <= end_key(
                    rs,
                    (#[trigger] ord[m2]) as int,
                ),
            a_len == anchors.len(),
            flat_wf(rs, ord, cumv, anchors),
            cum@.len() == a_len + 1,
            best@.len() == k + 1,
            chains@.len() == k + 1,
            forall|m: int| 0 <= m <= k ==> #[trigger] best@[m] == dp(rs, scores@, ord, m).0,
            forall|m: int| 0 <= m <= k ==> (#[trigger] chains@[m])@ == dp(rs, scores@, ord, m).1,
            forall|m: int, q2: int|
                0 <= m <= k && 0 <= q2 < (#[trigger] chains@[m])@.len()
                    ==> (#[trigger] chains@[m]@[q2]) < n,
        decreases kk - k,
    {
        let c = order[k];
        assert(c < n);
        assert(rs[c as int].wf());
        let start_c = candidates[c].brange().start;
        proof {
            lemma_flat_cum_adjacent(rs, ord, cumv, anchors);
            assert(index::sorted_range(anchors, 0, a_len as int));
        }
        let p = index::right(ends, start_c, 0, a_len);
        let j = cum[p];
        proof {
            assert(start_key(rs, c as int) < end_key(rs, c as int));
            assert(end_key(rs, (ord[k as int]) as int) > start_c as int);
            lemma_flat_count(rs, ord, cumv, anchors, p as int, k as int, start_c as int);
            lemma_count_compat_prefix(rs, ord, k as int, start_c as int);
        }
        // The best block-compatible earlier chain: prefixes up to the bisected
        // point are compatible outright; later ones are verified block by
        // block against the chosen chain.
        let mut b: usize = 0;
        let mut m: usize = 1;
        while m <= k
            invariant
                1 <= m <= k + 1,
                k < kk,
                kk == ord.len(),
                kk <= n,
                ord == order@,
                rs == candidates@,
                rs.len() == n,
                candidates@.len() == scores@.len(),
                forall|i: int| 0 <= i < candidates@.len() ==> (#[trigger] candidates@[i]).wf(),
                is_processing_order(rs, ord),
                c == ord[k as int],
                c < n,
                j <= k,
                start_c as int == start_key(rs, c as int),
                forall|mm: int|
                    0 <= mm < j ==> end_key(rs, (#[trigger] ord[mm]) as int) <= start_c as int,
                best@.len() == k + 1,
                chains@.len() == k + 1,
                forall|m2: int| 0 <= m2 <= k ==> #[trigger] best@[m2] == dp(rs, scores@, ord, m2).0,
                forall|m2: int|
                    0 <= m2 <= k ==> (#[trigger] chains@[m2])@ == dp(rs, scores@, ord, m2).1,
                forall|m2: int, q2: int|
                    0 <= m2 <= k && 0 <= q2 < (#[trigger] chains@[m2])@.len()
                        ==> (#[trigger] chains@[m2]@[q2]) < n,
                b <= m - 1,
                b as int == base_index(rs, scores@, ord, m - 1, c as int),
            decreases k + 1 - m,
        {
            let ok: bool;
            if m <= j {
                ok = true;
                proof {
                    lemma_prefix_chain_ok(rs, scores@, ord, m as int, c as int, start_c as int);
                    assert(chain_ok(rs, dp(rs, scores@, ord, m as int).1, c as int));
                }
            } else {
                ok = chain_compatible(candidates, &chains[m], c);
            }
            let ghost prevb = b as int;
            if ok && best[m] >= best[b] {
                b = m;
            }
            proof {
                lemma_base_range(rs, scores@, ord, m - 1, c as int);
                assert((chains@[m as int])@ == dp(rs, scores@, ord, m as int).1);
                assert(ok == chain_ok(rs, dp(rs, scores@, ord, m as int).1, c as int));
                assert(b as int == base_index(rs, scores@, ord, m as int, c as int));
            }
            m = m + 1;
        }
        proof {
            assert(b as int == base_index(rs, scores@, ord, k as int, c as int));
            lemma_base_range(rs, scores@, ord, k as int, c as int);
            lemma_dp_bounds(rs, scores@, ord, b as int, 1_000_000_000);
            lemma_dp_bounds(rs, scores@, ord, k as int, 1_000_000_000);
            assert(b <= k < kk <= n);
            assert((b as int) * 1_000_000_000 <= 1_000_000_000_000_000) by (nonlinear_arith)
                requires
                    0 <= b <= 1_000_000,
            ;
            assert((k as int) * 1_000_000_000 <= 1_000_000_000_000_000) by (nonlinear_arith)
                requires
                    0 <= k <= 1_000_000,
            ;
        }
        let sc = scores[c];
        let bb = best[b];
        let take = bb + sc;
        let skipv = best[k];
        if take >= skipv {
            let mut nc = clone_ids(&chains[b]);
            nc.push(c);
            best.push(take);
            chains.push(nc);
            proof {
                assert((chains@[k + 1])@ == dp(rs, scores@, ord, k + 1).1);
                assert(best@[k + 1] == dp(rs, scores@, ord, k + 1).0);
            }
        } else {
            let nc = clone_ids(&chains[k]);
            best.push(skipv);
            chains.push(nc);
            proof {
                assert((chains@[k + 1])@ == dp(rs, scores@, ord, k + 1).1);
                assert(best@[k + 1] == dp(rs, scores@, ord, k + 1).0);
            }
        }
        k = k + 1;
    }
    let total = best[kk];
    let chosen = clone_ids(&chains[kk]);
    proof {
        lemma_dp_valid(rs, scores@, ord, kk as int);
        assert(chosen@ == dp(rs, scores@, ord, kk as int).1);
        assert forall|a: int|
            0 <= a < chosen@.len() implies (#[trigger] chosen@[a]) < candidates@.len() by {
            let m = choose|m: int| 0 <= m < kk && ord[m] == chosen@[a];
            assert(ord[m] < rs.len());
        }
        assert({
            let fin = dp(candidates@, scores@, ord, ord.len() as int);
            is_processing_order(candidates@, ord) && total == fin.0 && chosen@ == fin.1
        });
        assert forall|order: Seq<usize>| #[trigger] is_processing_order(candidates@, order)
            implies {
            let fin = dp(candidates@, scores@, order, order.len() as int);
            total == fin.0 && chosen@ == fin.1
        } by {
            lemma_order_unique(candidates@, order, ord);
        }
    }
    (chosen, total)
}

} // verus!
