//! The prediction driver: scans every valid self-alignment offset of a
//! nucleic-acid sequence (the left window must end at or before the right
//! window starts), aligns the left piece against the reverse complement of
//! the right piece, and converts every retained path into an inverted repeat
//! by grouping contiguous diagonal runs into segments, outer-to-inner.

use vstd::prelude::*;

use crate::alignment::adv1;
use crate::alignment::adv2;
use crate::alignment::consumed1;
use crate::alignment::consumed2;
use crate::alignment::expand;
use crate::alignment::lemma_consumed_append;
use crate::alignment::lemma_consumed_bounds;
use crate::alignment::lemma_consumed_repeat;
use crate::alignment::lemma_expand_concat;
use crate::alignment::repeat_op;
use crate::alignment::AlignmentOp;
use crate::alignment::AlignmentStep;
use crate::engine::bounded_scheme;
use crate::engine::lemma_scan_filtered;
use crate::engine::lemma_drain_ends;
use crate::engine::lemma_scan_ends;
use crate::engine::lemma_scan_shape;
use crate::engine::path_end_ok;
use crate::engine::scan_results;
use crate::engine::scan_spec;
use crate::engine::decision;
use crate::engine::is_diag_decision;
use crate::engine::FullScan;
use crate::repeats::chained;
use crate::repeats::views_of;
use crate::repeats::Repeat;
use crate::repeats::Segment;
use crate::repeats::SegmentView;
use crate::scoring::AffineScheme;
use crate::scoring::Delegate;
use crate::scoring::EquivClassifier;
use crate::scoring::EquivType;
use crate::scoring::Scorer;
use crate::storage::lemma_drain_filtered;
use crate::storage::AllOptimal;
use crate::storage::Path;
use crate::traceback::lemma_walk_last;
use crate::traceback::op_of_trace;
use crate::traceback::Trace;
use crate::traceback::TraceMatrix;

verus! {

/// The complement of one nucleotide: standard bases map to their pairing
/// partner, the ambiguous base stays ambiguous, anything else maps to an
/// impossible symbol so that it never matches.
pub open spec fn complement_spec(b: u8) -> u8 {
    if b == 65 {  // A pairs with T
        84
    } else if b == 84 {  // T pairs with A
        65
    } else if b == 85 {  // U pairs with A
        65
    } else if b == 71 {  // G pairs with C
        67
    } else if b == 67 {  // C pairs with G
        71
    } else if b == 78 {  // N stays ambiguous
        78
    } else {
        0
    }
}

/// The complement of one nucleotide.
pub fn complement(b: u8) -> (r: u8)
    ensures
        r == complement_spec(b),
{
    if b == 65 {
        84
    } else if b == 84 {
        65
    } else if b == 85 {
        65
    } else if b == 71 {
        67
    } else if b == 67 {
        71
    } else if b == 78 {
        78
    } else {
        0
    }
}

/// The reverse complement of a sequence.
pub fn revcomp(seq: &Vec<u8>) -> (r: Vec<u8>)
    ensures
        r@.len() == seq@.len(),
        forall|i: int|
            0 <= i < seq@.len() ==> #[trigger] r@[i] == complement_spec(
                seq@[seq@.len() - 1 - i],
            ),
{
    let n = seq.len();
    let mut out: Vec<u8> = Vec::new();
    let mut i: usize = 0;
    while i < n
        invariant
            i <= n,
            n == seq@.len(),
            out@.len() == i,
            forall|j: int|
                0 <= j < i ==> #[trigger] out@[j] == complement_spec(seq@[seq@.len() - 1 - j]),
        decreases n - i,
    {
        out.push(complement(seq[n - 1 - i]));
        i = i + 1;
    }
    out
}

/// Scores one symbol pair of the self-alignment: equal standard symbols are
/// matches, the ambiguous base pairs tentatively with anything, everything
/// else is a mismatch. Matches and tentative matches score one, mismatches
/// minus two.
pub struct NucleotideScorer {}

impl EquivClassifier for NucleotideScorer {
    open spec fn symbol_ok(&self, s: u8) -> bool {
        true
    }

    open spec fn classify_spec(&self, s1: u8, s2: u8) -> EquivType {
        if s1 == 78 || s2 == 78 {
            EquivType::Equivalent
        } else if s1 == s2 {
            EquivType::Match
        } else {
            EquivType::Mismatch
        }
    }

    fn classify(&self, s1: u8, s2: u8) -> (r: EquivType) {
        if s1 == 78 || s2 == 78 {
            EquivType::Equivalent
        } else if s1 == s2 {
            EquivType::Match
        } else {
            EquivType::Mismatch
        }
    }
}

impl Scorer for NucleotideScorer {
    open spec fn score_spec(&self, pos1: int, s1: u8, pos2: int, s2: u8) -> i64 {
        if s1 == 78 || s2 == 78 || s1 == s2 {
            1i64
        } else {
            -2i64
        }
    }

    fn score(&self, seq1pos: usize, s1: u8, seq2pos: usize, s2: u8) -> (r: i64) {
        if s1 == 78 || s2 == 78 || s1 == s2 {
            1
        } else {
            -2
        }
    }
}

/// Copies `v[start..end]` into a fresh vector.
fn copy_slice(v: &Vec<u8>, start: usize, end: usize) -> (r: Vec<u8>)
    requires
        start <= end <= v@.len(),
    ensures
        r@ == v@.subrange(start as int, end as int),
{
    let mut out: Vec<u8> = Vec::new();
    let mut i: usize = start;
    while i < end
        invariant
            start <= i <= end <= v@.len(),
            out@.len() == i - start,
            forall|j: int| 0 <= j < i - start ==> #[trigger] out@[j] == v@[start + j],
        decreases end - i,
    {
        out.push(v[i]);
        i = i + 1;
    }
    proof {
        assert(out@ =~= v@.subrange(start as int, end as int));
    }
    out
}

/// A unit that pairs two symbols rather than skipping one.
pub open spec fn is_diag_unit(op: AlignmentOp) -> bool {
    op != AlignmentOp::GapFirst && op != AlignmentOp::GapSecond
}

/// Converts one traced path at split `k` of a sequence of length `n` into an
/// inverted repeat: contiguous diagonal runs become segments whose left range
/// reads the first piece forward and whose right range reads the original
/// coordinates of the reverse-complemented second piece. Paths made of gaps
/// alone yield nothing; a path whose last unit pairs symbols always yields a
/// repeat.
fn build_repeat(
    ops: &Vec<AlignmentStep>,
    s1start: usize,
    s2start: usize,
    k: usize,
    n: usize,
) -> (r: Option<Repeat>)
    requires
        1 <= k < n <= 30_000,
        s1start + consumed1(expand(ops@)) <= k,
        s2start + consumed2(expand(ops@)) <= n - k,
    ensures
        r matches Some(rep) ==> rep.wf() && 0 <= rep@[0].l0 && rep@[0].r1 <= n,
        expand(ops@).len() > 0 && is_diag_unit(expand(ops@).last()) ==> r is Some,
{
    let ghost full = expand(ops@);
    let mut segs: Vec<Segment> = Vec::new();
    let mut p1: usize = s1start;
    let mut p2: usize = s2start;
    let mut has_cur: bool = false;
    let mut sp1: usize = 0;
    let mut sp2: usize = 0;
    let mut curlen: usize = 0;
    let mut i: usize = 0;
    proof {
        assert(ops@.take(0) =~= Seq::<AlignmentStep>::empty());
        assert(expand(Seq::<AlignmentStep>::empty()) == Seq::<AlignmentOp>::empty());
        assert(consumed1(Seq::<AlignmentOp>::empty()) == 0);
        assert(consumed2(Seq::<AlignmentOp>::empty()) == 0);
        lemma_consumed_bounds(full);
    }
    while i < ops.len()
        invariant
            i <= ops@.len(),
            1 <= k < n <= 30_000,
            full == expand(ops@),
            s1start + consumed1(full) <= k,
            s2start + consumed2(full) <= n - k,
            p1 == s1start + consumed1(expand(ops@.take(i as int))),
            p2 == s2start + consumed2(expand(ops@.take(i as int))),
            p1 <= k,
            p2 <= n - k,
            has_cur ==> curlen >= 1 && sp1 + curlen == p1 && sp2 + curlen == p2,
            !has_cur ==> curlen == 0,
            forall|j: int| 0 <= j < segs@.len() ==> (#[trigger] segs@[j]@).wf(),
            forall|j: int|
                0 <= j < segs@.len() - 1 ==> (#[trigger] segs@[j]@).nests(segs@[j + 1]@),
            segs@.len() > 0 ==> segs@[segs@.len() - 1]@.l1 <= (if has_cur {
                sp1 as int
            } else {
                p1 as int
            }),
            segs@.len() > 0 ==> segs@[segs@.len() - 1]@.r0 >= n - (if has_cur {
                sp2 as int
            } else {
                p2 as int
            }),
            segs@.len() > 0 ==> 0 <= segs@[0]@.l0 && segs@[0]@.r1 <= n,
            expand(ops@.take(i as int)).len() > 0 && is_diag_unit(
                expand(ops@.take(i as int)).last(),
            ) ==> has_cur,
        decreases ops@.len() - i,
    {
        let x = ops[i];
        let ghost prefix = expand(ops@.take(i as int));
        let ghost run = repeat_op(x.op, x.len as int);
        proof {
            assert(ops@.take(i + 1).drop_last() =~= ops@.take(i as int));
            assert(ops@.take(i + 1).last() == x);
            assert(expand(ops@.take(i + 1)) == prefix + run);
            lemma_consumed_append(prefix, run);
            lemma_consumed_repeat(x.op, x.len as int);
            lemma_consumed_bounds(run);
            assert(ops@ =~= ops@.take(i + 1) + ops@.skip(i + 1));
            lemma_expand_concat(ops@.take(i + 1), ops@.skip(i + 1));
            lemma_consumed_append(expand(ops@.take(i + 1)), expand(ops@.skip(i + 1)));
            lemma_consumed_bounds(expand(ops@.skip(i + 1)));
            lemma_consumed_bounds(prefix);
        }
        match x.op {
            AlignmentOp::GapFirst => {
                proof {
                    assert(adv1(x.op) == 1 && adv2(x.op) == 0);
                    assert((x.len as int) * 1 == x.len as int && (x.len as int) * 0 == 0)
                        by (nonlinear_arith);
                    if x.len >= 1 {
                        assert(expand(ops@.take(i + 1)).last() == x.op);
                    } else {
                        assert(prefix + run =~= prefix);
                    }
                }
                if x.len >= 1 {
                    if curlen > 0 {
                        let seg = make_segment(sp1, sp2, curlen, k, n);
                        segs.push(seg);
                    }
                    has_cur = false;
                    curlen = 0;
                }
                p1 = p1 + (x.len as usize);
            },
            AlignmentOp::GapSecond => {
                proof {
                    assert(adv1(x.op) == 0 && adv2(x.op) == 1);
                    assert((x.len as int) * 1 == x.len as int && (x.len as int) * 0 == 0)
                        by (nonlinear_arith);
                    if x.len >= 1 {
                        assert(expand(ops@.take(i + 1)).last() == x.op);
                    } else {
                        assert(prefix + run =~= prefix);
                    }
                }
                if x.len >= 1 {
                    if curlen > 0 {
                        let seg = make_segment(sp1, sp2, curlen, k, n);
                        segs.push(seg);
                    }
                    has_cur = false;
                    curlen = 0;
                }
                p2 = p2 + (x.len as usize);
            },
            _ => {
                proof {
                    assert(adv1(x.op) == 1 && adv2(x.op) == 1);
                    assert((x.len as int) * 1 == x.len as int) by (nonlinear_arith);
                    if x.len >= 1 {
                        assert(expand(ops@.take(i + 1)).last() == x.op);
                    } else {
                        assert(prefix + run =~= prefix);
                    }
                }
                if x.len >= 1 {
                    if !has_cur {
                        has_cur = true;
                        sp1 = p1;
                        sp2 = p2;
                        curlen = 0;
                    }
                    curlen = curlen + (x.len as usize);
                }
                p1 = p1 + (x.len as usize);
                p2 = p2 + (x.len as usize);
            },
        }
        i = i + 1;
    }
    proof {
        assert(ops@.take(ops@.len() as int) =~= ops@);
    }
    if curlen > 0 {
        let seg = make_segment(sp1, sp2, curlen, k, n);
        segs.push(seg);
    }
    proof {
        if expand(ops@).len() > 0 && is_diag_unit(expand(ops@).last()) {
            assert(segs@.len() > 0);
        }
    }
    if segs.len() == 0 {
        return Option::None;
    }
    proof {
        assert forall|j: int|
            0 <= j < views_of(segs@).len() - 1 implies #[trigger] views_of(segs@)[j].nests(
            views_of(segs@)[j + 1],
        ) by {
            assert(segs@[j]@.nests(segs@[j + 1]@));
            assert(views_of(segs@)[j] == segs@[j]@);
            assert(views_of(segs@)[j + 1] == segs@[j + 1]@);
        }
        assert(chained(views_of(segs@)));
    }
    match Repeat::new(segs) {
        Result::Ok(rep) => Option::Some(rep),
        Result::Err(_) => {
            // Validated segments in nesting order always build a repeat.
            proof {
                assert(false);
            }
            Option::None
        },
    }
}

/// One segment of a repeat found at split `k`: the left range reads the first
/// piece, the right range maps the reverse-complement positions back to the
/// original coordinates.
fn make_segment(sp1: usize, sp2: usize, curlen: usize, k: usize, n: usize) -> (r: Segment)
    requires
        curlen >= 1,
        sp1 + curlen <= k,
        sp2 + curlen <= n - k,
        k <= n <= 30_000,
    ensures
        r@ == (SegmentView {
            l0: sp1 as int,
            l1: sp1 + curlen,
            r0: n - sp2 - curlen,
            r1: n - sp2,
        }),
        r@.wf(),
{
    let left_start = sp1 as i64;
    let left_end = (sp1 + curlen) as i64;
    let right_start = (n - sp2 - curlen) as i64;
    let right_end = (n - sp2) as i64;
    match Segment::new(left_start..left_end, right_start..right_end) {
        Result::Ok(s) => s,
        Result::Err(_) => {
            proof {
                assert(false);
            }
            vstd::pervasive::unreached()
        },
    }
}

/// The scoring scheme the driver scans with: complementary pairing scores
/// one, a tentative pairing with the ambiguous base scores one, a clash
/// scores minus two, and gaps cost five to open and one per unit.
pub open spec fn driver_scheme() -> Delegate<AffineScheme, NucleotideScorer> {
    Delegate { gap: AffineScheme { open_cost: -5i64, extend_cost: -1i64 }, symbols: NucleotideScorer {  } }
}

/// The reverse complement, as a mathematical function.
pub open spec fn rc_spec(seq: Seq<u8>) -> Seq<u8> {
    Seq::new(seq.len(), |i: int| complement_spec(seq[seq.len() - 1 - i]))
}

/// Everything the scan files at split `k`: the piece before the split aligned
/// against the reverse complement of the piece after it.
pub open spec fn offset_results(seq: Seq<u8>, minsc: i64, minm: int, k: int) -> Seq<Seq<Path>> {
    scan_results(driver_scheme(), seq.take(k), rc_spec(seq).take(seq.len() - k), minsc, minm)
}

/// The scores of one result row, in order.
pub open spec fn row_scores(row: Seq<Path>) -> Seq<i64> {
    row.map_values(|p: Path| p.score)
}

/// The scores of the first `i` result rows, row-major.
pub open spec fn scores_below(results: Seq<Seq<Path>>, i: int) -> Seq<i64>
    decreases i,
{
    if i <= 0 {
        Seq::empty()
    } else {
        scores_below(results, i - 1) + row_scores(results[i - 1])
    }
}

/// The score of every path the driver files: splits in increasing order,
/// result rows within one split in increasing order.
pub open spec fn driver_scores(seq: Seq<u8>, minsc: i64, minm: int, upto: int) -> Seq<i64>
    decreases upto,
{
    if upto <= 1 {
        Seq::empty()
    } else {
        driver_scores(seq, minsc, minm, upto - 1) + scores_below(
            offset_results(seq, minsc, minm, upto - 1),
            offset_results(seq, minsc, minm, upto - 1).len() as int,
        )
    }
}

/// Scans every valid self-alignment offset of `seq` and returns the retained
/// candidate repeats with their scores: parallel collections, same order.
/// Every candidate is well-formed and lies within the sequence; the score
/// list is exactly the score of every path the per-offset scans file, in scan
/// order, so `r.1[i]` is the score of the path `r.0[i]` was built from.
#[verifier::rlimit(100)]
#[verifier::spinoff_prover]
pub fn run(seq: &Vec<u8>, min_score: i64, min_matches_run: usize) -> (r: (Vec<Repeat>, Vec<i64>))
    requires
        seq@.len() <= 30_000,
    ensures
        r.0@.len() == r.1@.len(),
        forall|i: int| 0 <= i < r.0@.len() ==> (#[trigger] r.0@[i]).wf(),
        forall|i: int|
            0 <= i < r.0@.len() ==> 0 <= (#[trigger] r.0@[i])@[0].l0 && r.0@[i]@[0].r1
                <= seq@.len(),
        forall|i: int| 0 <= i < r.1@.len() ==> (#[trigger] r.1@[i]) >= min_score,
        r.1@ == (if seq@.len() < 2 {
            Seq::<i64>::empty()
        } else {
            driver_scores(seq@, min_score, min_matches_run as int, seq@.len() as int)
        }),
{
    let n = seq.len();
    let mut cands: Vec<Repeat> = Vec::new();
    let mut scores: Vec<i64> = Vec::new();
    if n < 2 {
        return (cands, scores);
    }
    let rc = revcomp(seq);
    proof {
        assert(rc@ =~= rc_spec(seq@));
    }
    let scorer = Delegate {
        gap: AffineScheme { open_cost: -5, extend_cost: -1 },
        symbols: NucleotideScorer {},
    };
    proof {
        assert(bounded_scheme(scorer, 1_000_000_000));
        assert(scorer == driver_scheme());
    }
    let mut algo = FullScan::new(n);
    let mut storage = AllOptimal::new(0, min_matches_run, min_score);
    let mut tracer = TraceMatrix::new();
    let ghost minm = min_matches_run as int;
    let mut k: usize = 1;
    while k < n
        invariant
            1 <= k <= n,
            2 <= n <= 30_000,
            n == seq@.len(),
            rc@ == rc_spec(seq@),
            scorer == driver_scheme(),
            bounded_scheme(scorer, 1_000_000_000),
            storage.wf(),
            storage.minscore_spec() == min_score,
            storage.minmatches_spec() == minm,
            minm == min_matches_run as int,
            cands@.len() == scores@.len(),
            forall|i: int| 0 <= i < cands@.len() ==> (#[trigger] cands@[i]).wf(),
            forall|i: int|
                0 <= i < cands@.len() ==> 0 <= (#[trigger] cands@[i])@[0].l0 && cands@[i]@[0].r1
                    <= n,
            forall|q: int| 0 <= q < scores@.len() ==> (#[trigger] scores@[q]) >= min_score,
            scores@ == driver_scores(seq@, min_score, minm, k as int),
        decreases n - k,
    {
        let seq1 = copy_slice(seq, 0, k);
        let seq2 = copy_slice(&rc, 0, n - k);
        proof {
            assert((k + 1) * (n - k + 1) <= 1_000_000_000) by (nonlinear_arith)
                requires
                    1 <= k as int <= 30_000,
                    1 <= n - k <= 30_000,
            ;
            assert(seq1@ =~= seq@.take(k as int));
            assert(seq2@ =~= rc_spec(seq@).take(n - k));
        }
        storage.prepare(k, n - k);
        tracer.reset(k, n - k);
        algo.align(&seq1, &seq2, &scorer, &mut tracer, &mut storage);
        proof {
            lemma_scan_shape(scorer, seq1@, seq2@, seq2@.len() as int, min_score, minm);
            lemma_scan_filtered(scorer, seq1@, seq2@, seq2@.len() as int, min_score, minm);
            lemma_drain_filtered(
                scan_spec(scorer, seq1@, seq2@, min_score, minm),
                min_score,
                minm,
                storage.model().cache.len() as int,
            );
            lemma_scan_ends(scorer, seq1@, seq2@, seq2@.len() as int, min_score, minm);
            lemma_drain_ends(
                scorer,
                seq1@,
                seq2@,
                scan_spec(scorer, seq1@, seq2@, min_score, minm),
                min_score,
                minm,
                seq1@.len() as int,
            );
        }
        let paths = storage.finalize();
        let ghost pview = paths@.map_values(|v: Vec<Path>| v@);
        let ghost offres = offset_results(seq@, min_score, minm, k as int);
        let ghost base = scores@;
        proof {
            assert(pview == offres);
            assert forall|i2: int, j2: int|
                0 <= i2 < paths@.len() && 0 <= j2 < paths@[i2]@.len() implies {
                let p = #[trigger] paths@[i2]@[j2];
                p.score >= min_score && path_end_ok(scorer, seq1@, seq2@, p)
            } by {
                assert(pview[i2] == paths@[i2]@);
                assert(pview[i2][j2].score >= min_score);
                assert(path_end_ok(scorer, seq1@, seq2@, pview[i2][j2]));
            }
            assert(scores_below(pview, 0) =~= Seq::<i64>::empty());
        }
        let mut i: usize = 0;
        while i < paths.len()
            invariant
                i <= paths@.len(),
                1 <= k < n <= 30_000,
                n == seq@.len(),
                k == seq1@.len(),
                n - k == seq2@.len(),
                scorer == driver_scheme(),
                tracer.wf(),
                tracer.rows_spec() == k + 1,
                tracer.cols_spec() == n - k + 1,
                forall|r2: int, c2: int|
                    0 <= r2 < seq1@.len() && 0 <= c2 < seq2@.len() ==> #[trigger] tracer.cell(
                        r2 + 1,
                        c2 + 1,
                    ) == decision(scorer, seq1@, seq2@, r2, c2),
                pview == paths@.map_values(|v: Vec<Path>| v@),
                forall|i2: int, j2: int|
                    0 <= i2 < paths@.len() && 0 <= j2 < paths@[i2]@.len() ==> {
                        let p = #[trigger] paths@[i2]@[j2];
                        p.score >= min_score && path_end_ok(scorer, seq1@, seq2@, p)
                    },
                cands@.len() == scores@.len(),
                forall|q: int| 0 <= q < cands@.len() ==> (#[trigger] cands@[q]).wf(),
                forall|q: int|
                    0 <= q < cands@.len() ==> 0 <= (#[trigger] cands@[q])@[0].l0 && cands@[q]@[0].r1
                        <= n,
                forall|q: int| 0 <= q < scores@.len() ==> (#[trigger] scores@[q]) >= min_score,
                scores@ == base + scores_below(pview, i as int),
            decreases paths@.len() - i,
        {
            let row = paths[i].len();
            let mut j: usize = 0;
            proof {
                assert(row_scores(pview[i as int]).take(0) =~= Seq::<i64>::empty());
                assert(scores@ =~= base + scores_below(pview, i as int) + row_scores(
                    pview[i as int],
                ).take(0));
            }
            while j < row
                invariant
                    j <= row,
                    i < paths@.len(),
                    row == paths@[i as int]@.len(),
                    1 <= k < n <= 30_000,
                    n == seq@.len(),
                    k == seq1@.len(),
                    n - k == seq2@.len(),
                    scorer == driver_scheme(),
                    tracer.wf(),
                    tracer.rows_spec() == k + 1,
                    tracer.cols_spec() == n - k + 1,
                    forall|r2: int, c2: int|
                        0 <= r2 < seq1@.len() && 0 <= c2 < seq2@.len() ==> #[trigger] tracer.cell(
                            r2 + 1,
                            c2 + 1,
                        ) == decision(scorer, seq1@, seq2@, r2, c2),
                    pview == paths@.map_values(|v: Vec<Path>| v@),
                    forall|i2: int, j2: int|
                        0 <= i2 < paths@.len() && 0 <= j2 < paths@[i2]@.len() ==> {
                            let p = #[trigger] paths@[i2]@[j2];
                            p.score >= min_score && path_end_ok(scorer, seq1@, seq2@, p)
                        },
                    cands@.len() == scores@.len(),
                    forall|q: int| 0 <= q < cands@.len() ==> (#[trigger] cands@[q]).wf(),
                    forall|q: int|
                        0 <= q < cands@.len() ==> 0 <= (#[trigger] cands@[q])@[0].l0
                            && cands@[q]@[0].r1 <= n,
                    forall|q: int| 0 <= q < scores@.len() ==> (#[trigger] scores@[q]) >= min_score,
                    scores@ == base + scores_below(pview, i as int) + row_scores(
                        pview[i as int],
                    ).take(j as int),
                decreases row - j,
            {
                let p = paths[i][j];
                proof {
                    assert(paths@[i as int]@[j as int] == p);
                    assert(path_end_ok(scorer, seq1@, seq2@, p));
                }
                match tracer.trace(p.end.0, p.end.1) {
                    Result::Ok(t) => {
                        let ghost walk = tracer.walk_ops(p.end.0 + 1, p.end.1 + 1);
                        proof {
                            lemma_consumed_bounds(walk);
                            lemma_walk_last(tracer, p.end.0 + 1, p.end.1 + 1);
                            assert(tracer.cell(p.end.0 + 1, p.end.1 + 1) == decision(
                                scorer,
                                seq1@,
                                seq2@,
                                p.end.0 as int,
                                p.end.1 as int,
                            ));
                            assert(is_diag_unit(expand(t.ops@).last()));
                        }
                        match build_repeat(&t.ops, t.seq1range.start, t.seq2range.start, k, n) {
                            Option::Some(rep) => {
                                cands.push(rep);
                                scores.push(p.score);
                                proof {
                                    assert(row_scores(pview[i as int])[j as int] == p.score);
                                    assert(base + scores_below(pview, i as int) + row_scores(
                                        pview[i as int],
                                    ).take(j + 1) =~= (base + scores_below(pview, i as int)
                                        + row_scores(pview[i as int]).take(j as int)).push(
                                        p.score,
                                    ));
                                }
                            },
                            Option::None => {
                                // A filed path ends on a diagonal decision,
                                // so it always yields a repeat.
                                proof {
                                    assert(false);
                                }
                            },
                        }
                    },
                    Result::Err(_) => {
                        // A filed path always ends at an in-range cell with a
                        // recorded diagonal decision, so its traceback never
                        // fails.
                        proof {
                            assert(false);
                        }
                    },
                }
                j = j + 1;
            }
            proof {
                assert(row_scores(pview[i as int]).take(row as int) =~= row_scores(
                    pview[i as int],
                ));
                assert(scores@ =~= base + scores_below(pview, i + 1));
            }
            i = i + 1;
        }
        proof {
            assert(scores_below(pview, paths@.len() as int) == scores_below(
                offres,
                offres.len() as int,
            ));
            assert(scores@ =~= driver_scores(seq@, min_score, minm, k + 1));
        }
        k = k + 1;
    }
    (cands, scores)
}

} // verus!
