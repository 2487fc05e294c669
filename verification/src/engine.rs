//! The self-alignment engine: local alignment with affine gaps in linear
//! space, three rolling tracks (diagonal score, gap-row score, gap-col score)
//! computed column by column. Every cell reports its decision to the tracer
//! and the storage, in that order, followed by an end-of-column signal.

use vstd::prelude::*;

use crate::alignment::consumed1;
use crate::alignment::consumed2;
use crate::alignment::disambiguate;
use crate::alignment::expand;
use crate::alignment::Alignment;
use crate::scoring::EquivType;
use crate::scoring::ScoringScheme;
use crate::storage::column_end_spec;
use crate::storage::prepared_spec;
use crate::storage::step_spec;
use crate::storage::drain_spec;
use crate::storage::lemma_drain_filtered;
use crate::storage::lemma_colend_filtered;
use crate::storage::lemma_step_filtered;
use crate::storage::results_filtered;
use crate::storage::AllOptimal;
use crate::storage::Path;
use crate::storage::StoreModel;
use crate::traceback::Trace;
use crate::traceback::TraceMatrix;

verus! {

/// Score bound every scorer used with the engine must respect.
pub open spec fn bounded_scheme<SF: ScoringScheme>(sf: SF, b: int) -> bool {
    &&& forall|p1: int, a: u8, p2: int, c: u8|
        sf.symbol_ok(a) && sf.symbol_ok(c) ==> -b <= #[trigger] sf.score_spec(p1, a, p2, c) <= b
    &&& forall|p: int| -b <= #[trigger] sf.seq1_gap_open_spec(p) <= b
    &&& forall|p: int| -b <= #[trigger] sf.seq1_gap_extend_spec(p) <= b
    &&& forall|p: int| -b <= #[trigger] sf.seq2_gap_open_spec(p) <= b
    &&& forall|p: int| -b <= #[trigger] sf.seq2_gap_extend_spec(p) <= b
}

/// Best score of a gap-in-the-first-sequence track ending at (r, c): the gap
/// either extends or opens below the diagonal track of the cell above.
pub open spec fn dval<SF: ScoringScheme>(sf: SF, s1: Seq<u8>, s2: Seq<u8>, r: int, c: int) -> int
    decreases r + c, 0int,
{
    if r <= 0 || c < 0 {
        0
    } else {
        let opened = cval(sf, s1, s2, r - 1, c) + sf.seq1_gap_open_spec(r - 1);
        let extended = dval(sf, s1, s2, r - 1, c);
        (if extended >= opened {
            extended
        } else {
            opened
        }) + sf.seq1_gap_extend_spec(r)
    }
}

/// Best score of a gap-in-the-second-sequence track ending at (r, c).
pub open spec fn ival<SF: ScoringScheme>(sf: SF, s1: Seq<u8>, s2: Seq<u8>, r: int, c: int) -> int
    decreases r + c, 0int,
{
    if c <= 0 || r <= 0 {
        0
    } else {
        let opened = cval(sf, s1, s2, r, c - 1) + sf.seq2_gap_open_spec(r);
        let extended = ival(sf, s1, s2, r, c - 1);
        (if extended >= opened {
            extended
        } else {
            opened
        }) + sf.seq2_gap_extend_spec(c)
    }
}

/// The equivalence (diagonal) candidate at (r, c): the pair score plus the
/// diagonal predecessor, which is zero on the first row and column.
pub open spec fn eval<SF: ScoringScheme>(sf: SF, s1: Seq<u8>, s2: Seq<u8>, r: int, c: int) -> int
    decreases r + c, 1int,
{
    sf.score_spec(r, s1[r], c, s2[c]) + (if r >= 1 && c >= 1 {
        cval(sf, s1, s2, r - 1, c - 1)
    } else {
        0
    })
}

/// Best local score at cell (r, c): zero on a restart, else the winning
/// candidate. Ties prefer the gap-row track, then the gap-col track, then
/// the diagonal: the diagonal is taken only when strictly best.
pub open spec fn cval<SF: ScoringScheme>(sf: SF, s1: Seq<u8>, s2: Seq<u8>, r: int, c: int) -> int
    decreases r + c, 2int,
{
    if r < 0 || c < 0 || r >= s1.len() || c >= s2.len() {
        0
    } else {
        let e = eval(sf, s1, s2, r, c);
        if r == 0 || c == 0 {
            if e > 0 {
                e
            } else {
                0
            }
        } else {
            let d = dval(sf, s1, s2, r, c);
            let i = ival(sf, s1, s2, r, c);
            if e > d && e > i && e > 0 {
                e
            } else if i > d && i > 0 {
                i
            } else if d > 0 {
                d
            } else {
                0
            }
        }
    }
}

/// The decision recorded at cell (r, c): which candidate won, with the
/// diagonal decision classified against the symbols under it.
pub open spec fn decision<SF: ScoringScheme>(
    sf: SF,
    s1: Seq<u8>,
    s2: Seq<u8>,
    r: int,
    c: int,
) -> Trace {
    if r < 0 || c < 0 || r >= s1.len() || c >= s2.len() {
        Trace::Restart
    } else {
        let e = eval(sf, s1, s2, r, c);
        let classified = trace_of_class(sf.classify_spec(s1[r], s2[c]));
        if r == 0 || c == 0 {
            if e > 0 {
                classified
            } else {
                Trace::Restart
            }
        } else {
            let d = dval(sf, s1, s2, r, c);
            let i = ival(sf, s1, s2, r, c);
            if e > d && e > i && e > 0 {
                classified
            } else if i > d && i > 0 {
                Trace::GapCol
            } else if d > 0 {
                Trace::GapRow
            } else {
                Trace::Restart
            }
        }
    }
}

/// The trace a classification records.
pub open spec fn trace_of_class(e: EquivType) -> Trace {
    match e {
        EquivType::Match => Trace::Match,
        EquivType::Mismatch => Trace::Mismatch,
        EquivType::Equivalent => Trace::Equivalent,
    }
}

/// The local score is never negative, and is zero exactly when the cell
/// records no decision: no candidate alignment ends there.
pub proof fn lemma_local_score_nonneg<SF: ScoringScheme>(
    sf: SF,
    s1: Seq<u8>,
    s2: Seq<u8>,
    r: int,
    c: int,
)
    ensures
        cval(sf, s1, s2, r, c) >= 0,
        cval(sf, s1, s2, r, c) == 0 <==> decision(sf, s1, s2, r, c) == Trace::Restart,
{
}

/// The score budget at one cell: how large any track can have grown.
pub open spec fn track_budget(r: int, c: int, b: int) -> int {
    (2 * (r + c) + 4) * b
}

/// All three tracks stay within a budget proportional to the position.
pub proof fn lemma_track_bounds<SF: ScoringScheme>(
    sf: SF,
    s1: Seq<u8>,
    s2: Seq<u8>,
    r: int,
    c: int,
    b: int,
)
    requires
        bounded_scheme(sf, b),
        b >= 0,
        r >= -1,
        c >= -1,
        forall|i: int| 0 <= i < s1.len() ==> sf.symbol_ok(#[trigger] s1[i]),
        forall|i: int| 0 <= i < s2.len() ==> sf.symbol_ok(#[trigger] s2[i]),
    ensures
        -track_budget(r, c, b) <= dval(sf, s1, s2, r, c) <= track_budget(r, c, b),
        -track_budget(r, c, b) <= ival(sf, s1, s2, r, c) <= track_budget(r, c, b),
        0 <= cval(sf, s1, s2, r, c) <= track_budget(r, c, b),
        (0 <= r < s1.len() && 0 <= c < s2.len()) ==> -track_budget(r, c, b) <= eval(
            sf,
            s1,
            s2,
            r,
            c,
        ) <= track_budget(r, c, b),
    decreases r + c + 2,
{
    let m = track_budget(r, c, b);
    assert(m >= 0) by (nonlinear_arith)
        requires
            b >= 0,
            r + c >= -2,
            m == (2 * (r + c) + 4) * b,
    ;
    lemma_local_score_nonneg(sf, s1, s2, r, c);
    if r < 0 || c < 0 {
        assert(dval(sf, s1, s2, r, c) == 0);
        assert(ival(sf, s1, s2, r, c) == 0);
        assert(cval(sf, s1, s2, r, c) == 0);
    } else {
        if r + c > 0 {
            lemma_track_bounds(sf, s1, s2, r - 1, c, b);
            lemma_track_bounds(sf, s1, s2, r, c - 1, b);
            lemma_track_bounds(sf, s1, s2, r - 1, c - 1, b);
        }
        assert(track_budget(r - 1, c, b) + 2 * b == m && track_budget(r, c - 1, b) + 2 * b == m
            && track_budget(r - 1, c - 1, b) + b <= m && b <= m && 2 * b <= m && 4 * b <= m && 0
            <= track_budget(r - 1, c, b) && 0 <= track_budget(r, c - 1, b) && 0 <= track_budget(
            r - 1,
            c - 1,
            b,
        )) by (nonlinear_arith)
            requires
                b >= 0,
                r >= 0,
                c >= 0,
                m == (2 * (r + c) + 4) * b,
                track_budget(r - 1, c, b) == (2 * ((r - 1) + c) + 4) * b,
                track_budget(r, c - 1, b) == (2 * (r + (c - 1)) + 4) * b,
                track_budget(r - 1, c - 1, b) == (2 * ((r - 1) + (c - 1)) + 4) * b,
        ;
        if r >= 1 {
            let mp = track_budget(r - 1, c, b);
            assert(0 <= cval(sf, s1, s2, r - 1, c) <= mp);
            assert(-mp <= dval(sf, s1, s2, r - 1, c) <= mp);
            assert(dval(sf, s1, s2, r, c) <= mp + 2 * b);
            assert(dval(sf, s1, s2, r, c) >= -(2 * b));
            assert(dval(sf, s1, s2, r, c) <= m);
            assert(-m <= dval(sf, s1, s2, r, c));
        } else {
            assert(dval(sf, s1, s2, r, c) == 0);
        }
        if c >= 1 && r >= 1 {
            let mq = track_budget(r, c - 1, b);
            assert(0 <= cval(sf, s1, s2, r, c - 1) <= mq);
            assert(-mq <= ival(sf, s1, s2, r, c - 1) <= mq);
            assert(ival(sf, s1, s2, r, c) <= mq + 2 * b);
            assert(ival(sf, s1, s2, r, c) >= -(2 * b));
            assert(-m <= ival(sf, s1, s2, r, c) <= m);
        } else {
            assert(ival(sf, s1, s2, r, c) == 0);
        }
        if 0 <= r < s1.len() && 0 <= c < s2.len() {
            assert(-b <= sf.score_spec(r, s1[r], c, s2[c]) <= b);
        }
    }
}

/// The storage state after the first `upto` cells of column `c` reported.
pub open spec fn scan_col<SF: ScoringScheme>(
    sf: SF,
    s1: Seq<u8>,
    s2: Seq<u8>,
    m: StoreModel,
    c: int,
    upto: int,
    minsc: i64,
    minm: int,
) -> StoreModel
    decreases upto,
{
    if upto <= 0 {
        m
    } else {
        step_spec(
            scan_col(sf, s1, s2, m, c, upto - 1, minsc, minm),
            upto - 1,
            c,
            cval(sf, s1, s2, upto - 1, c) as i64,
            decision(sf, s1, s2, upto - 1, c),
            minsc,
            minm,
        )
    }
}

/// The storage state after the first `cols` whole columns reported.
pub open spec fn scan_upto<SF: ScoringScheme>(
    sf: SF,
    s1: Seq<u8>,
    s2: Seq<u8>,
    cols: int,
    minsc: i64,
    minm: int,
) -> StoreModel
    decreases cols,
{
    if cols <= 0 {
        prepared_spec(s1.len() as int)
    } else {
        column_end_spec(
            scan_col(
                sf,
                s1,
                s2,
                scan_upto(sf, s1, s2, cols - 1, minsc, minm),
                cols - 1,
                s1.len() as int,
                minsc,
                minm,
            ),
            minsc,
            minm,
        )
    }
}

/// The storage state after the whole scan.
pub open spec fn scan_spec<SF: ScoringScheme>(
    sf: SF,
    s1: Seq<u8>,
    s2: Seq<u8>,
    minsc: i64,
    minm: int,
) -> StoreModel {
    scan_upto(sf, s1, s2, s2.len() as int, minsc, minm)
}

/// Every tracked path's counters stay at or under the budget.
pub open spec fn counters_ok(m: StoreModel, b: int) -> bool {
    &&& match m.diagonal {
        Option::Some(d) => d.matches + d.potential_matches <= b,
        Option::None => true,
    }
    &&& forall|i: int|
        0 <= i < m.cache.len() ==> match #[trigger] m.cache[i] {
            Option::Some(p) => p.matches + p.potential_matches <= b,
            Option::None => true,
        }
}

/// One step raises the counter budget by at most one and keeps the shape.
proof fn lemma_step_shape(
    m: StoreModel,
    row: int,
    col: int,
    ns: i64,
    op: Trace,
    minsc: i64,
    minm: int,
    b: int,
)
    requires
        counters_ok(m, b),
        b >= 1,
        0 <= row < m.cache.len(),
    ensures
        counters_ok(step_spec(m, row, col, ns, op, minsc, minm), b + 1),
        step_spec(m, row, col, ns, op, minsc, minm).cache.len() == m.cache.len(),
        step_spec(m, row, col, ns, op, minsc, minm).results.len() == m.results.len(),
{
    let m2 = step_spec(m, row, col, ns, op, minsc, minm);
    assert forall|i: int|
        0 <= i < m2.cache.len() implies match #[trigger] m2.cache[i] {
        Option::Some(p) => p.matches + p.potential_matches <= b + 1,
        Option::None => true,
    } by {
        assert(m2.cache[i] == m.cache[i] || m2.cache[i] == m2.cache[row]);
    }
}

/// Ending a column keeps the counters and the shape.
proof fn lemma_colend_shape(m: StoreModel, minsc: i64, minm: int, b: int)
    requires
        counters_ok(m, b),
    ensures
        counters_ok(column_end_spec(m, minsc, minm), b),
        column_end_spec(m, minsc, minm).cache.len() == m.cache.len(),
        column_end_spec(m, minsc, minm).results.len() == m.results.len(),
{
}

/// The linear-space scan: three rolling tracks, computed column by column.
/// Scratch buffers grow as needed and are reused across calls.
pub struct FullScan {
    scores: Vec<i64>,
    gapcol: Vec<i64>,
    gaprow: i64,
    diagonal: i64,
}

impl FullScan {
    /// The scratch state: both rolling buffers and the two running scalars.
    pub closed spec fn scratch(self) -> (Seq<i64>, Seq<i64>, i64, i64) {
        (self.scores@, self.gapcol@, self.gaprow, self.diagonal)
    }

    /// A scan with scratch buffers sized for `capacity` rows.
    pub fn new(capacity: usize) -> (r: FullScan)
        ensures
            r.scratch().0 == Seq::<i64>::empty(),
            r.scratch().1 == Seq::<i64>::empty(),
    {
        FullScan {
            scores: Vec::with_capacity(capacity),
            gapcol: Vec::with_capacity(capacity),
            gaprow: 0,
            diagonal: 0,
        }
    }

    /// Grows the scratch buffers to hold `capacity` rows; their contents are
    /// untouched.
    pub fn reserve(&mut self, capacity: usize)
        ensures
            final(self).scratch() == old(self).scratch(),
    {
        self.scores.reserve(capacity);
        self.gapcol.reserve(capacity);
    }
}

/// Records one cell's decision with the tracer and then the storage, in that
/// order.
fn record_cell(
    tracer: &mut TraceMatrix,
    storage: &mut AllOptimal,
    row: usize,
    col: usize,
    val: i64,
    dec: Trace,
    Ghost(b): Ghost<int>,
)
    requires
        old(tracer).wf(),
        row + 1 < old(tracer).rows_spec(),
        col + 1 < old(tracer).cols_spec(),
        old(storage).wf(),
        row < old(storage).model().cache.len(),
        counters_ok(old(storage).model(), b),
        1 <= b,
        b + 1 <= usize::MAX,
    ensures
        final(tracer).wf(),
        final(tracer).rows_spec() == old(tracer).rows_spec(),
        final(tracer).cols_spec() == old(tracer).cols_spec(),
        final(tracer).cell(row + 1, col + 1) == dec,
        forall|r: int, c: int|
            0 <= r < old(tracer).rows_spec() && 0 <= c < old(tracer).cols_spec() && !(r == row + 1
                && c == col + 1) ==> #[trigger] final(tracer).cell(r, c) == old(tracer).cell(r, c),
        final(storage).model() == step_spec(
            old(storage).model(),
            row as int,
            col as int,
            val,
            dec,
            old(storage).minscore_spec(),
            old(storage).minmatches_spec(),
        ),
        final(storage).minscore_spec() == old(storage).minscore_spec(),
        final(storage).minmatches_spec() == old(storage).minmatches_spec(),
        final(storage).wf(),
        counters_ok(final(storage).model(), b + 1),
        final(storage).model().cache.len() == old(storage).model().cache.len(),
{
    proof {
        lemma_step_shape(
            storage.model(),
            row as int,
            col as int,
            val,
            dec,
            storage.minscore_spec(),
            storage.minmatches_spec(),
            b,
        );
    }
    match dec {
        Trace::Restart => tracer.restart(row, col),
        Trace::GapRow => tracer.gap_row(row, col),
        Trace::GapCol => tracer.gap_col(row, col),
        Trace::Equivalent => tracer.equivalent(row, col),
        Trace::Match => tracer.matched(row, col),
        Trace::Mismatch => tracer.mismatched(row, col),
    }
    storage.step(row, col, val, dec);
}

impl FullScan {
    /// Runs the whole scan: for every column, every cell computes its three
    /// candidates, reports its decision to the tracer and the storage, and an
    /// end-of-column signal follows. The tracer ends up holding exactly the
    /// recurrence decisions and the storage the folded step sequence.
    #[verifier::rlimit(100)]
    #[verifier::spinoff_prover]
    pub fn align<SF: ScoringScheme>(
        &mut self,
        seq1: &Vec<u8>,
        seq2: &Vec<u8>,
        scorer: &SF,
        tracer: &mut TraceMatrix,
        storage: &mut AllOptimal,
    )
        requires
            1 <= seq1@.len() <= 30_000,
            1 <= seq2@.len() <= 30_000,
            forall|i: int| 0 <= i < seq1@.len() ==> scorer.symbol_ok(#[trigger] seq1@[i]),
            forall|i: int| 0 <= i < seq2@.len() ==> scorer.symbol_ok(#[trigger] seq2@[i]),
            bounded_scheme(*scorer, 1_000_000_000),
            old(tracer).wf(),
            old(tracer).rows_spec() == seq1@.len() + 1,
            old(tracer).cols_spec() == seq2@.len() + 1,
            forall|r: int, c: int|
                0 <= r < old(tracer).rows_spec() && 0 <= c < old(tracer).cols_spec()
                    ==> #[trigger] old(tracer).cell(r, c) == Trace::Restart,
            old(storage).wf(),
            old(storage).model() == prepared_spec(seq1@.len() as int),
        ensures
            final(tracer).wf(),
            final(tracer).rows_spec() == seq1@.len() + 1,
            final(tracer).cols_spec() == seq2@.len() + 1,
            forall|r: int, c: int|
                0 <= r < seq1@.len() && 0 <= c < seq2@.len() ==> #[trigger] final(tracer).cell(
                    r + 1,
                    c + 1,
                ) == decision(*scorer, seq1@, seq2@, r, c),
            final(storage).model() == scan_spec(
                *scorer,
                seq1@,
                seq2@,
                old(storage).minscore_spec(),
                old(storage).minmatches_spec(),
            ),
            final(storage).minscore_spec() == old(storage).minscore_spec(),
            final(storage).minmatches_spec() == old(storage).minmatches_spec(),
            final(storage).wf(),
    {
        let ghost s1 = seq1@;
        let ghost s2 = seq2@;
        let ghost sf = *scorer;
        let ghost minsc = storage.minscore_spec();
        let ghost minm = storage.minmatches_spec();
        let rows = seq1.len();
        let cols = seq2.len();

        self.scores.clear();
        self.gapcol.clear();
        self.gaprow = 0;
        self.diagonal = 0;

        // First column: only the diagonal candidate competes.
        let mut row: usize = 0;
        let ghost mut bnd: int = 1;
        while row < rows
            invariant
                row <= rows,
                rows == s1.len(),
                cols == s2.len(),
                1 <= s1.len() <= 30_000,
                1 <= s2.len() <= 30_000,
                s1 == seq1@,
                s2 == seq2@,
                sf == *scorer,
                forall|i: int| 0 <= i < s1.len() ==> sf.symbol_ok(#[trigger] s1[i]),
                forall|i: int| 0 <= i < s2.len() ==> sf.symbol_ok(#[trigger] s2[i]),
                bounded_scheme(sf, 1_000_000_000),
                self.scores@.len() == row,
                self.gapcol@.len() == row,
                forall|k: int| 0 <= k < row ==> #[trigger] self.scores@[k] == cval(sf, s1, s2, k, 0),
                forall|k: int| 0 <= k < row ==> #[trigger] self.gapcol@[k] == 0,
                tracer.wf(),
                tracer.rows_spec() == s1.len() + 1,
                tracer.cols_spec() == s2.len() + 1,
                forall|r: int, c: int|
                    0 <= r < s1.len() && 0 <= c < s2.len() && (c > 0 || r >= row)
                        ==> #[trigger] tracer.cell(r + 1, c + 1) == Trace::Restart,
                forall|r: int| 0 <= r < row ==> #[trigger] tracer.cell(r + 1, 1) == decision(
                    sf, s1, s2, r, 0),
                storage.wf(),
                storage.model() == scan_col(
                    sf, s1, s2, prepared_spec(s1.len() as int), 0, row as int, minsc, minm),
                storage.minscore_spec() == minsc,
                storage.minmatches_spec() == minm,
                storage.model().cache.len() == s1.len(),
                counters_ok(storage.model(), bnd),
                1 <= bnd <= 1 + row,
            decreases rows - row,
        {
            let e = scorer.score(row, seq1[row], 0, seq2[0]);
            proof {
                assert(eval(sf, s1, s2, row as int, 0) == e);
            }
            let val: i64;
            let dec: Trace;
            if e > 0 {
                let cls = scorer.classify(seq1[row], seq2[0]);
                dec = match cls {
                    EquivType::Match => Trace::Match,
                    EquivType::Mismatch => Trace::Mismatch,
                    EquivType::Equivalent => Trace::Equivalent,
                };
                val = e;
            } else {
                dec = Trace::Restart;
                val = 0;
            }
            proof {
                assert(val == cval(sf, s1, s2, row as int, 0));
                assert(cval(sf, s1, s2, row as int, 0) as i64 == val);
                assert(dec == decision(sf, s1, s2, row as int, 0));
            }
            record_cell(tracer, storage, row, 0, val, dec, Ghost(bnd));
            proof {
                bnd = bnd + 1;
            }
            self.scores.push(val);
            self.gapcol.push(0);
            row = row + 1;
        }
        storage.on_column_end();
        proof {
            assert(scan_upto(sf, s1, s2, 0, minsc, minm) == prepared_spec(s1.len() as int));
            lemma_colend_shape(
                scan_col(sf, s1, s2, prepared_spec(s1.len() as int), 0, rows as int, minsc, minm),
                minsc,
                minm,
                bnd,
            );
            assert(storage.model() == scan_upto(sf, s1, s2, 1, minsc, minm));
        }

        // Remaining columns.
        let mut col: usize = 1;
        while col < cols
            invariant
                1 <= col <= cols,
                rows == s1.len(),
                cols == s2.len(),
                1 <= s1.len() <= 30_000,
                1 <= s2.len() <= 30_000,
                s1 == seq1@,
                s2 == seq2@,
                sf == *scorer,
                forall|i: int| 0 <= i < s1.len() ==> sf.symbol_ok(#[trigger] s1[i]),
                forall|i: int| 0 <= i < s2.len() ==> sf.symbol_ok(#[trigger] s2[i]),
                bounded_scheme(sf, 1_000_000_000),
                self.scores@.len() == rows,
                self.gapcol@.len() == rows,
                forall|k: int|
                    0 <= k < rows ==> #[trigger] self.scores@[k] == cval(sf, s1, s2, k, col - 1),
                forall|k: int|
                    0 <= k < rows ==> #[trigger] self.gapcol@[k] == ival(sf, s1, s2, k, col - 1),
                tracer.wf(),
                tracer.rows_spec() == s1.len() + 1,
                tracer.cols_spec() == s2.len() + 1,
                forall|r: int, c: int|
                    0 <= r < s1.len() && 0 <= c < s2.len() && c >= col
                        ==> #[trigger] tracer.cell(r + 1, c + 1) == Trace::Restart,
                forall|r: int, c: int|
                    0 <= r < s1.len() && 0 <= c < col ==> #[trigger] tracer.cell(r + 1, c + 1)
                        == decision(sf, s1, s2, r, c),
                storage.wf(),
                storage.model() == scan_upto(sf, s1, s2, col as int, minsc, minm),
                storage.minscore_spec() == minsc,
                storage.minmatches_spec() == minm,
                storage.model().cache.len() == s1.len(),
                counters_ok(storage.model(), bnd),
                1 <= bnd <= 1 + (col as int) * (rows as int),
            decreases cols - col,
        {
            let ghost m_colstart = storage.model();
            self.gaprow = 0;

            // Row zero of this column: only the diagonal candidate competes.
            let e0 = scorer.score(0, seq1[0], col, seq2[col]);
            proof {
                assert(eval(sf, s1, s2, 0, col as int) == e0);
            }
            let val0: i64;
            let dec0: Trace;
            if e0 > 0 {
                let cls = scorer.classify(seq1[0], seq2[col]);
                dec0 = match cls {
                    EquivType::Match => Trace::Match,
                    EquivType::Mismatch => Trace::Mismatch,
                    EquivType::Equivalent => Trace::Equivalent,
                };
                val0 = e0;
            } else {
                dec0 = Trace::Restart;
                val0 = 0;
            }
            proof {
                assert(val0 == cval(sf, s1, s2, 0, col as int));
                assert(dec0 == decision(sf, s1, s2, 0, col as int));
                assert((col as int) * (rows as int) + rows as int + 2 <= 1_000_000_000)
                    by (nonlinear_arith)
                    requires
                        0 <= col as int <= 30_000,
                        0 <= rows as int <= 30_000,
                ;
            }
            record_cell(tracer, storage, 0, col, val0, dec0, Ghost(bnd));
            proof {
                bnd = bnd + 1;
                assert(scan_col(sf, s1, s2, m_colstart, col as int, 0, minsc, minm)
                    == m_colstart);
            }
            self.diagonal = self.scores[0];
            self.scores.set(0, val0);

            let mut row2: usize = 1;
            while row2 < rows
                invariant
                    1 <= row2 <= rows,
                    1 <= col < cols,
                    rows == s1.len(),
                    cols == s2.len(),
                    1 <= s1.len() <= 30_000,
                    1 <= s2.len() <= 30_000,
                    s1 == seq1@,
                    s2 == seq2@,
                    sf == *scorer,
                    forall|i: int| 0 <= i < s1.len() ==> sf.symbol_ok(#[trigger] s1[i]),
                    forall|i: int| 0 <= i < s2.len() ==> sf.symbol_ok(#[trigger] s2[i]),
                    bounded_scheme(sf, 1_000_000_000),
                    self.scores@.len() == rows,
                    self.gapcol@.len() == rows,
                    forall|k: int|
                        0 <= k < row2 ==> #[trigger] self.scores@[k] == cval(sf, s1, s2, k,
                        col as int),
                    forall|k: int|
                        row2 <= k < rows ==> #[trigger] self.scores@[k] == cval(sf, s1, s2, k,
                        col - 1),
                    forall|k: int|
                        1 <= k < row2 ==> #[trigger] self.gapcol@[k] == ival(sf, s1, s2, k,
                        col as int),
                    forall|k: int|
                        (k == 0 || row2 <= k < rows) && 0 <= k < rows
                            ==> #[trigger] self.gapcol@[k] == ival(sf, s1, s2, k, col - 1),
                    self.gaprow == dval(sf, s1, s2, row2 - 1, col as int),
                    self.diagonal == cval(sf, s1, s2, row2 - 1, col - 1),
                    tracer.wf(),
                    tracer.rows_spec() == s1.len() + 1,
                    tracer.cols_spec() == s2.len() + 1,
                    forall|r: int, c: int|
                        0 <= r < s1.len() && 0 <= c < s2.len() && (c > col || (c == col && r
                            >= row2)) ==> #[trigger] tracer.cell(r + 1, c + 1) == Trace::Restart,
                    forall|r: int, c: int|
                        0 <= r < s1.len() && 0 <= c < s2.len() && (c < col || (c == col && r
                            < row2)) ==> #[trigger] tracer.cell(r + 1, c + 1) == decision(
                            sf, s1, s2, r, c),
                    storage.wf(),
                    m_colstart == scan_upto(sf, s1, s2, col as int, minsc, minm),
                    storage.model() == scan_col(sf, s1, s2, m_colstart, col as int, row2 as int,
                        minsc, minm),
                    storage.minscore_spec() == minsc,
                    storage.minmatches_spec() == minm,
                    storage.model().cache.len() == s1.len(),
                    counters_ok(storage.model(), bnd),
                    1 <= bnd <= 1 + (col as int) * (rows as int) + row2 as int,
                decreases rows - row2,
            {
                proof {
                    lemma_track_bounds(sf, s1, s2, row2 - 1, col as int, 1_000_000_000);
                    lemma_track_bounds(sf, s1, s2, row2 as int, col - 1, 1_000_000_000);
                    lemma_track_bounds(sf, s1, s2, row2 - 1, col - 1, 1_000_000_000);
                    assert(track_budget(row2 - 1, col as int, 1_000_000_000)
                        <= 4_000_004_000_000_000 && track_budget(row2 as int, col - 1,
                        1_000_000_000) <= 4_000_004_000_000_000 && track_budget(row2 - 1, col - 1,
                        1_000_000_000) <= 4_000_004_000_000_000) by (nonlinear_arith)
                        requires
                            1 <= row2 <= 30_000,
                            1 <= col <= 30_000,
                            track_budget(row2 - 1, col as int, 1_000_000_000) == (2 * ((row2 - 1)
                                + col as int) + 4) * 1_000_000_000,
                            track_budget(row2 as int, col - 1, 1_000_000_000) == (2 * (row2 as int
                                + (col - 1)) + 4) * 1_000_000_000,
                            track_budget(row2 - 1, col - 1, 1_000_000_000) == (2 * ((row2 - 1) + (
                            col - 1)) + 4) * 1_000_000_000,
                    ;
                }
                // Gap in the first sequence: extend or reopen below the cell above.
                let opened_d = self.scores[row2 - 1] + scorer.seq1_gap_open(row2 - 1);
                let extended_d = self.gaprow;
                self.gaprow = (if extended_d >= opened_d {
                    extended_d
                } else {
                    opened_d
                }) + scorer.seq1_gap_extend(row2);
                // Gap in the second sequence: extend or reopen right of the left cell.
                let opened_i = self.scores[row2] + scorer.seq2_gap_open(row2);
                let extended_i = self.gapcol[row2];
                let gc = (if extended_i >= opened_i {
                    extended_i
                } else {
                    opened_i
                }) + scorer.seq2_gap_extend(col);
                self.gapcol.set(row2, gc);
                // Diagonal candidate over the previous diagonal track.
                let e = scorer.score(row2, seq1[row2], col, seq2[col]) + self.diagonal;
                proof {
                    assert(dval(sf, s1, s2, row2 as int, col as int) == self.gaprow);
                    assert(ival(sf, s1, s2, row2 as int, col as int) == gc);
                    assert(eval(sf, s1, s2, row2 as int, col as int) == e);
                }
                let val: i64;
                let dec: Trace;
                if e > self.gaprow && e > gc && e > 0 {
                    let cls = scorer.classify(seq1[row2], seq2[col]);
                    dec = match cls {
                        EquivType::Match => Trace::Match,
                        EquivType::Mismatch => Trace::Mismatch,
                        EquivType::Equivalent => Trace::Equivalent,
                    };
                    val = e;
                } else if gc > self.gaprow && gc > 0 {
                    dec = Trace::GapCol;
                    val = gc;
                } else if self.gaprow > 0 {
                    dec = Trace::GapRow;
                    val = self.gaprow;
                } else {
                    dec = Trace::Restart;
                    val = 0;
                }
                proof {
                    assert(val == cval(sf, s1, s2, row2 as int, col as int));
                    assert(cval(sf, s1, s2, row2 as int, col as int) as i64 == val);
                    assert(dec == decision(sf, s1, s2, row2 as int, col as int));
                    assert((col as int) * (rows as int) + rows as int + 2 <= 1_000_000_000)
                        by (nonlinear_arith)
                        requires
                            0 <= col as int <= 30_000,
                            0 <= rows as int <= 30_000,
                    ;
                }
                record_cell(tracer, storage, row2, col, val, dec, Ghost(bnd));
                proof {
                    bnd = bnd + 1;
                }
                self.diagonal = self.scores[row2];
                self.scores.set(row2, val);
                row2 = row2 + 1;
            }
            storage.on_column_end();
            proof {
                lemma_colend_shape(
                    scan_col(sf, s1, s2, m_colstart, col as int, rows as int, minsc, minm),
                    minsc,
                    minm,
                    bnd,
                );
                assert(storage.model() == scan_upto(sf, s1, s2, col + 1, minsc, minm));
                assert(1 + (col as int) * (rows as int) + rows as int <= 1 + (col + 1) * (
                rows as int)) by (nonlinear_arith);
            }
            col = col + 1;
        }
    }
}

/// This very path was filed by the scan.
pub open spec fn path_filed(results: Seq<Seq<Path>>, p: Path) -> bool {
    exists|i: int, j: int|
        0 <= i < results.len() && 0 <= j < results[i].len() && (#[trigger] results[i][j]) == p
}

/// Some filed path carries this score.
pub open spec fn has_score(results: Seq<Seq<Path>>, s: i64) -> bool {
    exists|i: int, j: int|
        0 <= i < results.len() && 0 <= j < results[i].len() && (#[trigger] results[i][j]).score
            == s
}

/// No filed path scores above `s`.
pub open spec fn all_at_most(results: Seq<Seq<Path>>, s: i64) -> bool {
    forall|i: int, j: int|
        0 <= i < results.len() && 0 <= j < results[i].len() ==> (#[trigger] results[i][j]).score
            <= s
}

/// The scan filed no path at all.
pub open spec fn no_paths(results: Seq<Seq<Path>>) -> bool {
    forall|i: int| 0 <= i < results.len() ==> (#[trigger] results[i]).len() == 0
}

/// One step never changes how many rows the storage tracks.
proof fn lemma_step_len(m: StoreModel, row: int, col: int, ns: i64, op: Trace, minsc: i64, minm: int)
    requires
        0 <= row < m.cache.len(),
    ensures
        step_spec(m, row, col, ns, op, minsc, minm).cache.len() == m.cache.len(),
        step_spec(m, row, col, ns, op, minsc, minm).results.len() == m.results.len(),
{
}

/// The scan keeps the storage shape it started with.
proof fn lemma_scan_col_shape<SF: ScoringScheme>(
    sf: SF,
    s1: Seq<u8>,
    s2: Seq<u8>,
    m: StoreModel,
    c: int,
    upto: int,
    minsc: i64,
    minm: int,
)
    requires
        0 <= upto <= m.cache.len(),
    ensures
        scan_col(sf, s1, s2, m, c, upto, minsc, minm).cache.len() == m.cache.len(),
        scan_col(sf, s1, s2, m, c, upto, minsc, minm).results.len() == m.results.len(),
    decreases upto,
{
    if upto > 0 {
        lemma_scan_col_shape(sf, s1, s2, m, c, upto - 1, minsc, minm);
        lemma_step_len(
            scan_col(sf, s1, s2, m, c, upto - 1, minsc, minm),
            upto - 1,
            c,
            cval(sf, s1, s2, upto - 1, c) as i64,
            decision(sf, s1, s2, upto - 1, c),
            minsc,
            minm,
        );
    }
}

/// The whole scan tracks one row per symbol of the first sequence.
pub proof fn lemma_scan_shape<SF: ScoringScheme>(
    sf: SF,
    s1: Seq<u8>,
    s2: Seq<u8>,
    cols: int,
    minsc: i64,
    minm: int,
)
    requires
        cols >= 0,
    ensures
        scan_upto(sf, s1, s2, cols, minsc, minm).cache.len() == s1.len(),
        scan_upto(sf, s1, s2, cols, minsc, minm).results.len() == s1.len(),
    decreases cols,
{
    if cols > 0 {
        lemma_scan_shape(sf, s1, s2, cols - 1, minsc, minm);
        lemma_scan_col_shape(
            sf,
            s1,
            s2,
            scan_upto(sf, s1, s2, cols - 1, minsc, minm),
            cols - 1,
            s1.len() as int,
            minsc,
            minm,
        );
    }
}

/// Every column of steps keeps the threshold guarantee on filed results.
proof fn lemma_scan_col_filtered<SF: ScoringScheme>(
    sf: SF,
    s1: Seq<u8>,
    s2: Seq<u8>,
    m: StoreModel,
    c: int,
    upto: int,
    minsc: i64,
    minm: int,
)
    requires
        results_filtered(m.results, minsc, minm),
    ensures
        results_filtered(scan_col(sf, s1, s2, m, c, upto, minsc, minm).results, minsc, minm),
    decreases upto,
{
    if upto > 0 {
        lemma_scan_col_filtered(sf, s1, s2, m, c, upto - 1, minsc, minm);
        lemma_step_filtered(
            scan_col(sf, s1, s2, m, c, upto - 1, minsc, minm),
            upto - 1,
            c,
            cval(sf, s1, s2, upto - 1, c) as i64,
            decision(sf, s1, s2, upto - 1, c),
            minsc,
            minm,
        );
    }
}

/// Whatever the whole scan files cleared both thresholds.
pub proof fn lemma_scan_filtered<SF: ScoringScheme>(
    sf: SF,
    s1: Seq<u8>,
    s2: Seq<u8>,
    cols: int,
    minsc: i64,
    minm: int,
)
    requires
        cols >= 0,
    ensures
        results_filtered(scan_upto(sf, s1, s2, cols, minsc, minm).results, minsc, minm),
    decreases cols,
{
    if cols > 0 {
        lemma_scan_filtered(sf, s1, s2, cols - 1, minsc, minm);
        lemma_scan_col_filtered(
            sf,
            s1,
            s2,
            scan_upto(sf, s1, s2, cols - 1, minsc, minm),
            cols - 1,
            s1.len() as int,
            minsc,
            minm,
        );
        lemma_colend_filtered(
            scan_col(
                sf,
                s1,
                s2,
                scan_upto(sf, s1, s2, cols - 1, minsc, minm),
                cols - 1,
                s1.len() as int,
                minsc,
                minm,
            ),
            minsc,
            minm,
        );
    }
}

/// The decision is a diagonal one: a confirmed or tentative symbol pairing.
pub open spec fn is_diag_decision(t: Trace) -> bool {
    t == Trace::Match || t == Trace::Mismatch || t == Trace::Equivalent
}

/// A path ends at an in-range cell whose recorded decision is diagonal: the
/// cell where its score was last improved.
pub open spec fn path_end_ok<SF: ScoringScheme>(sf: SF, s1: Seq<u8>, s2: Seq<u8>, p: Path) -> bool {
    &&& p.end.0 < s1.len()
    &&& p.end.1 < s2.len()
    &&& is_diag_decision(decision(sf, s1, s2, p.end.0 as int, p.end.1 as int))
}

/// Every tracked or filed path ends well.
pub open spec fn ends_ok<SF: ScoringScheme>(sf: SF, s1: Seq<u8>, s2: Seq<u8>, m: StoreModel) -> bool {
    &&& match m.diagonal {
        Option::Some(p) => path_end_ok(sf, s1, s2, p),
        Option::None => true,
    }
    &&& forall|i: int|
        0 <= i < m.cache.len() ==> match #[trigger] m.cache[i] {
            Option::Some(p) => path_end_ok(sf, s1, s2, p),
            Option::None => true,
        }
    &&& forall|i: int, j: int|
        0 <= i < m.results.len() && 0 <= j < m.results[i].len() ==> path_end_ok(
            sf,
            s1,
            s2,
            #[trigger] m.results[i][j],
        )
}

/// Filing a well-ending path keeps every filed path well-ending.
proof fn lemma_save_ends<SF: ScoringScheme>(
    sf: SF,
    s1: Seq<u8>,
    s2: Seq<u8>,
    m: StoreModel,
    minsc: i64,
    minm: int,
    p: Path,
)
    requires
        ends_ok(sf, s1, s2, m),
        path_end_ok(sf, s1, s2, p),
    ensures
        ends_ok(sf, s1, s2, crate::storage::save_spec(m, minsc, minm, p)),
{
    let out = crate::storage::save_spec(m, minsc, minm, p).results;
    assert forall|i: int, j: int|
        0 <= i < out.len() && 0 <= j < out[i].len() implies path_end_ok(
        sf,
        s1,
        s2,
        #[trigger] out[i][j],
    ) by {
        if p.score < minsc || p.matches < minm || p.start.0 >= m.results.len() {
            assert(out[i][j] == m.results[i][j]);
        } else {
            let row = p.start.0 as int;
            match crate::storage::find_same_start(m.results[row], p.start) {
                Option::Some(j0) => {
                    crate::storage::lemma_find_range(m.results[row], p.start);
                    assert(out[i][j] == p || out[i][j] == m.results[i][j]);
                },
                Option::None => {
                    assert(out[i][j] == p || out[i][j] == m.results[i][j]);
                },
            }
        }
    }
}

/// Closing the pending diagonal keeps every path well-ending.
proof fn lemma_close_ends<SF: ScoringScheme>(
    sf: SF,
    s1: Seq<u8>,
    s2: Seq<u8>,
    m: StoreModel,
    minsc: i64,
    minm: int,
)
    requires
        ends_ok(sf, s1, s2, m),
    ensures
        ends_ok(sf, s1, s2, crate::storage::close_diag_spec(m, minsc, minm)),
{
    match m.diagonal {
        Option::Some(d) => {
            if m.savediag {
                lemma_save_ends(sf, s1, s2, m, minsc, minm, d);
            }
        },
        Option::None => {},
    }
}

/// One in-range step whose decision is the recurrence's keeps every path
/// well-ending: new or extended paths move their end only onto a diagonal
/// decision.
proof fn lemma_step_ends<SF: ScoringScheme>(
    sf: SF,
    s1: Seq<u8>,
    s2: Seq<u8>,
    m: StoreModel,
    row: int,
    col: int,
    minsc: i64,
    minm: int,
)
    requires
        ends_ok(sf, s1, s2, m),
        0 <= row < s1.len(),
        0 <= col < s2.len(),
        row < m.cache.len(),
        s1.len() <= usize::MAX,
        s2.len() <= usize::MAX,
    ensures
        ends_ok(
            sf,
            s1,
            s2,
            step_spec(
                m,
                row,
                col,
                cval(sf, s1, s2, row, col) as i64,
                decision(sf, s1, s2, row, col),
                minsc,
                minm,
            ),
        ),
{
    let op = decision(sf, s1, s2, row, col);
    let m2 = step_spec(m, row, col, cval(sf, s1, s2, row, col) as i64, op, minsc, minm);
    lemma_close_ends(sf, s1, s2, m, minsc, minm);
    assert forall|i: int|
        0 <= i < m2.cache.len() implies match #[trigger] m2.cache[i] {
        Option::Some(p) => path_end_ok(sf, s1, s2, p),
        Option::None => true,
    } by {
        if op == Trace::Restart {
            if i == row {
                assert(m2.cache[i] is None);
            } else {
                assert(m2.cache[i] == m.cache[i]);
            }
        } else if op == Trace::GapRow {
            if i == row {
                if row >= 1 {
                    assert(m2.cache[i] == m.cache[row - 1]);
                } else {
                    assert(m2.cache[i] is None);
                }
            } else {
                assert(m2.cache[i] == m.cache[i]);
            }
        } else if op == Trace::GapCol {
            assert(m2.cache[i] == m.cache[i]);
        } else {
            assert(is_diag_decision(op));
            if i == row {
                match m.diagonal {
                    Option::Some(d) => {
                        assert(path_end_ok(sf, s1, s2, d));
                        assert(m2.cache[i] == Option::Some(
                            crate::storage::path_extend_spec(
                                d,
                                row,
                                col,
                                cval(sf, s1, s2, row, col) as i64,
                                op,
                            ),
                        ));
                    },
                    Option::None => {
                        assert(m2.cache[i] == Option::Some(
                            crate::storage::path_new_spec(
                                ((row as usize), (col as usize)),
                                cval(sf, s1, s2, row, col) as i64,
                            ),
                        ));
                    },
                }
            } else {
                assert(m2.cache[i] == m.cache[i]);
            }
        }
    }
}

/// A whole reported column keeps every path well-ending.
proof fn lemma_scan_col_ends<SF: ScoringScheme>(
    sf: SF,
    s1: Seq<u8>,
    s2: Seq<u8>,
    m: StoreModel,
    c: int,
    upto: int,
    minsc: i64,
    minm: int,
)
    requires
        ends_ok(sf, s1, s2, m),
        0 <= c < s2.len(),
        upto <= s1.len(),
        m.cache.len() == s1.len(),
        s1.len() <= usize::MAX,
        s2.len() <= usize::MAX,
    ensures
        ends_ok(sf, s1, s2, scan_col(sf, s1, s2, m, c, upto, minsc, minm)),
    decreases upto,
{
    if upto > 0 {
        lemma_scan_col_ends(sf, s1, s2, m, c, upto - 1, minsc, minm);
        lemma_scan_col_shape(sf, s1, s2, m, c, upto - 1, minsc, minm);
        lemma_step_ends(
            sf,
            s1,
            s2,
            scan_col(sf, s1, s2, m, c, upto - 1, minsc, minm),
            upto - 1,
            c,
            minsc,
            minm,
        );
    }
}

/// The whole scan files only well-ending paths.
pub proof fn lemma_scan_ends<SF: ScoringScheme>(
    sf: SF,
    s1: Seq<u8>,
    s2: Seq<u8>,
    cols: int,
    minsc: i64,
    minm: int,
)
    requires
        0 <= cols <= s2.len(),
        s1.len() <= usize::MAX,
        s2.len() <= usize::MAX,
    ensures
        ends_ok(sf, s1, s2, scan_upto(sf, s1, s2, cols, minsc, minm)),
    decreases cols,
{
    if cols <= 0 {
        assert(ends_ok(sf, s1, s2, prepared_spec(s1.len() as int)));
    } else {
        lemma_scan_ends(sf, s1, s2, cols - 1, minsc, minm);
        lemma_scan_shape(sf, s1, s2, cols - 1, minsc, minm);
        lemma_scan_col_ends(
            sf,
            s1,
            s2,
            scan_upto(sf, s1, s2, cols - 1, minsc, minm),
            cols - 1,
            s1.len() as int,
            minsc,
            minm,
        );
        let closed = scan_col(
            sf,
            s1,
            s2,
            scan_upto(sf, s1, s2, cols - 1, minsc, minm),
            cols - 1,
            s1.len() as int,
            minsc,
            minm,
        );
        lemma_close_ends(sf, s1, s2, closed, minsc, minm);
    }
}

/// Draining the open rows files only well-ending paths.
pub proof fn lemma_drain_ends<SF: ScoringScheme>(
    sf: SF,
    s1: Seq<u8>,
    s2: Seq<u8>,
    m: StoreModel,
    minsc: i64,
    minm: int,
    upto: int,
)
    requires
        ends_ok(sf, s1, s2, m),
        upto <= m.cache.len(),
    ensures
        ends_ok(sf, s1, s2, drain_spec(m, minsc, minm, upto)),
    decreases upto,
{
    if upto > 0 {
        lemma_drain_ends(sf, s1, s2, m, minsc, minm, upto - 1);
        match m.cache[upto - 1] {
            Option::Some(p) => {
                let before = drain_spec(m, minsc, minm, upto - 1);
                crate::storage::lemma_drain_frame(m, minsc, minm, upto - 1);
                lemma_save_ends(sf, s1, s2, before, minsc, minm, p);
            },
            Option::None => {},
        }
    }
}

/// Everything the storage filed at the end of a whole scan.
pub open spec fn scan_results<SF: ScoringScheme>(
    sf: SF,
    s1: Seq<u8>,
    s2: Seq<u8>,
    minsc: i64,
    minm: int,
) -> Seq<Seq<Path>> {
    drain_spec(scan_spec(sf, s1, s2, minsc, minm), minsc, minm, s1.len() as int).results
}

/// Ties the scan, the storage, the tracer and the post-pass together: runs
/// the scan, keeps the best-scoring filed path, and reconstructs and
/// re-classifies its alignment.
pub struct Engine<SF: ScoringScheme> {
    pub algo: FullScan,
    pub storage: AllOptimal,
    pub tracemat: TraceMatrix,
    pub scoring: SF,
}

impl<SF: ScoringScheme> Engine<SF> {
    /// Assembles an engine from its parts.
    pub fn new(storage: AllOptimal, tracemat: TraceMatrix, scoring: SF) -> (r: Engine<SF>)
        ensures
            r.scoring == scoring,
            r.storage == storage,
            r.tracemat == tracemat,
    {
        Engine { algo: FullScan::new(0), storage, tracemat, scoring }
    }

    /// Swaps in another scoring scheme.
    pub fn reconfigure(&mut self, scoring: SF)
        ensures
            final(self).scoring == scoring,
            final(self).storage == old(self).storage,
            final(self).tracemat == old(self).tracemat,
    {
        self.scoring = scoring;
    }

    /// Runs one full self-alignment scan and returns the best-scoring local
    /// alignment, with its ambiguous runs re-classified against the real
    /// sequences. Fails exactly on empty input or when nothing clears the
    /// thresholds; a filed path always ends on a recorded diagonal decision,
    /// so its traceback never fails.
    #[verifier::rlimit(100)]
    #[verifier::spinoff_prover]
    pub fn align(&mut self, seq1: &Vec<u8>, seq2: &Vec<u8>) -> (r: Result<Alignment, ()>)
        requires
            seq1@.len() <= 30_000,
            seq2@.len() <= 30_000,
            forall|i: int|
                0 <= i < seq1@.len() ==> old(self).scoring.symbol_ok(#[trigger] seq1@[i]),
            forall|i: int|
                0 <= i < seq2@.len() ==> old(self).scoring.symbol_ok(#[trigger] seq2@[i]),
            bounded_scheme(old(self).scoring, 1_000_000_000),
        ensures
            final(self).scoring == old(self).scoring,
            seq1@.len() == 0 || seq2@.len() == 0 ==> r is Err,
            r matches Ok(a) ==> {
                let results = scan_results(
                    old(self).scoring,
                    seq1@,
                    seq2@,
                    old(self).storage.minscore_spec(),
                    old(self).storage.minmatches_spec(),
                );
                has_score(results, a.score) && all_at_most(results, a.score) && a.score >= old(
                    self,
                ).storage.minscore_spec()
            },
            r matches Ok(a) ==> exists|p: Path|
                {
                    let walk = final(self).tracemat.walk_ops(p.end.0 + 1, p.end.1 + 1);
                    &&& #[trigger] path_filed(
                        scan_results(
                            old(self).scoring,
                            seq1@,
                            seq2@,
                            old(self).storage.minscore_spec(),
                            old(self).storage.minmatches_spec(),
                        ),
                        p,
                    )
                    &&& p.score == a.score
                    &&& expand(a.steps@) == crate::alignment::disamb(
                        &old(self).scoring,
                        walk,
                        seq1@,
                        a.seq1.start as int,
                        seq2@,
                        a.seq2.start as int,
                    )
                    &&& a.seq1.end == (if consumed1(walk) == 0 {
                        p.end.0 as int
                    } else {
                        p.end.0 + 1
                    })
                    &&& a.seq1.start == a.seq1.end - consumed1(walk)
                    &&& a.seq2.end == (if consumed2(walk) == 0 {
                        p.end.1 as int
                    } else {
                        p.end.1 + 1
                    })
                    &&& a.seq2.start == a.seq2.end - consumed2(walk)
                },
            r matches Ok(a) ==> crate::alignment::steps_coalesced(a.steps@),
            r is Err <==> seq1@.len() == 0 || seq2@.len() == 0 || no_paths(
                scan_results(
                    old(self).scoring,
                    seq1@,
                    seq2@,
                    old(self).storage.minscore_spec(),
                    old(self).storage.minmatches_spec(),
                ),
            ),
    {
        let ghost s1 = seq1@;
        let ghost s2 = seq2@;
        let ghost sf = self.scoring;
        let ghost minsc = self.storage.minscore_spec();
        let ghost minm = self.storage.minmatches_spec();
        let rows = seq1.len();
        let cols = seq2.len();
        if rows == 0 || cols == 0 {
            return Err(());
        }
        proof {
            assert((rows + 1) * (cols + 1) <= 1_000_000_000) by (nonlinear_arith)
                requires
                    rows as int <= 30_000,
                    cols as int <= 30_000,
            ;
        }
        self.storage.prepare(rows, cols);
        self.tracemat.reset(rows, cols);
        self.algo.align(seq1, seq2, &self.scoring, &mut self.tracemat, &mut self.storage);
        proof {
            lemma_scan_shape(sf, s1, s2, s2.len() as int, minsc, minm);
            lemma_scan_filtered(sf, s1, s2, s2.len() as int, minsc, minm);
            lemma_drain_filtered(scan_spec(sf, s1, s2, minsc, minm), minsc, minm, s1.len() as int);
            lemma_scan_ends(sf, s1, s2, s2.len() as int, minsc, minm);
            lemma_drain_ends(
                sf,
                s1,
                s2,
                scan_spec(sf, s1, s2, minsc, minm),
                minsc,
                minm,
                s1.len() as int,
            );
        }
        let results = self.storage.finalize();
        let ghost spec_results = scan_results(sf, s1, s2, minsc, minm);
        proof {
            assert(results@.map_values(|v: Vec<Path>| v@) == spec_results);
            assert(results@.len() == spec_results.len());
        }

        // The best filed path; scanning everything keeps the last maximum.
        let mut found = false;
        let mut best: Path = Path::new((0, 0), 0);
        let mut i: usize = 0;
        while i < results.len()
            invariant
                i <= results@.len(),
                results@.map_values(|v: Vec<Path>| v@) == spec_results,
                results@.len() == spec_results.len(),
                forall|i2: int, j2: int|
                    0 <= i2 < i && 0 <= j2 < spec_results[i2].len()
                        ==> (#[trigger] spec_results[i2][j2]).score <= best.score || !found,
                found ==> has_score(spec_results, best.score),
                found ==> path_filed(spec_results, best),
                found ==> forall|i2: int, j2: int|
                    0 <= i2 < i && 0 <= j2 < spec_results[i2].len()
                        ==> (#[trigger] spec_results[i2][j2]).score <= best.score,
                !found ==> forall|i2: int| 0 <= i2 < i ==> (#[trigger] spec_results[i2]).len()
                    == 0,
            decreases results@.len() - i,
        {
            proof {
                assert(results@[i as int]@ == spec_results[i as int]);
            }
            let mut j: usize = 0;
            let m = results[i].len();
            while j < m
                invariant
                    j <= m,
                    i < results@.len(),
                    m == spec_results[i as int].len(),
                    results@.map_values(|v: Vec<Path>| v@) == spec_results,
                    results@.len() == spec_results.len(),
                    results@[i as int]@ == spec_results[i as int],
                    found ==> has_score(spec_results, best.score),
                    found ==> path_filed(spec_results, best),
                    found ==> forall|i2: int, j2: int|
                        0 <= i2 < i && 0 <= j2 < spec_results[i2].len()
                            ==> (#[trigger] spec_results[i2][j2]).score <= best.score,
                    found ==> forall|j2: int|
                        0 <= j2 < j ==> (#[trigger] spec_results[i as int][j2]).score
                            <= best.score,
                    !found ==> forall|i2: int| 0 <= i2 < i ==> (#[trigger] spec_results[i2]).len()
                        == 0,
                    !found ==> j == 0,
                decreases m - j,
            {
                let cand = results[i][j];
                if !found || cand.score >= best.score {
                    found = true;
                    best = cand;
                    proof {
                        assert(spec_results[i as int][j as int] == best);
                        assert(spec_results[i as int][j as int].score == best.score);
                    }
                }
                j = j + 1;
            }
            i = i + 1;
        }
        if !found {
            return Err(());
        }

        proof {
            let (bi, bj) = choose|bi: int, bj: int|
                0 <= bi < spec_results.len() && 0 <= bj < spec_results[bi].len()
                    && spec_results[bi][bj] == best;
            assert(path_end_ok(sf, s1, s2, best));
        }
        let traced = self.tracemat.trace(best.end.0, best.end.1);
        match traced {
            Result::Err(_) => {
                // A filed path always ends at an in-range cell with a
                // recorded diagonal decision, so its traceback never fails.
                proof {
                    assert(false);
                }
                Err(())
            },
            Result::Ok(t) => {
                let ghost walk = self.tracemat.walk_ops(best.end.0 + 1, best.end.1 + 1);
                proof {
                    crate::alignment::lemma_consumed_bounds(walk);
                }
                let ops = disambiguate(
                    t.ops,
                    &self.scoring,
                    seq1,
                    t.seq1range.start,
                    seq2,
                    t.seq2range.start,
                );
                Ok(
                    Alignment {
                        score: best.score,
                        steps: ops,
                        seq1: t.seq1range,
                        seq2: t.seq2range,
                    },
                )
            },
        }
    }
}

} // verus!
