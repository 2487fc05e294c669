//! Full decision matrix for traceback: one decision per cell with a sentinel
//! border, and backward reconstruction of the alignment ending at any cell,
//! coalescing identical consecutive decisions into run-length steps.

use vstd::prelude::*;

use std::ops::Range;

use crate::alignment::adv1;
use crate::alignment::adv2;
use crate::alignment::consumed1;
use crate::alignment::consumed2;
use crate::alignment::expand;
use crate::alignment::lemma_consumed_append;
use crate::alignment::lemma_consumed_single;
use crate::alignment::lemma_expand_concat;
use crate::alignment::lemma_coalesced_empty;
use crate::alignment::lemma_expand_single;
use crate::alignment::lemma_prepend_coalesced_rev;
use crate::alignment::steps_coalesced_rev;
use crate::alignment::repeat_op;
use crate::alignment::AlignmentOp;
use crate::alignment::AlignmentStep;

verus! {

/// The decision recorded for one cell of the dynamic program.
#[derive(Copy, Clone, PartialEq, Eq, Structural, Debug, Hash)]
pub enum Trace {
    /// No decision: a local restart, or the sentinel border.
    Restart,
    /// Gap in the first sequence: came from the cell above.
    GapRow,
    /// Gap in the second sequence: came from the cell to the left.
    GapCol,
    /// Diagonal move over an ambiguous symbol pair.
    Equivalent,
    /// Diagonal move over a confirmed match.
    Match,
    /// Diagonal move over a confirmed mismatch.
    Mismatch,
}

/// The alignment operation a recorded decision stands for. Never applied to
/// `Restart`, which marks the absence of a decision.
pub open spec fn op_of_trace(t: Trace) -> AlignmentOp {
    match t {
        Trace::Restart => AlignmentOp::Match,
        Trace::GapRow => AlignmentOp::GapFirst,
        Trace::GapCol => AlignmentOp::GapSecond,
        Trace::Equivalent => AlignmentOp::Equivalent,
        Trace::Match => AlignmentOp::Match,
        Trace::Mismatch => AlignmentOp::Mismatch,
    }
}

/// A run of identical decisions gathered while walking backward.
pub struct RunningTrace {
    pub op: Trace,
    pub len: u8,
}

impl RunningTrace {
    /// Starts a run of length one.
    pub fn new(trace: Trace) -> (r: RunningTrace)
        ensures
            r.op == trace,
            r.len == 1,
    {
        RunningTrace { op: trace, len: 1 }
    }

    /// The run as an alignment step.
    pub fn to_alignment_op(self) -> (r: AlignmentStep)
        requires
            self.op != Trace::Restart,
            self.len >= 1,
        ensures
            r.op == op_of_trace(self.op),
            r.len == self.len,
    {
        match self.op {
            Trace::Restart => AlignmentStep { op: AlignmentOp::Match, len: self.len },
            Trace::GapRow => AlignmentStep { op: AlignmentOp::GapFirst, len: self.len },
            Trace::GapCol => AlignmentStep { op: AlignmentOp::GapSecond, len: self.len },
            Trace::Equivalent => AlignmentStep { op: AlignmentOp::Equivalent, len: self.len },
            Trace::Match => AlignmentStep { op: AlignmentOp::Match, len: self.len },
            Trace::Mismatch => AlignmentStep { op: AlignmentOp::Mismatch, len: self.len },
        }
    }
}

/// An alignment reconstructed from the trace matrix: run-length steps, oldest
/// first, and the exact ranges covered on both sequences.
pub struct TracedAlignment {
    pub ops: Vec<AlignmentStep>,
    pub seq1range: Range<usize>,
    pub seq2range: Range<usize>,
}

/// One decision per cell, sized (rows+1) x (cols+1) with a `Restart` sentinel
/// along the top row and left column.
pub struct TraceMatrix {
    mat: Vec<Trace>,
    rows: usize,
    cols: usize,
}

impl TraceMatrix {
    /// Number of matrix rows (the first is the sentinel border).
    pub closed spec fn rows_spec(self) -> int {
        self.rows as int
    }

    /// Number of matrix columns (the first is the sentinel border).
    pub closed spec fn cols_spec(self) -> int {
        self.cols as int
    }

    /// The decision stored at one cell.
    pub closed spec fn cell(self, r: int, c: int) -> Trace {
        self.mat@[r * self.cols_spec() + c]
    }

    /// Internal shape: a full matrix whose top row and left column hold the
    /// `Restart` sentinel.
    pub closed spec fn wf(self) -> bool {
        &&& self.mat@.len() == self.rows_spec() * self.cols_spec()
        &&& forall|r: int| 0 <= r < self.rows_spec() ==> #[trigger] self.cell(r, 0) == Trace::Restart
        &&& forall|c: int| 0 <= c < self.cols_spec() ==> #[trigger] self.cell(0, c) == Trace::Restart
    }

    /// The alignment operations, oldest first, recovered by walking backward
    /// from one cell until a `Restart` decision.
    #[verifier::opaque]
    pub open spec fn walk_ops(self, r: int, c: int) -> Seq<AlignmentOp>
        decreases r + c, (if r + c >= 0 { 1int } else { 0int }),
    {
        if r < 0 || c < 0 {
            Seq::empty()
        } else if self.cell(r, c) == Trace::Restart {
            Seq::empty()
        } else if self.cell(r, c) == Trace::GapRow {
            if r >= 1 {
                self.walk_ops(r - 1, c) + seq![AlignmentOp::GapFirst]
            } else {
                seq![AlignmentOp::GapFirst]
            }
        } else if self.cell(r, c) == Trace::GapCol {
            if c >= 1 {
                self.walk_ops(r, c - 1) + seq![AlignmentOp::GapSecond]
            } else {
                seq![AlignmentOp::GapSecond]
            }
        } else {
            if r >= 1 && c >= 1 {
                self.walk_ops(r - 1, c - 1) + seq![op_of_trace(self.cell(r, c))]
            } else {
                seq![op_of_trace(self.cell(r, c))]
            }
        }
    }

    /// An empty matrix; every query on it fails.
    pub fn new() -> (r: TraceMatrix)
        ensures
            r.wf(),
            r.rows_spec() == 0,
            r.cols_spec() == 0,
    {
        TraceMatrix { mat: Vec::new(), rows: 0, cols: 0 }
    }

    /// Clears the matrix to (rows+1) x (cols+1) sentinels for a fresh
    /// alignment of `rows` by `cols` symbols.
    pub fn reset(&mut self, rows: usize, cols: usize)
        requires
            rows < usize::MAX,
            cols < usize::MAX,
            (rows + 1) * (cols + 1) <= usize::MAX,
        ensures
            final(self).wf(),
            final(self).rows_spec() == rows + 1,
            final(self).cols_spec() == cols + 1,
            forall|r: int, c: int|
                0 <= r < rows + 1 && 0 <= c < cols + 1 ==> #[trigger] final(self).cell(r, c)
                    == Trace::Restart,
    {
        let nrows = rows + 1;
        let ncols = cols + 1;
        proof {
            assert((rows + 1) * (cols + 1) == nrows * ncols);
        }
        let total = nrows * ncols;
        // The scratch buffer is cleared and refilled, never reallocated when
        // its capacity already suffices.
        self.mat.clear();
        let mut i: usize = 0;
        while i < total
            invariant
                i <= total,
                self.mat@.len() == i,
                forall|k: int| 0 <= k < i ==> #[trigger] self.mat@[k] == Trace::Restart,
            decreases total - i,
        {
            self.mat.push(Trace::Restart);
            i = i + 1;
        }
        self.rows = nrows;
        self.cols = ncols;
        proof {
            assert forall|r: int, c: int|
                0 <= r < nrows && 0 <= c < ncols implies #[trigger] self.cell(r, c)
                == Trace::Restart by {
                lemma_grid_index(nrows as int, ncols as int, r, c);
            }
        }
    }

    /// Records a decision at matrix cell (row+1, col+1); everything else is
    /// untouched.
    fn put(&mut self, row: usize, col: usize, t: Trace)
        requires
            old(self).wf(),
            row + 1 < old(self).rows_spec(),
            col + 1 < old(self).cols_spec(),
        ensures
            final(self).wf(),
            final(self).rows_spec() == old(self).rows_spec(),
            final(self).cols_spec() == old(self).cols_spec(),
            final(self).cell(row + 1, col + 1) == t,
            forall|r: int, c: int|
                0 <= r < old(self).rows_spec() && 0 <= c < old(self).cols_spec() && !(r == row + 1
                    && c == col + 1) ==> #[trigger] final(self).cell(r, c) == old(self).cell(r, c),
    {
        let total_len = self.mat.len();
        proof {
            lemma_grid_index(self.rows_spec(), self.cols_spec(), row + 1, col + 1);
        }
        let ind = (row + 1) * self.cols + (col + 1);
        self.mat.set(ind, t);
        proof {
            assert forall|r: int, c: int|
                0 <= r < self.rows_spec() && 0 <= c < self.cols_spec() && !(r == row + 1 && c == col
                    + 1) implies #[trigger] self.cell(r, c) == old(self).cell(r, c) by {
                lemma_grid_index(self.rows_spec(), self.cols_spec(), r, c);
                lemma_grid_distinct(self.rows_spec(), self.cols_spec(), r, c, row + 1, col + 1);
            }
            assert forall|r: int|
                0 <= r < self.rows_spec() implies #[trigger] self.cell(r, 0) == Trace::Restart by {
                lemma_grid_index(self.rows_spec(), self.cols_spec(), r, 0);
                lemma_grid_distinct(self.rows_spec(), self.cols_spec(), r, 0, row + 1, col + 1);
            }
            assert forall|c: int|
                0 <= c < self.cols_spec() implies #[trigger] self.cell(0, c) == Trace::Restart by {
                lemma_grid_index(self.rows_spec(), self.cols_spec(), 0, c);
                lemma_grid_distinct(self.rows_spec(), self.cols_spec(), 0, c, row + 1, col + 1);
            }
        }
    }

    /// Records a gap in the first sequence at cell (row, col).
    pub fn gap_row(&mut self, row: usize, col: usize)
        requires
            old(self).wf(),
            row + 1 < old(self).rows_spec(),
            col + 1 < old(self).cols_spec(),
        ensures
            final(self).wf(),
            final(self).rows_spec() == old(self).rows_spec(),
            final(self).cols_spec() == old(self).cols_spec(),
            final(self).cell(row + 1, col + 1) == Trace::GapRow,
            forall|r: int, c: int|
                0 <= r < old(self).rows_spec() && 0 <= c < old(self).cols_spec() && !(r == row + 1
                    && c == col + 1) ==> #[trigger] final(self).cell(r, c) == old(self).cell(r, c),
    {
        self.put(row, col, Trace::GapRow);
    }

    /// Records a gap in the second sequence at cell (row, col).
    pub fn gap_col(&mut self, row: usize, col: usize)
        requires
            old(self).wf(),
            row + 1 < old(self).rows_spec(),
            col + 1 < old(self).cols_spec(),
        ensures
            final(self).wf(),
            final(self).rows_spec() == old(self).rows_spec(),
            final(self).cols_spec() == old(self).cols_spec(),
            final(self).cell(row + 1, col + 1) == Trace::GapCol,
            forall|r: int, c: int|
                0 <= r < old(self).rows_spec() && 0 <= c < old(self).cols_spec() && !(r == row + 1
                    && c == col + 1) ==> #[trigger] final(self).cell(r, c) == old(self).cell(r, c),
    {
        self.put(row, col, Trace::GapCol);
    }

    /// Records an ambiguous diagonal move at cell (row, col).
    pub fn equivalent(&mut self, row: usize, col: usize)
        requires
            old(self).wf(),
            row + 1 < old(self).rows_spec(),
            col + 1 < old(self).cols_spec(),
        ensures
            final(self).wf(),
            final(self).rows_spec() == old(self).rows_spec(),
            final(self).cols_spec() == old(self).cols_spec(),
            final(self).cell(row + 1, col + 1) == Trace::Equivalent,
            forall|r: int, c: int|
                0 <= r < old(self).rows_spec() && 0 <= c < old(self).cols_spec() && !(r == row + 1
                    && c == col + 1) ==> #[trigger] final(self).cell(r, c) == old(self).cell(r, c),
    {
        self.put(row, col, Trace::Equivalent);
    }

    /// Records a confirmed match at cell (row, col).
    pub fn matched(&mut self, row: usize, col: usize)
        requires
            old(self).wf(),
            row + 1 < old(self).rows_spec(),
            col + 1 < old(self).cols_spec(),
        ensures
            final(self).wf(),
            final(self).rows_spec() == old(self).rows_spec(),
            final(self).cols_spec() == old(self).cols_spec(),
            final(self).cell(row + 1, col + 1) == Trace::Match,
            forall|r: int, c: int|
                0 <= r < old(self).rows_spec() && 0 <= c < old(self).cols_spec() && !(r == row + 1
                    && c == col + 1) ==> #[trigger] final(self).cell(r, c) == old(self).cell(r, c),
    {
        self.put(row, col, Trace::Match);
    }

    /// Records a confirmed mismatch at cell (row, col).
    pub fn mismatched(&mut self, row: usize, col: usize)
        requires
            old(self).wf(),
            row + 1 < old(self).rows_spec(),
            col + 1 < old(self).cols_spec(),
        ensures
            final(self).wf(),
            final(self).rows_spec() == old(self).rows_spec(),
            final(self).cols_spec() == old(self).cols_spec(),
            final(self).cell(row + 1, col + 1) == Trace::Mismatch,
            forall|r: int, c: int|
                0 <= r < old(self).rows_spec() && 0 <= c < old(self).cols_spec() && !(r == row + 1
                    && c == col + 1) ==> #[trigger] final(self).cell(r, c) == old(self).cell(r, c),
    {
        self.put(row, col, Trace::Mismatch);
    }

    /// Records a restart (no decision) at cell (row, col).
    pub fn restart(&mut self, row: usize, col: usize)
        requires
            old(self).wf(),
            row + 1 < old(self).rows_spec(),
            col + 1 < old(self).cols_spec(),
        ensures
            final(self).wf(),
            final(self).rows_spec() == old(self).rows_spec(),
            final(self).cols_spec() == old(self).cols_spec(),
            final(self).cell(row + 1, col + 1) == Trace::Restart,
            forall|r: int, c: int|
                0 <= r < old(self).rows_spec() && 0 <= c < old(self).cols_spec() && !(r == row + 1
                    && c == col + 1) ==> #[trigger] final(self).cell(r, c) == old(self).cell(r, c),
    {
        self.put(row, col, Trace::Restart);
    }

    /// Reads the decision at one matrix cell.
    fn at(&self, r: usize, c: usize) -> (t: Trace)
        requires
            self.wf(),
            r < self.rows_spec(),
            c < self.cols_spec(),
        ensures
            t == self.cell(r as int, c as int),
    {
        let total_len = self.mat.len();
        proof {
            lemma_grid_index(self.rows_spec(), self.cols_spec(), r as int, c as int);
        }
        self.mat[r * self.cols + c]
    }

    /// Walks backward from cell (row+1, col+1), coalescing identical
    /// consecutive decisions into run-length steps (splitting runs over 255),
    /// and reports the exact covered ranges on both sequences. Fails exactly
    /// when the cell lies outside the matrix or holds no decision.
    #[verifier::rlimit(100)]
    #[verifier::spinoff_prover]
    pub fn trace(&self, row: usize, col: usize) -> (res: Result<TracedAlignment, ()>)
        requires
            self.wf(),
        ensures
            res is Err <==> row + 1 >= self.rows_spec() || col + 1 >= self.cols_spec()
                || self.cell(row + 1, col + 1) == Trace::Restart,
            res matches Ok(t) ==> {
                let walk = self.walk_ops(row + 1, col + 1);
                let sr = row + 1 - consumed1(walk);
                let sc = col + 1 - consumed2(walk);
                &&& expand(t.ops@) == walk
                &&& t.ops@.len() > 0
                &&& steps_coalesced_rev(t.ops@)
                &&& t.seq1range.end == (if sr == row + 1 {
                    row as int
                } else {
                    row + 1
                })
                &&& t.seq1range.start == (if sr == row + 1 {
                    sr - 1
                } else {
                    sr
                })
                &&& t.seq2range.end == (if sc == col + 1 {
                    col as int
                } else {
                    col + 1
                })
                &&& t.seq2range.start == (if sc == col + 1 {
                    sc - 1
                } else {
                    sc
                })
            },
    {
        if self.rows == 0 || self.cols == 0 || row >= self.rows - 1 || col >= self.cols - 1 {
            return Err(());
        }
        let seq1end = row + 1;
        let seq2end = col + 1;
        let mut r = seq1end;
        let mut c = seq2end;
        let mut cur = self.at(r, c);
        if cur == Trace::Restart {
            return Err(());
        }

        let mut result: Vec<AlignmentStep> = Vec::new();
        let mut run = RunningTrace { op: cur, len: 0 };
        let ghost walk = self.walk_ops(seq1end as int, seq2end as int);
        let ghost mut done: Seq<AlignmentOp> = Seq::empty();
        proof {
            assert(repeat_op(op_of_trace(run.op), 0) =~= Seq::<AlignmentOp>::empty());
            assert(expand(result@) == Seq::<AlignmentOp>::empty());
            assert(done =~= repeat_op(op_of_trace(run.op), run.len as int) + expand(result@));
            assert(walk =~= self.walk_ops(r as int, c as int) + done);
            lemma_coalesced_empty();
        }
        while cur != Trace::Restart
            invariant
                self.wf(),
                r < self.rows_spec(),
                c < self.cols_spec(),
                cur == self.cell(r as int, c as int),
                cur != Trace::Restart ==> r >= 1 && c >= 1,
                run.len == 0 ==> result@.len() == 0 && cur != Trace::Restart,
                run.len >= 1 ==> run.op != Trace::Restart,
                done == repeat_op(op_of_trace(run.op), run.len as int) + expand(result@),
                walk == self.walk_ops(seq1end as int, seq2end as int),
                walk == self.walk_ops(r as int, c as int) + done,
                r + consumed1(done) == seq1end,
                c + consumed2(done) == seq2end,
                steps_coalesced_rev(result@),
                run.len >= 1 && result@.len() > 0 ==> op_of_trace(run.op) != result@[0].op
                    || result@[0].len == 255,
                seq1end == row + 1 < self.rows_spec(),
                seq2end == col + 1 < self.cols_spec(),
            decreases r + c,
        {
            let uop = cur;
            let ghost mapped = op_of_trace(uop);
            let ghost done0 = done;
            proof {
                lemma_step_done(*self, r as int, c as int, done0, walk, seq1end as int,
                    seq2end as int);
                done = seq![mapped] + done0;
            }
            // Absorb this decision into the pending run, or flush the run.
            if run.len >= 1 && uop == run.op && run.len < 255 {
                run.len = run.len + 1;
                proof {
                    lemma_run_absorb(mapped, run.len - 1, expand(result@));
                }
            } else {
                let ghost oldrun = run;
                let ghost result0 = result@;
                if run.len >= 1 {
                    let step = RunningTrace { op: run.op, len: run.len }.to_alignment_op();
                    result.insert(0, step);
                    proof {
                        lemma_flush(step, result0);
                        assert(result@ == result0.insert(0, step));
                        assert(result@ =~= seq![step] + result0);
                        lemma_prepend_coalesced_rev(result0, step);
                    }
                }
                run = RunningTrace { op: uop, len: 1 };
                proof {
                    lemma_run_new(mapped, expand(result@));
                    if oldrun.len == 0 {
                        assert(repeat_op(op_of_trace(oldrun.op), 0) =~= Seq::<
                            AlignmentOp,
                        >::empty());
                        assert(done0 =~= expand(result@));
                    } else {
                        assert(expand(result@) =~= repeat_op(op_of_trace(oldrun.op),
                            oldrun.len as int) + expand(result0));
                        assert(done =~= seq![mapped] + (repeat_op(op_of_trace(oldrun.op),
                            oldrun.len as int) + expand(result0)));
                    }
                }
            }
            // Step to the predecessor cell.
            match uop {
                Trace::GapRow => {
                    r = r - 1;
                },
                Trace::GapCol => {
                    c = c - 1;
                },
                _ => {
                    r = r - 1;
                    c = c - 1;
                },
            }
            proof {
                assert(r == seq1end - consumed1(done) && c == seq2end - consumed2(done));
            }
            cur = self.at(r, c);
        }
        // Flush the last pending run; the seed guaranteed at least one unit.
        let ghost resultpre = result@;
        let step = RunningTrace { op: run.op, len: run.len }.to_alignment_op();
        result.insert(0, step);
        proof {
            assert(result@ =~= seq![step] + resultpre);
            lemma_expand_concat(seq![step], resultpre);
            lemma_expand_single(step);
            lemma_prepend_coalesced_rev(resultpre, step);
            assert(expand(result@) =~= done);
            assert(self.walk_ops(r as int, c as int) == Seq::<AlignmentOp>::empty()) by {
                reveal(TraceMatrix::walk_ops);
            }
            assert(walk =~= done);
        }
        let mut sr = r;
        let mut sc = c;
        let mut er = seq1end;
        let mut ec = seq2end;
        if sr == er {
            sr = sr - 1;
            er = er - 1;
        }
        if sc == ec {
            sc = sc - 1;
            ec = ec - 1;
        }
        Ok(TracedAlignment { ops: result, seq1range: sr..er, seq2range: sc..ec })
    }
}

/// Walking one non-restart cell appends its operation to the walk of its
/// predecessor, which sits inside the matrix.
proof fn lemma_walk_unfold(m: TraceMatrix, r: int, c: int)
    requires
        m.wf(),
        0 <= r < m.rows_spec(),
        0 <= c < m.cols_spec(),
        m.cell(r, c) != Trace::Restart,
    ensures
        r >= 1 && c >= 1,
        m.cell(r, c) == Trace::GapRow ==> m.walk_ops(r, c) == m.walk_ops(r - 1, c) + seq![
            AlignmentOp::GapFirst,
        ],
        m.cell(r, c) == Trace::GapCol ==> m.walk_ops(r, c) == m.walk_ops(r, c - 1) + seq![
            AlignmentOp::GapSecond,
        ],
        m.cell(r, c) != Trace::GapRow && m.cell(r, c) != Trace::GapCol ==> m.walk_ops(r, c)
            == m.walk_ops(r - 1, c - 1) + seq![op_of_trace(m.cell(r, c))],
{
    reveal(TraceMatrix::walk_ops);
    assert(m.cell(r, 0) == Trace::Restart);
    assert(m.cell(0, c) == Trace::Restart);
}

/// A walk from a decision-bearing cell is non-empty and ends with that
/// cell's own operation.
pub proof fn lemma_walk_last(m: TraceMatrix, r: int, c: int)
    requires
        0 <= r,
        0 <= c,
        m.cell(r, c) != Trace::Restart,
    ensures
        m.walk_ops(r, c).len() > 0,
        m.walk_ops(r, c).last() == op_of_trace(m.cell(r, c)),
{
    reveal(TraceMatrix::walk_ops);
}

/// A grid position is inside the flattened matrix.
proof fn lemma_grid_index(rows: int, cols: int, r: int, c: int)
    requires
        0 <= r < rows,
        0 <= c < cols,
    ensures
        0 <= r * cols + c < rows * cols,
{
    assert(0 <= r * cols + c < rows * cols) by (nonlinear_arith)
        requires
            0 <= r < rows,
            0 <= c < cols,
    ;
}

/// Distinct grid positions flatten to distinct indices.
proof fn lemma_grid_distinct(rows: int, cols: int, r1: int, c1: int, r2: int, c2: int)
    requires
        0 <= r1 < rows,
        0 <= c1 < cols,
        0 <= r2 < rows,
        0 <= c2 < cols,
        !(r1 == r2 && c1 == c2),
    ensures
        r1 * cols + c1 != r2 * cols + c2,
{
    assert(r1 * cols + c1 != r2 * cols + c2) by (nonlinear_arith)
        requires
            0 <= r1 < rows,
            0 <= c1 < cols,
            0 <= r2 < rows,
            0 <= c2 < cols,
            !(r1 == r2 && c1 == c2),
    ;
}

/// One backward step: the walk of a non-restart cell splits into the walk of
/// its predecessor plus the cell's operation, and the position bookkeeping
/// moves by that operation's advance.
proof fn lemma_step_done(
    m: TraceMatrix,
    r: int,
    c: int,
    done0: Seq<AlignmentOp>,
    walk: Seq<AlignmentOp>,
    seq1end: int,
    seq2end: int,
)
    requires
        m.wf(),
        0 <= r < m.rows_spec(),
        0 <= c < m.cols_spec(),
        m.cell(r, c) != Trace::Restart,
        walk == m.walk_ops(r, c) + done0,
        r + consumed1(done0) == seq1end,
        c + consumed2(done0) == seq2end,
    ensures
        ({
            let mapped = op_of_trace(m.cell(r, c));
            let done = seq![mapped] + done0;
            &&& r >= 1 && c >= 1
            &&& walk == m.walk_ops(r - adv1(mapped), c - adv2(mapped)) + done
            &&& (r - adv1(mapped)) + consumed1(done) == seq1end
            &&& (c - adv2(mapped)) + consumed2(done) == seq2end
        }),
{
    lemma_walk_unfold(m, r, c);
    let mapped = op_of_trace(m.cell(r, c));
    let done = seq![mapped] + done0;
    lemma_consumed_append(seq![mapped], done0);
    lemma_consumed_single(mapped);
    if m.cell(r, c) == Trace::GapRow {
        assert((m.walk_ops(r - 1, c) + seq![mapped]) + done0 =~= m.walk_ops(r - 1, c) + done);
    } else if m.cell(r, c) == Trace::GapCol {
        assert((m.walk_ops(r, c - 1) + seq![mapped]) + done0 =~= m.walk_ops(r, c - 1) + done);
    } else {
        assert((m.walk_ops(r - 1, c - 1) + seq![mapped]) + done0 =~= m.walk_ops(r - 1, c - 1)
            + done);
    }
}

/// Absorbing one more unit of the same operation grows the pending run.
proof fn lemma_run_absorb(op: AlignmentOp, n: int, rest: Seq<AlignmentOp>)
    requires
        n >= 0,
    ensures
        seq![op] + (repeat_op(op, n) + rest) == repeat_op(op, n + 1) + rest,
{
    assert(seq![op] + repeat_op(op, n) =~= repeat_op(op, n + 1));
    assert(seq![op] + (repeat_op(op, n) + rest) =~= (seq![op] + repeat_op(op, n)) + rest);
}

/// A fresh run of one unit.
proof fn lemma_run_new(op: AlignmentOp, rest: Seq<AlignmentOp>)
    ensures
        seq![op] + rest == repeat_op(op, 1) + rest,
{
    assert(repeat_op(op, 1) =~= seq![op]);
}

/// Prepending a flushed step to the result prepends its run to the expansion.
proof fn lemma_flush(step: AlignmentStep, rest: Seq<AlignmentStep>)
    ensures
        expand(seq![step] + rest) == repeat_op(step.op, step.len as int) + expand(rest),
        rest.insert(0, step) == seq![step] + rest,
{
    lemma_expand_concat(seq![step], rest);
    lemma_expand_single(step);
    assert(rest.insert(0, step) =~= seq![step] + rest);
}

} // verus!
