//! Trace-matrix reconstruction: out-of-range queries, a small decision grid,
//! and a denser grid with many seeds.

use repeto::alignment::AlignmentOp;
use repeto::alignment::AlignmentStep;
use repeto::traceback::Trace;
use repeto::traceback::TraceMatrix;

fn step(op: AlignmentOp, len: u8) -> AlignmentStep {
    AlignmentStep { op, len }
}

fn fill_tracer(tracer: &mut TraceMatrix, rows: usize, cols: usize, traces: &[Trace]) {
    assert_eq!(traces.len(), rows * cols);
    tracer.reset(rows, cols);
    for r in 0..rows {
        for c in 0..cols {
            let ind = r * cols + c;
            match traces[ind] {
                Trace::Restart => {}
                Trace::GapRow => tracer.gap_row(r, c),
                Trace::GapCol => tracer.gap_col(r, c),
                Trace::Equivalent => tracer.equivalent(r, c),
                Trace::Match => tracer.matched(r, c),
                Trace::Mismatch => tracer.mismatched(r, c),
            }
        }
    }
}

struct Workload {
    seed: (usize, usize),
    seq1: (usize, usize),
    seq2: (usize, usize),
    ops: Vec<AlignmentStep>,
}

fn ensure(tracer: &mut TraceMatrix, w: Workload) {
    let trace = tracer.trace(w.seed.0, w.seed.1).unwrap();
    assert_eq!(trace.ops, w.ops);
    assert_eq!(trace.seq1range.start, w.seq1.0, "Seq 1 ranges mismatch");
    assert_eq!(trace.seq1range.end, w.seq1.1, "Seq 1 ranges mismatch");
    assert_eq!(trace.seq2range.start, w.seq2.0, "Seq 2 ranges mismatch");
    assert_eq!(trace.seq2range.end, w.seq2.1, "Seq 2 ranges mismatch");
}

fn outside_range(tracer: &mut TraceMatrix) {
    for [(size_row, size_col), (trace_row, trace_col)] in [
        [(0, 0), (0, 0)],
        [(0, 0), (0, 1)],
        [(11, 12), (11, 12)],
        [(11, 12), (10, 13)],
    ] {
        tracer.reset(size_row, size_col);
        assert!(tracer.trace(trace_row, trace_col).is_err())
    }
}

fn simple(tracer: &mut TraceMatrix) {
    tracer.reset(4, 4);
    tracer.matched(0, 0);
    tracer.matched(1, 1);
    tracer.gap_row(2, 1);
    tracer.gap_col(2, 2);
    tracer.mismatched(3, 3);

    for (row, col) in [(0, 0), (1, 1), (2, 1), (2, 2), (3, 3)] {
        assert!(tracer.trace(row, col).is_ok());
    }
    for (row, col) in [(0, 1), (4, 4), (3, 2), (1, 2)] {
        assert!(tracer.trace(row, col).is_err());
    }

    ensure(
        tracer,
        Workload {
            seed: (3, 3),
            seq1: (0, 4),
            seq2: (0, 4),
            ops: vec![
                step(AlignmentOp::Match, 2),
                step(AlignmentOp::GapFirst, 1),
                step(AlignmentOp::GapSecond, 1),
                step(AlignmentOp::Mismatch, 1),
            ],
        },
    )
}

use Trace::GapCol;
use Trace::GapRow;
use Trace::Match;
use Trace::Mismatch;
use Trace::Restart;

fn complex(tracer: &mut TraceMatrix) {
    let traces = vec![
        Match, Restart, Match, Restart, Restart, Mismatch, Match, GapCol, Restart, Match, GapCol,
        Restart, Restart, GapRow, Match, Restart, Restart, Mismatch, Restart, Match, Restart,
        Mismatch, Restart, Restart, GapCol, Mismatch, Match, Restart, Mismatch, Restart, Restart,
        Restart, Mismatch, Match, Restart, Mismatch, GapCol, Restart, Restart, GapRow, GapCol,
        GapRow, Restart, GapRow, Restart, GapCol, Match, Match,
    ];
    fill_tracer(tracer, 8, 6, &traces);
    let workload = vec![
        Workload {
            seed: (7, 1),
            seq1: (7, 8),
            seq2: (1, 1),
            ops: vec![step(AlignmentOp::GapFirst, 1)],
        },
        Workload {
            seed: (6, 0),
            seq1: (6, 6),
            seq2: (0, 1),
            ops: vec![step(AlignmentOp::GapSecond, 1)],
        },
        Workload {
            seed: (0, 0),
            seq1: (0, 1),
            seq2: (0, 1),
            ops: vec![step(AlignmentOp::Match, 1)],
        },
        Workload {
            seed: (0, 5),
            seq1: (0, 1),
            seq2: (5, 6),
            ops: vec![step(AlignmentOp::Mismatch, 1)],
        },
        Workload {
            seed: (2, 5),
            seq1: (0, 3),
            seq2: (2, 6),
            ops: vec![
                step(AlignmentOp::Match, 2),
                step(AlignmentOp::GapSecond, 1),
                step(AlignmentOp::Mismatch, 1),
            ],
        },
        Workload {
            seed: (7, 5),
            seq1: (3, 8),
            seq2: (1, 6),
            ops: vec![
                step(AlignmentOp::Match, 3),
                step(AlignmentOp::GapFirst, 1),
                step(AlignmentOp::GapSecond, 1),
                step(AlignmentOp::Match, 1),
            ],
        },
        Workload {
            seed: (7, 4),
            seq1: (3, 8),
            seq2: (1, 5),
            ops: vec![
                step(AlignmentOp::Match, 3),
                step(AlignmentOp::GapFirst, 1),
                step(AlignmentOp::Match, 1),
            ],
        },
        Workload {
            seed: (6, 5),
            seq1: (1, 7),
            seq2: (0, 6),
            ops: vec![
                step(AlignmentOp::Match, 1),
                step(AlignmentOp::GapSecond, 1),
                step(AlignmentOp::Match, 1),
                step(AlignmentOp::Mismatch, 3),
                step(AlignmentOp::GapFirst, 1),
            ],
        },
        Workload {
            seed: (5, 2),
            seq1: (4, 6),
            seq2: (1, 3),
            ops: vec![step(AlignmentOp::Mismatch, 2)],
        },
        Workload {
            seed: (2, 1),
            seq1: (1, 3),
            seq2: (0, 2),
            ops: vec![
                step(AlignmentOp::Match, 1),
                step(AlignmentOp::GapSecond, 1),
                step(AlignmentOp::GapFirst, 1),
            ],
        },
    ];
    for w in workload {
        ensure(tracer, w);
    }
}

#[test]
fn test() {
    let mut tracer = TraceMatrix::new();
    outside_range(&mut tracer);
    simple(&mut tracer);
    complex(&mut tracer);
}
