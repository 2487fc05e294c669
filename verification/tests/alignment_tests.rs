//! Run-length steps, the compact encoding, the ambiguity post-pass, and the
//! scoring schemes.

use repeto::alignment::disambiguate;
use repeto::alignment::rle;
use repeto::alignment::AlignmentOp;
use repeto::alignment::AlignmentStep;
use repeto::scoring::EquivClassifier;
use repeto::scoring::EquivType;
use repeto::scoring::MatchMismatch;
use repeto::scoring::Matrix;
use repeto::scoring::Scorer;

fn step(op: AlignmentOp, len: u8) -> AlignmentStep {
    AlignmentStep { op, len }
}

#[test]
fn op_symbols() {
    assert_eq!(AlignmentOp::GapFirst.symbol(), 'v');
    assert_eq!(AlignmentOp::GapSecond.symbol(), '^');
    assert_eq!(AlignmentOp::Equivalent.symbol(), '~');
    assert_eq!(AlignmentOp::Match.symbol(), '=');
    assert_eq!(AlignmentOp::Mismatch.symbol(), 'X');
}

#[test]
fn rle_encodes_lengths_and_ops() {
    let steps = vec![
        step(AlignmentOp::Match, 3),
        step(AlignmentOp::GapFirst, 1),
        step(AlignmentOp::Equivalent, 12),
        step(AlignmentOp::Mismatch, 255),
    ];
    assert_eq!(rle(&steps, 0), "3=1v12~255X");
    let none: Vec<AlignmentStep> = vec![];
    assert_eq!(rle(&none, 0), "");
}

#[test]
fn disambiguate_splits_ambiguous_runs() {
    let scorer = MatchMismatch { samesc: 1, diffsc: -2 };
    let seq1 = b"ABCD".to_vec();
    let seq2 = b"ABXD".to_vec();
    let ops = vec![step(AlignmentOp::Equivalent, 4)];
    let out = disambiguate(ops, &scorer, &seq1, 0, &seq2, 0);
    assert_eq!(
        out,
        vec![
            step(AlignmentOp::Match, 2),
            step(AlignmentOp::Mismatch, 1),
            step(AlignmentOp::Match, 1),
        ]
    );
}

#[test]
fn disambiguate_keeps_resolved_runs_and_offsets() {
    let scorer = MatchMismatch { samesc: 1, diffsc: -2 };
    let seq1 = b"__AB".to_vec();
    let seq2 = b"_AXB".to_vec();
    // Starting offsets: seq1 at 2, seq2 at 1; a gap then two ambiguous units.
    let ops = vec![step(AlignmentOp::GapSecond, 1), step(AlignmentOp::Equivalent, 2)];
    let out = disambiguate(ops, &scorer, &seq1, 2, &seq2, 1);
    assert_eq!(
        out,
        vec![
            step(AlignmentOp::GapSecond, 1),
            step(AlignmentOp::Mismatch, 1),
            step(AlignmentOp::Match, 1),
        ]
    );
}

#[test]
fn match_mismatch_scoring() {
    let s = MatchMismatch { samesc: 2, diffsc: -3 };
    assert_eq!(s.classify(b'A', b'A'), EquivType::Match);
    assert_eq!(s.classify(b'A', b'C'), EquivType::Mismatch);
    assert_eq!(s.score(0, b'A', 5, b'A'), 2);
    assert_eq!(s.score(3, b'A', 0, b'C'), -3);
}

#[test]
fn matrix_scoring_with_overrides() {
    let mut m = Matrix::new(4, 1, -2);
    assert_eq!(m.classify(2, 2), EquivType::Match);
    assert_eq!(m.classify(1, 3), EquivType::Mismatch);
    assert_eq!(m.score(0, 2, 0, 2), 1);
    assert_eq!(m.score(0, 1, 0, 3), -2);

    // An override marks one pair as an ambiguity with its own weight.
    m.set(1, 3, 1, EquivType::Equivalent);
    assert_eq!(m.classify(1, 3), EquivType::Equivalent);
    assert_eq!(m.score(0, 1, 0, 3), 1);
    // The symmetric pair is untouched.
    assert_eq!(m.classify(3, 1), EquivType::Mismatch);
}
