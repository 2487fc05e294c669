//! End-to-end local alignment through the engine: scores, encodings, covered
//! ranges, and explicit no-alignment results.

use repeto::engine::Engine;
use repeto::scoring::AffineScheme;
use repeto::scoring::Delegate;
use repeto::scoring::MatchMismatch;
use repeto::storage::AllOptimal;
use repeto::traceback::TraceMatrix;

fn engine(
    open_cost: i64,
    extend_cost: i64,
) -> Engine<Delegate<AffineScheme, MatchMismatch>> {
    let scoring = Delegate {
        gap: AffineScheme { open_cost, extend_cost },
        symbols: MatchMismatch { samesc: 1, diffsc: -2 },
    };
    Engine::new(AllOptimal::new(0, 0, 0), TraceMatrix::new(), scoring)
}

#[test]
fn empty_inputs_give_no_alignment() {
    let mut e = engine(-5, -1);
    assert!(e.align(&b"ACGT".to_vec(), &b"".to_vec()).is_err());
    assert!(e.align(&b"".to_vec(), &b"ACGT".to_vec()).is_err());
    assert!(e.align(&b"".to_vec(), &b"".to_vec()).is_err());
    // Nothing scores above zero here either.
    assert!(e.align(&b"ACGT".to_vec(), &b"----".to_vec()).is_err());
    assert!(e.align(&b"_".to_vec(), &b"A".to_vec()).is_err());
}

#[test]
fn best_local_alignment_with_one_mismatch() {
    let mut e = engine(-5, -1);
    let a = e.align(&b"AGGGAGGGTTTA".to_vec(), &b"GGGGGGG".to_vec()).unwrap();
    assert_eq!(a.score, 4);
    assert_eq!(a.rle(), "3=1X3=");
}

#[test]
fn exact_match_without_gaps() {
    let mut e = engine(-5, -1);
    let a = e.align(&b"AAGAA".to_vec(), &b"AGA".to_vec()).unwrap();
    assert_eq!(a.score, 3);
    assert_eq!(a.rle(), "3=");
    assert_eq!(a.seq1.start, 1);
    assert_eq!(a.seq2.start, 0);

    let b = e.align(&b"CGCGCGCGTTT".to_vec(), &b"CGTTT".to_vec()).unwrap();
    assert_eq!(b.score, 5);
    assert_eq!(b.rle(), "5=");
    assert_eq!(b.seq1.start, 6);

    let c = e.align(&b"AAAGGGAGGGTTTA".to_vec(), &b"GGGGGGG".to_vec()).unwrap();
    assert_eq!(c.score, 4);
    assert_eq!(c.rle(), "3=1X3=");
    assert_eq!(c.seq1.start, 3);
}

#[test]
fn affine_gap_bridges_an_insert() {
    // 32 matches minus an affine gap of length 9: 32 + open + 9 * extend.
    let mut e = engine(-5, -1);
    let a = e
        .align(
            &b"AAAAAAAAAAAAAAAA*********AAAAAAAAAAAAAAAA".to_vec(),
            &b"AAAAAAAAAAAAAAAAAAAAAAAAAAAAAAAA".to_vec(),
        )
        .unwrap();
    assert_eq!(a.score, 18);
    // With one decision kept per cell, the reconstructed path re-enters the
    // diagonal where mismatches locally outscore the gap track; the best
    // score itself comes from the full gap bridge.
    assert_eq!(a.rle(), "14=2X7v16=");
}

#[test]
fn cheap_gap_open_splits_runs() {
    let mut e = engine(-1, -1);
    // 16 matches minus one bridged gap: 16 + open + 3 * extend.
    let a = e
        .align(
            &b"A***AAAAAAAA***AAAAAAAA***A".to_vec(),
            &b"AAAAAAAAAAAAAAAA".to_vec(),
        )
        .unwrap();
    assert_eq!(a.score, 12);
    assert_eq!(a.rle(), "8=3v8=");
    assert_eq!(a.seq1.start, 4);
}

#[test]
fn more_ungapped_alignments() {
    let mut e = engine(-5, -1);

    let a = e.align(&b"AGTCCCGTGTCCCAGGGG".to_vec(), &b"AGTC".to_vec()).unwrap();
    assert_eq!(a.score, 4);
    assert_eq!(a.rle(), "4=");
    assert_eq!(a.seq1.start, 0);
    assert_eq!(a.seq2.start, 0);

    let b = e.align(&b"AAAA".to_vec(), &b"AAAA".to_vec()).unwrap();
    assert_eq!(b.score, 4);
    assert_eq!(b.rle(), "4=");

    let c = e
        .align(&b"NNNN==*===*===*==".to_vec(), &b"++++=============+++".to_vec())
        .unwrap();
    assert_eq!(c.score, 4);
    assert_eq!(c.rle(), "3=1X3=");
    assert_eq!(c.seq1.start, 7);
    // Any seven-symbol window inside the run of equals ties; the exact one is
    // a deterministic tie-break.
    assert!(4 <= c.seq2.start && c.seq2.start + 7 <= 17);

    let d = e
        .align(&b"NNNN===*===*===*===*===".to_vec(), &b"===================".to_vec())
        .unwrap();
    assert_eq!(d.score, 7);
    assert_eq!(d.rle(), "3=1X3=1X3=1X3=1X3=");
    assert_eq!(d.seq1.start, 4);
    assert_eq!(d.seq2.start, 0);

    // Every single-symbol hit ties at one; only score and shape are pinned.
    let f = e.align(&b"AGAAAAAAAGGAAAAAAAGGGGG".to_vec(), &b"G".to_vec()).unwrap();
    assert_eq!(f.score, 1);
    assert_eq!(f.rle(), "1=");
}

#[test]
fn swapped_sequences_mirror_the_alignment() {
    let mut e = engine(-5, -1);
    let a = e.align(&b"GGGGGGG".to_vec(), &b"AAAGGGAGGGTTTA".to_vec()).unwrap();
    assert_eq!(a.score, 4);
    assert_eq!(a.rle(), "3=1X3=");
    assert_eq!(a.seq1.start, 0);
    assert_eq!(a.seq2.start, 3);

    let b = e.align(&b"AGA".to_vec(), &b"AAGAA".to_vec()).unwrap();
    assert_eq!(b.score, 3);
    assert_eq!(b.rle(), "3=");
    assert_eq!(b.seq1.start, 0);
    assert_eq!(b.seq2.start, 1);
}

#[test]
fn score_threshold_filters_everything() {
    let scoring = Delegate {
        gap: AffineScheme { open_cost: -5, extend_cost: -1 },
        symbols: MatchMismatch { samesc: 1, diffsc: -2 },
    };
    // A minimum score no alignment of these inputs can reach.
    let mut e = Engine::new(AllOptimal::new(0, 0, 100), TraceMatrix::new(), scoring);
    assert!(e.align(&b"AAGAA".to_vec(), &b"AGA".to_vec()).is_err());
}

#[test]
fn match_threshold_filters_short_runs() {
    let scoring = Delegate {
        gap: AffineScheme { open_cost: -5, extend_cost: -1 },
        symbols: MatchMismatch { samesc: 1, diffsc: -2 },
    };
    // Requires more confirmed matches than the best path holds.
    let mut e = Engine::new(AllOptimal::new(0, 4, 0), TraceMatrix::new(), scoring);
    assert!(e.align(&b"AAGAA".to_vec(), &b"AGA".to_vec()).is_err());
    // A longer run clears the bar.
    let a = e.align(&b"CGCGCGCGTTT".to_vec(), &b"CGTTT".to_vec()).unwrap();
    assert_eq!(a.score, 5);
}
