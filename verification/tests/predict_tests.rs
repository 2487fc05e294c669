//! End-to-end prediction and selection: hairpins in small sequences, the
//! path-crossing test, and the pretty rendering.

use repeto::alignment::intersects;
use repeto::alignment::prettify;
use repeto::alignment::AlignmentOp;
use repeto::alignment::AlignmentStep;
use repeto::optimize;
use repeto::predict;

fn step(op: AlignmentOp, len: u8) -> AlignmentStep {
    AlignmentStep { op, len }
}

#[test]
fn reverse_complement() {
    let rc = predict::revcomp(&b"AACGTN".to_vec());
    assert_eq!(rc, b"NACGTT".to_vec());
    assert_eq!(predict::complement(b'U'), b'A');
    // Symbols outside the alphabet map to an impossible byte.
    assert_eq!(predict::complement(b'x'), 0);
}

#[test]
fn perfect_hairpin_is_predicted() {
    // AAAACGTTTT: the left arm AAAA pairs with the right arm TTTT.
    let seq = b"AAAACGTTTT".to_vec();
    let (candidates, scores) = predict::run(&seq, 4, 2);
    assert_eq!(candidates.len(), scores.len());
    assert!(!candidates.is_empty());
    // Some candidate covers the full stem: left [0, 4) paired with [6, 10).
    let full = candidates.iter().any(|c| {
        let segs = c.segments();
        segs.iter().any(|s| {
            s.left().start == 0 && s.left().end == 4 && s.right().start == 6
                && s.right().end == 10
        })
    });
    assert!(full);
    for s in &scores {
        assert!(*s >= 4);
    }
}

#[test]
fn no_hairpin_in_homopolymer() {
    // Poly-A never pairs with itself.
    let seq = b"AAAAAAAA".to_vec();
    let (candidates, scores) = predict::run(&seq, 1, 1);
    assert!(candidates.is_empty());
    assert!(scores.is_empty());
}

#[test]
fn prediction_feeds_selection() {
    // Two disjoint perfect hairpins; selection keeps a non-conflicting subset.
    let seq = b"AAACGTTTxxxGGGCATCCC".to_vec();
    let (candidates, scores) = predict::run(&seq, 3, 3);
    assert!(!candidates.is_empty());
    let (chosen, total) = optimize::run(&candidates, &scores);
    assert!(!chosen.is_empty());
    let mut sum = 0;
    for id in &chosen {
        assert!(*id < candidates.len());
        sum += scores[*id];
    }
    assert_eq!(sum, total);
    // Chosen candidates are pairwise disjoint block by block.
    for w in 0..chosen.len() {
        for v in (w + 1)..chosen.len() {
            let a = candidates[chosen[w]].seqranges();
            let b = candidates[chosen[v]].seqranges();
            for ra in &a {
                for rb in &b {
                    assert!(ra.end <= rb.start || rb.end <= ra.start);
                }
            }
        }
    }
}

#[test]
fn crossing_and_disjoint_paths() {
    // Two diagonal runs crossing at their midpoint.
    let d1 = vec![step(AlignmentOp::Match, 4)];
    let d2 = vec![step(AlignmentOp::GapFirst, 4)];
    // Path one runs diagonally from (0,0) to (4,4); path two runs along the
    // first sequence only, from (0,2) to (4,2), and crosses it at (2,2).
    assert!(intersects((0, 0), &d1, (0, 2), &d2));
    // Far-apart paths never intersect.
    assert!(!intersects((0, 0), &d1, (100, 100), &d1));
    // A path with no steps intersects nothing.
    let none: Vec<AlignmentStep> = vec![];
    assert!(!intersects((0, 0), &none, (0, 0), &d1));
}

#[test]
fn prettify_renders_three_lines() {
    let seq1 = b"ACGT".to_vec();
    let seq2 = b"AGT".to_vec();
    let steps = vec![
        step(AlignmentOp::Match, 1),
        step(AlignmentOp::GapFirst, 1),
        step(AlignmentOp::Match, 2),
    ];
    let out = prettify(&seq1, &seq2, &steps, 4);
    // Top line, marker line, bottom line, concatenated.
    assert_eq!(out, b"ACGT| ||A-GT".to_vec());
}
