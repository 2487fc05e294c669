//! Double-stranded regions: construction, the derived bounding range, and
//! the flat block list. Also the path-storage bookkeeping they consume.

use repeto::dsrna::dsRNA;
use repeto::dsrna::Segment;
use repeto::storage::Path;
use repeto::traceback::Trace;

#[test]
fn dsrna_bounding_range_and_blocks() {
    let segments = vec![
        Segment::new(2..4, 16..18).unwrap(),
        Segment::new(5..8, 10..13).unwrap(),
    ];
    let d = dsRNA::new(segments).unwrap();
    assert_eq!(d.segments().len(), 2);
    let b = d.brange();
    assert_eq!((b.start, b.end), (2, 18));
    let blocks: Vec<(usize, usize)> = d.blocks().iter().map(|r| (r.start, r.end)).collect();
    assert_eq!(blocks, vec![(2, 4), (16, 18), (5, 8), (10, 13)]);
}

#[test]
fn dsrna_segment_validation() {
    assert!(Segment::new(0..0, 4..8).is_err());
    assert!(Segment::new(0..3, 4..8).is_err());
    assert!(Segment::new(0..5, 4..9).is_err());
    assert!(dsRNA::new(vec![]).is_err());
}

#[test]
fn path_extends_only_on_improvement() {
    let mut p = Path::new((1, 1), 3);
    assert_eq!(p.start, (1, 1));
    assert_eq!(p.end, (1, 1));
    assert_eq!(p.matches, 1);
    assert_eq!(p.potential_matches, 0);

    // A lower-scoring match is only pending.
    p.extend(2, 2, 2, Trace::Match);
    assert_eq!(p.end, (1, 1));
    assert_eq!(p.score, 3);
    assert_eq!(p.matches, 1);
    assert_eq!(p.potential_matches, 1);

    // A strict improvement moves the end and confirms pending matches.
    p.extend(3, 3, 5, Trace::Match);
    assert_eq!(p.end, (3, 3));
    assert_eq!(p.score, 5);
    assert_eq!(p.matches, 3);
    assert_eq!(p.potential_matches, 0);

    // Gaps never count as matches.
    p.extend(4, 3, 6, Trace::GapRow);
    assert_eq!(p.end, (4, 3));
    assert_eq!(p.matches, 3);

    // Ambiguous moves count as tentative matches.
    p.extend(5, 4, 7, Trace::Equivalent);
    assert_eq!(p.matches, 4);
}
