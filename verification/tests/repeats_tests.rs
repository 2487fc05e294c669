//! Segment and repeat construction, invariant violations, shifting, and the
//! derived ranges.

use repeto::repeats::BuildError;
use repeto::repeats::Repeat;
use repeto::repeats::Segment;

fn seg(l0: i64, l1: i64, r0: i64, r1: i64) -> Segment {
    Segment::new(l0..l1, r0..r1).unwrap()
}

#[test]
fn segment_construction_validates() {
    // A valid segment keeps its coordinates.
    let s = seg(0, 4, 8, 12);
    assert_eq!(s.left().start, 0);
    assert_eq!(s.left().end, 4);
    assert_eq!(s.right().start, 8);
    assert_eq!(s.right().end, 12);

    // Empty or inverted ranges are refused.
    assert_eq!(Segment::new(4..4, 8..12).unwrap_err(), BuildError::EmptyRange);
    assert_eq!(Segment::new(5..4, 8..12).unwrap_err(), BuildError::EmptyRange);
    assert_eq!(Segment::new(0..4, 12..8).unwrap_err(), BuildError::EmptyRange);

    // Unequal lengths are refused.
    assert_eq!(Segment::new(0..4, 8..13).unwrap_err(), BuildError::LengthMismatch);

    // Overlap between the left and right range is refused.
    assert_eq!(Segment::new(0..6, 4..10).unwrap_err(), BuildError::OverlappingRanges);
    // Touching ranges (left ends where right starts) are fine.
    assert!(Segment::new(0..4, 4..8).is_ok());
}

#[test]
fn segment_accessors() {
    let s = seg(2, 5, 9, 12);
    assert_eq!(s.inner_gap(), 4);
    assert_eq!(s.seqlen(), 6);
    let b = s.brange();
    assert_eq!(b.start, 2);
    assert_eq!(b.end, 12);
}

#[test]
fn repeat_construction_validates() {
    // Strictly nested segments build a repeat.
    let r = Repeat::new(vec![seg(0, 2, 10, 12), seg(3, 5, 6, 8)]).unwrap();
    assert_eq!(r.segments().len(), 2);

    // An empty list is refused.
    assert_eq!(Repeat::new(vec![]).unwrap_err(), BuildError::NoSegments);

    // Out-of-order segments are refused.
    assert_eq!(
        Repeat::new(vec![seg(3, 5, 6, 8), seg(0, 2, 10, 12)]).unwrap_err(),
        BuildError::NotNested
    );
    // Overlapping left ranges are refused.
    assert_eq!(
        Repeat::new(vec![seg(0, 4, 10, 14), seg(3, 5, 6, 8)]).unwrap_err(),
        BuildError::NotNested
    );
}

#[test]
fn repeat_derived_ranges() {
    let r = Repeat::new(vec![seg(0, 2, 10, 12), seg(3, 5, 6, 8)]).unwrap();
    assert_eq!(r.seqlen(), 8);
    assert_eq!(r.inner_gap(), 1);
    let lb = r.left_brange();
    assert_eq!((lb.start, lb.end), (0, 5));
    let rb = r.right_brange();
    assert_eq!((rb.start, rb.end), (6, 12));
    let b = r.brange();
    assert_eq!((b.start, b.end), (0, 12));

    let blocks = r.seqranges();
    let coords: Vec<(i64, i64)> = blocks.iter().map(|x| (x.start, x.end)).collect();
    assert_eq!(coords, vec![(0, 2), (3, 5), (6, 8), (10, 12)]);
    // Blocks are sorted and disjoint.
    for w in coords.windows(2) {
        assert!(w[0].1 <= w[1].0);
    }
}

#[test]
fn shift_roundtrip_restores_coordinates() {
    let mut r = Repeat::new(vec![seg(0, 2, 10, 12), seg(3, 5, 6, 8)]).unwrap();
    r.shift(7);
    let b = r.brange();
    assert_eq!((b.start, b.end), (7, 19));
    r.shift(-7);
    let b2 = r.brange();
    assert_eq!((b2.start, b2.end), (0, 12));
    let coords: Vec<(i64, i64)> =
        r.seqranges().iter().map(|x| (x.start, x.end)).collect();
    assert_eq!(coords, vec![(0, 2), (3, 5), (6, 8), (10, 12)]);

    // Negative shifts work symmetrically.
    let mut s = seg(5, 7, 9, 11);
    s.shift(-5);
    assert_eq!((s.left().start, s.right().end), (0, 6));
    s.shift(5);
    assert_eq!((s.left().start, s.right().end), (5, 11));
}
