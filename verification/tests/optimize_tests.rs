//! The selection optimizer and the coordinate index with its binary searches.

use repeto::optimize::index::left;
use repeto::optimize::index::right;
use repeto::optimize::index::Index;
use repeto::optimize::run;
use repeto::repeats::Repeat;
use repeto::repeats::Segment;

fn hairpin(l0: i64, l1: i64, r0: i64, r1: i64) -> Repeat {
    Repeat::new(vec![Segment::new(l0..l1, r0..r1).unwrap()]).unwrap()
}

#[test]
fn disjoint_candidates_all_selected() {
    let candidates = vec![
        hairpin(0, 2, 4, 6),
        hairpin(10, 12, 14, 16),
        hairpin(20, 22, 24, 26),
    ];
    let scores = vec![5, 1, 3];
    let (chosen, total) = run(&candidates, &scores);
    let mut ids = chosen.clone();
    ids.sort();
    assert_eq!(ids, vec![0, 1, 2]);
    assert_eq!(total, 9);
}

#[test]
fn overlapping_pair_keeps_higher_score() {
    // Two fully overlapping candidates: only the higher-scoring one stays.
    let candidates = vec![hairpin(0, 3, 5, 8), hairpin(1, 3, 5, 7)];
    let scores = vec![2, 7];
    let (chosen, total) = run(&candidates, &scores);
    assert_eq!(chosen, vec![1]);
    assert_eq!(total, 7);

    let scores2 = vec![7, 2];
    let (chosen2, total2) = run(&candidates, &scores2);
    assert_eq!(chosen2, vec![0]);
    assert_eq!(total2, 7);
}

#[test]
fn nested_candidates_are_compatible() {
    // One hairpin nested inside another's loop: their bounding ranges overlap
    // but their blocks are pairwise disjoint, so both are selected.
    let outer = hairpin(0, 2, 18, 20);
    let inner = hairpin(6, 8, 12, 14);
    let candidates = vec![outer, inner];
    let scores = vec![3, 9];
    let (chosen, total) = run(&candidates, &scores);
    let mut ids = chosen.clone();
    ids.sort();
    assert_eq!(ids, vec![0, 1]);
    assert_eq!(total, 12);
}

#[test]
fn partially_overlapping_blocks_conflict() {
    // Two candidates whose left arms overlap: a real conflict, so only the
    // higher-scoring one survives.
    let first = hairpin(0, 3, 10, 13);
    let second = hairpin(2, 5, 14, 17);
    let candidates = vec![first, second];
    let scores = vec![5, 4];
    let (chosen, total) = run(&candidates, &scores);
    assert_eq!(chosen, vec![0]);
    assert_eq!(total, 5);
}

#[test]
fn empty_candidate_list() {
    let (chosen, total) = run(&vec![], &vec![]);
    assert!(chosen.is_empty());
    assert_eq!(total, 0);
}

#[test]
fn chain_of_compatible_candidates() {
    // The middle candidate conflicts with both ends; the ends together win.
    let candidates = vec![
        hairpin(0, 2, 4, 6),
        hairpin(5, 7, 9, 11),
        hairpin(10, 12, 14, 16),
    ];
    let scores = vec![4, 5, 4];
    let (chosen, total) = run(&candidates, &scores);
    let mut ids = chosen.clone();
    ids.sort();
    assert_eq!(ids, vec![0, 2]);
    assert_eq!(total, 8);
}

#[test]
fn index_groups_and_binary_search_match_linear_scan() {
    let candidates = vec![
        hairpin(0, 2, 4, 6),   // bounds [0, 6)
        hairpin(0, 3, 5, 8),   // bounds [0, 8)
        hairpin(10, 12, 14, 16), // bounds [10, 16)
    ];
    let index = Index::new(&candidates);

    let starts = index.starts();
    assert_eq!(starts.len(), 2);
    assert_eq!(starts[0].pos, 0);
    assert_eq!(starts[0].repeats, vec![0, 1]);
    assert_eq!(starts[1].pos, 10);
    assert_eq!(starts[1].repeats, vec![2]);

    let ends = index.ends();
    let end_positions: Vec<i64> = ends.iter().map(|a| a.pos).collect();
    assert_eq!(end_positions, vec![6, 8, 16]);

    assert_eq!(index.revmap(0), (0, 0));
    assert_eq!(index.revmap(1), (0, 1));
    assert_eq!(index.revmap(2), (1, 2));

    let blocks0: Vec<(i64, i64)> = index.blocks(0).iter().map(|b| (b.start, b.end)).collect();
    assert_eq!(blocks0, vec![(0, 2), (4, 6)]);

    // Binary-search results agree with a brute-force linear scan.
    for pos in -1..20 {
        let lo = 0;
        let hi = ends.len();
        let r = right(ends, pos, lo, hi);
        let l = left(ends, pos, lo, hi);
        let linear_r = ends.iter().take_while(|a| a.pos <= pos).count();
        let linear_l = ends.iter().take_while(|a| a.pos < pos).count();
        assert_eq!(r, linear_r);
        assert_eq!(l, linear_l);
    }
    // Sub-range queries behave the same, restricted to the sub-range.
    assert_eq!(right(ends, 8, 1, 3), 2);
    assert_eq!(left(ends, 8, 1, 3), 1);
    assert_eq!(right(ends, 100, 2, 2), 2);
}
