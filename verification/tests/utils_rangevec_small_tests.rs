//! Tests for the RangeVec variants of the range algebra.

use rustowl::models::{Loc, Range, RangeVec, range_vec_from_vec};
use rustowl::utils::{eliminated_ranges_small, exclude_ranges_small};

fn r(from: u32, until: u32) -> Range {
    Range::new(Loc(from), Loc(until)).expect("valid range")
}

#[test]
fn exclude_ranges_small_basic() {
    let from: RangeVec = range_vec_from_vec(vec![r(1, 10)]);
    let out = exclude_ranges_small(from, vec![r(3, 7)]);
    assert_eq!(out.len(), 2);
    assert!(out.iter().any(|x| x.from() == Loc(1) && x.until() == Loc(2)));
    assert!(out.iter().any(|x| x.from() == Loc(8) && x.until() == Loc(10)));
}

#[test]
fn eliminated_ranges_small_merges_overlap_and_adjacency() {
    let rv: RangeVec = range_vec_from_vec(vec![r(4, 6), r(1, 4), r(10, 12), r(5, 8)]);
    let out = eliminated_ranges_small(rv);
    assert_eq!(out.len(), 2);
    assert_eq!((out[0].from(), out[0].until()), (Loc(1), Loc(8)));
    assert_eq!((out[1].from(), out[1].until()), (Loc(10), Loc(12)));
}
