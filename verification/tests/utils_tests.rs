//! Tests for the interval algebra and position conversion in utils.

use rustowl::models::{Loc, Range, range_vec_from_vec};
use rustowl::utils::{common_range, common_ranges, eliminated_ranges, exclude_ranges,
    exclude_ranges_small, index_to_line_char, is_super_range, line_char_to_index, merge_ranges};

#[test]
fn test_is_super_range() {
    let r1 = Range::new(Loc(0), Loc(10)).unwrap();
    let r2 = Range::new(Loc(2), Loc(8)).unwrap();
    let r3 = Range::new(Loc(5), Loc(15)).unwrap();

    assert!(is_super_range(r1, r2)); // r1 contains r2
    assert!(!is_super_range(r2, r1)); // r2 doesn't contain r1
    assert!(!is_super_range(r1, r3)); // r1 doesn't fully contain r3
    assert!(!is_super_range(r3, r1)); // r3 doesn't contain r1
}

#[test]
fn test_common_range() {
    let r1 = Range::new(Loc(0), Loc(10)).unwrap();
    let r2 = Range::new(Loc(5), Loc(15)).unwrap();
    let r3 = Range::new(Loc(20), Loc(30)).unwrap();

    // Overlapping ranges
    let common = common_range(r1, r2).unwrap();
    assert_eq!(common.from(), Loc(5));
    assert_eq!(common.until(), Loc(10));

    // Non-overlapping ranges
    assert!(common_range(r1, r3).is_none());

    // Order shouldn't matter
    let common2 = common_range(r2, r1).unwrap();
    assert_eq!(common, common2);
}

#[test]
fn test_merge_ranges() {
    let r1 = Range::new(Loc(0), Loc(10)).unwrap();
    let r2 = Range::new(Loc(5), Loc(15)).unwrap();
    let r3 = Range::new(Loc(10), Loc(20)).unwrap(); // Adjacent
    let r4 = Range::new(Loc(25), Loc(30)).unwrap(); // Disjoint

    // Overlapping ranges should merge
    let merged = merge_ranges(r1, r2).unwrap();
    assert_eq!(merged.from(), Loc(0));
    assert_eq!(merged.until(), Loc(15));

    // Adjacent ranges should merge
    let merged = merge_ranges(r1, r3).unwrap();
    assert_eq!(merged.from(), Loc(0));
    assert_eq!(merged.until(), Loc(20));

    // Disjoint ranges shouldn't merge
    assert!(merge_ranges(r1, r4).is_none());
}

#[test]
fn test_eliminated_ranges() {
    let ranges = vec![
        Range::new(Loc(0), Loc(10)).unwrap(),
        Range::new(Loc(5), Loc(15)).unwrap(),
        Range::new(Loc(12), Loc(20)).unwrap(),
        Range::new(Loc(25), Loc(30)).unwrap(),
    ];

    let eliminated = eliminated_ranges(ranges);
    assert_eq!(eliminated.len(), 2);

    // Should have merged the overlapping ranges
    assert!(
        eliminated
            .iter()
            .any(|r| r.from() == Loc(0) && r.until() == Loc(20))
    );
    assert!(
        eliminated
            .iter()
            .any(|r| r.from() == Loc(25) && r.until() == Loc(30))
    );
}

#[test]
fn test_exclude_ranges() {
    let from = vec![Range::new(Loc(0), Loc(20)).unwrap()];
    let excludes = vec![Range::new(Loc(5), Loc(15)).unwrap()];

    let result = exclude_ranges(from, excludes);

    // Should split the original range around the exclusion
    assert_eq!(result.len(), 2);
    assert!(
        result
            .iter()
            .any(|r| r.from() == Loc(0) && r.until() == Loc(4))
    );
    assert!(
        result
            .iter()
            .any(|r| r.from() == Loc(16) && r.until() == Loc(20))
    );
}

#[test]
fn test_index_to_line_char() {
    let source = "hello\nworld\ntest";

    assert_eq!(index_to_line_char(source, Loc(0)), (0, 0)); // 'h'
    assert_eq!(index_to_line_char(source, Loc(6)), (1, 0)); // 'w'
    assert_eq!(index_to_line_char(source, Loc(12)), (2, 0)); // 't'
}

#[test]
fn test_line_char_to_index() {
    let source = "hello\nworld\ntest";

    assert_eq!(line_char_to_index(source, 0, 0), 0); // 'h'
    assert_eq!(line_char_to_index(source, 1, 0), 6); // 'w'
    assert_eq!(line_char_to_index(source, 2, 0), 12); // 't'
}

#[test]
fn test_index_line_char_roundtrip() {
    let source = "hello\nworld\ntest\nwith unicode: 🦀";

    for i in 0..source.chars().count() {
        let loc = Loc(i as u32);
        let (line, char) = index_to_line_char(source, loc);
        let back_to_index = line_char_to_index(source, line, char);
        assert_eq!(loc.0, back_to_index);
    }
}

#[test]
fn test_common_ranges_multiple() {
    let ranges = vec![
        Range::new(Loc(0), Loc(10)).unwrap(),
        Range::new(Loc(5), Loc(15)).unwrap(),
        Range::new(Loc(8), Loc(12)).unwrap(),
        Range::new(Loc(20), Loc(30)).unwrap(),
    ];

    let common = common_ranges(&ranges);

    // Should find overlaps between the first three ranges, merged
    assert!(!common.is_empty());

    // Verify there's overlap in the 5-12 region
    assert!(common.iter().any(|r| r.from().0 >= 5 && r.until().0 <= 12));
}

#[test]
fn test_excluded_ranges_small() {
    let from = range_vec_from_vec(vec![Range::new(Loc(0), Loc(20)).unwrap()]);
    let excludes = vec![Range::new(Loc(5), Loc(15)).unwrap()];

    let result = exclude_ranges_small(from, excludes);

    // Should split the original range around the exclusion
    assert_eq!(result.len(), 2);
    assert!(
        result
            .iter()
            .any(|r| r.from() == Loc(0) && r.until() == Loc(4))
    );
    assert!(
        result
            .iter()
            .any(|r| r.from() == Loc(16) && r.until() == Loc(20))
    );
}

#[test]
fn test_index_line_char_with_carriage_returns() {
    // CR characters are ignored, matching the compiler's view of the text
    let source_with_cr = "hello\r\nworld\r\ntest";
    let source_without_cr = "hello\nworld\ntest";

    // Both should give the same line/char results
    let loc = Loc(8); // Should be 'r' in "world"
    let (line_cr, char_cr) = index_to_line_char(source_with_cr, loc);
    let (line_no_cr, char_no_cr) = index_to_line_char(source_without_cr, loc);

    assert_eq!(line_cr, line_no_cr);
    assert_eq!(char_cr, char_no_cr);

    // Test conversion back
    let back_cr = line_char_to_index(source_with_cr, line_cr, char_cr);
    let back_no_cr = line_char_to_index(source_without_cr, line_no_cr, char_no_cr);

    assert_eq!(back_cr, back_no_cr);
}

#[test]
fn line_char_to_index_out_of_bounds_positions() {
    let source = "a\nb\nc";

    // A line past the end of the text yields the total character count
    let result = line_char_to_index(source, 10, 0);
    assert_eq!(result, source.chars().count() as u32);

    // A column past the end of a line stops at that line's newline
    let result = line_char_to_index(source, 0, 10);
    assert_eq!(result, 1);
    let result = line_char_to_index(source, 1, 10);
    assert_eq!(result, 3);
}

#[test]
fn test_is_super_range_edge_cases() {
    let r1 = Range::new(Loc(0), Loc(10)).unwrap();
    let r2 = Range::new(Loc(0), Loc(10)).unwrap(); // Identical ranges

    // Identical ranges are not super ranges of each other
    assert!(!is_super_range(r1, r2));
    assert!(!is_super_range(r2, r1));

    let r3 = Range::new(Loc(0), Loc(5)).unwrap(); // Same start, shorter
    let r4 = Range::new(Loc(5), Loc(10)).unwrap(); // Same end, later start

    assert!(is_super_range(r1, r3)); // r1 contains r3 (same start, extends further)
    assert!(is_super_range(r1, r4)); // r1 contains r4 (starts earlier, same end)
    assert!(!is_super_range(r3, r1));
    assert!(!is_super_range(r4, r1));
}

#[test]
fn test_common_range_edge_cases() {
    let r1 = Range::new(Loc(0), Loc(5)).unwrap();
    let r2 = Range::new(Loc(5), Loc(10)).unwrap(); // Adjacent ranges

    // Adjacent ranges don't overlap
    assert!(common_range(r1, r2).is_none());

    let r3 = Range::new(Loc(0), Loc(10)).unwrap();
    let r4 = Range::new(Loc(2), Loc(8)).unwrap(); // r4 inside r3

    let common = common_range(r3, r4).unwrap();
    assert_eq!(common, r4); // Common range should be the smaller one
}

#[test]
fn test_merge_ranges_edge_cases() {
    let r1 = Range::new(Loc(0), Loc(5)).unwrap();
    let r2 = Range::new(Loc(5), Loc(10)).unwrap(); // Adjacent

    // Adjacent ranges should merge
    let merged = merge_ranges(r1, r2).unwrap();
    assert_eq!(merged.from(), Loc(0));
    assert_eq!(merged.until(), Loc(10));

    // Order shouldn't matter for merging
    let merged2 = merge_ranges(r2, r1).unwrap();
    assert_eq!(merged, merged2);

    // Identical ranges should merge to themselves
    let merged3 = merge_ranges(r1, r1).unwrap();
    assert_eq!(merged3, r1);
}

#[test]
fn test_eliminated_ranges_complex() {
    // Test with overlapping and adjacent ranges
    let ranges = vec![
        Range::new(Loc(0), Loc(5)).unwrap(),
        Range::new(Loc(3), Loc(8)).unwrap(), // Overlaps with first
        Range::new(Loc(8), Loc(12)).unwrap(), // Adjacent to second
        Range::new(Loc(15), Loc(20)).unwrap(), // Separate
        Range::new(Loc(18), Loc(25)).unwrap(), // Overlaps with fourth
    ];

    let eliminated = eliminated_ranges(ranges);

    // Should merge 0-12 and 15-25
    assert_eq!(eliminated.len(), 2);

    let has_first_merged = eliminated
        .iter()
        .any(|r| r.from() == Loc(0) && r.until() == Loc(12));
    let has_second_merged = eliminated
        .iter()
        .any(|r| r.from() == Loc(15) && r.until() == Loc(25));

    assert!(has_first_merged);
    assert!(has_second_merged);
}

#[test]
fn test_exclude_ranges_complex() {
    // Test excluding multiple ranges
    let from = vec![
        Range::new(Loc(0), Loc(30)).unwrap(),
        Range::new(Loc(50), Loc(80)).unwrap(),
    ];

    let excludes = vec![
        Range::new(Loc(10), Loc(15)).unwrap(),
        Range::new(Loc(20), Loc(25)).unwrap(),
        Range::new(Loc(60), Loc(70)).unwrap(),
    ];

    let result = exclude_ranges(from, excludes.clone());

    // Should create multiple fragments
    assert!(result.len() >= 4);

    // Check that none of the result ranges overlap with excludes
    for result_range in &result {
        for exclude_range in &excludes {
            assert!(common_range(*result_range, *exclude_range).is_none());
        }
    }
}

#[test]
fn test_unicode_handling() {
    let source = "Hello 🦀 Rust 🌍 World";

    // Test various positions including unicode boundaries
    for i in 0..source.chars().count() {
        let loc = Loc(i as u32);
        let (line, char) = index_to_line_char(source, loc);
        let back = line_char_to_index(source, line, char);
        assert_eq!(loc.0, back);
    }

    // Test specific unicode character position
    let crab_pos = source.chars().position(|c| c == '🦀').unwrap() as u32;
    let (line, char) = index_to_line_char(source, Loc(crab_pos));
    assert_eq!(line, 0); // Should be on first line
    assert!(char > 0); // Should be after "Hello "
}

#[test]
fn is_super_range_true_strict_and_equal_edges() {
    // r1 strictly contains r2
    let r1 = Range::new(Loc(10), Loc(30)).unwrap();
    let r2 = Range::new(Loc(12), Loc(20)).unwrap();
    assert!(is_super_range(r1, r2));

    // r1 starts equal and ends after
    let r1 = Range::new(Loc(10), Loc(30)).unwrap();
    let r2 = Range::new(Loc(10), Loc(29)).unwrap();
    assert!(is_super_range(r1, r2));

    // r1 ends equal and starts before
    let r1 = Range::new(Loc(10), Loc(30)).unwrap();
    let r2 = Range::new(Loc(11), Loc(30)).unwrap();
    assert!(is_super_range(r1, r2));
}

#[test]
fn is_super_range_false_when_equal_or_outside() {
    // Equal ranges are NOT super (no strict containment in either disjunct)
    let r1 = Range::new(Loc(10), Loc(20)).unwrap();
    let r2 = Range::new(Loc(10), Loc(20)).unwrap();
    assert!(!is_super_range(r1, r2));

    // Overlap but not contained
    let r1 = Range::new(Loc(10), Loc(20)).unwrap();
    let r2 = Range::new(Loc(15), Loc(25)).unwrap();
    assert!(!is_super_range(r1, r2));

    // Disjoint
    let r1 = Range::new(Loc(0), Loc(5)).unwrap();
    let r2 = Range::new(Loc(6), Loc(10)).unwrap();
    assert!(!is_super_range(r1, r2));
}

#[test]
fn common_range_overlaps_and_disjoint() {
    // Overlap
    let a = Range::new(Loc(10), Loc(20)).unwrap();
    let b = Range::new(Loc(15), Loc(30)).unwrap();
    let c = common_range(a, b).expect("should overlap");
    assert_eq!(c.from(), Loc(15));
    assert_eq!(c.until(), Loc(20));

    // Swapped argument order should be handled internally
    let c2 = common_range(b, a).expect("should overlap swapped");
    assert_eq!(c2.from(), Loc(15));
    assert_eq!(c2.until(), Loc(20));

    // Disjoint where a ends before b starts
    let a = Range::new(Loc(0), Loc(5)).unwrap();
    let b = Range::new(Loc(6), Loc(10)).unwrap();
    assert!(common_range(a, b).is_none());
}

#[test]
fn common_ranges_pairwise_collection_and_elimination() {
    // Pairwise intersections kept as non-overlapping sorted ranges
    let ranges = vec![
        Range::new(Loc(0), Loc(10)).unwrap(),
        Range::new(Loc(5), Loc(15)).unwrap(),
        Range::new(Loc(12), Loc(20)).unwrap(),
        Range::new(Loc(21), Loc(25)).unwrap(),
    ];
    let result = common_ranges(&ranges);
    assert_eq!(result.len(), 2);
    assert_eq!(result[0], Range::new(Loc(5), Loc(10)).unwrap());
    assert_eq!(result[1], Range::new(Loc(12), Loc(15)).unwrap());
}

#[test]
fn merge_ranges_overlapping_adjacent_and_disjoint() {
    // Overlapping
    assert_eq!(
        merge_ranges(
            Range::new(Loc(0), Loc(10)).unwrap(),
            Range::new(Loc(5), Loc(15)).unwrap()
        ),
        Some(Range::new(Loc(0), Loc(15)).unwrap())
    );
    // Adjacent (touching end->start)
    assert_eq!(
        merge_ranges(
            Range::new(Loc(0), Loc(10)).unwrap(),
            Range::new(Loc(10), Loc(20)).unwrap()
        ),
        Some(Range::new(Loc(0), Loc(20)).unwrap())
    );
    assert_eq!(
        merge_ranges(
            Range::new(Loc(10), Loc(20)).unwrap(),
            Range::new(Loc(0), Loc(10)).unwrap()
        ),
        Some(Range::new(Loc(0), Loc(20)).unwrap())
    );
    // Disjoint
    assert_eq!(
        merge_ranges(
            Range::new(Loc(0), Loc(5)).unwrap(),
            Range::new(Loc(7), Loc(9)).unwrap()
        ),
        None
    );
}

#[test]
fn eliminated_ranges_is_idempotent_on_samples() {
    let samples = vec![
        vec![
            Range::new(Loc(0), Loc(10)).unwrap(),
            Range::new(Loc(5), Loc(15)).unwrap(),
            Range::new(Loc(12), Loc(20)).unwrap(),
            Range::new(Loc(25), Loc(30)).unwrap(),
        ],
        vec![
            Range::new(Loc(3), Loc(4)).unwrap(),
            Range::new(Loc(1), Loc(2)).unwrap(),
            Range::new(Loc(2), Loc(3)).unwrap(),
        ],
        vec![],
    ];
    for ranges in samples {
        let once = eliminated_ranges(ranges);
        let twice = eliminated_ranges(once.clone());
        assert_eq!(once, twice);
    }
}

#[test]
fn eliminated_ranges_output_is_disjoint_and_sorted() {
    let ranges = vec![
        Range::new(Loc(8), Loc(12)).unwrap(),
        Range::new(Loc(0), Loc(5)).unwrap(),
        Range::new(Loc(3), Loc(8)).unwrap(),
        Range::new(Loc(40), Loc(50)).unwrap(),
        Range::new(Loc(20), Loc(30)).unwrap(),
    ];
    let out = eliminated_ranges(ranges);
    for w in out.windows(2) {
        // Strictly apart: neither overlapping nor adjacent
        assert!(w[0].until().0 < w[1].from().0);
    }
}

#[test]
fn exclude_ranges_output_never_intersects_excludes() {
    let from = vec![
        Range::new(Loc(0), Loc(100)).unwrap(),
        Range::new(Loc(150), Loc(200)).unwrap(),
    ];
    let excludes = vec![
        Range::new(Loc(10), Loc(20)).unwrap(),
        Range::new(Loc(15), Loc(40)).unwrap(),
        Range::new(Loc(160), Loc(170)).unwrap(),
        Range::new(Loc(90), Loc(155)).unwrap(),
    ];
    let out = exclude_ranges(from, excludes.clone());
    for r in &out {
        for e in &excludes {
            assert!(common_range(*r, *e).is_none());
        }
    }
}

#[test]
fn position_round_trip_on_crlf_and_lf_variants() {
    let lf = "alpha\nbeta gamma\n\ndelta";
    let crlf = "alpha\r\nbeta gamma\r\n\r\ndelta";
    for i in 0..lf.chars().count() as u32 {
        let (l1, c1) = index_to_line_char(lf, Loc(i));
        let (l2, c2) = index_to_line_char(crlf, Loc(i));
        assert_eq!((l1, c1), (l2, c2));
        assert_eq!(line_char_to_index(lf, l1, c1), i);
        assert_eq!(line_char_to_index(crlf, l2, c2), i);
    }
}
