//! Tests for the fact-to-range extraction.

use rustowl::analyze::{BorrowData, BorrowKind, BorrowMap, DataflowFacts, RichLocation, drop_range,
    get_accurate_live, get_borrow_live, get_must_live, get_range, rich_locations_to_ranges};
use rustowl::models::{Loc, MirBasicBlock, MirStatement, MirTerminator, Range};

fn stmt(from: u32, until: u32) -> MirStatement {
    MirStatement::Other { range: Range::new(Loc(from), Loc(until)).unwrap() }
}

fn term(from: u32, until: u32) -> MirTerminator {
    MirTerminator::Other { range: Range::new(Loc(from), Loc(until)).unwrap() }
}

fn block(stmt_ranges: &[(u32, u32)], term_range: Option<(u32, u32)>) -> MirBasicBlock {
    MirBasicBlock {
        statements: stmt_ranges.iter().map(|&(f, u)| stmt(f, u)).collect(),
        terminator: term_range.map(|(f, u)| term(f, u)),
    }
}

fn start(block: usize, statement_index: usize) -> RichLocation {
    RichLocation::Start { block, statement_index }
}

fn mid(block: usize, statement_index: usize) -> RichLocation {
    RichLocation::Mid { block, statement_index }
}

fn ranges_of(map: &[(u32, Vec<Range>)], key: u32) -> &Vec<Range> {
    &map.iter().find(|e| e.0 == key).expect("key present").1
}

fn empty_facts() -> DataflowFacts {
    DataflowFacts {
        var_live_on_entry: Vec::new(),
        var_drop_live_on_entry: Vec::new(),
        loan_live_at: Vec::new(),
        origin_live_on_entry: Vec::new(),
        subset: Vec::new(),
        origin_contains_loan_at: Vec::new(),
    }
}

#[test]
fn get_range_pairs_start_and_mid_happy_path() {
    // One basic block with three statements
    let bbs = vec![block(&[(0, 10), (10, 20), (20, 30)], Some((30, 40)))];

    // Local 1 is live at Start(0,1) and Mid(0,2)
    let table = vec![start(0, 1), mid(0, 2)];
    let live = vec![(0usize, vec![1u32]), (1usize, vec![1u32])];

    let res = get_range(&live, &table, &bbs);

    // Expect a single range from statement[1].from (10) to statement[2].until (30)
    let ranges = ranges_of(&res, 1);
    assert_eq!(ranges.len(), 1);
    assert_eq!(ranges[0].from(), Loc(10));
    assert_eq!(ranges[0].until(), Loc(30));
}

#[test]
fn get_range_truncates_when_counts_mismatch() {
    // Two starts but one mid; pairing truncates to one pair
    let bbs = vec![block(&[(0, 5), (5, 15), (15, 25)], Some((25, 30)))];

    let table = vec![start(0, 0), start(0, 1), mid(0, 2)];
    let live = vec![(0usize, vec![7u32]), (1usize, vec![7u32]), (2usize, vec![7u32])];

    let res = get_range(&live, &table, &bbs);
    let v = ranges_of(&res, 7);
    // Only one pair considered => one range from stmt[0].from (0) to stmt[2].until (25)
    assert_eq!(v.len(), 1);
    assert_eq!(v[0].from(), Loc(0));
    assert_eq!(v[0].until(), Loc(25));
}

#[test]
fn get_range_uses_terminator_when_statement_index_at_end() {
    // A reference beyond the last statement picks the terminator range
    let bbs = vec![block(&[(0, 3), (3, 6)], Some((6, 9)))];

    // Start at stmt index 1, Mid at stmt index 5 (beyond len=2) => use terminator
    let table = vec![start(0, 1), mid(0, 5)];
    let live = vec![(0usize, vec![2u32]), (1usize, vec![2u32])];

    let res = get_range(&live, &table, &bbs);
    let v = ranges_of(&res, 2);
    assert_eq!(v.len(), 1);
    assert_eq!(v[0].from(), Loc(3));
    assert_eq!(v[0].until(), Loc(9)); // picked from the terminator
}

#[test]
fn get_range_discards_invalid_ranges() {
    // A pair whose start begins after its mid ends yields no range
    let bbs = vec![block(&[(10, 20), (0, 5)], None)];

    let table = vec![start(0, 0), mid(0, 1)];
    let live = vec![(0usize, vec![3u32]), (1usize, vec![3u32])];

    let res = get_range(&live, &table, &bbs);
    let v = ranges_of(&res, 3);
    assert!(v.is_empty(), "non-positive pairs should be dropped");
}

#[test]
fn get_range_skips_unresolvable_location_indices() {
    let bbs = vec![block(&[(0, 10)], None)];
    let table = vec![start(0, 0), mid(0, 0)];
    // The third row points past the location table and contributes nothing.
    let live = vec![(0usize, vec![1u32]), (1usize, vec![1u32]), (9usize, vec![8u32])];

    let res = get_range(&live, &table, &bbs);
    assert!(res.iter().any(|e| e.0 == 1));
    assert!(!res.iter().any(|e| e.0 == 8));
}

#[test]
fn rich_locations_to_ranges_sorts_before_pairing() {
    let bbs = vec![block(&[(0, 10), (10, 20), (20, 30)], Some((30, 40)))];
    // Unsorted starts and mids for the same local
    let locs = vec![mid(0, 2), start(0, 1), mid(0, 0), start(0, 0)];
    let out = rich_locations_to_ranges(&bbs, &locs);
    // sorted starts: (0,0),(0,1); sorted mids: (0,0),(0,2)
    // pairs: [0,10) and [10,30)
    assert_eq!(out.len(), 2);
    assert_eq!((out[0].from(), out[0].until()), (Loc(0), Loc(10)));
    assert_eq!((out[1].from(), out[1].until()), (Loc(10), Loc(30)));
}

#[test]
fn get_accurate_live_and_drop_range_use_their_tables() {
    let bbs = vec![block(&[(0, 10), (10, 20)], None)];
    let table = vec![start(0, 0), mid(0, 1)];
    let mut facts = empty_facts();
    facts.var_live_on_entry = vec![(0, vec![1]), (1, vec![1])];
    facts.var_drop_live_on_entry = vec![(0, vec![2]), (1, vec![2])];

    let live = get_accurate_live(&facts, &table, &bbs);
    let v = ranges_of(&live, 1);
    assert_eq!(v.len(), 1);
    assert_eq!((v[0].from(), v[0].until()), (Loc(0), Loc(20)));
    assert!(!live.iter().any(|e| e.0 == 2));

    let dropped = drop_range(&facts, &table, &bbs);
    let v = ranges_of(&dropped, 2);
    assert_eq!(v.len(), 1);
    assert_eq!((v[0].from(), v[0].until()), (Loc(0), Loc(20)));
    assert!(!dropped.iter().any(|e| e.0 == 1));
}

#[test]
fn get_borrow_live_separates_shared_and_mutable() {
    let bbs = vec![block(&[(0, 10), (10, 20)], None)];
    let table = vec![start(0, 0), mid(0, 1)];
    let borrow_map = BorrowMap(vec![
        (0, BorrowData { owner: 5, kind: BorrowKind::Shared, borrowed: 1 }),
        (1, BorrowData { owner: 6, kind: BorrowKind::Mutable, borrowed: 2 }),
    ]);
    let mut facts = empty_facts();
    // Loan 0 (shared borrow of local 1) live at both points;
    // loan 1 (mutable borrow of local 2) live at both points.
    facts.loan_live_at = vec![(0, vec![0, 1]), (1, vec![0, 1])];

    let (shared, mutable) = get_borrow_live(&facts, &table, &borrow_map, &bbs);

    let v = ranges_of(&shared, 1);
    assert_eq!(v.len(), 1);
    assert_eq!((v[0].from(), v[0].until()), (Loc(0), Loc(20)));
    assert!(!shared.iter().any(|e| e.0 == 2));

    let v = ranges_of(&mutable, 2);
    assert_eq!(v.len(), 1);
    assert_eq!((v[0].from(), v[0].until()), (Loc(0), Loc(20)));
    assert!(!mutable.iter().any(|e| e.0 == 1));
}

#[test]
fn get_must_live_follows_the_subset_closure() {
    let bbs = vec![block(&[(0, 10), (10, 20)], None)];
    let table = vec![start(0, 0), mid(0, 1)];
    let borrow_map = BorrowMap(vec![
        (0, BorrowData { owner: 4, kind: BorrowKind::Shared, borrowed: 1 }),
    ]);
    let mut facts = empty_facts();
    // Region 10 holds loan 0 (owned by local 4).
    facts.origin_contains_loan_at = vec![(0, vec![(10, vec![0])])];
    // Region 11 is recorded as a subset of region 10.
    facts.subset = vec![(0, vec![(10, vec![11])])];
    // Region 11 is live on entry to locations 0 and 1.
    facts.origin_live_on_entry = vec![(0, vec![11]), (1, vec![11])];

    let must = get_must_live(&facts, &table, &borrow_map, &bbs);
    let v = ranges_of(&must, 4);
    assert_eq!(v.len(), 1);
    assert_eq!((v[0].from(), v[0].until()), (Loc(0), Loc(20)));
}

#[test]
fn get_must_live_follows_chains_of_subsets() {
    // A chain of subset facts: region 10 includes 11, region 11 includes 12,
    // and only region 12 is live.  The loan's owner must still be live
    // there: the closure is transitive.
    let bbs = vec![block(&[(0, 10), (10, 20)], None)];
    let table = vec![start(0, 0), mid(0, 1)];
    let borrow_map = BorrowMap(vec![
        (0, BorrowData { owner: 4, kind: BorrowKind::Shared, borrowed: 1 }),
    ]);
    let mut facts = empty_facts();
    facts.origin_contains_loan_at = vec![(0, vec![(10, vec![0])])];
    facts.subset = vec![(0, vec![(10, vec![11])]), (1, vec![(11, vec![12])])];
    facts.origin_live_on_entry = vec![(0, vec![12]), (1, vec![12])];

    let must = get_must_live(&facts, &table, &borrow_map, &bbs);
    let v = ranges_of(&must, 4);
    assert_eq!(v.len(), 1);
    assert_eq!((v[0].from(), v[0].until()), (Loc(0), Loc(20)));
}

#[test]
fn get_must_live_handles_subset_cycles() {
    // Cyclic subset facts must not hang the closure search.
    let bbs = vec![block(&[(0, 10)], None)];
    let table = vec![start(0, 0)];
    let borrow_map = BorrowMap(vec![
        (0, BorrowData { owner: 4, kind: BorrowKind::Shared, borrowed: 1 }),
    ]);
    let mut facts = empty_facts();
    facts.origin_contains_loan_at = vec![(0, vec![(10, vec![0])])];
    facts.subset = vec![(0, vec![(10, vec![11]), (11, vec![10])])];
    facts.origin_live_on_entry = vec![(0, vec![99])];

    let must = get_must_live(&facts, &table, &borrow_map, &bbs);
    assert!(must.is_empty());
}

#[test]
fn pairing_counts_report_lossy_pairings() {
    let table = vec![start(0, 0), start(0, 1), mid(0, 2)];
    let live = vec![(0usize, vec![7u32]), (1usize, vec![7u32]), (2usize, vec![7u32])];
    let (starts, mids) = rustowl::analyze::pairing_counts(&live, &table, 7);
    assert_eq!(starts, 2);
    assert_eq!(mids, 1);
}

#[test]
fn get_must_live_without_subset_facts_yields_nothing() {
    let bbs = vec![block(&[(0, 10)], None)];
    let table = vec![start(0, 0)];
    let borrow_map = BorrowMap(vec![
        (0, BorrowData { owner: 4, kind: BorrowKind::Shared, borrowed: 1 }),
    ]);
    let mut facts = empty_facts();
    facts.origin_contains_loan_at = vec![(0, vec![(10, vec![0])])];
    // No subset facts: the region reaches no location.
    facts.origin_live_on_entry = vec![(0, vec![10])];

    let must = get_must_live(&facts, &table, &borrow_map, &bbs);
    assert!(must.is_empty());
}
