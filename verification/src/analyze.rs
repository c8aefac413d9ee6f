//! Fact-to-range extraction: turns the location-indexed fact tables produced
//! by an external borrow-checking dataflow engine into per-local sets of
//! source ranges.
//!
//! The engine hands over, per function body, a location table mapping
//! abstract location indices to start or mid points of statements, together
//! with liveness, loan-liveness, and region-subset facts.  Everything here is
//! plain data: the extraction logic itself does not depend on the engine.

use crate::models::{Loc, MirBasicBlock, MirDecl, Range, spec_range};
use crate::utils::{eliminated_ranges, spec_eliminated, valid_ranges};
use vstd::prelude::*;

verus! {

broadcast use crate::models::lemma_spec_range;

/// A resolved dataflow location: the start or mid point of one statement
/// (or terminator) of one basic block.
#[derive(Clone, Copy, PartialEq, Eq, Structural, Debug)]
pub enum RichLocation {
    /// The point just before the statement takes effect.
    Start { block: usize, statement_index: usize },
    /// The point in the middle of the statement's effect.
    Mid { block: usize, statement_index: usize },
}

impl RichLocation {
    /// The (block, statement) coordinates, regardless of start or mid.
    pub open spec fn spec_coords(self) -> (usize, usize) {
        match self {
            RichLocation::Start { block, statement_index } => (block, statement_index),
            RichLocation::Mid { block, statement_index } => (block, statement_index),
        }
    }

    /// Whether this is a start point.
    pub open spec fn spec_is_start(self) -> bool {
        self is Start
    }
}

/// Statement-position order: by block, then by statement index.
pub open spec fn loc_leq(a: (usize, usize), b: (usize, usize)) -> bool {
    a.0 < b.0 || (a.0 == b.0 && a.1 <= b.1)
}

/// [`loc_leq`] as a first-class spec function.
pub open spec fn loc_order() -> spec_fn((usize, usize), (usize, usize)) -> bool {
    |a: (usize, usize), b: (usize, usize)| loc_leq(a, b)
}

/// The statement-position order is total.
pub proof fn lemma_loc_order_total()
    ensures
        vstd::relations::total_ordering(loc_order()),
{
}

/// The start points among `locs`, in order.
pub open spec fn starts_of(locs: Seq<RichLocation>) -> Seq<(usize, usize)>
    decreases locs.len(),
{
    if locs.len() == 0 {
        Seq::empty()
    } else {
        let head = if locs[0].spec_is_start() {
            seq![locs[0].spec_coords()]
        } else {
            Seq::<(usize, usize)>::empty()
        };
        head + starts_of(locs.drop_first())
    }
}

/// The mid points among `locs`, in order.
pub open spec fn mids_of(locs: Seq<RichLocation>) -> Seq<(usize, usize)>
    decreases locs.len(),
{
    if locs.len() == 0 {
        Seq::empty()
    } else {
        let head = if !locs[0].spec_is_start() {
            seq![locs[0].spec_coords()]
        } else {
            Seq::<(usize, usize)>::empty()
        };
        head + mids_of(locs.drop_first())
    }
}

/// The source range of the statement at the given coordinates: the indexed
/// statement when it exists, the block's terminator when the index points
/// past the statement list, nothing when the block does not exist or the
/// terminator is missing.
pub open spec fn spec_stmt_range(bbs: Seq<MirBasicBlock>, at: (usize, usize)) -> Option<Range> {
    if at.0 < bbs.len() {
        let bb = bbs[at.0 as int];
        if at.1 < bb.statements@.len() {
            Some(bb.statements@[at.1 as int].spec_range())
        } else {
            match bb.terminator {
                Some(t) => Some(t.spec_range()),
                None => None,
            }
        }
    } else {
        None
    }
}

/// The ranges formed by pairing the i-th start with the i-th mid: each pair
/// spans from the start statement's beginning to the mid statement's end.
/// Unequal list lengths truncate to the shorter list; pairs that resolve to
/// no statement or to a non-positive width contribute nothing.
pub open spec fn paired_ranges(
    bbs: Seq<MirBasicBlock>,
    ss: Seq<(usize, usize)>,
    ms: Seq<(usize, usize)>,
) -> Seq<Range>
    decreases ss.len(),
{
    if ss.len() == 0 || ms.len() == 0 {
        Seq::empty()
    } else {
        let head = match (spec_stmt_range(bbs, ss[0]), spec_stmt_range(bbs, ms[0])) {
            (Some(s), Some(m)) => {
                if s.from().0 < m.until().0 {
                    seq![spec_range(s.from(), m.until())]
                } else {
                    Seq::<Range>::empty()
                }
            },
            _ => Seq::<Range>::empty(),
        };
        head + paired_ranges(bbs, ss.drop_first(), ms.drop_first())
    }
}

/// The normalized range set a list of rich locations resolves to.
pub open spec fn local_range_set(bbs: Seq<MirBasicBlock>, locs: Seq<RichLocation>) -> Seq<Range> {
    spec_eliminated(
        paired_ranges(
            bbs,
            starts_of(locs).sort_by(loc_order()),
            mids_of(locs).sort_by(loc_order()),
        ),
    )
}

/// Resolves statement coordinates to the statement's source range,
/// substituting the terminator's range past the end of the statement list.
fn stmt_location_to_range(basic_blocks: &[MirBasicBlock], at: (usize, usize)) -> (r: Option<Range>)
    ensures
        r == spec_stmt_range(basic_blocks@, at),
{
    if at.0 < basic_blocks.len() {
        let bb = &basic_blocks[at.0];
        if at.1 < bb.statements.len() {
            Some(bb.statements[at.1].range())
        } else {
            match &bb.terminator {
                Some(t) => Some(t.range()),
                None => None,
            }
        }
    } else {
        None
    }
}

/// Compares two statement positions: by block, then statement index.
fn loc_leq_exec(a: (usize, usize), b: (usize, usize)) -> (r: bool)
    ensures
        r == loc_leq(a, b),
{
    a.0 < b.0 || (a.0 == b.0 && a.1 <= b.1)
}

/// Merges two sorted position lists into one sorted list.
fn merge_sorted_locs(a: Vec<(usize, usize)>, b: Vec<(usize, usize)>) -> (r: Vec<(usize, usize)>)
    requires
        vstd::relations::sorted_by(a@, loc_order()),
        vstd::relations::sorted_by(b@, loc_order()),
    ensures
        vstd::relations::sorted_by(r@, loc_order()),
        r@.to_multiset() == a@.to_multiset().add(b@.to_multiset()),
{
    broadcast use vstd::seq_lib::group_to_multiset_ensures;
    broadcast use vstd::multiset::group_multiset_axioms;

    let na = a.len();
    let nb = b.len();
    let mut out: Vec<(usize, usize)> = Vec::new();
    let mut i: usize = 0;
    let mut j: usize = 0;
    proof {
        assert(a@.skip(0) =~= a@);
        assert(b@.skip(0) =~= b@);
        assert(out@.to_multiset().add(a@.skip(0).to_multiset()).add(b@.skip(0).to_multiset())
            =~= a@.to_multiset().add(b@.to_multiset()));
    }
    while i < na || j < nb
        invariant
            0 <= i <= na,
            0 <= j <= nb,
            na == a@.len(),
            nb == b@.len(),
            vstd::relations::sorted_by(a@, loc_order()),
            vstd::relations::sorted_by(b@, loc_order()),
            vstd::relations::sorted_by(out@, loc_order()),
            out@.to_multiset().add(a@.skip(i as int).to_multiset()).add(
                b@.skip(j as int).to_multiset(),
            ) == a@.to_multiset().add(b@.to_multiset()),
            forall|u: int, w: int|
                0 <= u < out@.len() && i <= w < a@.len() ==> loc_leq(
                    #[trigger] out@[u],
                    #[trigger] a@[w],
                ),
            forall|u: int, w: int|
                0 <= u < out@.len() && j <= w < b@.len() ==> loc_leq(
                    #[trigger] out@[u],
                    #[trigger] b@[w],
                ),
        decreases na + nb - i - j,
    {
        let take_a = if i >= na {
            false
        } else if j >= nb {
            true
        } else {
            loc_leq_exec(a[i], b[j])
        };
        let ghost out_before = out@;
        if take_a {
            let x = a[i];
            proof {
                broadcast use vstd::seq_lib::group_to_multiset_ensures;
                broadcast use vstd::multiset::group_multiset_axioms;

                let u = a@.skip(i as int);
                assert(u[0] == a@[i as int]);
                assert(u.remove(0) =~= a@.skip(i as int + 1));
                assert(u.to_multiset().contains(x));
                assert(a@.skip(i as int + 1).to_multiset() =~= u.to_multiset().remove(x));
                assert(out_before.push(x).to_multiset().add(
                    a@.skip(i as int + 1).to_multiset(),
                ).add(b@.skip(j as int).to_multiset()) =~= out_before.to_multiset().add(
                    u.to_multiset(),
                ).add(b@.skip(j as int).to_multiset()));
            }
            out.push(x);
            proof {
                assert(out@ == out_before.push(x));
                assert forall|u2: int, w: int|
                    0 <= u2 < out@.len() && i + 1 <= w < a@.len() implies loc_leq(
                    #[trigger] out@[u2],
                    #[trigger] a@[w],
                ) by {
                    if u2 < out_before.len() {
                        assert(out@[u2] == out_before[u2]);
                    } else {
                        assert(out@[u2] == x);
                        assert(loc_order()(a@[i as int], a@[w]));
                    }
                }
                assert forall|u2: int, w: int|
                    0 <= u2 < out@.len() && j <= w < b@.len() implies loc_leq(
                    #[trigger] out@[u2],
                    #[trigger] b@[w],
                ) by {
                    if u2 < out_before.len() {
                        assert(out@[u2] == out_before[u2]);
                    } else {
                        assert(out@[u2] == x);
                        if w > j as int {
                            assert(loc_order()(b@[j as int], b@[w]));
                        }
                    }
                }
                assert forall|u2: int, w: int|
                    0 <= u2 < w < out@.len() implies #[trigger] loc_order()(
                    out@[u2],
                    out@[w],
                ) by {
                    if w < out_before.len() {
                        assert(loc_order()(out_before[u2], out_before[w]));
                    } else {
                        assert(out@[w] == x && out@[u2] == out_before[u2]);
                        assert(loc_leq(out_before[u2], a@[i as int]));
                    }
                }
            }
            i = i + 1;
        } else {
            let x = b[j];
            proof {
                broadcast use vstd::seq_lib::group_to_multiset_ensures;
                broadcast use vstd::multiset::group_multiset_axioms;

                let u = b@.skip(j as int);
                assert(u[0] == b@[j as int]);
                assert(u.remove(0) =~= b@.skip(j as int + 1));
                assert(u.to_multiset().contains(x));
                assert(b@.skip(j as int + 1).to_multiset() =~= u.to_multiset().remove(x));
                assert(out_before.push(x).to_multiset().add(
                    a@.skip(i as int).to_multiset(),
                ).add(b@.skip(j as int + 1).to_multiset()) =~= out_before.to_multiset().add(
                    a@.skip(i as int).to_multiset(),
                ).add(u.to_multiset()));
            }
            out.push(x);
            proof {
                assert(out@ == out_before.push(x));
                assert forall|u2: int, w: int|
                    0 <= u2 < out@.len() && i <= w < a@.len() implies loc_leq(
                    #[trigger] out@[u2],
                    #[trigger] a@[w],
                ) by {
                    if u2 < out_before.len() {
                        assert(out@[u2] == out_before[u2]);
                    } else {
                        assert(out@[u2] == x);
                        assert(loc_leq(b@[j as int], a@[i as int]));
                        if w > i as int {
                            assert(loc_order()(a@[i as int], a@[w]));
                        }
                    }
                }
                assert forall|u2: int, w: int|
                    0 <= u2 < out@.len() && j + 1 <= w < b@.len() implies loc_leq(
                    #[trigger] out@[u2],
                    #[trigger] b@[w],
                ) by {
                    if u2 < out_before.len() {
                        assert(out@[u2] == out_before[u2]);
                    } else {
                        assert(out@[u2] == x);
                        assert(loc_order()(b@[j as int], b@[w]));
                    }
                }
                assert forall|u2: int, w: int|
                    0 <= u2 < w < out@.len() implies #[trigger] loc_order()(
                    out@[u2],
                    out@[w],
                ) by {
                    if w < out_before.len() {
                        assert(loc_order()(out_before[u2], out_before[w]));
                    } else {
                        assert(out@[w] == x && out@[u2] == out_before[u2]);
                        assert(loc_leq(out_before[u2], b@[j as int]));
                    }
                }
            }
            j = j + 1;
        }
    }
    proof {
        assert(a@.skip(na as int).to_multiset() =~= vstd::multiset::Multiset::empty());
        assert(b@.skip(nb as int).to_multiset() =~= vstd::multiset::Multiset::empty());
        assert(out@.to_multiset() =~= a@.to_multiset().add(b@.to_multiset()));
    }
    out
}

/// Sorts statement positions: merge sort, splitting in halves and merging
/// the sorted halves.
fn merge_sort_locs(v: Vec<(usize, usize)>) -> (r: Vec<(usize, usize)>)
    ensures
        vstd::relations::sorted_by(r@, loc_order()),
        r@.to_multiset() == v@.to_multiset(),
    decreases v.len(),
{
    broadcast use vstd::seq_lib::group_to_multiset_ensures;

    if v.len() <= 1 {
        return v;
    }
    let ghost orig = v@;
    let mut v = v;
    let mid = v.len() / 2;
    let right = v.split_off(mid);
    proof {
        assert(orig =~= v@ + right@);
        vstd::seq_lib::lemma_multiset_commutative(v@, right@);
    }
    let left_sorted = merge_sort_locs(v);
    let right_sorted = merge_sort_locs(right);
    merge_sorted_locs(left_sorted, right_sorted)
}

/// Sorts statement positions by block, then statement index.
pub fn sort_locs(v: Vec<(usize, usize)>) -> (r: Vec<(usize, usize)>)
    ensures
        r@ == v@.sort_by(loc_order()),
{
    broadcast use vstd::seq_lib::group_to_multiset_ensures;

    let ghost orig = v@;
    let out = merge_sort_locs(v);
    proof {
        lemma_loc_order_total();
        orig.lemma_sort_by_ensures(loc_order());
        vstd::seq_lib::lemma_sorted_unique(out@, orig.sort_by(loc_order()), loc_order());
    }
    out
}

/// Converts a list of rich locations to source ranges.
///
/// Start and mid points are separated, each list is sorted by statement
/// position, and the i-th start is paired with the i-th mid to span one
/// range.  Unequal counts truncate to the shorter list; unresolvable or
/// non-positive pairs are dropped.
pub fn rich_locations_to_ranges(basic_blocks: &[MirBasicBlock], locations: &[RichLocation]) -> (r:
    Vec<Range>)
    ensures
        r@ == paired_ranges(
            basic_blocks@,
            starts_of(locations@).sort_by(loc_order()),
            mids_of(locations@).sort_by(loc_order()),
        ),
        valid_ranges(r@),
{
    let n = locations.len();
    let mut starts: Vec<(usize, usize)> = Vec::new();
    let mut mids: Vec<(usize, usize)> = Vec::new();
    let mut i: usize = 0;
    proof {
        assert(locations@.skip(0) =~= locations@);
        assert(starts@ + starts_of(locations@.skip(0)) =~= starts_of(locations@));
        assert(mids@ + mids_of(locations@.skip(0)) =~= mids_of(locations@));
    }
    while i < n
        invariant
            0 <= i <= n,
            n == locations@.len(),
            starts_of(locations@) == starts@ + starts_of(locations@.skip(i as int)),
            mids_of(locations@) == mids@ + mids_of(locations@.skip(i as int)),
        decreases n - i,
    {
        proof {
            assert(locations@.skip(i as int)[0] == locations@[i as int]);
            assert(locations@.skip(i as int).drop_first() =~= locations@.skip(i as int + 1));
        }
        let ghost starts_before = starts@;
        let ghost mids_before = mids@;
        match locations[i] {
            RichLocation::Start { block, statement_index } => {
                starts.push((block, statement_index));
            },
            RichLocation::Mid { block, statement_index } => {
                mids.push((block, statement_index));
            },
        }
        proof {
            assert(starts_of(locations@) =~= starts@ + starts_of(locations@.skip(i as int + 1)));
            assert(mids_of(locations@) =~= mids@ + mids_of(locations@.skip(i as int + 1)));
        }
        i = i + 1;
    }
    proof {
        assert(starts_of(locations@.skip(n as int)) =~= Seq::<(usize, usize)>::empty());
        assert(mids_of(locations@.skip(n as int)) =~= Seq::<(usize, usize)>::empty());
        assert(starts@ =~= starts_of(locations@));
        assert(mids@ =~= mids_of(locations@));
    }
    let ss = sort_locs(starts);
    let ms = sort_locs(mids);
    let mut out: Vec<Range> = Vec::new();
    let mut k: usize = 0;
    proof {
        assert(ss@.skip(0) =~= ss@);
        assert(ms@.skip(0) =~= ms@);
        assert(out@ + paired_ranges(basic_blocks@, ss@.skip(0), ms@.skip(0)) =~= paired_ranges(
            basic_blocks@,
            ss@,
            ms@,
        ));
    }
    while k < ss.len() && k < ms.len()
        invariant
            0 <= k <= ss@.len(),
            0 <= k <= ms@.len(),
            valid_ranges(out@),
            paired_ranges(basic_blocks@, ss@, ms@) == out@ + paired_ranges(
                basic_blocks@,
                ss@.skip(k as int),
                ms@.skip(k as int),
            ),
        decreases ss@.len() - k,
    {
        proof {
            assert(ss@.skip(k as int)[0] == ss@[k as int]);
            assert(ms@.skip(k as int)[0] == ms@[k as int]);
            assert(ss@.skip(k as int).drop_first() =~= ss@.skip(k as int + 1));
            assert(ms@.skip(k as int).drop_first() =~= ms@.skip(k as int + 1));
        }
        let ghost out_before = out@;
        let sr = stmt_location_to_range(basic_blocks, ss[k]);
        let mr = stmt_location_to_range(basic_blocks, ms[k]);
        match (sr, mr) {
            (Some(s), Some(m)) => {
                match Range::new(s.from(), m.until()) {
                    Some(r) => {
                        out.push(r);
                    },
                    None => {},
                }
            },
            _ => {},
        }
        proof {
            assert(paired_ranges(basic_blocks@, ss@, ms@) =~= out@ + paired_ranges(
                basic_blocks@,
                ss@.skip(k as int + 1),
                ms@.skip(k as int + 1),
            ));
        }
        k = k + 1;
    }
    proof {
        if k == ss@.len() {
            assert(ss@.skip(k as int).len() == 0);
        } else {
            assert(ms@.skip(k as int).len() == 0);
        }
        assert(paired_ranges(
            basic_blocks@,
            ss@.skip(k as int),
            ms@.skip(k as int),
        ) =~= Seq::<Range>::empty());
        assert(out@ =~= paired_ranges(basic_blocks@, ss@, ms@));
    }
    out
}

/// How a loan borrows: shared or mutable.
#[derive(Clone, Copy, PartialEq, Eq, Structural, Debug)]
pub enum BorrowKind {
    Shared,
    Mutable,
}

/// What one loan stands for: the local owning the reference, the kind of
/// borrow, and the local borrowed from.
#[derive(Clone, Copy, PartialEq, Eq, Structural, Debug)]
pub struct BorrowData {
    /// The local holding the reference created by the loan.
    pub owner: u32,
    /// Shared or mutable.
    pub kind: BorrowKind,
    /// The local whose data is borrowed.
    pub borrowed: u32,
}

/// The index from loan identifiers to their borrow data, supplied alongside
/// the raw facts.
#[derive(Clone, Debug)]
pub struct BorrowMap(pub Vec<(u32, BorrowData)>);

/// The first entry of `bm` for the loan, if any.
pub open spec fn bm_lookup(bm: Seq<(u32, BorrowData)>, loan: u32) -> Option<BorrowData>
    decreases bm.len(),
{
    if bm.len() == 0 {
        None
    } else if bm[0].0 == loan {
        Some(bm[0].1)
    } else {
        bm_lookup(bm.drop_first(), loan)
    }
}

impl BorrowMap {
    /// Looks a loan up by its index.
    pub fn get_from_borrow_index(&self, loan: u32) -> (r: Option<BorrowData>)
        ensures
            r == bm_lookup(self.0@, loan),
    {
        let n = self.0.len();
        let mut i: usize = 0;
        proof {
            assert(self.0@.skip(0) =~= self.0@);
        }
        while i < n
            invariant
                0 <= i <= n,
                n == self.0@.len(),
                bm_lookup(self.0@, loan) == bm_lookup(self.0@.skip(i as int), loan),
            decreases n - i,
        {
            proof {
                assert(self.0@.skip(i as int)[0] == self.0@[i as int]);
                assert(self.0@.skip(i as int).drop_first() =~= self.0@.skip(i as int + 1));
            }
            if self.0[i].0 == loan {
                return Some(self.0[i].1);
            }
            i = i + 1;
        }
        proof {
            assert(self.0@.skip(n as int).len() == 0);
        }
        None
    }
}

/// A looked-up loan comes from some entry of the map.
pub proof fn lemma_bm_lookup_member(bm: Seq<(u32, BorrowData)>, loan: u32)
    requires
        bm_lookup(bm, loan) is Some,
    ensures
        exists|i: int| 0 <= i < bm.len() && (#[trigger] bm[i]).1 == bm_lookup(bm, loan)->Some_0,
    decreases bm.len(),
{
    if bm.len() == 0 {
    } else if bm[0].0 == loan {
        assert(bm[0].1 == bm_lookup(bm, loan)->Some_0);
    } else {
        lemma_bm_lookup_member(bm.drop_first(), loan);
        let w = choose|w: int|
            0 <= w < bm.drop_first().len() && (#[trigger] bm.drop_first()[w]).1 == bm_lookup(
                bm.drop_first(),
                loan,
            )->Some_0;
        assert(bm[w + 1].1 == bm_lookup(bm, loan)->Some_0);
    }
}

/// The raw fact tables of one function body, as the dataflow engine emits
/// them: each row pairs an abstract location index with the values that hold
/// on entry to that location.  The tables are read-only inputs.
#[derive(Clone, Debug)]
pub struct DataflowFacts {
    /// Per location, the locals live on entry.
    pub var_live_on_entry: Vec<(usize, Vec<u32>)>,
    /// Per location, the locals whose drop obligation is live on entry.
    pub var_drop_live_on_entry: Vec<(usize, Vec<u32>)>,
    /// Per location, the loans live at that location.
    pub loan_live_at: Vec<(usize, Vec<u32>)>,
    /// Per location, the regions (origins) live on entry.
    pub origin_live_on_entry: Vec<(usize, Vec<u32>)>,
    /// Per location, the subset-closure relation: each entry maps a
    /// superset region to the regions it must include.
    pub subset: Vec<(usize, Vec<(u32, Vec<u32>)>)>,
    /// Per location, which region contains which loans.
    pub origin_contains_loan_at: Vec<(usize, Vec<(u32, Vec<u32>)>)>,
}

/// Keys are pairwise distinct.
pub open spec fn map_keys_unique<V>(s: Seq<(u32, V)>) -> bool {
    forall|i: int, j: int|
        0 <= i < j < s.len() ==> (#[trigger] s[i]).0 != (#[trigger] s[j]).0
}

/// Whether the map holds an entry under `k`.
pub open spec fn map_has_key<V>(s: Seq<(u32, V)>, k: u32) -> bool {
    exists|i: int| 0 <= i < s.len() && (#[trigger] s[i]).0 == k
}

/// The occurrences of `k` in one fact row, each contributing the row's
/// resolved location.
pub open spec fn row_live(locals: Seq<u32>, rich: RichLocation, k: u32) -> Seq<RichLocation>
    decreases locals.len(),
{
    if locals.len() == 0 {
        Seq::empty()
    } else {
        let head = if locals[0] == k {
            seq![rich]
        } else {
            Seq::<RichLocation>::empty()
        };
        head + row_live(locals.drop_first(), rich, k)
    }
}

/// The rich locations at which `k` is listed, in fact order; rows whose
/// location index the table cannot resolve contribute nothing.
pub open spec fn live_locs(
    rows: Seq<(usize, Vec<u32>)>,
    table: Seq<RichLocation>,
    k: u32,
) -> Seq<RichLocation>
    decreases rows.len(),
{
    if rows.len() == 0 {
        Seq::empty()
    } else {
        let head = if rows[0].0 < table.len() {
            row_live(rows[0].1@, table[rows[0].0 as int], k)
        } else {
            Seq::<RichLocation>::empty()
        };
        head + live_locs(rows.drop_first(), table, k)
    }
}

/// Whether `k` occurs in some row the table can resolve.
pub open spec fn live_appears(rows: Seq<(usize, Vec<u32>)>, table: Seq<RichLocation>, k: u32) -> bool {
    exists|i: int|
        0 <= i < rows.len() && (#[trigger] rows[i]).0 < table.len() && rows[i].1@.contains(k)
}

proof fn lemma_row_live_len(locals: Seq<u32>, rich: RichLocation, k: u32)
    ensures
        row_live(locals, rich, k).len() > 0 <==> locals.contains(k),
    decreases locals.len(),
{
    if locals.len() == 0 {
    } else {
        lemma_row_live_len(locals.drop_first(), rich, k);
        if locals.contains(k) {
            let w = choose|w: int| 0 <= w < locals.len() && locals[w] == k;
            if w > 0 {
                assert(locals.drop_first()[w - 1] == k);
                assert(locals.drop_first().contains(k));
            }
        } else {
            assert(locals[0] != k);
            if locals.drop_first().contains(k) {
                let w = choose|w: int|
                    0 <= w < locals.drop_first().len() && locals.drop_first()[w] == k;
                assert(locals[w + 1] == k);
            }
        }
    }
}

proof fn lemma_live_locs_appears(rows: Seq<(usize, Vec<u32>)>, table: Seq<RichLocation>, k: u32)
    ensures
        live_locs(rows, table, k).len() > 0 <==> live_appears(rows, table, k),
    decreases rows.len(),
{
    if rows.len() == 0 {
    } else {
        lemma_live_locs_appears(rows.drop_first(), table, k);
        if rows[0].0 < table.len() {
            lemma_row_live_len(rows[0].1@, table[rows[0].0 as int], k);
        }
        if live_locs(rows, table, k).len() > 0 {
            if rows[0].0 < table.len() && row_live(rows[0].1@, table[rows[0].0 as int], k).len()
                > 0 {
                assert(live_appears(rows, table, k));
            } else {
                assert(live_locs(rows.drop_first(), table, k).len() > 0);
                let w = choose|w: int|
                    0 <= w < rows.drop_first().len() && (#[trigger] rows.drop_first()[w]).0
                        < table.len() && rows.drop_first()[w].1@.contains(k);
                assert(rows[w + 1].0 < table.len() && rows[w + 1].1@.contains(k));
            }
        }
        if live_appears(rows, table, k) {
            let w = choose|w: int|
                0 <= w < rows.len() && (#[trigger] rows[w]).0 < table.len() && rows[w].1@.contains(
                    k,
                );
            if w == 0 {
                assert(row_live(rows[0].1@, table[rows[0].0 as int], k).len() > 0);
            } else {
                assert(rows.drop_first()[w - 1].0 < table.len() && rows.drop_first()[w
                    - 1].1@.contains(k));
                assert(live_appears(rows.drop_first(), table, k));
            }
        }
    }
}

/// Collects the rich locations at which `k` is listed, in fact order.
fn locs_for_local(rows: &Vec<(usize, Vec<u32>)>, table: &Vec<RichLocation>, k: u32) -> (r: Vec<
    RichLocation,
>)
    ensures
        r@ == live_locs(rows@, table@, k),
{
    let n = rows.len();
    let mut acc: Vec<RichLocation> = Vec::new();
    let mut i: usize = 0;
    proof {
        assert(rows@.skip(0) =~= rows@);
        assert(acc@ + live_locs(rows@.skip(0), table@, k) =~= live_locs(rows@, table@, k));
    }
    while i < n
        invariant
            0 <= i <= n,
            n == rows@.len(),
            live_locs(rows@, table@, k) == acc@ + live_locs(rows@.skip(i as int), table@, k),
        decreases n - i,
    {
        proof {
            assert(rows@.skip(i as int)[0] == rows@[i as int]);
            assert(rows@.skip(i as int).drop_first() =~= rows@.skip(i as int + 1));
        }
        let loc_idx = rows[i].0;
        if loc_idx < table.len() {
            let rich = table[loc_idx];
            let row = &rows[i].1;
            let m = row.len();
            let mut j: usize = 0;
            proof {
                assert(row@.skip(0) =~= row@);
                assert(acc@ + (row_live(row@.skip(0), rich, k) + live_locs(
                    rows@.skip(i as int + 1),
                    table@,
                    k,
                )) =~= live_locs(rows@, table@, k));
            }
            while j < m
                invariant
                    0 <= j <= m,
                    m == row@.len(),
                    rich == table@[rows@[i as int].0 as int],
                    i < rows@.len(),
                    live_locs(rows@, table@, k) == acc@ + (row_live(row@.skip(j as int), rich, k)
                        + live_locs(rows@.skip(i as int + 1), table@, k)),
                decreases m - j,
            {
                proof {
                    assert(row@.skip(j as int)[0] == row@[j as int]);
                    assert(row@.skip(j as int).drop_first() =~= row@.skip(j as int + 1));
                }
                let ghost acc_before = acc@;
                if row[j] == k {
                    acc.push(rich);
                }
                proof {
                    assert(acc@ + (row_live(row@.skip(j as int + 1), rich, k) + live_locs(
                        rows@.skip(i as int + 1),
                        table@,
                        k,
                    )) =~= acc_before + (row_live(row@.skip(j as int), rich, k) + live_locs(
                        rows@.skip(i as int + 1),
                        table@,
                        k,
                    )));
                }
                j = j + 1;
            }
            proof {
                assert(row@.skip(m as int).len() == 0);
                assert(row_live(row@.skip(m as int), rich, k) =~= Seq::<RichLocation>::empty());
                assert(acc@ + live_locs(rows@.skip(i as int + 1), table@, k) =~= acc@ + (row_live(
                    row@.skip(m as int),
                    rich,
                    k,
                ) + live_locs(rows@.skip(i as int + 1), table@, k)));
            }
        }
        i = i + 1;
    }
    proof {
        assert(live_locs(rows@.skip(n as int), table@, k) =~= Seq::<RichLocation>::empty());
        assert(acc@ =~= live_locs(rows@, table@, k));
    }
    acc
}

/// Whether `v` holds `x`.
fn vec_contains_u32(v: &Vec<u32>, x: u32) -> (r: bool)
    ensures
        r == v@.contains(x),
{
    let n = v.len();
    let mut i: usize = 0;
    while i < n
        invariant
            0 <= i <= n,
            n == v@.len(),
            forall|j: int| 0 <= j < i ==> v@[j] != x,
        decreases n - i,
    {
        if v[i] == x {
            return true;
        }
        i = i + 1;
    }
    proof {
        if v@.contains(x) {
            let w = choose|w: int| 0 <= w < v@.len() && v@[w] == x;
            assert(false);
        }
    }
    false
}

/// Collects, without duplicates, every local listed in a resolvable row.
fn collect_live_keys(rows: &Vec<(usize, Vec<u32>)>, table: &Vec<RichLocation>) -> (keys: Vec<u32>)
    ensures
        keys@.no_duplicates(),
        forall|k: u32| #[trigger] keys@.contains(k) <==> live_appears(rows@, table@, k),
{
    let n = rows.len();
    let mut keys: Vec<u32> = Vec::new();
    let mut i: usize = 0;
    while i < n
        invariant
            0 <= i <= n,
            n == rows@.len(),
            keys@.no_duplicates(),
            forall|k: u32| #[trigger] keys@.contains(k) <==> live_appears(
                rows@.subrange(0, i as int),
                table@,
                k,
            ),
        decreases n - i,
    {
        let loc_idx = rows[i].0;
        if loc_idx < table.len() {
            let row = &rows[i].1;
            let m = row.len();
            let mut j: usize = 0;
            while j < m
                invariant
                    0 <= j <= m,
                    m == row@.len(),
                    i < rows@.len(),
                    row@ == rows@[i as int].1@,
                    rows@[i as int].0 < table@.len(),
                    keys@.no_duplicates(),
                    forall|k: u32| #[trigger] keys@.contains(k) <==> (live_appears(
                        rows@.subrange(0, i as int),
                        table@,
                        k,
                    ) || row@.subrange(0, j as int).contains(k)),
                decreases m - j,
            {
                let x = row[j];
                let ghost keys_before = keys@;
                if !vec_contains_u32(&keys, x) {
                    keys.push(x);
                }
                proof {
                    assert forall|k: u32| #[trigger] keys@.contains(k) <==> (live_appears(
                        rows@.subrange(0, i as int),
                        table@,
                        k,
                    ) || row@.subrange(0, j as int + 1).contains(k)) by {
                        if keys@.contains(k) {
                            if keys_before.contains(k) {
                                if row@.subrange(0, j as int).contains(k) {
                                    let w = choose|w: int|
                                        0 <= w < j && row@.subrange(0, j as int)[w] == k;
                                    assert(row@.subrange(0, j as int + 1)[w] == k);
                                }
                            } else {
                                assert(keys@ == keys_before.push(x));
                                assert(k == x);
                                assert(row@.subrange(0, j as int + 1)[j as int] == x);
                            }
                        }
                        if row@.subrange(0, j as int + 1).contains(k) {
                            let w = choose|w: int|
                                0 <= w <= j && #[trigger] row@.subrange(0, j as int + 1)[w] == k;
                            if w < j {
                                assert(row@.subrange(0, j as int)[w] == k);
                                assert(keys_before.contains(k));
                                if keys@ == keys_before.push(x) {
                                    assert(keys@[keys_before.len() as int - 1 + 1] == x);
                                    let u = choose|u: int|
                                        0 <= u < keys_before.len() && keys_before[u] == k;
                                    assert(keys@[u] == k);
                                }
                            } else {
                                assert(k == x);
                                if keys_before.contains(x) {
                                    let u = choose|u: int|
                                        0 <= u < keys_before.len() && keys_before[u] == x;
                                    if keys@ != keys_before {
                                        assert(keys@[u] == x);
                                    }
                                } else {
                                    assert(keys@ == keys_before.push(x));
                                    assert(keys@[keys@.len() - 1] == x);
                                }
                            }
                        }
                        if live_appears(rows@.subrange(0, i as int), table@, k)
                            && !keys_before.contains(k) {
                            assert(false);
                        }
                        if live_appears(rows@.subrange(0, i as int), table@, k)
                            && keys_before.contains(k) && keys@ != keys_before {
                            let u = choose|u: int|
                                0 <= u < keys_before.len() && keys_before[u] == k;
                            assert(keys@[u] == k);
                        }
                    }
                }
                j = j + 1;
            }
            proof {
                assert(row@.subrange(0, m as int) =~= row@);
                assert forall|k: u32| #[trigger] keys@.contains(k) <==> live_appears(
                    rows@.subrange(0, i as int + 1),
                    table@,
                    k,
                ) by {
                    if keys@.contains(k) {
                        if live_appears(rows@.subrange(0, i as int), table@, k) {
                            let w = choose|w: int|
                                0 <= w < i && (#[trigger] rows@.subrange(0, i as int)[w]).0
                                    < table@.len() && rows@.subrange(0, i as int)[w].1@.contains(k);
                            assert(rows@.subrange(0, i as int + 1)[w] == rows@[w]);
                            assert(live_appears(rows@.subrange(0, i as int + 1), table@, k));
                        } else {
                            assert(row@.contains(k));
                            assert(rows@.subrange(0, i as int + 1)[i as int] == rows@[i as int]);
                            assert(live_appears(rows@.subrange(0, i as int + 1), table@, k));
                        }
                    }
                    if live_appears(rows@.subrange(0, i as int + 1), table@, k) {
                        let w = choose|w: int|
                            0 <= w < i + 1 && (#[trigger] rows@.subrange(0, i as int + 1)[w]).0
                                < table@.len() && rows@.subrange(0, i as int + 1)[w].1@.contains(k);
                        if w < i as int {
                            assert(rows@.subrange(0, i as int)[w] == rows@[w]);
                            assert(live_appears(rows@.subrange(0, i as int), table@, k));
                        } else {
                            assert(rows@.subrange(0, i as int + 1)[i as int] == rows@[i as int]);
                            assert(row@.contains(k));
                        }
                    }
                }
            }
        } else {
            proof {
                assert forall|k: u32| #[trigger] keys@.contains(k) <==> live_appears(
                    rows@.subrange(0, i as int + 1),
                    table@,
                    k,
                ) by {
                    if live_appears(rows@.subrange(0, i as int + 1), table@, k) {
                        let w = choose|w: int|
                            0 <= w < i + 1 && (#[trigger] rows@.subrange(0, i as int + 1)[w]).0
                                < table@.len() && rows@.subrange(0, i as int + 1)[w].1@.contains(k);
                        if w < i as int {
                            assert(rows@.subrange(0, i as int)[w] == rows@[w]);
                        } else {
                            assert(rows@.subrange(0, i as int + 1)[i as int] == rows@[i as int]);
                            assert(false);
                        }
                    }
                    if keys@.contains(k) {
                        let w = choose|w: int|
                            0 <= w < i && (#[trigger] rows@.subrange(0, i as int)[w]).0
                                < table@.len() && rows@.subrange(0, i as int)[w].1@.contains(k);
                        assert(rows@.subrange(0, i as int + 1)[w] == rows@[w]);
                    }
                }
            }
        }
        i = i + 1;
    }
    proof {
        assert(rows@.subrange(0, n as int) =~= rows@);
    }
    keys
}

/// The number of start and mid occurrences of local `k` in a fact table.
///
/// Pairing truncates to the smaller of the two counts; a caller that finds
/// them unequal can log the lossy pairing as a diagnostic.
pub fn pairing_counts(
    rows: &Vec<(usize, Vec<u32>)>,
    table: &Vec<RichLocation>,
    k: u32,
) -> (r: (usize, usize))
    ensures
        r.0 == starts_of(live_locs(rows@, table@, k)).len(),
        r.1 == mids_of(live_locs(rows@, table@, k)).len(),
{
    let locs = locs_for_local(rows, table, k);
    let n = locs.len();
    let mut starts: usize = 0;
    let mut mids: usize = 0;
    let mut i: usize = 0;
    proof {
        assert(locs@.skip(0) =~= locs@);
    }
    while i < n
        invariant
            0 <= i <= n,
            n == locs@.len(),
            starts + mids == i,
            starts_of(locs@).len() == starts + starts_of(locs@.skip(i as int)).len(),
            mids_of(locs@).len() == mids + mids_of(locs@.skip(i as int)).len(),
        decreases n - i,
    {
        proof {
            assert(locs@.skip(i as int)[0] == locs@[i as int]);
            assert(locs@.skip(i as int).drop_first() =~= locs@.skip(i as int + 1));
        }
        match locs[i] {
            RichLocation::Start { .. } => {
                starts = starts + 1;
            },
            RichLocation::Mid { .. } => {
                mids = mids + 1;
            },
        }
        i = i + 1;
    }
    proof {
        assert(locs@.skip(n as int).len() == 0);
    }
    (starts, mids)
}

/// Converts one liveness fact table into per-local normalized range sets.
///
/// Each local listed in a resolvable row receives one entry, holding the
/// normal form of the ranges obtained by pairing its sorted start and mid
/// occurrences.
pub fn get_range(
    live_on_entry: &Vec<(usize, Vec<u32>)>,
    location_table: &Vec<RichLocation>,
    basic_blocks: &[MirBasicBlock],
) -> (r: Vec<(u32, Vec<Range>)>)
    ensures
        map_keys_unique(r@),
        forall|i: int|
            0 <= i < r@.len() ==> (#[trigger] r@[i]).1@ == local_range_set(
                basic_blocks@,
                live_locs(live_on_entry@, location_table@, r@[i].0),
            ),
        forall|k: u32|
            live_appears(live_on_entry@, location_table@, k) <==> map_has_key(r@, k),
{
    let keys = collect_live_keys(live_on_entry, location_table);
    let nk = keys.len();
    let mut out: Vec<(u32, Vec<Range>)> = Vec::new();
    let mut c: usize = 0;
    while c < nk
        invariant
            0 <= c <= nk,
            nk == keys@.len(),
            keys@.no_duplicates(),
            forall|k: u32| #[trigger] keys@.contains(k) <==> live_appears(
                live_on_entry@,
                location_table@,
                k,
            ),
            out@.len() == c,
            forall|i: int| 0 <= i < c ==> (#[trigger] out@[i]).0 == keys@[i],
            forall|i: int|
                0 <= i < c ==> (#[trigger] out@[i]).1@ == local_range_set(
                    basic_blocks@,
                    live_locs(live_on_entry@, location_table@, out@[i].0),
                ),
        decreases nk - c,
    {
        let k = keys[c];
        let locs = locs_for_local(live_on_entry, location_table, k);
        let paired = rich_locations_to_ranges(basic_blocks, locs.as_slice());
        let ranges = eliminated_ranges(paired);
        out.push((k, ranges));
        c = c + 1;
    }
    proof {
        assert forall|a: int, b: int| 0 <= a < b < out@.len() implies (#[trigger] out@[a]).0 != (
        #[trigger] out@[b]).0 by {
            assert(out@[a].0 == keys@[a] && out@[b].0 == keys@[b]);
        }
        assert forall|k: u32|
            live_appears(live_on_entry@, location_table@, k) <==> map_has_key(out@, k) by {
            if live_appears(live_on_entry@, location_table@, k) {
                assert(keys@.contains(k));
                let w = choose|w: int| 0 <= w < keys@.len() && keys@[w] == k;
                assert(out@[w].0 == k);
            }
            if map_has_key(out@, k) {
                let w = choose|w: int| 0 <= w < out@.len() && (#[trigger] out@[w]).0 == k;
                assert(keys@[w] == k);
                assert(keys@.contains(k));
            }
        }
    }
    out
}

/// Per-local accurate-liveness ranges: where each local is live on entry.
pub fn get_accurate_live(
    datafrog: &DataflowFacts,
    location_table: &Vec<RichLocation>,
    basic_blocks: &[MirBasicBlock],
) -> (r: Vec<(u32, Vec<Range>)>)
    ensures
        map_keys_unique(r@),
        forall|i: int|
            0 <= i < r@.len() ==> (#[trigger] r@[i]).1@ == local_range_set(
                basic_blocks@,
                live_locs(datafrog.var_live_on_entry@, location_table@, r@[i].0),
            ),
        forall|k: u32|
            live_appears(datafrog.var_live_on_entry@, location_table@, k) <==> map_has_key(r@, k),
{
    get_range(&datafrog.var_live_on_entry, location_table, basic_blocks)
}

/// Per-local drop-liveness ranges: where each local's drop obligation is
/// live on entry.
pub fn drop_range(
    datafrog: &DataflowFacts,
    location_table: &Vec<RichLocation>,
    basic_blocks: &[MirBasicBlock],
) -> (r: Vec<(u32, Vec<Range>)>)
    ensures
        map_keys_unique(r@),
        forall|i: int|
            0 <= i < r@.len() ==> (#[trigger] r@[i]).1@ == local_range_set(
                basic_blocks@,
                live_locs(datafrog.var_drop_live_on_entry@, location_table@, r@[i].0),
            ),
        forall|k: u32|
            live_appears(datafrog.var_drop_live_on_entry@, location_table@, k) <==> map_has_key(
                r@,
                k,
            ),
{
    get_range(&datafrog.var_drop_live_on_entry, location_table, basic_blocks)
}

/// Whether a loan resolves to a borrow of the wanted kind taken from `k`.
pub open spec fn loan_matches(
    bm: Seq<(u32, BorrowData)>,
    loan: u32,
    want_mutable: bool,
    k: u32,
) -> bool {
    match bm_lookup(bm, loan) {
        Some(d) => d.borrowed == k && ((d.kind is Mutable) <==> want_mutable),
        None => false,
    }
}

/// The loans of one fact row that borrow `k` with the wanted kind, each
/// contributing the row's resolved location.
pub open spec fn row_borrow(
    loans: Seq<u32>,
    rich: RichLocation,
    bm: Seq<(u32, BorrowData)>,
    want_mutable: bool,
    k: u32,
) -> Seq<RichLocation>
    decreases loans.len(),
{
    if loans.len() == 0 {
        Seq::empty()
    } else {
        let head = if loan_matches(bm, loans[0], want_mutable, k) {
            seq![rich]
        } else {
            Seq::<RichLocation>::empty()
        };
        head + row_borrow(loans.drop_first(), rich, bm, want_mutable, k)
    }
}

/// The rich locations at which some loan borrows `k` with the wanted kind,
/// in fact order; unresolvable rows contribute nothing.
pub open spec fn borrow_locs(
    rows: Seq<(usize, Vec<u32>)>,
    table: Seq<RichLocation>,
    bm: Seq<(u32, BorrowData)>,
    want_mutable: bool,
    k: u32,
) -> Seq<RichLocation>
    decreases rows.len(),
{
    if rows.len() == 0 {
        Seq::empty()
    } else {
        let head = if rows[0].0 < table.len() {
            row_borrow(rows[0].1@, table[rows[0].0 as int], bm, want_mutable, k)
        } else {
            Seq::<RichLocation>::empty()
        };
        head + borrow_locs(rows.drop_first(), table, bm, want_mutable, k)
    }
}

/// Whether some resolvable row holds a loan borrowing `k` with the wanted
/// kind.
pub open spec fn borrow_appears(
    rows: Seq<(usize, Vec<u32>)>,
    table: Seq<RichLocation>,
    bm: Seq<(u32, BorrowData)>,
    want_mutable: bool,
    k: u32,
) -> bool {
    exists|i: int, j: int|
        0 <= i < rows.len() && (#[trigger] rows[i]).0 < table.len() && 0 <= j
            < rows[i].1@.len() && loan_matches(bm, #[trigger] rows[i].1@[j], want_mutable, k)
}

proof fn lemma_row_borrow_len(
    loans: Seq<u32>,
    rich: RichLocation,
    bm: Seq<(u32, BorrowData)>,
    want_mutable: bool,
    k: u32,
)
    ensures
        row_borrow(loans, rich, bm, want_mutable, k).len() > 0 <==> exists|j: int|
            0 <= j < loans.len() && loan_matches(bm, #[trigger] loans[j], want_mutable, k),
    decreases loans.len(),
{
    if loans.len() == 0 {
    } else {
        lemma_row_borrow_len(loans.drop_first(), rich, bm, want_mutable, k);
        if row_borrow(loans, rich, bm, want_mutable, k).len() > 0 {
            if !loan_matches(bm, loans[0], want_mutable, k) {
                let w = choose|w: int|
                    0 <= w < loans.drop_first().len() && loan_matches(
                        bm,
                        #[trigger] loans.drop_first()[w],
                        want_mutable,
                        k,
                    );
                assert(loan_matches(bm, loans[w + 1], want_mutable, k));
            }
        }
        if exists|j: int|
            0 <= j < loans.len() && loan_matches(bm, #[trigger] loans[j], want_mutable, k) {
            let w = choose|w: int|
                0 <= w < loans.len() && loan_matches(bm, #[trigger] loans[w], want_mutable, k);
            if w > 0 {
                assert(loan_matches(bm, loans.drop_first()[w - 1], want_mutable, k));
            }
        }
    }
}

proof fn lemma_borrow_locs_appears(
    rows: Seq<(usize, Vec<u32>)>,
    table: Seq<RichLocation>,
    bm: Seq<(u32, BorrowData)>,
    want_mutable: bool,
    k: u32,
)
    ensures
        borrow_locs(rows, table, bm, want_mutable, k).len() > 0 <==> borrow_appears(
            rows,
            table,
            bm,
            want_mutable,
            k,
        ),
    decreases rows.len(),
{
    if rows.len() == 0 {
    } else {
        lemma_borrow_locs_appears(rows.drop_first(), table, bm, want_mutable, k);
        if rows[0].0 < table.len() {
            lemma_row_borrow_len(rows[0].1@, table[rows[0].0 as int], bm, want_mutable, k);
        }
        if borrow_locs(rows, table, bm, want_mutable, k).len() > 0 {
            if rows[0].0 < table.len() && row_borrow(
                rows[0].1@,
                table[rows[0].0 as int],
                bm,
                want_mutable,
                k,
            ).len() > 0 {
                let w = choose|w: int|
                    0 <= w < rows[0].1@.len() && loan_matches(
                        bm,
                        #[trigger] rows[0].1@[w],
                        want_mutable,
                        k,
                    );
                assert(borrow_appears(rows, table, bm, want_mutable, k));
            } else {
                let (w, v) = choose|w: int, v: int|
                    0 <= w < rows.drop_first().len() && (#[trigger] rows.drop_first()[w]).0
                        < table.len() && 0 <= v < rows.drop_first()[w].1@.len() && loan_matches(
                        bm,
                        #[trigger] rows.drop_first()[w].1@[v],
                        want_mutable,
                        k,
                    );
                assert(rows[w + 1].0 < table.len() && 0 <= v < rows[w + 1].1@.len()
                    && loan_matches(bm, rows[w + 1].1@[v], want_mutable, k));
            }
        }
        if borrow_appears(rows, table, bm, want_mutable, k) {
            let (w, v) = choose|w: int, v: int|
                0 <= w < rows.len() && (#[trigger] rows[w]).0 < table.len() && 0 <= v
                    < rows[w].1@.len() && loan_matches(bm, #[trigger] rows[w].1@[v], want_mutable, k);
            if w == 0 {
                assert(row_borrow(rows[0].1@, table[rows[0].0 as int], bm, want_mutable, k).len()
                    > 0);
            } else {
                assert(rows.drop_first()[w - 1].0 < table.len() && 0 <= v < rows.drop_first()[w
                    - 1].1@.len() && loan_matches(
                    bm,
                    rows.drop_first()[w - 1].1@[v],
                    want_mutable,
                    k,
                ));
                assert(borrow_appears(rows.drop_first(), table, bm, want_mutable, k));
            }
        }
    }
}

/// Collects the rich locations at which `k` is borrowed with the wanted
/// kind, in fact order.
fn borrow_locs_for(
    rows: &Vec<(usize, Vec<u32>)>,
    table: &Vec<RichLocation>,
    bm: &BorrowMap,
    want_mutable: bool,
    k: u32,
) -> (r: Vec<RichLocation>)
    ensures
        r@ == borrow_locs(rows@, table@, bm.0@, want_mutable, k),
{
    let n = rows.len();
    let mut acc: Vec<RichLocation> = Vec::new();
    let mut i: usize = 0;
    proof {
        assert(rows@.skip(0) =~= rows@);
        assert(acc@ + borrow_locs(rows@.skip(0), table@, bm.0@, want_mutable, k) =~= borrow_locs(
            rows@,
            table@,
            bm.0@,
            want_mutable,
            k,
        ));
    }
    while i < n
        invariant
            0 <= i <= n,
            n == rows@.len(),
            borrow_locs(rows@, table@, bm.0@, want_mutable, k) == acc@ + borrow_locs(
                rows@.skip(i as int),
                table@,
                bm.0@,
                want_mutable,
                k,
            ),
        decreases n - i,
    {
        proof {
            assert(rows@.skip(i as int)[0] == rows@[i as int]);
            assert(rows@.skip(i as int).drop_first() =~= rows@.skip(i as int + 1));
        }
        let loc_idx = rows[i].0;
        if loc_idx < table.len() {
            let rich = table[loc_idx];
            let row = &rows[i].1;
            let m = row.len();
            let mut j: usize = 0;
            proof {
                assert(row@.skip(0) =~= row@);
                assert(acc@ + (row_borrow(row@.skip(0), rich, bm.0@, want_mutable, k)
                    + borrow_locs(rows@.skip(i as int + 1), table@, bm.0@, want_mutable, k))
                    =~= borrow_locs(rows@, table@, bm.0@, want_mutable, k));
            }
            while j < m
                invariant
                    0 <= j <= m,
                    m == row@.len(),
                    rich == table@[rows@[i as int].0 as int],
                    i < rows@.len(),
                    borrow_locs(rows@, table@, bm.0@, want_mutable, k) == acc@ + (row_borrow(
                        row@.skip(j as int),
                        rich,
                        bm.0@,
                        want_mutable,
                        k,
                    ) + borrow_locs(rows@.skip(i as int + 1), table@, bm.0@, want_mutable, k)),
                decreases m - j,
            {
                proof {
                    assert(row@.skip(j as int)[0] == row@[j as int]);
                    assert(row@.skip(j as int).drop_first() =~= row@.skip(j as int + 1));
                }
                let ghost acc_before = acc@;
                let hit = match bm.get_from_borrow_index(row[j]) {
                    Some(d) => {
                        let is_mut = match d.kind {
                            BorrowKind::Mutable => true,
                            BorrowKind::Shared => false,
                        };
                        d.borrowed == k && is_mut == want_mutable
                    },
                    None => false,
                };
                if hit {
                    acc.push(rich);
                }
                proof {
                    assert(hit == loan_matches(bm.0@, row@[j as int], want_mutable, k));
                    assert(acc@ + (row_borrow(row@.skip(j as int + 1), rich, bm.0@, want_mutable, k)
                        + borrow_locs(rows@.skip(i as int + 1), table@, bm.0@, want_mutable, k))
                        =~= acc_before + (row_borrow(row@.skip(j as int), rich, bm.0@, want_mutable, k)
                        + borrow_locs(rows@.skip(i as int + 1), table@, bm.0@, want_mutable, k)));
                }
                j = j + 1;
            }
            proof {
                assert(row@.skip(m as int).len() == 0);
                assert(row_borrow(row@.skip(m as int), rich, bm.0@, want_mutable, k) =~= Seq::<
                    RichLocation,
                >::empty());
                assert(acc@ + borrow_locs(rows@.skip(i as int + 1), table@, bm.0@, want_mutable, k)
                    =~= acc@ + (row_borrow(row@.skip(m as int), rich, bm.0@, want_mutable, k)
                    + borrow_locs(rows@.skip(i as int + 1), table@, bm.0@, want_mutable, k)));
            }
        }
        i = i + 1;
    }
    proof {
        assert(borrow_locs(rows@.skip(n as int), table@, bm.0@, want_mutable, k) =~= Seq::<
            RichLocation,
        >::empty());
        assert(acc@ =~= borrow_locs(rows@, table@, bm.0@, want_mutable, k));
    }
    acc
}

/// Collects, without duplicates, every local borrowed with the wanted kind
/// in a resolvable row.
fn collect_borrow_keys(
    rows: &Vec<(usize, Vec<u32>)>,
    table: &Vec<RichLocation>,
    bm: &BorrowMap,
    want_mutable: bool,
) -> (keys: Vec<u32>)
    ensures
        keys@.no_duplicates(),
        forall|k: u32| #[trigger] keys@.contains(k) <==> borrow_appears(
            rows@,
            table@,
            bm.0@,
            want_mutable,
            k,
        ),
{
    let n = rows.len();
    let mut keys: Vec<u32> = Vec::new();
    let mut i: usize = 0;
    while i < n
        invariant
            0 <= i <= n,
            n == rows@.len(),
            keys@.no_duplicates(),
            forall|k: u32| #[trigger] keys@.contains(k) <==> borrow_appears(
                rows@.subrange(0, i as int),
                table@,
                bm.0@,
                want_mutable,
                k,
            ),
        decreases n - i,
    {
        let ghost prefix = rows@.subrange(0, i as int);
        let loc_idx = rows[i].0;
        if loc_idx < table.len() {
            let row = &rows[i].1;
            let m = row.len();
            let mut j: usize = 0;
            while j < m
                invariant
                    0 <= j <= m,
                    m == row@.len(),
                    i < rows@.len(),
                    row@ == rows@[i as int].1@,
                    rows@[i as int].0 < table@.len(),
                    prefix == rows@.subrange(0, i as int),
                    keys@.no_duplicates(),
                    forall|k: u32| #[trigger] keys@.contains(k) <==> (borrow_appears(
                        prefix,
                        table@,
                        bm.0@,
                        want_mutable,
                        k,
                    ) || exists|jj: int|
                        0 <= jj < j && loan_matches(
                            bm.0@,
                            #[trigger] row@[jj],
                            want_mutable,
                            k,
                        )),
                decreases m - j,
            {
                let ghost keys_before = keys@;
                let candidate = match bm.get_from_borrow_index(row[j]) {
                    Some(d) => {
                        let is_mut = match d.kind {
                            BorrowKind::Mutable => true,
                            BorrowKind::Shared => false,
                        };
                        if is_mut == want_mutable {
                            Some(d.borrowed)
                        } else {
                            None
                        }
                    },
                    None => None,
                };
                match candidate {
                    Some(b) => {
                        proof {
                            assert(loan_matches(bm.0@, row@[j as int], want_mutable, b));
                        }
                        if !vec_contains_u32(&keys, b) {
                            keys.push(b);
                        }
                    },
                    None => {
                        proof {
                            assert(forall|k: u32|
                                !loan_matches(bm.0@, row@[j as int], want_mutable, k));
                        }
                    },
                }
                proof {
                    assert forall|k: u32| #[trigger] keys@.contains(k) <==> (borrow_appears(
                        prefix,
                        table@,
                        bm.0@,
                        want_mutable,
                        k,
                    ) || exists|jj: int|
                        0 <= jj < j + 1 && loan_matches(
                            bm.0@,
                            #[trigger] row@[jj],
                            want_mutable,
                            k,
                        )) by {
                        if keys@.contains(k) {
                            if keys_before.contains(k) {
                            } else {
                                assert(keys@ == keys_before.push(k));
                                assert(loan_matches(bm.0@, row@[j as int], want_mutable, k));
                            }
                        }
                        if keys_before.contains(k) && keys@ != keys_before {
                            let u = choose|u: int|
                                0 <= u < keys_before.len() && keys_before[u] == k;
                            assert(keys@[u] == k);
                        }
                        if exists|jj: int|
                            0 <= jj < j + 1 && loan_matches(
                                bm.0@,
                                #[trigger] row@[jj],
                                want_mutable,
                                k,
                            ) {
                            let jj = choose|jj: int|
                                0 <= jj < j + 1 && loan_matches(
                                    bm.0@,
                                    #[trigger] row@[jj],
                                    want_mutable,
                                    k,
                                );
                            if jj == j as int {
                                assert(candidate == Some(k));
                                if !keys_before.contains(k) {
                                    assert(keys@ == keys_before.push(k));
                                    assert(keys@[keys@.len() - 1] == k);
                                }
                            }
                        }
                    }
                }
                j = j + 1;
            }
            proof {
                assert forall|k: u32| #[trigger] keys@.contains(k) <==> borrow_appears(
                    rows@.subrange(0, i as int + 1),
                    table@,
                    bm.0@,
                    want_mutable,
                    k,
                ) by {
                    let prefix1 = rows@.subrange(0, i as int + 1);
                    if keys@.contains(k) {
                        if borrow_appears(prefix, table@, bm.0@, want_mutable, k) {
                            let (w, v) = choose|w: int, v: int|
                                0 <= w < prefix.len() && (#[trigger] prefix[w]).0 < table@.len()
                                    && 0 <= v < prefix[w].1@.len() && loan_matches(
                                    bm.0@,
                                    #[trigger] prefix[w].1@[v],
                                    want_mutable,
                                    k,
                                );
                            assert(prefix1[w] == rows@[w]);
                            assert(borrow_appears(prefix1, table@, bm.0@, want_mutable, k));
                        } else {
                            let jj = choose|jj: int|
                                0 <= jj < m && loan_matches(
                                    bm.0@,
                                    #[trigger] row@[jj],
                                    want_mutable,
                                    k,
                                );
                            assert(prefix1[i as int] == rows@[i as int]);
                            assert(borrow_appears(prefix1, table@, bm.0@, want_mutable, k));
                        }
                    }
                    if borrow_appears(prefix1, table@, bm.0@, want_mutable, k) {
                        let (w, v) = choose|w: int, v: int|
                            0 <= w < prefix1.len() && (#[trigger] prefix1[w]).0 < table@.len() && 0
                                <= v < prefix1[w].1@.len() && loan_matches(
                                bm.0@,
                                #[trigger] prefix1[w].1@[v],
                                want_mutable,
                                k,
                            );
                        if w < i as int {
                            assert(prefix[w] == rows@[w]);
                            assert(borrow_appears(prefix, table@, bm.0@, want_mutable, k));
                        } else {
                            assert(prefix1[i as int] == rows@[i as int]);
                            assert(loan_matches(bm.0@, row@[v], want_mutable, k));
                        }
                    }
                }
            }
        } else {
            proof {
                assert forall|k: u32| #[trigger] keys@.contains(k) <==> borrow_appears(
                    rows@.subrange(0, i as int + 1),
                    table@,
                    bm.0@,
                    want_mutable,
                    k,
                ) by {
                    let prefix1 = rows@.subrange(0, i as int + 1);
                    if keys@.contains(k) {
                        let (w, v) = choose|w: int, v: int|
                            0 <= w < prefix.len() && (#[trigger] prefix[w]).0 < table@.len() && 0
                                <= v < prefix[w].1@.len() && loan_matches(
                                bm.0@,
                                #[trigger] prefix[w].1@[v],
                                want_mutable,
                                k,
                            );
                        assert(prefix1[w] == rows@[w]);
                    }
                    if borrow_appears(prefix1, table@, bm.0@, want_mutable, k) {
                        let (w, v) = choose|w: int, v: int|
                            0 <= w < prefix1.len() && (#[trigger] prefix1[w]).0 < table@.len() && 0
                                <= v < prefix1[w].1@.len() && loan_matches(
                                bm.0@,
                                #[trigger] prefix1[w].1@[v],
                                want_mutable,
                                k,
                            );
                        if w < i as int {
                            assert(prefix[w] == rows@[w]);
                        } else {
                            assert(prefix1[i as int] == rows@[i as int]);
                            assert(false);
                        }
                    }
                }
            }
        }
        i = i + 1;
    }
    proof {
        assert(rows@.subrange(0, n as int) =~= rows@);
    }
    keys
}

/// One side (shared or mutable) of the borrow-liveness extraction.
fn borrow_side(
    rows: &Vec<(usize, Vec<u32>)>,
    table: &Vec<RichLocation>,
    bm: &BorrowMap,
    want_mutable: bool,
    basic_blocks: &[MirBasicBlock],
) -> (r: Vec<(u32, Vec<Range>)>)
    ensures
        map_keys_unique(r@),
        forall|i: int|
            0 <= i < r@.len() ==> (#[trigger] r@[i]).1@ == local_range_set(
                basic_blocks@,
                borrow_locs(rows@, table@, bm.0@, want_mutable, r@[i].0),
            ),
        forall|k: u32|
            borrow_appears(rows@, table@, bm.0@, want_mutable, k) <==> map_has_key(r@, k),
{
    let keys = collect_borrow_keys(rows, table, bm, want_mutable);
    let nk = keys.len();
    let mut out: Vec<(u32, Vec<Range>)> = Vec::new();
    let mut c: usize = 0;
    while c < nk
        invariant
            0 <= c <= nk,
            nk == keys@.len(),
            keys@.no_duplicates(),
            forall|k: u32| #[trigger] keys@.contains(k) <==> borrow_appears(
                rows@,
                table@,
                bm.0@,
                want_mutable,
                k,
            ),
            out@.len() == c,
            forall|i: int| 0 <= i < c ==> (#[trigger] out@[i]).0 == keys@[i],
            forall|i: int|
                0 <= i < c ==> (#[trigger] out@[i]).1@ == local_range_set(
                    basic_blocks@,
                    borrow_locs(rows@, table@, bm.0@, want_mutable, out@[i].0),
                ),
        decreases nk - c,
    {
        let k = keys[c];
        let locs = borrow_locs_for(rows, table, bm, want_mutable, k);
        let paired = rich_locations_to_ranges(basic_blocks, locs.as_slice());
        let ranges = eliminated_ranges(paired);
        out.push((k, ranges));
        c = c + 1;
    }
    proof {
        assert forall|a: int, b: int| 0 <= a < b < out@.len() implies (#[trigger] out@[a]).0 != (
        #[trigger] out@[b]).0 by {
            assert(out@[a].0 == keys@[a] && out@[b].0 == keys@[b]);
        }
        assert forall|k: u32|
            borrow_appears(rows@, table@, bm.0@, want_mutable, k) <==> map_has_key(out@, k) by {
            if borrow_appears(rows@, table@, bm.0@, want_mutable, k) {
                assert(keys@.contains(k));
                let w = choose|w: int| 0 <= w < keys@.len() && keys@[w] == k;
                assert(out@[w].0 == k);
            }
            if map_has_key(out@, k) {
                let w = choose|w: int| 0 <= w < out@.len() && (#[trigger] out@[w]).0 == k;
                assert(keys@[w] == k);
                assert(keys@.contains(k));
            }
        }
    }
    out
}

/// Per-local borrow-liveness ranges, shared and mutable tracked separately.
///
/// For every loan live at a resolvable location, the loan is resolved to the
/// local it borrows from and its kind; each local's accumulated locations
/// are then paired and normalized exactly as in [`get_range`].  The first
/// component of the result maps locals to their shared-borrow ranges, the
/// second to their mutable-borrow ranges.
pub fn get_borrow_live(
    datafrog: &DataflowFacts,
    location_table: &Vec<RichLocation>,
    borrow_map: &BorrowMap,
    basic_blocks: &[MirBasicBlock],
) -> (r: (Vec<(u32, Vec<Range>)>, Vec<(u32, Vec<Range>)>))
    ensures
        map_keys_unique(r.0@),
        map_keys_unique(r.1@),
        forall|i: int|
            0 <= i < r.0@.len() ==> (#[trigger] r.0@[i]).1@ == local_range_set(
                basic_blocks@,
                borrow_locs(datafrog.loan_live_at@, location_table@, borrow_map.0@, false, r.0@[i].0),
            ),
        forall|i: int|
            0 <= i < r.1@.len() ==> (#[trigger] r.1@[i]).1@ == local_range_set(
                basic_blocks@,
                borrow_locs(datafrog.loan_live_at@, location_table@, borrow_map.0@, true, r.1@[i].0),
            ),
        forall|k: u32|
            borrow_appears(datafrog.loan_live_at@, location_table@, borrow_map.0@, false, k)
                <==> map_has_key(r.0@, k),
        forall|k: u32|
            borrow_appears(datafrog.loan_live_at@, location_table@, borrow_map.0@, true, k)
                <==> map_has_key(r.1@, k),
{
    let shared = borrow_side(&datafrog.loan_live_at, location_table, borrow_map, false, basic_blocks);
    let mutable = borrow_side(&datafrog.loan_live_at, location_table, borrow_map, true, basic_blocks);
    (shared, mutable)
}

/// Whether one row's entry list names `loan` under `region`.
pub open spec fn entry_names(entries: Seq<(u32, Vec<u32>)>, region: u32, loan: u32) -> bool {
    exists|e: int|
        0 <= e < entries.len() && (#[trigger] entries[e]).0 == region && entries[e].1@.contains(
            loan,
        )
}

/// Whether the origin-contains-loan facts name `loan` under `region` at any
/// location.
pub open spec fn ocla_names(
    ocla: Seq<(usize, Vec<(u32, Vec<u32>)>)>,
    region: u32,
    loan: u32,
) -> bool {
    exists|i: int| 0 <= i < ocla.len() && entry_names((#[trigger] ocla[i]).1@, region, loan)
}

/// Whether one row's entry list records `sub` as a subset of `sup`.
pub open spec fn subset_entry(entries: Seq<(u32, Vec<u32>)>, sup: u32, sub: u32) -> bool {
    exists|e: int|
        0 <= e < entries.len() && (#[trigger] entries[e]).0 == sup && entries[e].1@.contains(sub)
}

/// Whether the subset facts record `sub` as a subset of `sup` anywhere.
pub open spec fn subset_rel(srows: Seq<(usize, Vec<(u32, Vec<u32>)>)>, sup: u32, sub: u32) -> bool {
    exists|i: int| 0 <= i < srows.len() && subset_entry((#[trigger] srows[i]).1@, sup, sub)
}

/// Whether `region` is live on entry to location `loc`.
pub open spec fn origin_live(orows: Seq<(usize, Vec<u32>)>, loc: usize, region: u32) -> bool {
    exists|i: int|
        0 <= i < orows.len() && (#[trigger] orows[i]).0 == loc && orows[i].1@.contains(region)
}

/// Whether `b` is reachable from `a` in at most `fuel` steps of the subset
/// relation (zero steps included).
pub open spec fn reaches_within(
    srows: Seq<(usize, Vec<(u32, Vec<u32>)>)>,
    a: u32,
    b: u32,
    fuel: nat,
) -> bool
    decreases fuel,
{
    a == b || (fuel > 0 && exists|mid: u32|
        subset_rel(srows, a, mid) && reaches_within(srows, mid, b, (fuel - 1) as nat))
}

/// Whether `region` must keep `loc` alive: some region in the transitive
/// closure of its recorded subsets is live on entry to `loc`.
pub open spec fn region_reaches(
    srows: Seq<(usize, Vec<(u32, Vec<u32>)>)>,
    orows: Seq<(usize, Vec<u32>)>,
    region: u32,
    loc: usize,
) -> bool {
    exists|mid: u32, sub: u32, fuel: nat|
        subset_rel(srows, region, mid) && reaches_within(srows, mid, sub, fuel) && origin_live(
            orows,
            loc,
            sub,
        )
}

/// Whether `x` lies below `region`: reachable in at least one subset step.
pub open spec fn below_region(
    srows: Seq<(usize, Vec<(u32, Vec<u32>)>)>,
    region: u32,
    x: u32,
) -> bool {
    exists|mid: u32, fuel: nat|
        subset_rel(srows, region, mid) && reaches_within(srows, mid, x, fuel)
}

/// A step of the subset relation extends a reachability chain by one.
proof fn lemma_reaches_extend(
    srows: Seq<(usize, Vec<(u32, Vec<u32>)>)>,
    a: u32,
    b: u32,
    c: u32,
    fuel: nat,
)
    requires
        reaches_within(srows, a, b, fuel),
        subset_rel(srows, b, c),
    ensures
        reaches_within(srows, a, c, (fuel + 1) as nat),
    decreases fuel,
{
    if a == b {
        assert(reaches_within(srows, c, c, fuel));
        assert(subset_rel(srows, a, c));
    } else {
        let mid = choose|mid: u32|
            subset_rel(srows, a, mid) && reaches_within(srows, mid, b, (fuel - 1) as nat);
        lemma_reaches_extend(srows, mid, b, c, (fuel - 1) as nat);
        assert(subset_rel(srows, a, mid) && reaches_within(srows, mid, c, fuel));
    }
}

/// In a set closed under the subset relation, reachability stays inside.
proof fn lemma_closed_set_reaches(
    srows: Seq<(usize, Vec<(u32, Vec<u32>)>)>,
    visited: Seq<u32>,
    a: u32,
    b: u32,
    fuel: nat,
)
    requires
        visited.contains(a),
        forall|j: int, mid: u32|
            #![trigger subset_rel(srows, visited[j], mid)]
            0 <= j < visited.len() && subset_rel(srows, visited[j], mid)
                ==> visited.contains(mid),
        reaches_within(srows, a, b, fuel),
    ensures
        visited.contains(b),
    decreases fuel,
{
    if a == b {
    } else {
        let mid = choose|mid: u32|
            subset_rel(srows, a, mid) && reaches_within(srows, mid, b, (fuel - 1) as nat);
        let j = choose|j: int| 0 <= j < visited.len() && visited[j] == a;
        assert(subset_rel(srows, visited[j], mid));
        lemma_closed_set_reaches(srows, visited, mid, b, (fuel - 1) as nat);
    }
}

/// The subsets named by one row's entry list, in order.
pub open spec fn entry_subs(entries: Seq<(u32, Vec<u32>)>) -> Seq<u32>
    decreases entries.len(),
{
    if entries.len() == 0 {
        Seq::empty()
    } else {
        entries[0].1@ + entry_subs(entries.drop_first())
    }
}

/// Every subset named anywhere in the subset facts, in order.
pub open spec fn all_subs(srows: Seq<(usize, Vec<(u32, Vec<u32>)>)>) -> Seq<u32>
    decreases srows.len(),
{
    if srows.len() == 0 {
        Seq::empty()
    } else {
        entry_subs(srows[0].1@) + all_subs(srows.drop_first())
    }
}

/// How many listed subsets are not yet visited: the measure the closure
/// search decreases.
pub open spec fn count_not_in(s: Seq<u32>, visited: Seq<u32>) -> nat
    decreases s.len(),
{
    if s.len() == 0 {
        0
    } else {
        (if visited.contains(s[0]) {
            0nat
        } else {
            1nat
        }) + count_not_in(s.drop_first(), visited)
    }
}

proof fn lemma_contains_after_push(v: Seq<u32>, x: u32, y: u32)
    requires
        v.contains(y),
    ensures
        v.push(x).contains(y),
{
    let j = choose|j: int| 0 <= j < v.len() && v[j] == y;
    assert(v.push(x)[j] == y);
}

proof fn lemma_count_push_le(s: Seq<u32>, v: Seq<u32>, x: u32)
    ensures
        count_not_in(s, v.push(x)) <= count_not_in(s, v),
    decreases s.len(),
{
    if s.len() == 0 {
    } else {
        if v.contains(s[0]) {
            lemma_contains_after_push(v, x, s[0]);
        }
        lemma_count_push_le(s.drop_first(), v, x);
    }
}

proof fn lemma_count_push_lt(s: Seq<u32>, v: Seq<u32>, x: u32)
    requires
        s.contains(x),
        !v.contains(x),
    ensures
        count_not_in(s, v.push(x)) < count_not_in(s, v),
    decreases s.len(),
{
    if s[0] == x {
        assert(v.push(x)[v.len() as int] == x);
        assert(v.push(x).contains(x));
        lemma_count_push_le(s.drop_first(), v, x);
    } else {
        let w = choose|w: int| 0 <= w < s.len() && s[w] == x;
        assert(s.drop_first()[w - 1] == x);
        assert(s.drop_first().contains(x));
        lemma_count_push_lt(s.drop_first(), v, x);
        // The head contributes the same on both sides.
        if v.push(x).contains(s[0]) && !v.contains(s[0]) {
            let u = choose|u: int| 0 <= u < v.push(x).len() && v.push(x)[u] == s[0];
            assert(u == v.len());
            assert(false);
        }
        if v.contains(s[0]) {
            lemma_contains_after_push(v, x, s[0]);
        }
    }
}

proof fn lemma_entry_subs_member(entries: Seq<(u32, Vec<u32>)>, e: int, k: int)
    requires
        0 <= e < entries.len(),
        0 <= k < entries[e].1@.len(),
    ensures
        entry_subs(entries).contains(entries[e].1@[k]),
    decreases e,
{
    if e == 0 {
        assert(entry_subs(entries)[k] == entries[0].1@[k]);
    } else {
        lemma_entry_subs_member(entries.drop_first(), e - 1, k);
        let rest = entry_subs(entries.drop_first());
        let u = choose|u: int| 0 <= u < rest.len() && rest[u] == entries.drop_first()[e - 1].1@[k];
        assert(entry_subs(entries)[entries[0].1@.len() + u] == rest[u]);
        assert(entries.drop_first()[e - 1] == entries[e]);
    }
}

proof fn lemma_all_subs_member(srows: Seq<(usize, Vec<(u32, Vec<u32>)>)>, w: int, e: int, k: int)
    requires
        0 <= w < srows.len(),
        0 <= e < srows[w].1@.len(),
        0 <= k < srows[w].1@[e].1@.len(),
    ensures
        all_subs(srows).contains(srows[w].1@[e].1@[k]),
    decreases w,
{
    if w == 0 {
        lemma_entry_subs_member(srows[0].1@, e, k);
        let head = entry_subs(srows[0].1@);
        let u = choose|u: int| 0 <= u < head.len() && head[u] == srows[0].1@[e].1@[k];
        assert(all_subs(srows)[u] == head[u]);
    } else {
        lemma_all_subs_member(srows.drop_first(), w - 1, e, k);
        let rest = all_subs(srows.drop_first());
        let u = choose|u: int|
            0 <= u < rest.len() && rest[u] == srows.drop_first()[w - 1].1@[e].1@[k];
        assert(all_subs(srows)[entry_subs(srows[0].1@).len() + u] == rest[u]);
        assert(srows.drop_first()[w - 1] == srows[w]);
    }
}

/// Whether the loan's owning local is `k`.
pub open spec fn loan_owned_by(bm: Seq<(u32, BorrowData)>, loan: u32, k: u32) -> bool {
    match bm_lookup(bm, loan) {
        Some(d) => d.owner == k,
        None => false,
    }
}

/// Whether local `k` must be live at location `loc`: some region holding a
/// loan owned by `k` reaches `loc` through the subset relation.
pub open spec fn must_live_loc(
    ocla: Seq<(usize, Vec<(u32, Vec<u32>)>)>,
    srows: Seq<(usize, Vec<(u32, Vec<u32>)>)>,
    orows: Seq<(usize, Vec<u32>)>,
    bm: Seq<(u32, BorrowData)>,
    k: u32,
    loc: usize,
) -> bool {
    exists|region: u32, loan: u32|
        ocla_names(ocla, region, loan) && loan_owned_by(bm, loan, k) && region_reaches(
            srows,
            orows,
            region,
            loc,
        )
}

/// The ascending list of locations below `n` at which `k` must be live.
pub open spec fn must_idxs(
    ocla: Seq<(usize, Vec<(u32, Vec<u32>)>)>,
    srows: Seq<(usize, Vec<(u32, Vec<u32>)>)>,
    orows: Seq<(usize, Vec<u32>)>,
    bm: Seq<(u32, BorrowData)>,
    k: u32,
    n: int,
) -> Seq<usize>
    decreases n,
{
    if n <= 0 {
        Seq::empty()
    } else {
        must_idxs(ocla, srows, orows, bm, k, n - 1) + (if must_live_loc(
            ocla,
            srows,
            orows,
            bm,
            k,
            (n - 1) as usize,
        ) {
            seq![(n - 1) as usize]
        } else {
            Seq::<usize>::empty()
        })
    }
}

/// The rich locations of a list of location indices, skipping indices the
/// table cannot resolve.
pub open spec fn rich_seq(table: Seq<RichLocation>, idxs: Seq<usize>) -> Seq<RichLocation>
    decreases idxs.len(),
{
    if idxs.len() == 0 {
        Seq::empty()
    } else {
        (if idxs[0] < table.len() {
            seq![table[idxs[0] as int]]
        } else {
            Seq::<RichLocation>::empty()
        }) + rich_seq(table, idxs.drop_first())
    }
}

/// Whether `region` is live on entry to `loc` according to the facts.
fn origin_has(orows: &Vec<(usize, Vec<u32>)>, loc: usize, region: u32) -> (r: bool)
    ensures
        r == origin_live(orows@, loc, region),
{
    let n = orows.len();
    let mut i: usize = 0;
    while i < n
        invariant
            0 <= i <= n,
            n == orows@.len(),
            forall|w: int|
                0 <= w < i ==> !((#[trigger] orows@[w]).0 == loc && orows@[w].1@.contains(region)),
        decreases n - i,
    {
        if orows[i].0 == loc {
            if vec_contains_u32(&orows[i].1, region) {
                return true;
            }
        }
        i = i + 1;
    }
    proof {
        if origin_live(orows@, loc, region) {
            let w = choose|w: int|
                0 <= w < orows@.len() && (#[trigger] orows@[w]).0 == loc && orows@[w].1@.contains(
                    region,
                );
            assert(false);
        }
    }
    false
}

/// Adds every direct subset of `cur` recorded in the facts to `visited`,
/// skipping those already present.
fn push_direct_subs(
    srows: &Vec<(usize, Vec<(u32, Vec<u32>)>)>,
    cur: u32,
    visited: &mut Vec<u32>,
)
    ensures
        final(visited)@.len() >= old(visited)@.len(),
        forall|j: int| 0 <= j < old(visited)@.len() ==> final(visited)@[j] == old(visited)@[j],
        forall|j: int|
            old(visited)@.len() <= j < final(visited)@.len() ==> subset_rel(
                srows@,
                cur,
                #[trigger] final(visited)@[j],
            ),
        forall|mid: u32| #[trigger] subset_rel(srows@, cur, mid) ==> final(visited)@.contains(mid),
        final(visited)@ == old(visited)@ || count_not_in(all_subs(srows@), final(visited)@)
            < count_not_in(all_subs(srows@), old(visited)@),
{
    let ghost v0 = visited@;
    let ghost count0 = count_not_in(all_subs(srows@), v0);
    let n = srows.len();
    let mut i: usize = 0;
    while i < n
        invariant
            0 <= i <= n,
            n == srows@.len(),
            visited@.len() >= v0.len(),
            count0 == count_not_in(all_subs(srows@), v0),
            forall|j: int| 0 <= j < v0.len() ==> visited@[j] == v0[j],
            forall|j: int|
                v0.len() <= j < visited@.len() ==> subset_rel(
                    srows@,
                    cur,
                    #[trigger] visited@[j],
                ),
            forall|w: int, mid: u32|
                #![trigger subset_entry(srows@[w].1@, cur, mid)]
                0 <= w < i && subset_entry(srows@[w].1@, cur, mid) ==> visited@.contains(mid),
            visited@ == v0 || count_not_in(all_subs(srows@), visited@) < count0,
        decreases n - i,
    {
        let entries = &srows[i].1;
        let m = entries.len();
        let mut e: usize = 0;
        while e < m
            invariant
                0 <= e <= m,
                m == entries@.len(),
                i < srows@.len(),
                entries@ == srows@[i as int].1@,
                visited@.len() >= v0.len(),
                count0 == count_not_in(all_subs(srows@), v0),
                forall|j: int| 0 <= j < v0.len() ==> visited@[j] == v0[j],
                forall|j: int|
                    v0.len() <= j < visited@.len() ==> subset_rel(
                        srows@,
                        cur,
                        #[trigger] visited@[j],
                    ),
                forall|w: int, mid: u32|
                    #![trigger subset_entry(srows@[w].1@, cur, mid)]
                    0 <= w < i && subset_entry(srows@[w].1@, cur, mid) ==> visited@.contains(mid),
                forall|e2: int, kk: int|
                    #![trigger entries@[e2].1@[kk]]
                    0 <= e2 < e && entries@[e2].0 == cur && 0 <= kk < entries@[e2].1@.len()
                        ==> visited@.contains(entries@[e2].1@[kk]),
                visited@ == v0 || count_not_in(all_subs(srows@), visited@) < count0,
            decreases m - e,
        {
            if entries[e].0 == cur {
                let subs = &entries[e].1;
                let sm = subs.len();
                let mut k: usize = 0;
                while k < sm
                    invariant
                        0 <= k <= sm,
                        sm == subs@.len(),
                        e < entries@.len(),
                        i < srows@.len(),
                        entries@ == srows@[i as int].1@,
                        subs@ == entries@[e as int].1@,
                        entries@[e as int].0 == cur,
                        visited@.len() >= v0.len(),
                        count0 == count_not_in(all_subs(srows@), v0),
                        forall|j: int| 0 <= j < v0.len() ==> visited@[j] == v0[j],
                        forall|j: int|
                            v0.len() <= j < visited@.len() ==> subset_rel(
                                srows@,
                                cur,
                                #[trigger] visited@[j],
                            ),
                        forall|w: int, mid: u32|
                            #![trigger subset_entry(srows@[w].1@, cur, mid)]
                            0 <= w < i && subset_entry(srows@[w].1@, cur, mid)
                                ==> visited@.contains(mid),
                        forall|e2: int, kk: int|
                            #![trigger entries@[e2].1@[kk]]
                            0 <= e2 < e && entries@[e2].0 == cur && 0 <= kk
                                < entries@[e2].1@.len() ==> visited@.contains(entries@[e2].1@[kk]),
                        forall|kk: int| 0 <= kk < k ==> visited@.contains(#[trigger] subs@[kk]),
                        visited@ == v0 || count_not_in(all_subs(srows@), visited@) < count0,
                    decreases sm - k,
                {
                    let sub = subs[k];
                    let ghost before = visited@;
                    if !vec_contains_u32(visited, sub) {
                        proof {
                            lemma_all_subs_member(srows@, i as int, e as int, k as int);
                            lemma_count_push_lt(all_subs(srows@), before, sub);
                        }
                        visited.push(sub);
                        proof {
                            assert(visited@[visited@.len() - 1] == sub);
                            assert(subset_entry(srows@[i as int].1@, cur, sub)) by {
                                assert(entries@[e as int].0 == cur && entries@[e as int].1@.contains(
                                    subs@[k as int],
                                ));
                            }
                            assert(subset_rel(srows@, cur, sub));
                            assert forall|j: int| 0 <= j < v0.len() implies visited@[j] == v0[j] by {
                                assert(visited@[j] == before[j]);
                            }
                            assert forall|w: int, mid: u32|
                                #![trigger subset_entry(srows@[w].1@, cur, mid)]
                                0 <= w < i && subset_entry(srows@[w].1@, cur, mid) implies
                                visited@.contains(mid) by {
                                lemma_contains_after_push(before, sub, mid);
                            }
                            assert forall|e2: int, kk: int|
                                #![trigger entries@[e2].1@[kk]]
                                0 <= e2 < e && entries@[e2].0 == cur && 0 <= kk
                                    < entries@[e2].1@.len() implies visited@.contains(
                                entries@[e2].1@[kk],
                            ) by {
                                lemma_contains_after_push(before, sub, entries@[e2].1@[kk]);
                            }
                            assert forall|kk: int| 0 <= kk < k implies visited@.contains(
                                #[trigger] subs@[kk],
                            ) by {
                                lemma_contains_after_push(before, sub, subs@[kk]);
                            }
                        }
                    }
                    k = k + 1;
                }
                proof {
                    assert forall|e2: int, kk: int|
                        #![trigger entries@[e2].1@[kk]]
                        0 <= e2 < e + 1 && entries@[e2].0 == cur && 0 <= kk
                            < entries@[e2].1@.len() implies visited@.contains(
                        entries@[e2].1@[kk],
                    ) by {}
                }
            }
            e = e + 1;
        }
        proof {
            assert forall|w: int, mid: u32|
                #![trigger subset_entry(srows@[w].1@, cur, mid)]
                0 <= w < i + 1 && subset_entry(srows@[w].1@, cur, mid) implies visited@.contains(
                mid,
            ) by {
                if w == i as int {
                    let e2 = choose|e2: int|
                        0 <= e2 < entries@.len() && (#[trigger] entries@[e2]).0 == cur
                            && entries@[e2].1@.contains(mid);
                    let kk = choose|kk: int| 0 <= kk < entries@[e2].1@.len() && entries@[e2].1@[kk] == mid;
                    assert(visited@.contains(entries@[e2].1@[kk]));
                }
            }
        }
        i = i + 1;
    }
    proof {
        assert forall|mid: u32| #[trigger] subset_rel(srows@, cur, mid) implies visited@.contains(
            mid,
        ) by {
            let w = choose|w: int|
                0 <= w < srows@.len() && subset_entry((#[trigger] srows@[w]).1@, cur, mid);
            assert(subset_entry(srows@[w].1@, cur, mid));
        }
    }
}

/// Whether some region in the transitive closure of `region`'s subsets is
/// live on entry to `loc`: the set of regions below `region` is saturated
/// step by step and each member checked against the origin-liveness facts.
fn region_reaches_exec(
    srows: &Vec<(usize, Vec<(u32, Vec<u32>)>)>,
    orows: &Vec<(usize, Vec<u32>)>,
    region: u32,
    loc: usize,
) -> (r: bool)
    ensures
        r == region_reaches(srows@, orows@, region, loc),
{
    let mut visited: Vec<u32> = Vec::new();
    push_direct_subs(srows, region, &mut visited);
    proof {
        assert forall|j: int| 0 <= j < visited@.len() implies below_region(
            srows@,
            region,
            #[trigger] visited@[j],
        ) by {
            assert(subset_rel(srows@, region, visited@[j]));
            assert(reaches_within(srows@, visited@[j], visited@[j], 0));
        }
    }
    let mut i: usize = 0;
    while i < visited.len()
        invariant
            0 <= i <= visited@.len(),
            forall|j: int| 0 <= j < visited@.len() ==> below_region(
                srows@,
                region,
                #[trigger] visited@[j],
            ),
            forall|j: int| 0 <= j < i ==> !origin_live(orows@, loc, #[trigger] visited@[j]),
            forall|j: int, mid: u32|
                #![trigger subset_rel(srows@, visited@[j], mid)]
                0 <= j < i && subset_rel(srows@, visited@[j], mid) ==> visited@.contains(mid),
            forall|mid: u32| #[trigger] subset_rel(srows@, region, mid) ==> visited@.contains(mid),
        decreases count_not_in(all_subs(srows@), visited@), visited@.len() - i,
    {
        let cur = visited[i];
        if origin_has(orows, loc, cur) {
            proof {
                assert(below_region(srows@, region, cur));
                let (mid, fuel) = choose|mid: u32, fuel: nat|
                    subset_rel(srows@, region, mid) && reaches_within(srows@, mid, cur, fuel);
                assert(region_reaches(srows@, orows@, region, loc));
            }
            return true;
        }
        let ghost before = visited@;
        push_direct_subs(srows, cur, &mut visited);
        proof {
            assert forall|j: int| 0 <= j < visited@.len() implies below_region(
                srows@,
                region,
                #[trigger] visited@[j],
            ) by {
                if j < before.len() {
                    assert(visited@[j] == before[j]);
                } else {
                    // A fresh element is a direct subset of an already
                    // reachable region.
                    assert(subset_rel(srows@, cur, visited@[j]));
                    assert(below_region(srows@, region, cur));
                    let (mid, fuel) = choose|mid: u32, fuel: nat|
                        subset_rel(srows@, region, mid) && reaches_within(srows@, mid, cur, fuel);
                    lemma_reaches_extend(srows@, mid, cur, visited@[j], fuel);
                }
            }
            assert forall|j: int| 0 <= j < i + 1 implies !origin_live(
                orows@,
                loc,
                #[trigger] visited@[j],
            ) by {
                assert(visited@[j] == before[j]);
            }
            assert forall|j: int, mid: u32|
                #![trigger subset_rel(srows@, visited@[j], mid)]
                0 <= j < i + 1 && subset_rel(srows@, visited@[j], mid) implies visited@.contains(
                mid,
            ) by {
                assert(visited@[j] == before[j]);
                if j < i as int {
                    assert(before.contains(mid));
                    let u = choose|u: int| 0 <= u < before.len() && before[u] == mid;
                    assert(visited@[u] == mid);
                } else {
                    assert(visited@[j] == cur);
                }
            }
            assert forall|mid: u32| #[trigger] subset_rel(srows@, region, mid) implies
                visited@.contains(mid) by {
                assert(before.contains(mid));
                let u = choose|u: int| 0 <= u < before.len() && before[u] == mid;
                assert(visited@[u] == mid);
            }
        }
        i = i + 1;
    }
    proof {
        if region_reaches(srows@, orows@, region, loc) {
            let (mid, sub, fuel) = choose|mid: u32, sub: u32, fuel: nat|
                subset_rel(srows@, region, mid) && reaches_within(srows@, mid, sub, fuel)
                    && origin_live(orows@, loc, sub);
            assert(visited@.contains(mid));
            lemma_closed_set_reaches(srows@, visited@, mid, sub, fuel);
            let j = choose|j: int| 0 <= j < visited@.len() && visited@[j] == sub;
            assert(!origin_live(orows@, loc, visited@[j]));
            assert(false);
        }
    }
    false
}


/// Whether local `k` must be live at `loc`.
fn is_must_loc(
    ocla: &Vec<(usize, Vec<(u32, Vec<u32>)>)>,
    srows: &Vec<(usize, Vec<(u32, Vec<u32>)>)>,
    orows: &Vec<(usize, Vec<u32>)>,
    bm: &BorrowMap,
    k: u32,
    loc: usize,
) -> (r: bool)
    ensures
        r == must_live_loc(ocla@, srows@, orows@, bm.0@, k, loc),
{
    let n = ocla.len();
    let mut i: usize = 0;
    while i < n
        invariant
            0 <= i <= n,
            n == ocla@.len(),
            forall|w: int, region: u32, loan: u32|
                #![trigger entry_names(ocla@[w].1@, region, loan)]
                0 <= w < i && entry_names(ocla@[w].1@, region, loan) && loan_owned_by(
                    bm.0@,
                    loan,
                    k,
                ) ==> !region_reaches(srows@, orows@, region, loc),
        decreases n - i,
    {
        let entries = &ocla[i].1;
        let m = entries.len();
        let mut e: usize = 0;
        while e < m
            invariant
                0 <= e <= m,
                m == entries@.len(),
                i < ocla@.len(),
                entries@ == ocla@[i as int].1@,
                forall|w: int, region: u32, loan: u32|
                    #![trigger entry_names(ocla@[w].1@, region, loan)]
                    0 <= w < i && entry_names(ocla@[w].1@, region, loan) && loan_owned_by(
                        bm.0@,
                        loan,
                        k,
                    ) ==> !region_reaches(srows@, orows@, region, loc),
                forall|w: int, loan: u32|
                    #![trigger entries@[w].1@.contains(loan)]
                    0 <= w < e && entries@[w].1@.contains(loan) && loan_owned_by(bm.0@, loan, k)
                        ==> !region_reaches(srows@, orows@, entries@[w].0, loc),
            decreases m - e,
        {
            let region = entries[e].0;
            let loans = &entries[e].1;
            let lm = loans.len();
            let mut l: usize = 0;
            while l < lm
                invariant
                    0 <= l <= lm,
                    lm == loans@.len(),
                    e < entries@.len(),
                    i < ocla@.len(),
                    entries@ == ocla@[i as int].1@,
                    loans@ == entries@[e as int].1@,
                    region == entries@[e as int].0,
                    forall|w: int| 0 <= w < l && loan_owned_by(bm.0@, #[trigger] loans@[w], k)
                        ==> !region_reaches(srows@, orows@, region, loc),
                decreases lm - l,
            {
                let owned = match bm.get_from_borrow_index(loans[l]) {
                    Some(d) => d.owner == k,
                    None => false,
                };
                if owned {
                    if region_reaches_exec(srows, orows, region, loc) {
                        proof {
                            assert(entries@[e as int].0 == region
                                && entries@[e as int].1@.contains(loans@[l as int]));
                            assert(entry_names(ocla@[i as int].1@, region, loans@[l as int]));
                            assert(ocla_names(ocla@, region, loans@[l as int]));
                            assert(loan_owned_by(bm.0@, loans@[l as int], k));
                        }
                        return true;
                    }
                }
                l = l + 1;
            }
            proof {
                assert forall|w: int, loan: u32|
                    #![trigger entries@[w].1@.contains(loan)]
                    0 <= w < e + 1 && entries@[w].1@.contains(loan) && loan_owned_by(
                        bm.0@,
                        loan,
                        k,
                    ) implies !region_reaches(srows@, orows@, entries@[w].0, loc) by {
                    if w == e as int {
                        let v = choose|v: int| 0 <= v < loans@.len() && loans@[v] == loan;
                        assert(!region_reaches(srows@, orows@, region, loc));
                    }
                }
            }
            e = e + 1;
        }
        proof {
            assert forall|w: int, region: u32, loan: u32|
                #![trigger entry_names(ocla@[w].1@, region, loan)]
                0 <= w < i + 1 && entry_names(ocla@[w].1@, region, loan) && loan_owned_by(
                    bm.0@,
                    loan,
                    k,
                ) implies !region_reaches(srows@, orows@, region, loc) by {
                if w == i as int {
                    let v = choose|v: int|
                        0 <= v < entries@.len() && (#[trigger] entries@[v]).0 == region
                            && entries@[v].1@.contains(loan);
                }
            }
        }
        i = i + 1;
    }
    proof {
        if must_live_loc(ocla@, srows@, orows@, bm.0@, k, loc) {
            let (region, loan) = choose|region: u32, loan: u32|
                ocla_names(ocla@, region, loan) && loan_owned_by(bm.0@, loan, k) && region_reaches(
                    srows@,
                    orows@,
                    region,
                    loc,
                );
            let w = choose|w: int|
                0 <= w < ocla@.len() && entry_names((#[trigger] ocla@[w]).1@, region, loan);
            assert(false);
        }
    }
    false
}

proof fn lemma_must_idxs_nonempty(
    ocla: Seq<(usize, Vec<(u32, Vec<u32>)>)>,
    srows: Seq<(usize, Vec<(u32, Vec<u32>)>)>,
    orows: Seq<(usize, Vec<u32>)>,
    bm: Seq<(u32, BorrowData)>,
    k: u32,
    n: int,
)
    requires
        n >= 0,
    ensures
        must_idxs(ocla, srows, orows, bm, k, n).len() > 0 <==> exists|loc: usize|
            loc < n && #[trigger] must_live_loc(ocla, srows, orows, bm, k, loc),
    decreases n,
{
    if n == 0 {
    } else {
        lemma_must_idxs_nonempty(ocla, srows, orows, bm, k, n - 1);
        if must_live_loc(ocla, srows, orows, bm, k, (n - 1) as usize) {
            assert(((n - 1) as usize) < n);
        } else {
            if exists|loc: usize| loc < n && #[trigger] must_live_loc(ocla, srows, orows, bm, k, loc) {
                let loc = choose|loc: usize|
                    loc < n && #[trigger] must_live_loc(ocla, srows, orows, bm, k, loc);
                assert(loc < n - 1);
            }
        }
    }
}

/// Collects, without duplicates, the owning locals named by the borrow map.
fn collect_owner_keys(bm: &BorrowMap) -> (keys: Vec<u32>)
    ensures
        keys@.no_duplicates(),
        forall|k: u32| #[trigger] keys@.contains(k) <==> exists|i: int|
            0 <= i < bm.0@.len() && (#[trigger] bm.0@[i]).1.owner == k,
{
    let n = bm.0.len();
    let mut keys: Vec<u32> = Vec::new();
    let mut i: usize = 0;
    while i < n
        invariant
            0 <= i <= n,
            n == bm.0@.len(),
            keys@.no_duplicates(),
            forall|k: u32| #[trigger] keys@.contains(k) <==> exists|w: int|
                0 <= w < i && (#[trigger] bm.0@[w]).1.owner == k,
        decreases n - i,
    {
        let x = bm.0[i].1.owner;
        let ghost keys_before = keys@;
        if !vec_contains_u32(&keys, x) {
            keys.push(x);
        }
        proof {
            assert forall|k: u32| #[trigger] keys@.contains(k) <==> exists|w: int|
                0 <= w < i + 1 && (#[trigger] bm.0@[w]).1.owner == k by {
                if keys@.contains(k) {
                    if keys_before.contains(k) {
                        let w = choose|w: int| 0 <= w < i && (#[trigger] bm.0@[w]).1.owner == k;
                        assert(0 <= w < i + 1 && bm.0@[w].1.owner == k);
                    } else {
                        assert(keys@ == keys_before.push(x));
                        assert(k == x);
                        assert(bm.0@[i as int].1.owner == k);
                    }
                }
                if exists|w: int| 0 <= w < i + 1 && (#[trigger] bm.0@[w]).1.owner == k {
                    let w = choose|w: int| 0 <= w < i + 1 && (#[trigger] bm.0@[w]).1.owner == k;
                    if w < i as int {
                        assert(keys_before.contains(k));
                        if keys@ != keys_before {
                            let u = choose|u: int|
                                0 <= u < keys_before.len() && keys_before[u] == k;
                            assert(keys@[u] == k);
                        }
                    } else {
                        assert(k == x);
                        if keys_before.contains(x) {
                            let u = choose|u: int|
                                0 <= u < keys_before.len() && keys_before[u] == x;
                            if keys@ != keys_before {
                                assert(keys@[u] == x);
                            }
                        } else {
                            assert(keys@ == keys_before.push(x));
                            assert(keys@[keys@.len() - 1] == x);
                        }
                    }
                }
            }
        }
        i = i + 1;
    }
    keys
}

/// Maps location indices to rich locations, skipping unresolvable indices.
fn rich_for_idxs(table: &Vec<RichLocation>, idxs: &Vec<usize>) -> (r: Vec<RichLocation>)
    ensures
        r@ == rich_seq(table@, idxs@),
{
    let n = idxs.len();
    let mut acc: Vec<RichLocation> = Vec::new();
    let mut i: usize = 0;
    proof {
        assert(idxs@.skip(0) =~= idxs@);
        assert(acc@ + rich_seq(table@, idxs@.skip(0)) =~= rich_seq(table@, idxs@));
    }
    while i < n
        invariant
            0 <= i <= n,
            n == idxs@.len(),
            rich_seq(table@, idxs@) == acc@ + rich_seq(table@, idxs@.skip(i as int)),
        decreases n - i,
    {
        proof {
            assert(idxs@.skip(i as int)[0] == idxs@[i as int]);
            assert(idxs@.skip(i as int).drop_first() =~= idxs@.skip(i as int + 1));
        }
        let ghost acc_before = acc@;
        let idx = idxs[i];
        if idx < table.len() {
            acc.push(table[idx]);
        }
        proof {
            assert(acc@ + rich_seq(table@, idxs@.skip(i as int + 1)) =~= acc_before + rich_seq(
                table@,
                idxs@.skip(i as int),
            ));
        }
        i = i + 1;
    }
    proof {
        assert(rich_seq(table@, idxs@.skip(n as int)) =~= Seq::<RichLocation>::empty());
        assert(acc@ =~= rich_seq(table@, idxs@));
    }
    acc
}

/// Per-local must-live ranges: where each local's borrowed data must remain
/// valid.
///
/// A local must be live at a location when some region holding one of its
/// loans reaches that location through the transitive closure of the
/// region-subset facts: the origin-contains-loan facts tie loans to regions,
/// each region inherits the locations of every region reachable below it,
/// and the origin-liveness facts say where those regions are live.  Each
/// local's locations are resolved and normalized exactly as in
/// [`get_range`].
pub fn get_must_live(
    datafrog: &DataflowFacts,
    location_table: &Vec<RichLocation>,
    borrow_map: &BorrowMap,
    basic_blocks: &[MirBasicBlock],
) -> (r: Vec<(u32, Vec<Range>)>)
    ensures
        map_keys_unique(r@),
        forall|i: int|
            0 <= i < r@.len() ==> (#[trigger] r@[i]).1@ == local_range_set(
                basic_blocks@,
                rich_seq(
                    location_table@,
                    must_idxs(
                        datafrog.origin_contains_loan_at@,
                        datafrog.subset@,
                        datafrog.origin_live_on_entry@,
                        borrow_map.0@,
                        r@[i].0,
                        location_table@.len() as int,
                    ),
                ),
            ),
        forall|k: u32|
            #[trigger] map_has_key(r@, k) <==> must_idxs(
                datafrog.origin_contains_loan_at@,
                datafrog.subset@,
                datafrog.origin_live_on_entry@,
                borrow_map.0@,
                k,
                location_table@.len() as int,
            ).len() > 0,
{
    let ghost ocla = datafrog.origin_contains_loan_at@;
    let ghost srows = datafrog.subset@;
    let ghost orows = datafrog.origin_live_on_entry@;
    let keys = collect_owner_keys(borrow_map);
    let nk = keys.len();
    let nt = location_table.len();
    let mut out: Vec<(u32, Vec<Range>)> = Vec::new();
    let mut c: usize = 0;
    while c < nk
        invariant
            0 <= c <= nk,
            nk == keys@.len(),
            nt == location_table@.len(),
            ocla == datafrog.origin_contains_loan_at@,
            srows == datafrog.subset@,
            orows == datafrog.origin_live_on_entry@,
            keys@.no_duplicates(),
            forall|k: u32| #[trigger] keys@.contains(k) <==> exists|i: int|
                0 <= i < borrow_map.0@.len() && (#[trigger] borrow_map.0@[i]).1.owner == k,
            map_keys_unique(out@),
            forall|i: int|
                0 <= i < out@.len() ==> (#[trigger] out@[i]).1@ == local_range_set(
                    basic_blocks@,
                    rich_seq(
                        location_table@,
                        must_idxs(ocla, srows, orows, borrow_map.0@, out@[i].0, nt as int),
                    ),
                ),
            forall|i: int|
                0 <= i < out@.len() ==> must_idxs(
                    ocla,
                    srows,
                    orows,
                    borrow_map.0@,
                    (#[trigger] out@[i]).0,
                    nt as int,
                ).len() > 0,
            forall|i: int| 0 <= i < out@.len() ==> keys@.subrange(0, c as int).contains(
                (#[trigger] out@[i]).0,
            ),
            forall|w: int|
                0 <= w < c && must_idxs(
                    ocla,
                    srows,
                    orows,
                    borrow_map.0@,
                    #[trigger] keys@[w],
                    nt as int,
                ).len() > 0 ==> map_has_key(out@, keys@[w]),
        decreases nk - c,
    {
        let k = keys[c];
        let mut idxs: Vec<usize> = Vec::new();
        let mut loc: usize = 0;
        while loc < nt
            invariant
                0 <= loc <= nt,
                nt == location_table@.len(),
                ocla == datafrog.origin_contains_loan_at@,
                srows == datafrog.subset@,
                orows == datafrog.origin_live_on_entry@,
                idxs@ == must_idxs(ocla, srows, orows, borrow_map.0@, k, loc as int),
            decreases nt - loc,
        {
            let ghost idxs_before = idxs@;
            if is_must_loc(
                &datafrog.origin_contains_loan_at,
                &datafrog.subset,
                &datafrog.origin_live_on_entry,
                borrow_map,
                k,
                loc,
            ) {
                idxs.push(loc);
            }
            proof {
                if must_live_loc(ocla, srows, orows, borrow_map.0@, k, loc) {
                    assert(idxs@ =~= must_idxs(
                        ocla,
                        srows,
                        orows,
                        borrow_map.0@,
                        k,
                        loc as int + 1,
                    ));
                } else {
                    assert(idxs@ =~= must_idxs(
                        ocla,
                        srows,
                        orows,
                        borrow_map.0@,
                        k,
                        loc as int + 1,
                    ));
                }
            }
            loc = loc + 1;
        }
        let ghost keys_prefix = keys@.subrange(0, c as int);
        let ghost out_before = out@;
        if idxs.len() > 0 {
            proof {
                if map_has_key(out@, k) {
                    let w = choose|w: int| 0 <= w < out@.len() && (#[trigger] out@[w]).0 == k;
                    assert(keys@.subrange(0, c as int).contains(k));
                    let u = choose|u: int| 0 <= u < c && keys@.subrange(0, c as int)[u] == k;
                    assert(keys@[u] == k && keys@[c as int] == k);
                    assert(false);
                }
            }
            let rich = rich_for_idxs(location_table, &idxs);
            let paired = rich_locations_to_ranges(basic_blocks, rich.as_slice());
            let ranges = eliminated_ranges(paired);
            out.push((k, ranges));
        }
        proof {
            assert forall|i: int| 0 <= i < out@.len() implies keys@.subrange(0, c as int + 1).contains(
                (#[trigger] out@[i]).0,
            ) by {
                if i < out_before.len() {
                    assert(out@[i] == out_before[i]);
                    assert(keys_prefix.contains(out_before[i].0));
                    let u = choose|u: int| 0 <= u < c && keys_prefix[u] == out_before[i].0;
                    assert(keys@.subrange(0, c as int + 1)[u] == out@[i].0);
                } else {
                    assert(out@[i].0 == keys@[c as int]);
                    assert(keys@.subrange(0, c as int + 1)[c as int] == keys@[c as int]);
                }
            }
            assert forall|w: int|
                0 <= w < c + 1 && must_idxs(
                    ocla,
                    srows,
                    orows,
                    borrow_map.0@,
                    #[trigger] keys@[w],
                    nt as int,
                ).len() > 0 implies map_has_key(out@, keys@[w]) by {
                if w < c as int {
                    assert(map_has_key(out_before, keys@[w]));
                    let u = choose|u: int|
                        0 <= u < out_before.len() && (#[trigger] out_before[u]).0 == keys@[w];
                    assert(out@[u].0 == keys@[w]);
                } else {
                    assert(out@[out@.len() - 1].0 == keys@[c as int]);
                }
            }
            assert(map_keys_unique(out@)) by {
                assert forall|a: int, b: int| 0 <= a < b < out@.len() implies (
                #[trigger] out@[a]).0 != (#[trigger] out@[b]).0 by {
                    if b == out@.len() - 1 && out@.len() > out_before.len() {
                        assert(out@[a] == out_before[a]);
                    }
                }
            }
        }
        c = c + 1;
    }
    proof {
        assert forall|k: u32|
            #[trigger] map_has_key(out@, k) <==> must_idxs(
                ocla,
                srows,
                orows,
                borrow_map.0@,
                k,
                nt as int,
            ).len() > 0 by {
            if map_has_key(out@, k) {
                let w = choose|w: int| 0 <= w < out@.len() && (#[trigger] out@[w]).0 == k;
            }
            if must_idxs(ocla, srows, orows, borrow_map.0@, k, nt as int).len() > 0 {
                lemma_must_idxs_nonempty(ocla, srows, orows, borrow_map.0@, k, nt as int);
                let loc = choose|loc: usize|
                    loc < nt && #[trigger] must_live_loc(ocla, srows, orows, borrow_map.0@, k, loc);
                let (region, loan) = choose|region: u32, loan: u32|
                    ocla_names(ocla, region, loan) && loan_owned_by(borrow_map.0@, loan, k)
                        && region_reaches(srows, orows, region, loc);
                lemma_bm_lookup_member(borrow_map.0@, loan);
                assert(keys@.contains(k));
                let u = choose|u: int| 0 <= u < keys@.len() && keys@[u] == k;
                assert(map_has_key(out@, keys@[u]));
            }
        }
    }
    out
}


/// The value stored under `k`, taken from the first matching entry.
pub open spec fn map_ranges_of(m: Seq<(u32, Vec<Range>)>, k: u32) -> Seq<Range>
    decreases m.len(),
{
    if m.len() == 0 {
        Seq::empty()
    } else if m[0].0 == k {
        m[0].1@
    } else {
        map_ranges_of(m.drop_first(), k)
    }
}

/// Looks `k` up in a per-local range map, returning a copy of its ranges or
/// nothing when the local has no entry.
fn ranges_of_local(m: &Vec<(u32, Vec<Range>)>, k: u32) -> (r: Vec<Range>)
    ensures
        r@ == map_ranges_of(m@, k),
{
    let n = m.len();
    let mut i: usize = 0;
    proof {
        assert(m@.skip(0) =~= m@);
    }
    while i < n
        invariant
            0 <= i <= n,
            n == m@.len(),
            map_ranges_of(m@, k) == map_ranges_of(m@.skip(i as int), k),
        decreases n - i,
    {
        proof {
            assert(m@.skip(i as int)[0] == m@[i as int]);
            assert(m@.skip(i as int).drop_first() =~= m@.skip(i as int + 1));
        }
        if m[i].0 == k {
            return crate::models::copy_vec(&m[i].1);
        }
        i = i + 1;
    }
    proof {
        assert(m@.skip(n as int).len() == 0);
    }
    Vec::new()
}

/// Whether the map holds an entry under `k`.
fn map_has_local(m: &Vec<(u32, Vec<Range>)>, k: u32) -> (r: bool)
    ensures
        r == map_has_key(m@, k),
{
    let n = m.len();
    let mut i: usize = 0;
    while i < n
        invariant
            0 <= i <= n,
            n == m@.len(),
            forall|j: int| 0 <= j < i ==> (#[trigger] m@[j]).0 != k,
        decreases n - i,
    {
        if m[i].0 == k {
            return true;
        }
        i = i + 1;
    }
    proof {
        if map_has_key(m@, k) {
            let w = choose|w: int| 0 <= w < m@.len() && (#[trigger] m@[w]).0 == k;
            assert(false);
        }
    }
    false
}

/// The engine's static metadata for one local: its id, its type text, and —
/// for user-visible variables — its name and declaration span.
pub struct DeclMeta {
    pub local: u32,
    pub ty: String,
    pub name: Option<String>,
    pub span: Option<Range>,
}

/// Whether the metadata describes a user-visible variable: it carries a
/// name and a declaration span.
pub open spec fn meta_is_user(m: DeclMeta) -> bool {
    m.name is Some && m.span is Some
}

/// Builds the declaration records of one function body: one record per
/// local named by the engine's metadata, carrying that local's type text and
/// its extracted range sets (empty where the local has no entry).  Metadata
/// with a name and span yields a user-variable record; the rest are
/// compiler-generated.  A local is flagged as dropped when it has
/// drop-liveness facts.
pub fn assemble_decls(
    fn_id: u32,
    meta: &Vec<DeclMeta>,
    lives: &Vec<(u32, Vec<Range>)>,
    shared: &Vec<(u32, Vec<Range>)>,
    mutable: &Vec<(u32, Vec<Range>)>,
    drops: &Vec<(u32, Vec<Range>)>,
    must: &Vec<(u32, Vec<Range>)>,
) -> (r: Vec<MirDecl>)
    ensures
        r@.len() == meta@.len(),
        forall|i: int|
            0 <= i < meta@.len() && meta_is_user(meta@[i]) ==> ((#[trigger] r@[i])
                matches MirDecl::User {
                local,
                name,
                span,
                ty,
                lives: l,
                shared_borrow: sb,
                mutable_borrow: mb,
                drop,
                drop_range: dr,
                must_live_at: ml,
            } && local == (crate::models::FnLocal { id: meta@[i].local, fn_id }) && name@
                == meta@[i].name->0@ && span == meta@[i].span->0 && ty@ == meta@[i].ty@ && l@
                == map_ranges_of(lives@, meta@[i].local) && sb@ == map_ranges_of(
                shared@,
                meta@[i].local,
            ) && mb@ == map_ranges_of(mutable@, meta@[i].local) && drop == map_has_key(
                drops@,
                meta@[i].local,
            ) && dr@ == map_ranges_of(drops@, meta@[i].local) && ml@ == map_ranges_of(
                must@,
                meta@[i].local,
            )),
        forall|i: int|
            0 <= i < meta@.len() && !meta_is_user(meta@[i]) ==> ((#[trigger] r@[i])
                matches MirDecl::Other {
                local,
                ty,
                lives: l,
                shared_borrow: sb,
                mutable_borrow: mb,
                drop,
                drop_range: dr,
                must_live_at: ml,
            } && local == (crate::models::FnLocal { id: meta@[i].local, fn_id }) && ty@
                == meta@[i].ty@ && l@ == map_ranges_of(lives@, meta@[i].local) && sb@
                == map_ranges_of(shared@, meta@[i].local) && mb@ == map_ranges_of(
                mutable@,
                meta@[i].local,
            ) && drop == map_has_key(drops@, meta@[i].local) && dr@ == map_ranges_of(
                drops@,
                meta@[i].local,
            ) && ml@ == map_ranges_of(must@, meta@[i].local)),
{
    let n = meta.len();
    let mut out: Vec<MirDecl> = Vec::new();
    let mut i: usize = 0;
    while i < n
        invariant
            0 <= i <= n,
            n == meta@.len(),
            out@.len() == i,
            forall|j: int|
                0 <= j < i && meta_is_user(meta@[j]) ==> ((#[trigger] out@[j])
                    matches MirDecl::User {
                    local,
                    name,
                    span,
                    ty,
                    lives: l,
                    shared_borrow: sb,
                    mutable_borrow: mb,
                    drop,
                    drop_range: dr,
                    must_live_at: ml,
                } && local == (crate::models::FnLocal { id: meta@[j].local, fn_id }) && name@
                    == meta@[j].name->0@ && span == meta@[j].span->0 && ty@ == meta@[j].ty@ && l@
                    == map_ranges_of(lives@, meta@[j].local) && sb@ == map_ranges_of(
                    shared@,
                    meta@[j].local,
                ) && mb@ == map_ranges_of(mutable@, meta@[j].local) && drop == map_has_key(
                    drops@,
                    meta@[j].local,
                ) && dr@ == map_ranges_of(drops@, meta@[j].local) && ml@ == map_ranges_of(
                    must@,
                    meta@[j].local,
                )),
            forall|j: int|
                0 <= j < i && !meta_is_user(meta@[j]) ==> ((#[trigger] out@[j])
                    matches MirDecl::Other {
                    local,
                    ty,
                    lives: l,
                    shared_borrow: sb,
                    mutable_borrow: mb,
                    drop,
                    drop_range: dr,
                    must_live_at: ml,
                } && local == (crate::models::FnLocal { id: meta@[j].local, fn_id }) && ty@
                    == meta@[j].ty@ && l@ == map_ranges_of(lives@, meta@[j].local) && sb@
                    == map_ranges_of(shared@, meta@[j].local) && mb@ == map_ranges_of(
                    mutable@,
                    meta@[j].local,
                ) && drop == map_has_key(drops@, meta@[j].local) && dr@ == map_ranges_of(
                    drops@,
                    meta@[j].local,
                ) && ml@ == map_ranges_of(must@, meta@[j].local)),
        decreases n - i,
    {
        let id = meta[i].local;
        let decl = match (&meta[i].name, &meta[i].span) {
            (Some(name), Some(span)) => MirDecl::User {
                local: crate::models::FnLocal::new(id, fn_id),
                name: name.clone(),
                span: *span,
                ty: meta[i].ty.clone(),
                lives: ranges_of_local(lives, id),
                shared_borrow: ranges_of_local(shared, id),
                mutable_borrow: ranges_of_local(mutable, id),
                drop: map_has_local(drops, id),
                drop_range: ranges_of_local(drops, id),
                must_live_at: ranges_of_local(must, id),
            },
            _ => MirDecl::Other {
                local: crate::models::FnLocal::new(id, fn_id),
                ty: meta[i].ty.clone(),
                lives: ranges_of_local(lives, id),
                shared_borrow: ranges_of_local(shared, id),
                mutable_borrow: ranges_of_local(mutable, id),
                drop: map_has_local(drops, id),
                drop_range: ranges_of_local(drops, id),
                must_live_at: ranges_of_local(must, id),
            },
        };
        out.push(decl);
        i = i + 1;
    }
    out
}

} // verus!
