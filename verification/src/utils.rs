//! Interval algebra over half-open character ranges, position conversion
//! between character offsets and (line, column) pairs, and the visitor used
//! to traverse analyzed functions.

use crate::models::{Function, Loc, MirDecl, MirStatement, MirTerminator, Range, RangeVec,
    range_vec_into_vec, spec_range};
use vstd::prelude::*;

verus! {

broadcast use crate::models::lemma_spec_range;

/// The smaller of two integers.
pub open spec fn min_int(a: int, b: int) -> int {
    if a <= b {
        a
    } else {
        b
    }
}

/// The larger of two integers.
pub open spec fn max_int(a: int, b: int) -> int {
    if a <= b {
        b
    } else {
        a
    }
}

/// Whether `r1` strictly contains `r2`: at least one bound strictly inside.
pub open spec fn spec_is_super_range(r1: Range, r2: Range) -> bool {
    (r1.from().0 < r2.from().0 && r2.until().0 <= r1.until().0) || (r1.from().0 <= r2.from().0
        && r2.until().0 < r1.until().0)
}

/// The intersection of two ranges, when it has positive width.
pub open spec fn spec_common_range(r1: Range, r2: Range) -> Option<Range> {
    let from = max_int(r1.from().0 as int, r2.from().0 as int);
    let until = min_int(r1.until().0 as int, r2.until().0 as int);
    if from < until {
        Some(spec_range(Loc(from as u32), Loc(until as u32)))
    } else {
        None
    }
}

/// The convex hull of two ranges, when they overlap or touch.
pub open spec fn spec_merge_ranges(r1: Range, r2: Range) -> Option<Range> {
    if spec_common_range(r1, r2) is Some || r1.until() == r2.from() || r2.until() == r1.from() {
        Some(
            spec_range(
                Loc(min_int(r1.from().0 as int, r2.from().0 as int) as u32),
                Loc(max_int(r1.until().0 as int, r2.until().0 as int) as u32),
            ),
        )
    } else {
        None
    }
}

/// Determines if one range strictly contains another range.
///
/// `r1` is a super range of `r2` when `r1` starts no later and ends no
/// earlier than `r2`, with at least one bound strict; identical ranges are
/// not super ranges of each other.
pub fn is_super_range(r1: Range, r2: Range) -> (r: bool)
    ensures
        r == spec_is_super_range(r1, r2),
{
    (r1.from().0 < r2.from().0 && r2.until().0 <= r1.until().0) || (r1.from().0 <= r2.from().0
        && r2.until().0 < r1.until().0)
}

/// Finds the overlapping portion of two ranges.
///
/// Returns the intersection when it has positive width, `None` otherwise;
/// two ranges that merely touch at a boundary do not overlap.
pub fn common_range(r1: Range, r2: Range) -> (r: Option<Range>)
    ensures
        r == spec_common_range(r1, r2),
{
    let from = if r1.from().0 >= r2.from().0 {
        r1.from()
    } else {
        r2.from()
    };
    let until = if r1.until().0 <= r2.until().0 {
        r1.until()
    } else {
        r2.until()
    };
    Range::new(from, until)
}

/// The intersection does not depend on the order of its arguments.
pub proof fn lemma_common_range_symmetric(r1: Range, r2: Range)
    ensures
        spec_common_range(r1, r2) == spec_common_range(r2, r1),
{
}

/// Merges two ranges into their convex hull if they overlap or are adjacent.
///
/// Returns `None` when the ranges are strictly disjoint.
pub fn merge_ranges(r1: Range, r2: Range) -> (r: Option<Range>)
    ensures
        r == spec_merge_ranges(r1, r2),
{
    let overlap = common_range(r1, r2);
    if overlap.is_some() || r1.until().0 == r2.from().0 || r2.until().0 == r1.from().0 {
        let from = if r1.from().0 <= r2.from().0 {
            r1.from()
        } else {
            r2.from()
        };
        let until = if r1.until().0 >= r2.until().0 {
            r1.until()
        } else {
            r2.until()
        };
        proof {
            use_type_invariant(&r1);
            use_type_invariant(&r2);
        }
        Range::new(from, until)
    } else {
        None
    }
}

/// A merged range contains both of its inputs: it either strictly contains
/// an input or equals it.
pub proof fn lemma_merge_contains_inputs(r1: Range, r2: Range, m: Range)
    requires
        r1.wf(),
        r2.wf(),
        spec_merge_ranges(r1, r2) == Some(m),
    ensures
        spec_is_super_range(m, r1) || m == r1,
        spec_is_super_range(m, r2) || m == r2,
{
    if m.from() == r1.from() && m.until() == r1.until() {
        Range::lemma_ext_equal(m, r1);
    }
    if m.from() == r2.from() && m.until() == r2.until() {
        Range::lemma_ext_equal(m, r2);
    }
}

/// Whether `p` lies inside the half-open range `r`.
pub open spec fn covered_by(r: Range, p: int) -> bool {
    r.from().0 <= p < r.until().0
}

/// Whether `p` lies inside some range of `s`.
pub open spec fn covered(s: Seq<Range>, p: int) -> bool {
    exists|i: int| 0 <= i < s.len() && covered_by(#[trigger] s[i], p)
}

/// Every range of `s` has positive width.
pub open spec fn valid_ranges(s: Seq<Range>) -> bool {
    forall|i: int| 0 <= i < s.len() ==> (#[trigger] s[i]).wf()
}

/// The normal form of a range list: positive-width ranges, sorted, pairwise
/// disjoint and non-adjacent.
pub open spec fn normalized(s: Seq<Range>) -> bool {
    &&& valid_ranges(s)
    &&& forall|i: int| 0 <= i && i + 1 < s.len() ==> (#[trigger] s[i]).until().0 < s[i + 1].from().0
}

/// The order used to sort ranges: by start, then by end.
pub open spec fn range_leq(a: Range, b: Range) -> bool {
    a.from().0 < b.from().0 || (a.from().0 == b.from().0 && a.until().0 <= b.until().0)
}

/// [`range_leq`] as a first-class spec function.
pub open spec fn range_order() -> spec_fn(Range, Range) -> bool {
    |a: Range, b: Range| range_leq(a, b)
}

/// The range order is total.
pub proof fn lemma_range_order_total()
    ensures
        vstd::relations::total_ordering(range_order()),
{
    let leq = range_order();
    assert forall|a: Range, b: Range| #[trigger] leq(a, b) && #[trigger] leq(b, a) implies a
        == b by {
        assert(a.from().0 == b.from().0 && a.until().0 == b.until().0);
        assert(a.from() == b.from() && a.until() == b.until());
        Range::lemma_ext_equal(a, b);
    }
}

/// One merging pass over a sorted list: `current` is the range being grown;
/// each next range either extends it (overlap or adjacency) or closes it and
/// starts a new one.
pub open spec fn merge_scan(current: Range, rest: Seq<Range>) -> Seq<Range>
    decreases rest.len(),
{
    if rest.len() == 0 {
        seq![current]
    } else if rest[0].from().0 <= current.until().0 {
        let cur2 = if rest[0].until().0 > current.until().0 {
            spec_range(current.from(), rest[0].until())
        } else {
            current
        };
        merge_scan(cur2, rest.drop_first())
    } else {
        seq![current] + merge_scan(rest[0], rest.drop_first())
    }
}

/// The normal form of an arbitrary range list: sort by start (then end),
/// then merge every overlapping or adjacent pair.  Lists of at most one
/// range are left untouched.
pub open spec fn spec_eliminated(s: Seq<Range>) -> Seq<Range> {
    if s.len() <= 1 {
        s
    } else {
        let t = s.sort_by(range_order());
        merge_scan(t[0], t.drop_first())
    }
}

/// What one merging pass guarantees: the output is normalized, begins where
/// `current` begins, and covers exactly the points of `current` and `rest`.
pub proof fn lemma_merge_scan(current: Range, rest: Seq<Range>)
    requires
        current.wf(),
        valid_ranges(rest),
        vstd::relations::sorted_by(rest, range_order()),
        forall|i: int| 0 <= i < rest.len() ==> current.from().0 <= (#[trigger] rest[i]).from().0,
    ensures
        merge_scan(current, rest).len() >= 1,
        merge_scan(current, rest)[0].from() == current.from(),
        normalized(merge_scan(current, rest)),
        forall|p: int|
            #[trigger] covered(merge_scan(current, rest), p) <==> (covered_by(current, p)
                || covered(rest, p)),
    decreases rest.len(),
{
    let res = merge_scan(current, rest);
    if rest.len() == 0 {
        assert forall|p: int| #[trigger] covered(res, p) <==> (covered_by(current, p) || covered(
            rest,
            p,
        )) by {
            if covered_by(current, p) {
                assert(covered_by(res[0], p));
            }
        }
    } else {
        let rest2 = rest.drop_first();
        assert(vstd::relations::sorted_by(rest2, range_order())) by {
            assert forall|i: int, j: int| 0 <= i < j < rest2.len() implies #[trigger] range_order()(
                rest2[i],
                rest2[j],
            ) by {
                assert(rest2[i] == rest[i + 1] && rest2[j] == rest[j + 1]);
                assert(range_order()(rest[i + 1], rest[j + 1]));
            }
        }
        assert forall|p: int| covered(rest, p) <==> (covered_by(rest[0], p) || covered(
            rest2,
            p,
        )) by {
            if covered(rest, p) {
                let w = choose|w: int| 0 <= w < rest.len() && covered_by(rest[w], p);
                if w > 0 {
                    assert(covered_by(rest2[w - 1], p));
                }
            }
            if covered(rest2, p) {
                let w = choose|w: int| 0 <= w < rest2.len() && covered_by(rest2[w], p);
                assert(covered_by(rest[w + 1], p));
            }
        }
        if rest[0].from().0 <= current.until().0 {
            let cur2 = if rest[0].until().0 > current.until().0 {
                spec_range(current.from(), rest[0].until())
            } else {
                current
            };
            assert(rest[0].wf());
            assert(range_order()(rest[0], rest[0]) || true);
            assert(cur2.wf());
            assert forall|p: int| covered_by(cur2, p) <==> (covered_by(current, p) || covered_by(
                rest[0],
                p,
            )) by {
                assert(current.from().0 <= rest[0].from().0 <= current.until().0);
            }
            assert forall|i: int| 0 <= i < rest2.len() implies cur2.from().0 <= (
            #[trigger] rest2[i]).from().0 by {
                assert(rest2[i] == rest[i + 1]);
                assert(range_order()(rest[0], rest[i + 1]));
            }
            lemma_merge_scan(cur2, rest2);
            assert(res == merge_scan(cur2, rest2));
        } else {
            assert(rest[0].wf());
            assert forall|i: int| 0 <= i < rest2.len() implies rest[0].from().0 <= (
            #[trigger] rest2[i]).from().0 by {
                assert(rest2[i] == rest[i + 1]);
                assert(range_order()(rest[0], rest[i + 1]));
            }
            lemma_merge_scan(rest[0], rest2);
            let tail = merge_scan(rest[0], rest2);
            assert(res == seq![current] + tail);
            assert(res[0] == current);
            assert forall|i: int| 0 <= i < tail.len() implies res[i + 1] == tail[i] by {}
            assert(normalized(res)) by {
                assert(res[1] == tail[0]);
                assert(tail[0].from() == rest[0].from());
                assert forall|i: int| 0 <= i && i + 1 < res.len() implies (
                #[trigger] res[i]).until().0 < res[i + 1].from().0 by {
                    if i == 0 {
                        assert(res[0].until().0 < res[1].from().0);
                    } else {
                        assert(res[i] == tail[i - 1] && res[i + 1] == tail[i]);
                        assert(tail[i - 1].until().0 < tail[i].from().0);
                    }
                }
                assert forall|i: int| 0 <= i < res.len() implies (#[trigger] res[i]).wf() by {
                    if i > 0 {
                        assert(res[i] == tail[i - 1]);
                    }
                }
            }
            assert forall|p: int| #[trigger] covered(res, p) <==> (covered_by(current, p)
                || covered(rest, p)) by {
                if covered(res, p) {
                    let w = choose|w: int| 0 <= w < res.len() && covered_by(res[w], p);
                    if w > 0 {
                        assert(covered_by(tail[w - 1], p));
                        assert(covered(tail, p));
                    }
                }
                if covered_by(current, p) {
                    assert(covered_by(res[0], p));
                }
                if covered(tail, p) {
                    let w = choose|w: int| 0 <= w < tail.len() && covered_by(tail[w], p);
                    assert(covered_by(res[w + 1], p));
                }
            }
        }
    }
}

/// Two lists with the same elements cover the same points.
pub proof fn lemma_covered_multiset(a: Seq<Range>, b: Seq<Range>)
    requires
        a.to_multiset() == b.to_multiset(),
    ensures
        forall|p: int| #[trigger] covered(a, p) <==> covered(b, p),
        valid_ranges(a) ==> valid_ranges(b),
{
    broadcast use vstd::seq_lib::group_to_multiset_ensures;

    assert forall|p: int| #[trigger] covered(a, p) implies covered(b, p) by {
        let w = choose|w: int| 0 <= w < a.len() && covered_by(a[w], p);
        assert(a.contains(a[w]));
        assert(a.to_multiset().contains(a[w]));
        assert(b.to_multiset().contains(a[w]));
        assert(b.contains(a[w]));
        let v = choose|v: int| 0 <= v < b.len() && b[v] == a[w];
        assert(covered_by(b[v], p));
    }
    assert forall|p: int| covered(b, p) implies #[trigger] covered(a, p) by {
        let w = choose|w: int| 0 <= w < b.len() && covered_by(b[w], p);
        assert(b.contains(b[w]));
        assert(b.to_multiset().contains(b[w]));
        assert(a.to_multiset().contains(b[w]));
        assert(a.contains(b[w]));
        let v = choose|v: int| 0 <= v < a.len() && a[v] == b[w];
        assert(covered_by(a[v], p));
    }
    if valid_ranges(a) {
        assert forall|i: int| 0 <= i < b.len() implies (#[trigger] b[i]).wf() by {
            assert(b.contains(b[i]));
            assert(b.to_multiset().contains(b[i]));
            assert(a.to_multiset().contains(b[i]));
            assert(a.contains(b[i]));
            let v = choose|v: int| 0 <= v < a.len() && a[v] == b[i];
            assert(a[v].wf());
        }
    }
}

/// In a normalized list every earlier range ends before a later one begins.
proof fn lemma_normalized_chain(s: Seq<Range>, i: int, j: int)
    requires
        normalized(s),
        0 <= i < j < s.len(),
    ensures
        s[i].until().0 < s[j].from().0,
    decreases j - i,
{
    if j == i + 1 {
    } else {
        lemma_normalized_chain(s, i, j - 1);
        assert(s[j - 1].wf());
        assert(s[j - 1].until().0 < s[j].from().0);
    }
}

/// A normalized list is sorted under the range order.
pub proof fn lemma_normalized_sorted(s: Seq<Range>)
    requires
        normalized(s),
    ensures
        vstd::relations::sorted_by(s, range_order()),
{
    assert forall|i: int, j: int| 0 <= i < j < s.len() implies #[trigger] range_order()(
        s[i],
        s[j],
    ) by {
        lemma_normalized_chain(s, i, j);
        assert(s[i].wf());
    }
}

/// Merging a list that is already normalized and lies beyond `current`
/// changes nothing.
proof fn lemma_merge_scan_fixed(current: Range, rest: Seq<Range>)
    requires
        current.wf(),
        normalized(rest),
        rest.len() > 0 ==> current.until().0 < rest[0].from().0,
    ensures
        merge_scan(current, rest) == seq![current] + rest,
    decreases rest.len(),
{
    if rest.len() == 0 {
        assert(merge_scan(current, rest) =~= seq![current] + rest);
    } else {
        let rest2 = rest.drop_first();
        assert(normalized(rest2)) by {
            assert forall|i: int| 0 <= i && i + 1 < rest2.len() implies (
            #[trigger] rest2[i]).until().0 < rest2[i + 1].from().0 by {
                assert(rest2[i] == rest[i + 1] && rest2[i + 1] == rest[i + 2]);
            }
            assert forall|i: int| 0 <= i < rest2.len() implies (#[trigger] rest2[i]).wf() by {
                assert(rest2[i] == rest[i + 1]);
            }
        }
        lemma_merge_scan_fixed(rest[0], rest2);
        assert(merge_scan(current, rest) == seq![current] + (seq![rest[0]] + rest2));
        assert(seq![current] + (seq![rest[0]] + rest2) =~= seq![current] + rest);
    }
}

/// A normalized list is its own normal form.
pub proof fn lemma_eliminated_fixed(s: Seq<Range>)
    requires
        normalized(s),
    ensures
        spec_eliminated(s) == s,
{
    if s.len() <= 1 {
    } else {
        let leq = range_order();
        lemma_range_order_total();
        lemma_normalized_sorted(s);
        s.lemma_sort_by_ensures(leq);
        vstd::seq_lib::lemma_sorted_unique(s.sort_by(leq), s, leq);
        let t = s.sort_by(leq);
        assert(t == s);
        assert(normalized(s.drop_first())) by {
            assert forall|i: int| 0 <= i && i + 1 < s.drop_first().len() implies (
            #[trigger] s.drop_first()[i]).until().0 < s.drop_first()[i + 1].from().0 by {
                assert(s.drop_first()[i] == s[i + 1] && s.drop_first()[i + 1] == s[i + 2]);
            }
            assert forall|i: int| 0 <= i < s.drop_first().len() implies (
            #[trigger] s.drop_first()[i]).wf() by {
                assert(s.drop_first()[i] == s[i + 1]);
            }
        }
        assert(s[0].wf());
        lemma_merge_scan_fixed(s[0], s.drop_first());
        assert(seq![s[0]] + s.drop_first() =~= s);
    }
}

/// What the merging pass yields on a sorted list: a normalized list with
/// the same coverage.
pub proof fn lemma_merge_scan_sorted(t: Seq<Range>)
    requires
        valid_ranges(t),
        vstd::relations::sorted_by(t, range_order()),
        t.len() >= 1,
    ensures
        normalized(merge_scan(t[0], t.drop_first())),
        forall|p: int|
            #[trigger] covered(merge_scan(t[0], t.drop_first()), p) <==> covered(t, p),
{
    let leq = range_order();
    let t2 = t.drop_first();
    let res = merge_scan(t[0], t2);
    assert(vstd::relations::sorted_by(t2, leq)) by {
        assert forall|i: int, j: int| 0 <= i < j < t2.len() implies #[trigger] leq(
            t2[i],
            t2[j],
        ) by {
            assert(t2[i] == t[i + 1] && t2[j] == t[j + 1]);
            assert(leq(t[i + 1], t[j + 1]));
        }
    }
    assert(valid_ranges(t2)) by {
        assert forall|i: int| 0 <= i < t2.len() implies (#[trigger] t2[i]).wf() by {
            assert(t2[i] == t[i + 1]);
        }
    }
    assert forall|i: int| 0 <= i < t2.len() implies t[0].from().0 <= (
    #[trigger] t2[i]).from().0 by {
        assert(t2[i] == t[i + 1]);
        assert(leq(t[0], t[i + 1]));
    }
    assert(t[0].wf());
    lemma_merge_scan(t[0], t2);
    assert forall|p: int| #[trigger] covered(res, p) <==> covered(t, p) by {
        assert(covered(res, p) <==> (covered_by(t[0], p) || covered(t2, p)));
        assert(covered(t, p) <==> (covered_by(t[0], p) || covered(t2, p))) by {
            if covered(t, p) {
                let w = choose|w: int| 0 <= w < t.len() && covered_by(t[w], p);
                if w > 0 {
                    assert(covered_by(t2[w - 1], p));
                }
            }
            if covered(t2, p) {
                let w = choose|w: int| 0 <= w < t2.len() && covered_by(t2[w], p);
                assert(covered_by(t[w + 1], p));
            }
        }
    }
}

/// Everything the normal form guarantees, phrased over the spec function:
/// it is normalized and covers exactly the points the input covers.
pub proof fn lemma_eliminated_ensures(s: Seq<Range>)
    requires
        valid_ranges(s),
    ensures
        normalized(spec_eliminated(s)),
        forall|p: int| #[trigger] covered(spec_eliminated(s), p) <==> covered(s, p),
{
    broadcast use vstd::seq_lib::group_to_multiset_ensures;

    if s.len() == 0 {
    } else if s.len() == 1 {
        assert(s[0].wf());
        assert forall|p: int| #[trigger] covered(spec_eliminated(s), p) <==> covered(s, p) by {}
    } else {
        let leq = range_order();
        lemma_range_order_total();
        s.lemma_sort_by_ensures(leq);
        let t = s.sort_by(leq);
        assert(t.to_multiset().len() == t.len());
        assert(s.to_multiset().len() == s.len());
        assert(t.len() == s.len());
        lemma_covered_multiset(s, t);
        assert(valid_ranges(t));
        lemma_merge_scan_sorted(t);
    }
}

/// The normal form is canonical: two normalized lists covering the same
/// points are the same list.  Together with [`lemma_eliminated_ensures`]
/// this makes the normal form the unique minimal representation of a set of
/// ranges.
#[verifier::rlimit(100)]
#[verifier::spinoff_prover]
pub proof fn lemma_normalized_unique(a: Seq<Range>, b: Seq<Range>)
    requires
        normalized(a),
        normalized(b),
        forall|p: int| #[trigger] covered(a, p) <==> covered(b, p),
    ensures
        a == b,
    decreases a.len(),
{
    if a.len() == 0 {
        if b.len() > 0 {
            assert(covered_by(b[0], b[0].from().0 as int));
            assert(covered(b, b[0].from().0 as int));
            assert(!covered(a, b[0].from().0 as int));
        }
        assert(a =~= b);
    } else if b.len() == 0 {
        assert(covered_by(a[0], a[0].from().0 as int));
        assert(covered(a, a[0].from().0 as int));
        assert(!covered(b, a[0].from().0 as int));
    } else {
        // The first ranges start at the least covered point.
        assert(a[0].from().0 == b[0].from().0) by {
            assert(covered(a, a[0].from().0 as int));
            assert(covered(b, b[0].from().0 as int));
            assert(covered(a, b[0].from().0 as int));
            assert(covered(b, a[0].from().0 as int));
            let w = choose|w: int| 0 <= w < b.len() && covered_by(b[w], a[0].from().0 as int);
            if w > 0 {
                lemma_normalized_chain(b, 0, w);
                assert(b[0].wf());
            }
            assert(b[0].from().0 <= a[0].from().0);
            let v = choose|v: int| 0 <= v < a.len() && covered_by(a[v], b[0].from().0 as int);
            if v > 0 {
                lemma_normalized_chain(a, 0, v);
                assert(a[0].wf());
            }
            assert(a[0].from().0 <= b[0].from().0);
        }
        // They also end together: the lower end is uncovered on one side.
        assert(a[0].until().0 == b[0].until().0) by {
            if a[0].until().0 < b[0].until().0 {
                let q = a[0].until().0 as int;
                assert(covered_by(b[0], q));
                assert(covered(b, q));
                assert(!covered(a, q)) by {
                    if covered(a, q) {
                        let w = choose|w: int| 0 <= w < a.len() && covered_by(a[w], q);
                        if w > 0 {
                            lemma_normalized_chain(a, 0, w);
                        }
                        assert(false);
                    }
                }
            }
            if b[0].until().0 < a[0].until().0 {
                let q = b[0].until().0 as int;
                assert(covered_by(a[0], q));
                assert(covered(a, q));
                assert(!covered(b, q)) by {
                    if covered(b, q) {
                        let w = choose|w: int| 0 <= w < b.len() && covered_by(b[w], q);
                        if w > 0 {
                            lemma_normalized_chain(b, 0, w);
                        }
                        assert(false);
                    }
                }
            }
        }
        Range::lemma_ext_equal(a[0], b[0]);
        let a2 = a.drop_first();
        let b2 = b.drop_first();
        assert(normalized(a2)) by {
            assert forall|i: int| 0 <= i && i + 1 < a2.len() implies (
            #[trigger] a2[i]).until().0 < a2[i + 1].from().0 by {
                assert(a2[i] == a[i + 1] && a2[i + 1] == a[i + 2]);
            }
            assert forall|i: int| 0 <= i < a2.len() implies (#[trigger] a2[i]).wf() by {
                assert(a2[i] == a[i + 1]);
            }
        }
        assert(normalized(b2)) by {
            assert forall|i: int| 0 <= i && i + 1 < b2.len() implies (
            #[trigger] b2[i]).until().0 < b2[i + 1].from().0 by {
                assert(b2[i] == b[i + 1] && b2[i + 1] == b[i + 2]);
            }
            assert forall|i: int| 0 <= i < b2.len() implies (#[trigger] b2[i]).wf() by {
                assert(b2[i] == b[i + 1]);
            }
        }
        // The tails cover exactly the points past the shared first range.
        assert forall|p: int| #[trigger] covered(a2, p) <==> covered(b2, p) by {
            assert(covered(a2, p) <==> (covered(a, p) && p >= a[0].until().0)) by {
                if covered(a2, p) {
                    let w = choose|w: int| 0 <= w < a2.len() && covered_by(a2[w], p);
                    assert(a2[w] == a[w + 1]);
                    lemma_normalized_chain(a, 0, w + 1);
                    assert(covered_by(a[w + 1], p));
                }
                if covered(a, p) && p >= a[0].until().0 {
                    let w = choose|w: int| 0 <= w < a.len() && covered_by(a[w], p);
                    assert(w > 0);
                    assert(covered_by(a2[w - 1], p));
                }
            }
            assert(covered(b2, p) <==> (covered(b, p) && p >= b[0].until().0)) by {
                if covered(b2, p) {
                    let w = choose|w: int| 0 <= w < b2.len() && covered_by(b2[w], p);
                    assert(b2[w] == b[w + 1]);
                    lemma_normalized_chain(b, 0, w + 1);
                    assert(covered_by(b[w + 1], p));
                }
                if covered(b, p) && p >= b[0].until().0 {
                    let w = choose|w: int| 0 <= w < b.len() && covered_by(b[w], p);
                    assert(w > 0);
                    assert(covered_by(b2[w - 1], p));
                }
            }
        }
        lemma_normalized_unique(a2, b2);
        assert(a2 == b2);
        assert(a2.len() == b2.len());
        assert(a.len() == a2.len() + 1 && b.len() == b2.len() + 1);
        assert(a.len() == b.len());
        assert forall|i: int| 0 <= i < a.len() implies a[i] == b[i] by {
            if i > 0 {
                assert(a[i] == a2[i - 1]);
                assert(b[i] == b2[i - 1]);
            }
        }
        assert(a =~= b);
    }
}

/// Normalizing a second time changes nothing: `eliminated_ranges` is
/// idempotent.
pub proof fn lemma_eliminated_idempotent(s: Seq<Range>)
    requires
        valid_ranges(s),
    ensures
        spec_eliminated(spec_eliminated(s)) == spec_eliminated(s),
{
    lemma_eliminated_ensures(s);
    lemma_eliminated_fixed(spec_eliminated(s));
}

/// Compares two ranges under the sort order: by start, then by end.
fn range_leq_exec(a: &Range, b: &Range) -> (r: bool)
    ensures
        r == range_leq(*a, *b),
{
    a.from().0 < b.from().0 || (a.from().0 == b.from().0 && a.until().0 <= b.until().0)
}

/// Merges two sorted range lists into one sorted list.
fn merge_sorted_ranges(a: Vec<Range>, b: Vec<Range>) -> (r: Vec<Range>)
    requires
        vstd::relations::sorted_by(a@, range_order()),
        vstd::relations::sorted_by(b@, range_order()),
    ensures
        vstd::relations::sorted_by(r@, range_order()),
        r@.to_multiset() == a@.to_multiset().add(b@.to_multiset()),
        valid_ranges(r@),
{
    broadcast use vstd::seq_lib::group_to_multiset_ensures;
    broadcast use vstd::multiset::group_multiset_axioms;

    let na = a.len();
    let nb = b.len();
    let mut out: Vec<Range> = Vec::new();
    let mut i: usize = 0;
    let mut j: usize = 0;
    proof {
        assert(a@.skip(0) =~= a@);
        assert(b@.skip(0) =~= b@);
        assert(out@.to_multiset().add(a@.skip(0).to_multiset()).add(b@.skip(0).to_multiset())
            =~= a@.to_multiset().add(b@.to_multiset()));
    }
    while i < na || j < nb
        invariant
            0 <= i <= na,
            0 <= j <= nb,
            na == a@.len(),
            nb == b@.len(),
            vstd::relations::sorted_by(a@, range_order()),
            vstd::relations::sorted_by(b@, range_order()),
            vstd::relations::sorted_by(out@, range_order()),
            valid_ranges(out@),
            out@.to_multiset().add(a@.skip(i as int).to_multiset()).add(
                b@.skip(j as int).to_multiset(),
            ) == a@.to_multiset().add(b@.to_multiset()),
            forall|u: int, w: int|
                0 <= u < out@.len() && i <= w < a@.len() ==> range_leq(
                    #[trigger] out@[u],
                    #[trigger] a@[w],
                ),
            forall|u: int, w: int|
                0 <= u < out@.len() && j <= w < b@.len() ==> range_leq(
                    #[trigger] out@[u],
                    #[trigger] b@[w],
                ),
        decreases na + nb - i - j,
    {
        let take_a = if i >= na {
            false
        } else if j >= nb {
            true
        } else {
            range_leq_exec(&a[i], &b[j])
        };
        let ghost out_before = out@;
        if take_a {
            let x = a[i];
            proof {
                broadcast use vstd::seq_lib::group_to_multiset_ensures;
                broadcast use vstd::multiset::group_multiset_axioms;

                use_type_invariant(&x);
                let u = a@.skip(i as int);
                assert(u[0] == a@[i as int]);
                assert(u.remove(0) =~= a@.skip(i as int + 1));
                assert(u.to_multiset().contains(x));
                assert(a@.skip(i as int + 1).to_multiset() =~= u.to_multiset().remove(x));
                assert(out_before.push(x).to_multiset().add(
                    a@.skip(i as int + 1).to_multiset(),
                ).add(b@.skip(j as int).to_multiset()) =~= out_before.to_multiset().add(
                    u.to_multiset(),
                ).add(b@.skip(j as int).to_multiset()));
            }
            out.push(x);
            proof {
                assert(out@ == out_before.push(x));
                assert forall|u2: int, w: int|
                    0 <= u2 < out@.len() && i + 1 <= w < a@.len() implies range_leq(
                    #[trigger] out@[u2],
                    #[trigger] a@[w],
                ) by {
                    if u2 < out_before.len() {
                        assert(out@[u2] == out_before[u2]);
                    } else {
                        assert(out@[u2] == x);
                        assert(range_order()(a@[i as int], a@[w]));
                    }
                }
                assert forall|u2: int, w: int|
                    0 <= u2 < out@.len() && j <= w < b@.len() implies range_leq(
                    #[trigger] out@[u2],
                    #[trigger] b@[w],
                ) by {
                    if u2 < out_before.len() {
                        assert(out@[u2] == out_before[u2]);
                    } else {
                        assert(out@[u2] == x);
                        if w > j as int {
                            assert(range_order()(b@[j as int], b@[w]));
                        }
                    }
                }
                assert forall|u2: int, w: int|
                    0 <= u2 < w < out@.len() implies #[trigger] range_order()(
                    out@[u2],
                    out@[w],
                ) by {
                    if w < out_before.len() {
                        assert(range_order()(out_before[u2], out_before[w]));
                    } else {
                        assert(out@[w] == x && out@[u2] == out_before[u2]);
                        assert(range_leq(out_before[u2], a@[i as int]));
                    }
                }
            }
            i = i + 1;
        } else {
            let x = b[j];
            proof {
                broadcast use vstd::seq_lib::group_to_multiset_ensures;
                broadcast use vstd::multiset::group_multiset_axioms;

                use_type_invariant(&x);
                let u = b@.skip(j as int);
                assert(u[0] == b@[j as int]);
                assert(u.remove(0) =~= b@.skip(j as int + 1));
                assert(u.to_multiset().contains(x));
                assert(b@.skip(j as int + 1).to_multiset() =~= u.to_multiset().remove(x));
                assert(out_before.push(x).to_multiset().add(
                    a@.skip(i as int).to_multiset(),
                ).add(b@.skip(j as int + 1).to_multiset()) =~= out_before.to_multiset().add(
                    a@.skip(i as int).to_multiset(),
                ).add(u.to_multiset()));
            }
            out.push(x);
            proof {
                assert(out@ == out_before.push(x));
                // The head of `a`, when there is one, is not below `x`.
                assert forall|u2: int, w: int|
                    0 <= u2 < out@.len() && i <= w < a@.len() implies range_leq(
                    #[trigger] out@[u2],
                    #[trigger] a@[w],
                ) by {
                    if u2 < out_before.len() {
                        assert(out@[u2] == out_before[u2]);
                    } else {
                        assert(out@[u2] == x);
                        assert(range_leq(b@[j as int], a@[i as int]));
                        if w > i as int {
                            assert(range_order()(a@[i as int], a@[w]));
                        }
                    }
                }
                assert forall|u2: int, w: int|
                    0 <= u2 < out@.len() && j + 1 <= w < b@.len() implies range_leq(
                    #[trigger] out@[u2],
                    #[trigger] b@[w],
                ) by {
                    if u2 < out_before.len() {
                        assert(out@[u2] == out_before[u2]);
                    } else {
                        assert(out@[u2] == x);
                        assert(range_order()(b@[j as int], b@[w]));
                    }
                }
                assert forall|u2: int, w: int|
                    0 <= u2 < w < out@.len() implies #[trigger] range_order()(
                    out@[u2],
                    out@[w],
                ) by {
                    if w < out_before.len() {
                        assert(range_order()(out_before[u2], out_before[w]));
                    } else {
                        assert(out@[w] == x && out@[u2] == out_before[u2]);
                        assert(range_leq(out_before[u2], b@[j as int]));
                    }
                }
            }
            j = j + 1;
        }
    }
    proof {
        assert(a@.skip(na as int).to_multiset() =~= vstd::multiset::Multiset::empty());
        assert(b@.skip(nb as int).to_multiset() =~= vstd::multiset::Multiset::empty());
        assert(out@.to_multiset() =~= a@.to_multiset().add(b@.to_multiset()));
    }
    out
}

/// Sorts ranges by start position, then end position: merge sort, splitting
/// in halves and merging the sorted halves.
fn merge_sort_ranges(v: Vec<Range>) -> (r: Vec<Range>)
    ensures
        vstd::relations::sorted_by(r@, range_order()),
        r@.to_multiset() == v@.to_multiset(),
        valid_ranges(r@),
    decreases v.len(),
{
    broadcast use vstd::seq_lib::group_to_multiset_ensures;

    if v.len() <= 1 {
        if v.len() == 1 {
            let r0 = &v[0];
            proof {
                use_type_invariant(r0);
            }
        }
        return v;
    }
    let ghost orig = v@;
    let mut v = v;
    let mid = v.len() / 2;
    let right = v.split_off(mid);
    proof {
        assert(orig =~= v@ + right@);
        vstd::seq_lib::lemma_multiset_commutative(v@, right@);
    }
    let left_sorted = merge_sort_ranges(v);
    let right_sorted = merge_sort_ranges(right);
    merge_sorted_ranges(left_sorted, right_sorted)
}

/// Sorts ranges by start position, then end position.
fn sort_ranges(v: Vec<Range>) -> (r: Vec<Range>)
    ensures
        r@ == v@.sort_by(range_order()),
        valid_ranges(r@),
        r@.len() == v@.len(),
{
    broadcast use vstd::seq_lib::group_to_multiset_ensures;

    let ghost orig = v@;
    let out = merge_sort_ranges(v);
    proof {
        lemma_range_order_total();
        orig.lemma_sort_by_ensures(range_order());
        vstd::seq_lib::lemma_sorted_unique(out@, orig.sort_by(range_order()), range_order());
        assert(out@.to_multiset().len() == out@.len());
        assert(orig.to_multiset().len() == orig.len());
    }
    out
}

/// Eliminates overlapping and adjacent ranges by merging them.
///
/// The result is the normal form of the input: sorted, pairwise disjoint and
/// non-adjacent ranges covering exactly the positions the input covers.
/// Lists of at most one range are returned unchanged.
pub fn eliminated_ranges(ranges: Vec<Range>) -> (r: Vec<Range>)
    ensures
        r@ == spec_eliminated(ranges@),
        normalized(r@),
        forall|p: int| #[trigger] covered(r@, p) <==> covered(ranges@, p),
{
    broadcast use vstd::seq_lib::group_to_multiset_ensures;

    let ghost orig = ranges@;
    if ranges.len() <= 1 {
        if ranges.len() == 1 {
            let r0 = &ranges[0];
            proof {
                use_type_invariant(r0);
            }
        }
        return ranges;
    }
    let t = sort_ranges(ranges);
    proof {
        lemma_range_order_total();
        orig.lemma_sort_by_ensures(range_order());
        lemma_merge_scan_sorted(t@);
        lemma_covered_multiset(orig, t@);
    }
    let n = t.len();
    let mut merged: Vec<Range> = Vec::new();
    let mut current = t[0];
    let mut i: usize = 1;
    proof {
        assert(t@.skip(1) =~= t@.drop_first());
        assert(merged@ + merge_scan(current, t@.skip(1)) =~= merge_scan(t@[0], t@.drop_first()));
    }
    while i < n
        invariant
            1 <= i <= n,
            n == t@.len(),
            n >= 2,
            valid_ranges(t@),
            current.wf(),
            merged@ + merge_scan(current, t@.skip(i as int)) == merge_scan(
                t@[0],
                t@.drop_first(),
            ),
        decreases n - i,
    {
        let r = t[i];
        proof {
            assert(t@[i as int].wf());
            assert(t@.skip(i as int)[0] == t@[i as int]);
            assert(t@.skip(i as int).drop_first() =~= t@.skip(i as int + 1));
        }
        if r.from().0 <= current.until().0 {
            if r.until().0 > current.until().0 {
                current = Range::new(current.from(), r.until()).unwrap();
            }
        } else {
            merged.push(current);
            proof {
                assert(merged@ + merge_scan(r, t@.skip(i as int + 1)) =~= merge_scan(
                    t@[0],
                    t@.drop_first(),
                ));
            }
            current = r;
        }
        i = i + 1;
    }
    merged.push(current);
    proof {
        assert(t@.skip(n as int) =~= Seq::<Range>::empty());
        assert(merge_scan(current, t@.skip(n as int)) =~= seq![current]);
        assert(merged@ =~= merge_scan(t@[0], t@.drop_first()));
    }
    merged
}

/// Normalizes a [`RangeVec`] of ranges.
pub fn eliminated_ranges_small(ranges: RangeVec) -> (r: Vec<Range>)
    ensures
        r@ == spec_eliminated(ranges@),
        normalized(r@),
        forall|p: int| #[trigger] covered(r@, p) <==> covered(ranges@, p),
{
    eliminated_ranges(range_vec_into_vec(ranges))
}

/// The intersections of `r` with each range of `s`, in order.
pub open spec fn commons_one(r: Range, s: Seq<Range>) -> Seq<Range>
    decreases s.len(),
{
    if s.len() == 0 {
        Seq::empty()
    } else {
        let head = if spec_common_range(r, s[0]) is Some {
            seq![spec_common_range(r, s[0])->Some_0]
        } else {
            Seq::<Range>::empty()
        };
        head + commons_one(r, s.drop_first())
    }
}

/// All pairwise intersections within `s`, in order of the first index.
pub open spec fn commons_all(s: Seq<Range>) -> Seq<Range>
    decreases s.len(),
{
    if s.len() == 0 {
        Seq::empty()
    } else {
        commons_one(s[0], s.drop_first()) + commons_all(s.drop_first())
    }
}

/// Whether `p` lies inside at least two distinct ranges of `s`.
pub open spec fn multi_covered(s: Seq<Range>, p: int) -> bool {
    exists|i: int, j: int|
        0 <= i < j < s.len() && covered_by(#[trigger] s[i], p) && covered_by(#[trigger] s[j], p)
}

/// The intersections of `r` with `s` cover exactly the points both cover.
proof fn lemma_commons_one_covered(r: Range, s: Seq<Range>)
    ensures
        forall|p: int|
            #[trigger] covered(commons_one(r, s), p) <==> (covered_by(r, p) && covered(s, p)),
    decreases s.len(),
{
    if s.len() == 0 {
    } else {
        let s2 = s.drop_first();
        lemma_commons_one_covered(r, s2);
        let head = if spec_common_range(r, s[0]) is Some {
            seq![spec_common_range(r, s[0])->Some_0]
        } else {
            Seq::<Range>::empty()
        };
        let rest = commons_one(r, s2);
        assert forall|p: int| #[trigger] covered(commons_one(r, s), p) <==> (covered_by(r, p)
            && covered(s, p)) by {
            assert(covered(s, p) <==> (covered_by(s[0], p) || covered(s2, p))) by {
                if covered(s, p) {
                    let w = choose|w: int| 0 <= w < s.len() && covered_by(s[w], p);
                    if w > 0 {
                        assert(covered_by(s2[w - 1], p));
                    }
                }
                if covered(s2, p) {
                    let w = choose|w: int| 0 <= w < s2.len() && covered_by(s2[w], p);
                    assert(covered_by(s[w + 1], p));
                }
            }
            assert(covered(head, p) <==> (covered_by(r, p) && covered_by(s[0], p))) by {
                if spec_common_range(r, s[0]) is Some {
                    let c = spec_common_range(r, s[0])->Some_0;
                    assert(head[0] == c);
                    if covered_by(c, p) {
                        assert(covered_by(r, p) && covered_by(s[0], p));
                    }
                    if covered_by(r, p) && covered_by(s[0], p) {
                        assert(covered_by(head[0], p));
                    }
                } else {
                    assert(head.len() == 0);
                }
            }
            assert(covered(commons_one(r, s), p) <==> (covered(head, p) || covered(rest, p))) by {
                if covered(commons_one(r, s), p) {
                    let w = choose|w: int|
                        0 <= w < commons_one(r, s).len() && covered_by(commons_one(r, s)[w], p);
                    if w >= head.len() {
                        assert(covered_by(rest[w - head.len()], p));
                    } else {
                        assert(covered_by(head[w], p));
                    }
                }
                if covered(head, p) {
                    let w = choose|w: int| 0 <= w < head.len() && covered_by(head[w], p);
                    assert(covered_by(commons_one(r, s)[w], p));
                }
                if covered(rest, p) {
                    let w = choose|w: int| 0 <= w < rest.len() && covered_by(rest[w], p);
                    assert(covered_by(commons_one(r, s)[w + head.len()], p));
                }
            }
        }
    }
}

/// The pairwise intersections cover exactly the points two ranges share.
pub proof fn lemma_commons_all_covered(s: Seq<Range>)
    ensures
        forall|p: int| #[trigger] covered(commons_all(s), p) <==> multi_covered(s, p),
    decreases s.len(),
{
    if s.len() == 0 {
    } else {
        let s2 = s.drop_first();
        lemma_commons_all_covered(s2);
        lemma_commons_one_covered(s[0], s2);
        let head = commons_one(s[0], s2);
        let rest = commons_all(s2);
        assert forall|p: int| #[trigger] covered(commons_all(s), p) <==> multi_covered(s, p) by {
            assert(covered(commons_all(s), p) <==> (covered(head, p) || covered(rest, p))) by {
                if covered(commons_all(s), p) {
                    let w = choose|w: int|
                        0 <= w < commons_all(s).len() && covered_by(commons_all(s)[w], p);
                    if w >= head.len() {
                        assert(covered_by(rest[w - head.len()], p));
                    } else {
                        assert(covered_by(head[w], p));
                    }
                }
                if covered(head, p) {
                    let w = choose|w: int| 0 <= w < head.len() && covered_by(head[w], p);
                    assert(covered_by(commons_all(s)[w], p));
                }
                if covered(rest, p) {
                    let w = choose|w: int| 0 <= w < rest.len() && covered_by(rest[w], p);
                    assert(covered_by(commons_all(s)[w + head.len()], p));
                }
            }
            if covered(head, p) {
                assert(covered_by(s[0], p) && covered(s2, p));
                let w = choose|w: int| 0 <= w < s2.len() && covered_by(s2[w], p);
                assert(covered_by(s[w + 1], p));
                assert(multi_covered(s, p));
            }
            if covered(rest, p) {
                assert(multi_covered(s2, p));
                let (i, j) = choose|i: int, j: int|
                    0 <= i < j < s2.len() && covered_by(s2[i], p) && covered_by(s2[j], p);
                assert(covered_by(s[i + 1], p) && covered_by(s[j + 1], p));
                assert(multi_covered(s, p));
            }
            if multi_covered(s, p) {
                let (i, j) = choose|i: int, j: int|
                    0 <= i < j < s.len() && covered_by(s[i], p) && covered_by(s[j], p);
                if i == 0 {
                    assert(covered_by(s2[j - 1], p));
                    assert(covered(s2, p));
                    assert(covered_by(s[0], p) && covered(s2, p));
                    assert(covered(head, p));
                } else {
                    assert(covered_by(s2[i - 1], p) && covered_by(s2[j - 1], p));
                    assert(multi_covered(s2, p));
                    assert(covered(rest, p));
                }
            }
        }
    }
}

/// Finds all pairwise intersections among a collection of ranges.
///
/// The result is the normal form of every overlapping region between two
/// distinct input ranges: it covers exactly the points lying in at least two
/// of the input ranges.
pub fn common_ranges(ranges: &[Range]) -> (r: Vec<Range>)
    ensures
        r@ == spec_eliminated(commons_all(ranges@)),
        normalized(r@),
        forall|p: int| #[trigger] covered(r@, p) <==> multi_covered(ranges@, p),
{
    let n = ranges.len();
    let mut acc: Vec<Range> = Vec::new();
    let mut i: usize = 0;
    proof {
        assert(ranges@.skip(0) =~= ranges@);
        assert(acc@ + commons_all(ranges@.skip(0)) =~= commons_all(ranges@));
    }
    while i < n
        invariant
            0 <= i <= n,
            n == ranges@.len(),
            commons_all(ranges@) == acc@ + commons_all(ranges@.skip(i as int)),
        decreases n - i,
    {
        let mut j: usize = i + 1;
        proof {
            assert(ranges@.skip(i as int)[0] == ranges@[i as int]);
            assert(ranges@.skip(i as int).drop_first() =~= ranges@.skip(i as int + 1));
            assert(commons_all(ranges@) == acc@ + (commons_one(
                ranges@[i as int],
                ranges@.skip(i as int + 1),
            ) + commons_all(ranges@.skip(i as int + 1))));
            assert(acc@ + (commons_one(ranges@[i as int], ranges@.skip(i as int + 1))
                + commons_all(ranges@.skip(i as int + 1))) =~= (acc@ + commons_one(
                ranges@[i as int],
                ranges@.skip(i as int + 1),
            )) + commons_all(ranges@.skip(i as int + 1)));
        }
        while j < n
            invariant
                i < j <= n,
                n == ranges@.len(),
                commons_all(ranges@) == (acc@ + commons_one(
                    ranges@[i as int],
                    ranges@.skip(j as int),
                )) + commons_all(ranges@.skip(i as int + 1)),
            decreases n - j,
        {
            proof {
                assert(ranges@.skip(j as int)[0] == ranges@[j as int]);
                assert(ranges@.skip(j as int).drop_first() =~= ranges@.skip(j as int + 1));
            }
            let c = common_range(ranges[i], ranges[j]);
            match c {
                Some(common) => {
                    acc.push(common);
                    proof {
                        assert((acc@ + commons_one(ranges@[i as int], ranges@.skip(j as int + 1)))
                            =~= (acc@.drop_last() + commons_one(
                            ranges@[i as int],
                            ranges@.skip(j as int),
                        )));
                    }
                },
                None => {
                    proof {
                        assert((acc@ + commons_one(ranges@[i as int], ranges@.skip(j as int + 1)))
                            =~= (acc@ + commons_one(ranges@[i as int], ranges@.skip(j as int))));
                    }
                },
            }
            j = j + 1;
        }
        proof {
            assert(ranges@.skip(n as int) =~= Seq::<Range>::empty());
            assert(commons_one(ranges@[i as int], ranges@.skip(n as int)) =~= Seq::<
                Range,
            >::empty());
            assert((acc@ + Seq::<Range>::empty()) =~= acc@);
        }
        i = i + 1;
    }
    proof {
        assert(ranges@.skip(n as int) =~= Seq::<Range>::empty());
        assert(commons_all(ranges@.skip(n as int)) =~= Seq::<Range>::empty());
        assert(acc@ =~= commons_all(ranges@));
        lemma_commons_all_covered(ranges@);
    }
    eliminated_ranges(acc)
}

/// Whether `p` lies inside some range of `s`, widened by one position on
/// each side.  Subtraction trims this widened region, so completeness of
/// [`exclude_ranges`] is stated against it.
pub open spec fn covered_padded(s: Seq<Range>, p: int) -> bool {
    exists|i: int|
        0 <= i < s.len() && (#[trigger] s[i]).from().0 - 1 <= p < s[i].until().0 + 1
}

/// The total width of a list of ranges, the termination measure of the
/// subtraction loop.
pub open spec fn total_size(s: Seq<Range>) -> nat
    decreases s.len(),
{
    if s.len() == 0 {
        0
    } else {
        (if s[0].until().0 > s[0].from().0 {
            (s[0].until().0 - s[0].from().0) as nat
        } else {
            0
        }) + total_size(s.drop_first())
    }
}

/// The width of one range, as counted by [`total_size`].
pub open spec fn width_of(r: Range) -> nat {
    if r.until().0 > r.from().0 {
        (r.until().0 - r.from().0) as nat
    } else {
        0
    }
}

proof fn lemma_total_size_push(s: Seq<Range>, x: Range)
    ensures
        total_size(s.push(x)) == total_size(s) + width_of(x),
    decreases s.len(),
{
    if s.len() == 0 {
        assert(s.push(x)[0] == x);
        assert(s.push(x).drop_first() =~= Seq::<Range>::empty());
        assert(total_size(s.push(x)) == width_of(x) + total_size(Seq::<Range>::empty()));
    } else {
        assert(s.push(x).drop_first() =~= s.drop_first().push(x));
        assert(s.push(x)[0] == s[0]);
        lemma_total_size_push(s.drop_first(), x);
        assert(total_size(s.push(x)) == width_of(s[0]) + total_size(s.drop_first().push(x)));
        assert(total_size(s) == width_of(s[0]) + total_size(s.drop_first()));
    }
}

proof fn lemma_total_size_remove(s: Seq<Range>, i: int)
    requires
        0 <= i < s.len(),
    ensures
        total_size(s) == total_size(s.remove(i)) + width_of(s[i]),
    decreases s.len(),
{
    if i == 0 {
        assert(s.remove(0) =~= s.drop_first());
    } else {
        assert(s.remove(i)[0] == s[0]);
        assert(s.remove(i).drop_first() =~= s.drop_first().remove(i - 1));
        lemma_total_size_remove(s.drop_first(), i - 1);
        assert(s.drop_first()[i - 1] == s[i]);
    }
}

/// The first positive-width intersection of `r` with a range of `excludes`,
/// scanning in order.
pub open spec fn first_exclusion(r: Range, excludes: Seq<Range>) -> Option<Range>
    decreases excludes.len(),
{
    if excludes.len() == 0 {
        None
    } else if spec_common_range(r, excludes[0]) is Some {
        spec_common_range(r, excludes[0])
    } else {
        first_exclusion(r, excludes.drop_first())
    }
}

/// What the first intersection is made of: a hit comes from some exclusion,
/// a miss means none overlaps.
pub proof fn lemma_first_exclusion(r: Range, excludes: Seq<Range>)
    ensures
        first_exclusion(r, excludes) matches Some(c) ==> exists|j: int|
            0 <= j < excludes.len() && spec_common_range(r, #[trigger] excludes[j]) == Some(c),
        first_exclusion(r, excludes) is None ==> forall|j: int|
            0 <= j < excludes.len() ==> spec_common_range(r, #[trigger] excludes[j]) is None,
    decreases excludes.len(),
{
    if excludes.len() == 0 {
    } else if spec_common_range(r, excludes[0]) is Some {
    } else {
        lemma_first_exclusion(r, excludes.drop_first());
        if first_exclusion(r, excludes) is Some {
            let c = first_exclusion(r, excludes)->Some_0;
            let w = choose|w: int|
                0 <= w < excludes.drop_first().len() && spec_common_range(
                    r,
                    #[trigger] excludes.drop_first()[w],
                ) == Some(c);
            assert(spec_common_range(r, excludes[w + 1]) == Some(c));
        } else {
            assert forall|j: int|
                0 <= j < excludes.len() implies spec_common_range(
                r,
                #[trigger] excludes[j],
            ) is None by {
                if j > 0 {
                    assert(excludes.drop_first()[j - 1] == excludes[j]);
                }
            }
        }
    }
}

/// The state of the subtraction worklist after it has run to completion,
/// starting at position `i`: the range at `i` either survives untouched
/// (when no exclusion overlaps it) or is replaced at the end of the list by
/// its fragments strictly before and strictly after the first overlap, each
/// trimmed by one more position.
pub open spec fn spec_exclude_work(work: Seq<Range>, excludes: Seq<Range>, i: int) -> Seq<Range>
    decreases total_size(work), work.len() - i,
        via spec_exclude_work_decreases
{
    if i < 0 || i >= work.len() {
        work
    } else {
        match first_exclusion(work[i], excludes) {
            None => spec_exclude_work(work, excludes, i + 1),
            Some(c) => {
                let f = work[i];
                let lu = if c.from().0 > 0 {
                    (c.from().0 - 1) as u32
                } else {
                    0u32
                };
                let ru = if c.until().0 < 0xffff_ffffu32 {
                    (c.until().0 + 1) as u32
                } else {
                    0xffff_ffffu32
                };
                let w1 = work.remove(i);
                let w2 = if f.from().0 < lu {
                    w1.push(spec_range(f.from(), Loc(lu)))
                } else {
                    w1
                };
                let w3 = if ru < f.until().0 {
                    w2.push(spec_range(Loc(ru), f.until()))
                } else {
                    w2
                };
                spec_exclude_work(w3, excludes, i)
            },
        }
    }
}

#[via_fn]
proof fn spec_exclude_work_decreases(work: Seq<Range>, excludes: Seq<Range>, i: int) {
    if 0 <= i < work.len() {
        match first_exclusion(work[i], excludes) {
            None => {},
            Some(c) => {
                let f = work[i];
                lemma_first_exclusion(f, excludes);
                let lu = if c.from().0 > 0 {
                    (c.from().0 - 1) as u32
                } else {
                    0u32
                };
                let ru = if c.until().0 < 0xffff_ffffu32 {
                    (c.until().0 + 1) as u32
                } else {
                    0xffff_ffffu32
                };
                let w1 = work.remove(i);
                lemma_total_size_remove(work, i);
                let w2 = if f.from().0 < lu {
                    w1.push(spec_range(f.from(), Loc(lu)))
                } else {
                    w1
                };
                if f.from().0 < lu {
                    lemma_total_size_push(w1, spec_range(f.from(), Loc(lu)));
                }
                let w3 = if ru < f.until().0 {
                    w2.push(spec_range(Loc(ru), f.until()))
                } else {
                    w2
                };
                if ru < f.until().0 {
                    lemma_total_size_push(w2, spec_range(Loc(ru), f.until()));
                }
                assert(total_size(w3) < total_size(work));
            },
        }
    }
}

/// Looks for an exclusion that overlaps `r`, returning the first overlap.
fn find_exclusion(r: Range, excludes: &Vec<Range>) -> (res: Option<Range>)
    ensures
        res == first_exclusion(r, excludes@),
{
    let n = excludes.len();
    let mut j: usize = 0;
    proof {
        assert(excludes@.skip(0) =~= excludes@);
    }
    while j < n
        invariant
            0 <= j <= n,
            n == excludes@.len(),
            first_exclusion(r, excludes@) == first_exclusion(r, excludes@.skip(j as int)),
        decreases n - j,
    {
        proof {
            assert(excludes@.skip(j as int)[0] == excludes@[j as int]);
            assert(excludes@.skip(j as int).drop_first() =~= excludes@.skip(j as int + 1));
        }
        let c = common_range(r, excludes[j]);
        if c.is_some() {
            return c;
        }
        j = j + 1;
    }
    proof {
        assert(excludes@.skip(n as int).len() == 0);
    }
    None
}

/// Subtracts every range in `excludes` from every range in `from`.
///
/// A source range overlapping an exclusion is split into the fragments
/// strictly before and strictly after the overlap (each trimmed by one more
/// position), until no source range overlaps any exclusion; the result is
/// then normalized.  A source range fully covered by an exclusion disappears
/// entirely.
#[verifier::rlimit(100)]
pub fn exclude_ranges(from: Vec<Range>, excludes: Vec<Range>) -> (r: Vec<Range>)
    ensures
        r@ == spec_eliminated(spec_exclude_work(from@, excludes@, 0)),
        normalized(r@),
        forall|p: int| #[trigger] covered(r@, p) ==> covered(from@, p) && !covered(excludes@, p),
        forall|p: int|
            covered(from@, p) && !covered_padded(excludes@, p) ==> #[trigger] covered(r@, p),
        forall|i: int, j: int|
            0 <= i < r@.len() && 0 <= j < excludes@.len() ==> spec_common_range(
                #[trigger] r@[i],
                #[trigger] excludes@[j],
            ) is None,
{
    let ghost orig = from@;
    let mut work = from;
    let mut i: usize = 0;
    while i < work.len()
        invariant
            0 <= i <= work@.len(),
            spec_exclude_work(work@, excludes@, i as int) == spec_exclude_work(orig, excludes@, 0),
            forall|p: int| #[trigger] covered(work@, p) ==> covered(orig, p),
            forall|p: int|
                covered(orig, p) && !covered_padded(excludes@, p) ==> #[trigger] covered(work@, p),
            forall|k: int, j: int|
                0 <= k < i && 0 <= j < excludes@.len() ==> spec_common_range(
                    #[trigger] work@[k],
                    #[trigger] excludes@[j],
                ) is None,
        decreases total_size(work@), work@.len() - i,
    {
        let cur = work[i];
        proof {
            use_type_invariant(&cur);
        }
        let hit = find_exclusion(cur, &excludes);
        proof {
            lemma_first_exclusion(cur, excludes@);
        }
        match hit {
            None => {
                proof {
                    assert(spec_exclude_work(work@, excludes@, i as int) == spec_exclude_work(
                        work@,
                        excludes@,
                        i as int + 1,
                    ));
                }
                i = i + 1;
            },
            Some(c) => {
                let ghost before = work@;
                let ghost j = choose|j: int|
                    0 <= j < excludes@.len() && spec_common_range(cur, #[trigger] excludes@[j])
                        == Some(c);
                proof {
                    lemma_total_size_remove(before, i as int);
                }
                let _removed = work.remove(i);
                let left_until = if c.from().0 > 0 {
                    c.from().0 - 1
                } else {
                    0
                };
                let right_from = if c.until().0 < 0xffff_ffffu32 {
                    c.until().0 + 1
                } else {
                    0xffff_ffffu32
                };
                let ghost after_remove = work@;
                if let Some(l) = Range::new(cur.from(), Loc(left_until)) {
                    proof {
                        lemma_total_size_push(work@, l);
                    }
                    work.push(l);
                }
                let ghost after_left = work@;
                if let Some(rr) = Range::new(Loc(right_from), cur.until()) {
                    proof {
                        lemma_total_size_push(work@, rr);
                    }
                    work.push(rr);
                }
                proof {
                    // One worklist step of the specification.
                    let lu = if c.from().0 > 0 {
                        (c.from().0 - 1) as u32
                    } else {
                        0u32
                    };
                    let ru = if c.until().0 < 0xffff_ffffu32 {
                        (c.until().0 + 1) as u32
                    } else {
                        0xffff_ffffu32
                    };
                    let w1 = before.remove(i as int);
                    let w2 = if cur.from().0 < lu {
                        w1.push(spec_range(cur.from(), Loc(lu)))
                    } else {
                        w1
                    };
                    let w3 = if ru < cur.until().0 {
                        w2.push(spec_range(Loc(ru), cur.until()))
                    } else {
                        w2
                    };
                    assert(work@ == w3);
                    assert(spec_exclude_work(before, excludes@, i as int) == spec_exclude_work(
                        w3,
                        excludes@,
                        i as int,
                    ));
                    let e = excludes@[j];
                    assert(c.from().0 == max_int(cur.from().0 as int, e.from().0 as int));
                    assert(c.until().0 == min_int(cur.until().0 as int, e.until().0 as int));
                    assert(c.from().0 < c.until().0);
                    // The termination measure shrinks: both fragments together
                    // are strictly narrower than the range they replace.
                    assert(total_size(work@) < total_size(before));
                    // Soundness: every fragment lies inside the removed range.
                    assert forall|p: int| #[trigger] covered(work@, p) implies covered(
                        orig,
                        p,
                    ) by {
                        let w = choose|w: int| 0 <= w < work@.len() && covered_by(work@[w], p);
                        if w < after_remove.len() {
                            let b = if w < i as int {
                                w
                            } else {
                                w + 1
                            };
                            assert(before[b] == work@[w]);
                            assert(covered(before, p));
                        } else {
                            assert(covered_by(cur, p));
                            assert(covered_by(before[i as int], p));
                            assert(covered(before, p));
                        }
                    }
                    // Completeness: points outside every padded exclusion
                    // survive the split.
                    assert forall|p: int|
                        covered(orig, p) && !covered_padded(excludes@, p) implies
                        #[trigger] covered(work@, p) by {
                        assert(covered(before, p));
                        let w = choose|w: int| 0 <= w < before.len() && covered_by(before[w], p);
                        if w == i as int {
                            assert(covered_by(cur, p));
                            assert(!(e.from().0 - 1 <= p < e.until().0 + 1));
                            if p < c.from().0 - 1 {
                                assert(covered_by(work@[after_left.len() - 1], p));
                            } else {
                                assert(p >= c.until().0 + 1);
                                assert(covered_by(work@[work@.len() - 1], p));
                            }
                        } else {
                            let nw = if w < i as int {
                                w
                            } else {
                                w - 1
                            };
                            assert(work@[nw] == before[w]);
                            assert(covered_by(work@[nw], p));
                        }
                    }
                    // Already-clean prefixes stay clean.
                    assert forall|k: int, jj: int|
                        0 <= k < i && 0 <= jj < excludes@.len() implies spec_common_range(
                        #[trigger] work@[k],
                        #[trigger] excludes@[jj],
                    ) is None by {
                        assert(work@[k] == before[k]);
                    }
                }
            },
        }
    }
    proof {
        assert(spec_exclude_work(work@, excludes@, i as int) == work@);
    }
    let ghost cleaned = work@;
    let out = eliminated_ranges(work);
    proof {
        assert forall|p: int| #[trigger] covered(out@, p) implies covered(from@, p) && !covered(
            excludes@,
            p,
        ) by {
            assert(covered(cleaned, p));
            if covered(excludes@, p) {
                let je = choose|je: int| 0 <= je < excludes@.len() && covered_by(excludes@[je], p);
                let w = choose|w: int| 0 <= w < cleaned.len() && covered_by(cleaned[w], p);
                assert(spec_common_range(cleaned[w], excludes@[je]) is None);
                assert(false);
            }
        }
        assert forall|i0: int, j0: int|
            0 <= i0 < out@.len() && 0 <= j0 < excludes@.len() implies spec_common_range(
            #[trigger] out@[i0],
            #[trigger] excludes@[j0],
        ) is None by {
            if spec_common_range(out@[i0], excludes@[j0]) is Some {
                let q = max_int(out@[i0].from().0 as int, excludes@[j0].from().0 as int);
                assert(covered_by(out@[i0], q));
                assert(covered_by(excludes@[j0], q));
                assert(covered(out@, q));
                assert(covered(excludes@, q));
            }
        }
    }
    out
}

/// Subtracts `excludes` from a [`RangeVec`] of source ranges.
pub fn exclude_ranges_small(from: RangeVec, excludes: Vec<Range>) -> (r: Vec<Range>)
    ensures
        r@ == spec_eliminated(spec_exclude_work(from@, excludes@, 0)),
        normalized(r@),
        forall|p: int| #[trigger] covered(r@, p) ==> covered(from@, p) && !covered(excludes@, p),
        forall|p: int|
            covered(from@, p) && !covered_padded(excludes@, p) ==> #[trigger] covered(r@, p),
        forall|i: int, j: int|
            0 <= i < r@.len() && 0 <= j < excludes@.len() ==> spec_common_range(
                #[trigger] r@[i],
                #[trigger] excludes@[j],
            ) is None,
{
    exclude_ranges(range_vec_into_vec(from), excludes)
}

/// The (line, column) position of the logical character at offset `t`.
///
/// Carriage returns are transparent: they advance neither the offset nor the
/// position.  An offset at or past the end of the text yields the position
/// one past the last character.
pub open spec fn line_col_from(s: Seq<char>, t: int) -> (int, int)
    decreases s.len(),
{
    if s.len() == 0 {
        (0, 0)
    } else if s[0] == '\r' {
        line_col_from(s.drop_first(), t)
    } else if t <= 0 {
        (0, 0)
    } else {
        let p = line_col_from(s.drop_first(), t - 1);
        if s[0] == '\n' {
            (p.0 + 1, p.1)
        } else if p.0 == 0 {
            (0, p.1 + 1)
        } else {
            p
        }
    }
}

/// The logical character offset of the position (line, col).
///
/// Carriage returns are transparent.  A line past the end of the text yields
/// the total number of logical characters; a column past the end of its line
/// yields the offset of that line's newline.
pub open spec fn index_from_line_col(s: Seq<char>, line: int, col: int) -> int
    decreases s.len(),
{
    if s.len() == 0 {
        0
    } else if s[0] == '\r' {
        index_from_line_col(s.drop_first(), line, col)
    } else if line > 0 {
        if s[0] == '\n' {
            1 + index_from_line_col(s.drop_first(), line - 1, col)
        } else {
            1 + index_from_line_col(s.drop_first(), line, col)
        }
    } else if col <= 0 {
        0
    } else if s[0] == '\n' {
        0
    } else {
        1 + index_from_line_col(s.drop_first(), 0, col - 1)
    }
}

/// The text with every carriage return removed.
pub open spec fn strip_cr(s: Seq<char>) -> Seq<char>
    decreases s.len(),
{
    if s.len() == 0 {
        Seq::empty()
    } else if s[0] == '\r' {
        strip_cr(s.drop_first())
    } else {
        seq![s[0]] + strip_cr(s.drop_first())
    }
}

/// Line and column numbers are never negative.
proof fn lemma_line_col_nonneg(s: Seq<char>, t: int)
    ensures
        line_col_from(s, t).0 >= 0,
        line_col_from(s, t).1 >= 0,
    decreases s.len(),
{
    if s.len() == 0 {
    } else {
        lemma_line_col_nonneg(s.drop_first(), t);
        lemma_line_col_nonneg(s.drop_first(), t - 1);
    }
}

/// Positions depend only on the text with carriage returns removed.
pub proof fn lemma_line_col_ignores_cr(s: Seq<char>, t: int)
    ensures
        line_col_from(s, t) == line_col_from(strip_cr(s), t),
    decreases s.len(),
{
    if s.len() == 0 {
    } else if s[0] == '\r' {
        lemma_line_col_ignores_cr(s.drop_first(), t);
    } else {
        let u = strip_cr(s);
        assert(u[0] == s[0]);
        assert(u.drop_first() =~= strip_cr(s.drop_first()));
        lemma_line_col_ignores_cr(s.drop_first(), t);
        lemma_line_col_ignores_cr(s.drop_first(), t - 1);
    }
}

/// Offsets depend only on the text with carriage returns removed.
pub proof fn lemma_index_ignores_cr(s: Seq<char>, line: int, col: int)
    ensures
        index_from_line_col(s, line, col) == index_from_line_col(strip_cr(s), line, col),
    decreases s.len(),
{
    if s.len() == 0 {
    } else if s[0] == '\r' {
        lemma_index_ignores_cr(s.drop_first(), line, col);
    } else {
        let u = strip_cr(s);
        assert(u[0] == s[0]);
        assert(u.drop_first() =~= strip_cr(s.drop_first()));
        lemma_index_ignores_cr(s.drop_first(), line, col);
        lemma_index_ignores_cr(s.drop_first(), line - 1, col);
        lemma_index_ignores_cr(s.drop_first(), 0, col - 1);
    }
}

/// Converting an offset within the text to (line, column) and back yields
/// the same offset; carriage returns are ignored consistently, so LF and
/// CRLF variants of one text agree.
pub proof fn lemma_position_round_trip(s: Seq<char>, t: int)
    requires
        0 <= t < strip_cr(s).len(),
    ensures
        index_from_line_col(s, line_col_from(s, t).0, line_col_from(s, t).1) == t,
    decreases s.len(),
{
    if s.len() == 0 {
    } else if s[0] == '\r' {
        lemma_position_round_trip(s.drop_first(), t);
    } else {
        assert(strip_cr(s) =~= seq![s[0]] + strip_cr(s.drop_first()));
        if t == 0 {
            assert(line_col_from(s, 0) == (0int, 0int));
        } else {
            lemma_position_round_trip(s.drop_first(), t - 1);
            lemma_line_col_nonneg(s.drop_first(), t - 1);
            let p = line_col_from(s.drop_first(), t - 1);
            if s[0] == '\n' {
                assert(line_col_from(s, t) == (p.0 + 1, p.1));
            } else if p.0 == 0 {
                assert(line_col_from(s, t) == (0int, p.1 + 1));
            } else {
                assert(line_col_from(s, t) == p);
            }
        }
    }
}

/// Converts a character index to line and column numbers.
///
/// Given a source string and character index, returns the corresponding
/// 0-based line and column.  Carriage returns are skipped, matching the
/// compiler's view of the text.
pub fn index_to_line_char(s: &str, idx: Loc) -> (r: (u32, u32))
    requires
        s@.len() < 0x1_0000_0000,
    ensures
        (r.0 as int, r.1 as int) == line_col_from(s@, idx.0 as int),
{
    let ghost t = idx.0 as int;
    let target = idx.0;
    let n = s.unicode_len();
    let mut line: u32 = 0;
    let mut col: u32 = 0;
    let mut logical: u32 = 0;
    let mut i: usize = 0;
    proof {
        assert(s@.skip(0) =~= s@);
    }
    while i < n
        invariant
            0 <= i <= n,
            n == s@.len(),
            n < 0x1_0000_0000,
            t == target as int,
            target == idx.0,
            line <= i,
            col <= i,
            logical <= i,
            logical as int <= t,
            ({
                let p = line_col_from(s@.skip(i as int), t - logical);
                line_col_from(s@, t) == if p.0 == 0 {
                    (line as int, col + p.1)
                } else {
                    (line + p.0, p.1)
                }
            }),
        decreases n - i,
    {
        let c = s.get_char(i);
        proof {
            lemma_line_col_nonneg(s@.skip(i as int + 1), t - logical);
            lemma_line_col_nonneg(s@.skip(i as int + 1), t - logical - 1);
            assert(s@.skip(i as int)[0] == s@[i as int]);
            assert(s@.skip(i as int).drop_first() =~= s@.skip(i as int + 1));
        }
        if c != '\r' {
            if logical == target {
                proof {
                    assert(line_col_from(s@.skip(i as int), 0) == (0int, 0int));
                }
                return (line, col);
            }
            if c == '\n' {
                line = line + 1;
                col = 0;
            } else {
                col = col + 1;
            }
            logical = logical + 1;
        }
        i = i + 1;
    }
    proof {
        assert(s@.skip(n as int).len() == 0);
    }
    (line, col)
}

/// Converts line and column numbers to a character index.
///
/// Given a source string, 0-based line, and column, returns the offset of
/// that position in the text, counting logical characters and skipping
/// carriage returns as the compiler does.
pub fn line_char_to_index(s: &str, line: u32, char: u32) -> (r: u32)
    requires
        s@.len() < 0x1_0000_0000,
    ensures
        r as int == index_from_line_col(s@, line as int, char as int),
{
    let n = s.unicode_len();
    let mut consumed: u32 = 0;
    let mut cur_line: u32 = line;
    let mut cur_col: u32 = char;
    let mut i: usize = 0;
    proof {
        assert(s@.skip(0) =~= s@);
    }
    while i < n
        invariant
            0 <= i <= n,
            n == s@.len(),
            n < 0x1_0000_0000,
            consumed <= i,
            index_from_line_col(s@, line as int, char as int) == consumed
                + index_from_line_col(s@.skip(i as int), cur_line as int, cur_col as int),
        decreases n - i,
    {
        let c = s.get_char(i);
        proof {
            assert(s@.skip(i as int)[0] == s@[i as int]);
            assert(s@.skip(i as int).drop_first() =~= s@.skip(i as int + 1));
        }
        if c == '\r' {
            i = i + 1;
        } else if cur_line > 0 {
            if c == '\n' {
                cur_line = cur_line - 1;
            }
            consumed = consumed + 1;
            i = i + 1;
        } else {
            if cur_col == 0 {
                proof {
                    assert(index_from_line_col(s@.skip(i as int), 0, 0) == 0);
                }
                return consumed;
            }
            if c == '\n' {
                proof {
                    assert(index_from_line_col(s@.skip(i as int), 0, cur_col as int) == 0);
                }
                return consumed;
            }
            consumed = consumed + 1;
            cur_col = cur_col - 1;
            i = i + 1;
        }
    }
    proof {
        assert(s@.skip(n as int).len() == 0);
    }
    consumed
}

/// Visitor for traversing analyzed functions.
///
/// Implementors override the callbacks they care about; each is called once
/// per node in a fixed order: the function itself, its declarations, then
/// statements and terminators block by block.
pub trait MirVisitor {
    /// Called when visiting a function.
    fn visit_func(&mut self, func: &Function) {
    }

    /// Called when visiting a variable declaration.
    fn visit_decl(&mut self, decl: &MirDecl) {
    }

    /// Called when visiting a statement.
    fn visit_stmt(&mut self, stmt: &MirStatement) {
    }

    /// Called when visiting a terminator.
    fn visit_term(&mut self, term: &MirTerminator) {
    }
}

/// Traverses a function: the function itself, every declaration, then every
/// basic block's statements and terminator, in order.
pub fn mir_visit<V: MirVisitor>(func: &Function, visitor: &mut V) {
    visitor.visit_func(func);
    let nd = func.decls.len();
    let mut i: usize = 0;
    while i < nd
        invariant
            nd == func.decls@.len(),
        decreases nd - i,
    {
        visitor.visit_decl(&func.decls[i]);
        i = i + 1;
    }
    let nb = func.basic_blocks.len();
    let mut b: usize = 0;
    while b < nb
        invariant
            nb == func.basic_blocks@.len(),
        decreases nb - b,
    {
        let ns = func.basic_blocks[b].statements.len();
        let mut k: usize = 0;
        while k < ns
            invariant
                nb == func.basic_blocks@.len(),
                b < nb,
                ns == func.basic_blocks@[b as int].statements@.len(),
            decreases ns - k,
        {
            visitor.visit_stmt(&func.basic_blocks[b].statements[k]);
            k = k + 1;
        }
        match &func.basic_blocks[b].terminator {
            Some(term) => {
                visitor.visit_term(term);
            },
            None => {},
        }
        b = b + 1;
    }
}

} // verus!
