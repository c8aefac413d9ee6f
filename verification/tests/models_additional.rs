//! Additional coverage for the data model: location conversion edge cases,
//! saturating arithmetic, merge deduplication, and conversions.

use std::collections::{HashMap, HashSet};

use rustowl::models::{Crate, File, FnLocal, Function, Loc, MirRval, MirStatement, MirVariable,
    MirVariables, Range, Workspace, range_vec_from_vec, range_vec_into_vec};

#[test]
fn loc_new_handles_offset_saturation_and_empty_source() {
    // When offset > byte_pos, the byte position saturates to 0.
    let loc = Loc::new("", 3, 10);
    assert_eq!(u32::from(loc), 0);

    // Non-empty source but offset still forces saturation to 0
    let loc2 = Loc::new("abc", 2, 5);
    assert_eq!(u32::from(loc2), 0);
}

#[test]
fn loc_new_multibyte_boundaries_and_cr_filtering() {
    // bytes: 'a'(1), crab(4), 'b'(1) — chars (excluding CR): a, crab, b
    let s = "a🦀b";
    assert_eq!(u32::from(Loc::new(s, 0, 0)), 0); // start
    assert_eq!(u32::from(Loc::new(s, 1, 0)), 1); // after 'a'
    for pos in 2..=4 {
        // mid-emoji should not advance char_count past the emoji
        assert_eq!(u32::from(Loc::new(s, pos, 0)), 1, "byte_pos {} within emoji", pos);
    }
    assert_eq!(u32::from(Loc::new(s, 5, 0)), 2); // end of emoji
    assert_eq!(u32::from(Loc::new(s, 6, 0)), 3); // full length

    // CR filtering: '\r' should not count as a character
    let s_cr = "a\rb";
    assert_eq!(u32::from(Loc::new(s_cr, 2, 0)), 1); // 'a'(1) + '\r'(1 byte) -> still 1 char
    let s_no_cr = "a\nb";
    assert_eq!(u32::from(Loc::new(s_no_cr, 2, 0)), 2); // '\n' counts as a character
}

#[test]
fn loc_add_sub_additional_extremes() {
    let zero = Loc(0);
    // Subtract positive from zero saturates to zero
    assert_eq!(u32::from(zero.sub(1)), 0);
    // Add negative to zero saturates to zero
    assert_eq!(u32::from(zero.add(-1)), 0);

    // Large positive add saturates at u32::MAX
    let near_max = Loc(u32::MAX - 1);
    assert_eq!(u32::from(near_max.add(10)), u32::MAX);

    // Subtract negative equals addition
    let base = Loc(2);
    assert_eq!(u32::from(base.sub(-3)), 5);
}

#[test]
fn loc_add_i32_min_release_behaves_saturating() {
    let r = Loc(5).add(i32::MIN);
    // Adding the most negative offset saturates to 0.
    assert_eq!(u32::from(r), 0);
}

#[test]
fn loc_sub_i32_min_release_behaves_saturating() {
    let r = Loc(5).sub(i32::MIN);
    // Subtracting the most negative offset adds its magnitude.
    assert_eq!(u32::from(r), 2147483653);
}

#[test]
fn loc_from_conversions_roundtrip() {
    let l: Loc = 123u32.into();
    let v: u32 = l.into();
    assert_eq!(v, 123);
}

#[test]
fn range_minimal_valid_and_invalid_cases() {
    // Minimal valid
    let r = Range::new(Loc(0), Loc(1)).expect("valid minimal range");
    assert_eq!(r.size(), 1);
    assert_eq!(u32::from(r.from()), 0);
    assert_eq!(u32::from(r.until()), 1);

    // Invalid: until <= from
    assert!(Range::new(Loc(1), Loc(1)).is_none());
    assert!(Range::new(Loc(2), Loc(1)).is_none());
}

#[test]
fn mir_variables_insertion_order_and_dedup() {
    let mut vars = MirVariables::new();

    let v2 = MirVariable::User {
        index: 2,
        live: Range::new(Loc(0), Loc(1)).unwrap(),
        dead: Range::new(Loc(1), Loc(2)).unwrap(),
    };
    let v1 = MirVariable::Other {
        index: 1,
        live: Range::new(Loc(2), Loc(3)).unwrap(),
        dead: Range::new(Loc(3), Loc(4)).unwrap(),
    };
    let v1_dup = MirVariable::User {
        index: 1,
        live: Range::new(Loc(10), Loc(11)).unwrap(),
        dead: Range::new(Loc(11), Loc(12)).unwrap(),
    };

    // Push in order: 2, 1, 1(dup)
    vars.push(v2.clone());
    vars.push(v1.clone());
    vars.push(v1_dup);

    let out = vars.clone().to_vec();
    // Insertion order of first-seen indices is preserved.
    assert_eq!(out.len(), 2);
    match (&out[0], &out[1]) {
        (MirVariable::User { index: 2, .. }, MirVariable::Other { index: 1, .. }) => {}
        _ => panic!("Unexpected order or variants: {:?}", out),
    }
}

#[test]
fn crate_merge_dedup_within_other_and_across_existing() {
    let mut f1 = File::new();
    f1.items.push(Function::new(1));
    let mut c1 = Crate(vec![("x.rs".to_string(), f1)]);

    let mut f2 = File::new();
    // Duplicate '1' appears twice, plus a new '2'
    f2.items.push(Function::new(1));
    f2.items.push(Function::new(1));
    f2.items.push(Function::new(2));
    let c2 = Crate(vec![("x.rs".to_string(), f2)]);

    c1.merge(c2);

    let merged = &c1.0.iter().find(|e| e.0 == "x.rs").unwrap().1;
    let mut ids: Vec<u32> = merged.items.iter().map(|f| f.fn_id).collect();
    ids.sort_unstable();
    assert_eq!(ids, vec![1, 2], "should deduplicate duplicates within other and across crates");
}

#[test]
fn workspace_merge_invokes_crate_merge_for_colliding_crates() {
    let mut file_left = File::new();
    file_left.items.push(Function::new(10));
    let crate_left = Crate(vec![("f.rs".to_string(), file_left)]);
    let mut w1 = Workspace(vec![("same".to_string(), crate_left)]);

    let mut file_right = File::new();
    file_right.items.push(Function::new(10)); // dup
    file_right.items.push(Function::new(20)); // new
    let crate_right = Crate(vec![("f.rs".to_string(), file_right)]);
    let w2 = Workspace(vec![("same".to_string(), crate_right)]);

    w1.merge(w2);
    let same = &w1.0.iter().find(|e| e.0 == "same").unwrap().1;
    let merged = &same.0.iter().find(|e| e.0 == "f.rs").unwrap().1;
    let mut ids: Vec<u32> = merged.items.iter().map(|f| f.fn_id).collect();
    ids.sort_unstable();
    assert_eq!(ids, vec![10, 20]);
}

#[test]
fn mir_statement_assign_with_rval_variants_preserves_range() {
    let r = Range::new(Loc(100), Loc(200)).unwrap();
    let local = FnLocal::new(3, 7);

    let s_move = MirStatement::Assign {
        target_local: local,
        range: r,
        rval: Some(MirRval::Move { target_local: local, range: r }),
    };
    assert_eq!(s_move.range(), r);

    let borrow_outlive = Range::new(Loc(150), Loc(160)).unwrap();
    let s_borrow = MirStatement::Assign {
        target_local: local,
        range: r,
        rval: Some(MirRval::Borrow {
            target_local: local,
            range: r,
            mutable: true,
            outlive: Some(borrow_outlive),
        }),
    };
    assert_eq!(s_borrow.range(), r);
}

#[test]
fn fn_local_equality_and_hash_in_set() {
    let a = FnLocal::new(5, 9);
    let b = FnLocal::new(5, 9);
    let c = FnLocal::new(5, 8);

    // HashSet should deduplicate equal keys
    let mut set = HashSet::new();
    set.insert(a);
    set.insert(b);
    set.insert(c);
    assert_eq!(set.len(), 2);
    assert!(set.contains(&FnLocal::new(5, 9)));
    assert!(set.contains(&FnLocal::new(5, 8)));

    // Also verify HashMap key replacement behavior is stable for equal keys
    let mut map = HashMap::new();
    map.insert(a, "first");
    map.insert(b, "second"); // same key should overwrite
    assert_eq!(map.get(&FnLocal::new(5, 9)), Some(&"second"));
}

#[test]
fn range_vec_roundtrip_large() {
    let mut v = Vec::new();
    for i in 0..32u32 {
        v.push(Range::new(Loc(i), Loc(i + 1)).unwrap());
    }
    let rv = range_vec_from_vec(v.clone());
    let back = range_vec_into_vec(rv);
    assert_eq!(v, back);
}
