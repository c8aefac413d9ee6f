//! Tests for the data model: locations, ranges, and MIR structures.

use std::collections::HashMap;

use rustowl::models::{FnLocal, Loc, MirStatement, MirTerminator, MirVariable, MirVariables, Range};

#[test]
fn test_loc_creation_with_unicode() {
    let source = "hello 🦀 world\r\ngoodbye 🌍 world";
    // Test character position conversion
    let _loc = Loc::new(source, 8, 0); // Should point inside the first line

    // Verify that CR characters are filtered out
    let source_with_cr = "hello\r\n world";
    let loc_with_cr = Loc::new(source_with_cr, 8, 0);
    let loc_without_cr = Loc::new("hello\n world", 7, 0);
    assert_eq!(loc_with_cr.0, loc_without_cr.0);
}

#[test]
fn test_loc_arithmetic_edge_cases() {
    let loc = Loc(10);

    // Test overflow protection
    let loc_max = Loc(u32::MAX - 5);
    let result = loc_max.add(10);
    assert!(result.0 >= loc_max.0); // Should not wrap around

    // Test underflow protection with large subtraction
    let result_sub = loc.sub(20);
    assert_eq!(result_sub.0, 0); // Should saturate to 0

    // Test addition of negative that would underflow
    let result_neg = loc.add(-15);
    assert_eq!(result_neg.0, 0); // Should saturate to 0
}

#[test]
fn test_range_validation_comprehensive() {
    // Test edge cases for range creation
    let zero_size = Range::new(Loc(5), Loc(5));
    assert!(zero_size.is_none());

    let backwards = Range::new(Loc(10), Loc(5));
    assert!(backwards.is_none());

    let valid = Range::new(Loc(5), Loc(10)).unwrap();
    assert_eq!(valid.size(), 5);
    assert_eq!(valid.from().0, 5);
    assert_eq!(valid.until().0, 10);

    // Test with maximum values
    let max_range = Range::new(Loc(0), Loc(u32::MAX)).unwrap();
    assert_eq!(max_range.size(), u32::MAX);
}

#[test]
fn test_mir_variable_enum_operations() {
    let user_var = MirVariable::User {
        index: 42,
        live: Range::new(Loc(0), Loc(10)).unwrap(),
        dead: Range::new(Loc(10), Loc(20)).unwrap(),
    };

    let other_var = MirVariable::Other {
        index: 24,
        live: Range::new(Loc(5), Loc(15)).unwrap(),
        dead: Range::new(Loc(15), Loc(25)).unwrap(),
    };

    // Test pattern matching
    match user_var {
        MirVariable::User { index, .. } => assert_eq!(index, 42),
        _ => panic!("Should be User variant"),
    }

    match other_var {
        MirVariable::Other { index, .. } => assert_eq!(index, 24),
        _ => panic!("Should be Other variant"),
    }

    // Test equality
    let user_var2 = MirVariable::User {
        index: 42,
        live: Range::new(Loc(0), Loc(10)).unwrap(),
        dead: Range::new(Loc(10), Loc(20)).unwrap(),
    };
    assert_eq!(user_var, user_var2);
    assert_ne!(user_var, other_var);
}

#[test]
fn test_mir_variables_collection_advanced() {
    let mut vars = MirVariables::with_capacity(10);

    // Test adding duplicates
    let var1 = MirVariable::User {
        index: 1,
        live: Range::new(Loc(0), Loc(10)).unwrap(),
        dead: Range::new(Loc(10), Loc(20)).unwrap(),
    };

    let var1_duplicate = MirVariable::User {
        index: 1, // Same index
        live: Range::new(Loc(5), Loc(15)).unwrap(), // Different ranges
        dead: Range::new(Loc(15), Loc(25)).unwrap(),
    };

    vars.push(var1);
    vars.push(var1_duplicate); // Should not add due to same index

    let result = vars.to_vec();
    assert_eq!(result.len(), 1);

    // Verify the first one was kept
    if let MirVariable::User { live, .. } = result[0] {
        assert_eq!(live.from().0, 0);
    }
}

#[test]
fn test_mir_statement_range_extraction() {
    let range = Range::new(Loc(10), Loc(20)).unwrap();
    let fn_local = FnLocal::new(1, 42);

    let storage_live = MirStatement::StorageLive { target_local: fn_local, range };
    assert_eq!(storage_live.range(), range);

    let storage_dead = MirStatement::StorageDead { target_local: fn_local, range };
    assert_eq!(storage_dead.range(), range);

    let assign = MirStatement::Assign { target_local: fn_local, range, rval: None };
    assert_eq!(assign.range(), range);

    let other = MirStatement::Other { range };
    assert_eq!(other.range(), range);
}

#[test]
fn test_mir_terminator_range_extraction() {
    let range = Range::new(Loc(5), Loc(15)).unwrap();
    let fn_local = FnLocal::new(2, 24);

    let drop_term = MirTerminator::Drop { local: fn_local, range };
    assert_eq!(drop_term.range(), range);

    let call_term = MirTerminator::Call { destination_local: fn_local, fn_span: range };
    assert_eq!(call_term.range(), range);

    let other_term = MirTerminator::Other { range };
    assert_eq!(other_term.range(), range);
}

#[test]
fn test_fn_local_hash_consistency() {
    let fn_local1 = FnLocal::new(1, 2);
    let fn_local2 = FnLocal::new(1, 2);
    let fn_local3 = FnLocal::new(2, 1);

    let mut map = HashMap::new();
    map.insert(fn_local1, "value1");
    map.insert(fn_local3, "value2");

    // Same values should hash to same key
    assert_eq!(map.get(&fn_local2), Some(&"value1"));
    assert_eq!(map.get(&fn_local3), Some(&"value2"));
    assert_eq!(map.len(), 2);
}
