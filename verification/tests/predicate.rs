use ferricula::predicate::{
    compare_bool, compare_str, compare_u64, fact_column_matches, is_virtual_column, ColumnError, CompareOp,
};

#[test]
fn virtual_columns_known() {
    assert!(is_virtual_column("fidelity"));
    assert!(is_virtual_column("consolidation_depth"));
    assert!(!is_virtual_column("channel"));
    assert!(!is_virtual_column("Fidelity"));
}

#[test]
fn compare_numbers_bools_and_strings() {
    assert!(compare_u64(3, CompareOp::Lt, 4));
    assert!(!compare_u64(4, CompareOp::Lt, 4));
    assert!(compare_u64(4, CompareOp::GtEq, 4));
    assert_eq!(compare_bool(true, CompareOp::Eq, true), Some(true));
    assert_eq!(compare_bool(true, CompareOp::NotEq, true), Some(false));
    assert_eq!(compare_bool(true, CompareOp::Lt, false), None);
    assert!(compare_str("Active", CompareOp::Eq, "Active"));
    assert!(compare_str("Archived", CompareOp::Lt, "Forgiven"));
    assert!(!compare_str("b", CompareOp::LtEq, "a"));
    assert!(compare_str("b", CompareOp::Gt, "a"));
}

fn facts() -> ferricula::predicate::RecordFacts {
    ferricula::predicate::RecordFacts {
        state: ferricula::memory::LifecycleState::Forgiven,
        keystone: true,
        recall_count: 5,
        created_at: 100,
        last_recalled: 200,
        staleness: 30,
        age: 400,
        consolidation_depth: 2,
        emotion: Some("joy".to_string()),
    }
}

#[test]
fn record_columns_compare_in_the_library() {
    let f = facts();
    assert_eq!(fact_column_matches("fidelity", CompareOp::Gt, "0.5", &f), Ok(None));
    assert_eq!(fact_column_matches("importance", CompareOp::Eq, "x", &f), Ok(None));
    assert_eq!(fact_column_matches("state", CompareOp::Eq, "Forgiven", &f), Ok(Some(true)));
    assert_eq!(fact_column_matches("state", CompareOp::Eq, "Active", &f), Ok(Some(false)));
    assert_eq!(fact_column_matches("keystone", CompareOp::Eq, "true", &f), Ok(Some(true)));
    assert_eq!(fact_column_matches("keystone", CompareOp::NotEq, "true", &f), Ok(Some(false)));
    assert_eq!(fact_column_matches("keystone", CompareOp::Lt, "true", &f), Err(ColumnError::BoolOperator));
    assert_eq!(fact_column_matches("keystone", CompareOp::Eq, "yes", &f), Err(ColumnError::InvalidBool));
    assert_eq!(fact_column_matches("recalls", CompareOp::GtEq, "5", &f), Ok(Some(true)));
    assert_eq!(fact_column_matches("recall_count", CompareOp::Gt, "5", &f), Ok(Some(false)));
    assert_eq!(fact_column_matches("age", CompareOp::Lt, "+401", &f), Ok(Some(true)));
    assert_eq!(fact_column_matches("staleness", CompareOp::Eq, "-1", &f), Err(ColumnError::InvalidInteger));
    assert_eq!(fact_column_matches("consolidation_depth", CompareOp::Eq, "2", &f), Ok(Some(true)));
    assert_eq!(fact_column_matches("created_at", CompareOp::LtEq, "100", &f), Ok(Some(true)));
    assert_eq!(fact_column_matches("last_recalled", CompareOp::NotEq, "200", &f), Ok(Some(false)));
    assert_eq!(fact_column_matches("emotion", CompareOp::Eq, "joy", &f), Ok(Some(true)));
    let mut none = facts();
    none.emotion = None;
    assert_eq!(fact_column_matches("emotion", CompareOp::Eq, "null", &none), Ok(Some(true)));
    assert_eq!(fact_column_matches("colour", CompareOp::Eq, "1", &f), Err(ColumnError::UnknownColumn));
}
