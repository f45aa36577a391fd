use flintdb::{
    plan, Column, DataType, Executor, ExecutorError, Plan, Reply, Row, Schema, StatementShape, Value,
};

#[test]
fn column_lookup_ignores_ascii_case() {
    let schema = Schema::new(vec![
        Column { name: "Id".to_string(), data_type: DataType::Int },
        Column { name: "NAME".to_string(), data_type: DataType::String },
    ]);
    assert_eq!(schema.get_column_index("id"), Some(0));
    assert_eq!(schema.get_column_index("name"), Some(1));
    assert_eq!(schema.get_column_index("Nam"), None);
    assert_eq!(schema.len(), 2);
    assert!(!schema.is_empty());
    assert!(Schema::new(vec![]).is_empty());
}

#[test]
fn value_as_i32_truncates() {
    assert_eq!(Value::Int(7).as_i32(), Some(7));
    assert_eq!(Value::Int(1 << 32 | 5).as_i32(), Some(5));
    assert_eq!(Value::Bool(true).as_i32(), None);
}

#[test]
fn row_accessors() {
    let row = Row::new(vec![Value::Int(1), Value::Null]);
    assert_eq!(row.len(), 2);
    assert!(!row.is_empty());
    assert_eq!(row.get(1), Some(&Value::Null));
    assert_eq!(row.get(2), None);
}

#[test]
fn planner_recognises_select_one_and_transactions() {
    let one = StatementShape::Query { number_literal: Some("1".to_string()), projection_len: 1, has_from: false };
    assert!(matches!(plan(&one), Plan::SelectOne));
    let two = StatementShape::Query { number_literal: Some("2".to_string()), projection_len: 1, has_from: false };
    assert!(matches!(plan(&two), Plan::Unsupported(_)));
    assert!(matches!(plan(&StatementShape::Commit), Plan::Commit));
    assert!(matches!(plan(&StatementShape::Rollback), Plan::Rollback));
    assert!(matches!(plan(&StatementShape::StartTransaction), Plan::StartTransaction));
}

#[test]
fn executor_replies() {
    let ex = Executor::new();
    assert_eq!(ex.execute_plan(Plan::StartTransaction).unwrap(), Reply::TransactionStart("BEGIN".to_string()));
    assert_eq!(ex.execute_plan(Plan::Commit).unwrap(), Reply::TransactionEnd("COMMIT".to_string()));
    assert_eq!(ex.execute_plan(Plan::Rollback).unwrap(), Reply::TransactionEnd("ROLLBACK".to_string()));
    assert_eq!(
        ex.execute_plan(Plan::SelectOne).unwrap(),
        Reply::SingleValue { column: "?column?".to_string(), value: 1 }
    );
    match ex.execute_plan(Plan::Unsupported("nope".to_string())) {
        Err(ExecutorError::UnsupportedStatement(m)) => assert_eq!(m, "nope"),
        other => panic!("unexpected {:?}", other),
    }
}
