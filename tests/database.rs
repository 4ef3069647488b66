use mini_sql_db::database::{Database, DbError};
use mini_sql_db::plan::{execute, ExecutionResult, Plan};
use mini_sql_db::value::{compare_values, Column, DataType, Operator, Value, WhereClause};

fn users() -> Database {
    let mut db = Database::new();
    let cols = vec![
        Column { name: "id".to_string(), data_type: DataType::Int },
        Column { name: "name".to_string(), data_type: DataType::Text },
    ];
    db.create_table("users".to_string(), cols).unwrap();
    db.insert_row("users", vec![Value::Int(1), Value::Text("Alice".to_string())]).unwrap();
    db.insert_row("users", vec![Value::Int(2), Value::Text("Bob".to_string())]).unwrap();
    db
}

fn filter(column: &str, operator: Operator, value: Value) -> WhereClause {
    WhereClause { column: column.to_string(), operator, value }
}

fn row(id: i64, name: &str) -> Vec<Value> {
    vec![Value::Int(id), Value::Text(name.to_string())]
}

#[test]
fn create_insert_select_all() {
    let db = users();
    let (cols, rows) = db.select_all("users").unwrap();
    assert_eq!(cols, vec!["id".to_string(), "name".to_string()]);
    assert_eq!(rows, vec![row(1, "Alice"), row(2, "Bob")]);
}

#[test]
fn delete_then_indexed_select() {
    let mut db = users();
    db.create_index("users", "id").unwrap();
    let n = db.delete_rows("users", Some(&filter("id", Operator::Equals, Value::Int(1)))).unwrap();
    assert_eq!(n, 1);
    let (_, rows) = db
        .select_with_filter("users", vec![], Some(&filter("id", Operator::GreaterThan, Value::Int(0))))
        .unwrap();
    assert_eq!(rows, vec![row(2, "Bob")]);
    assert_eq!(db.indexes[0][0].lookup(&Value::Int(2)), Some(&vec![0]));
    assert_eq!(db.indexes[0][0].lookup(&Value::Int(1)), None);
}

#[test]
fn update_reports_count_and_keeps_indexes() {
    let mut db = users();
    db.create_index("users", "name").unwrap();
    db.create_index("users", "id").unwrap();
    let plan = Plan::Update {
        table_name: "users".to_string(),
        column: "name".to_string(),
        value: Value::Text("Bea".to_string()),
        filter: Some(filter("id", Operator::Equals, Value::Int(2))),
    };
    let res = execute(plan, &mut db).unwrap();
    assert_eq!(res, ExecutionResult::Success("1 row(s) updated".to_string()));
    let (_, rows) = db.select_all("users").unwrap();
    assert_eq!(rows, vec![row(1, "Alice"), row(2, "Bea")]);
    assert_eq!(db.indexes[0][0].lookup(&Value::Text("Bea".to_string())), Some(&vec![1]));
    assert_eq!(db.indexes[0][0].lookup(&Value::Text("Bob".to_string())), None);
    assert_eq!(db.indexes[0][1].lookup(&Value::Int(2)), Some(&vec![1]));
}

#[test]
fn insert_of_wrong_type_is_refused() {
    let mut db = users();
    let r = db.insert_row("users", vec![Value::Text("x".to_string()), Value::Text("Alice".to_string())]);
    assert_eq!(r, Err(DbError::TypeMismatch("id".to_string())));
    assert_eq!(db.select_all("users").unwrap().1.len(), 2);
}

#[test]
fn insert_of_wrong_arity_is_refused() {
    let mut db = users();
    let r = db.insert_row("users", vec![Value::Int(3)]);
    assert_eq!(r, Err(DbError::ArityMismatch { expected: 2, got: 1 }));
    assert_eq!(db.select_all("users").unwrap().1.len(), 2);
}

#[test]
fn schema_errors() {
    let mut db = users();
    let again = vec![Column { name: "a".to_string(), data_type: DataType::Int }];
    assert_eq!(db.create_table("users".to_string(), again), Err(DbError::TableExists("users".to_string())));
    assert_eq!(db.insert_row("nope", vec![]), Err(DbError::NoSuchTable("nope".to_string())));
    assert_eq!(db.create_index("users", "age"), Err(DbError::NoSuchColumn("age".to_string())));
    assert_eq!(
        db.update_rows("users", "id", Value::Text("x".to_string()), None),
        Err(DbError::TypeMismatch("id".to_string()))
    );
    assert_eq!(
        db.delete_rows("users", Some(&filter("age", Operator::Equals, Value::Int(1)))),
        Err(DbError::NoSuchColumn("age".to_string()))
    );
    assert_eq!(
        db.select_with_filter("users", vec!["age".to_string()], None),
        Err(DbError::NoSuchColumn("age".to_string()))
    );
}

#[test]
fn projection_and_scan_operators() {
    let mut db = users();
    db.insert_row("users", vec![Value::Int(3), Value::Null]).unwrap();
    db.create_index("users", "id").unwrap();
    let (cols, rows) = db
        .select_with_filter("users", vec!["name".to_string()], Some(&filter("id", Operator::NotEquals, Value::Int(2))))
        .unwrap();
    assert_eq!(cols, vec!["name".to_string()]);
    assert_eq!(rows, vec![vec![Value::Text("Alice".to_string())], vec![Value::Null]]);
    let (_, rows) = db
        .select_with_filter("users", vec![], Some(&filter("id", Operator::GreaterOrEqual, Value::Int(2))))
        .unwrap();
    assert_eq!(rows, vec![row(2, "Bob"), vec![Value::Int(3), Value::Null]]);
}

#[test]
fn delete_without_filter_removes_everything() {
    let mut db = users();
    db.create_index("users", "id").unwrap();
    assert_eq!(db.delete_rows("users", None), Ok(2));
    assert_eq!(db.select_all("users").unwrap().1.len(), 0);
    assert_eq!(db.indexes[0][0].tree.len(), 0);
}

#[test]
fn second_index_on_a_column_replaces_the_first() {
    let mut db = users();
    db.create_index("users", "id").unwrap();
    db.create_index("users", "id").unwrap();
    assert_eq!(db.indexes[0].len(), 1);
    assert_eq!(db.list_tables(), vec!["users".to_string()]);
}

#[test]
fn execute_messages() {
    let mut db = Database::new();
    let plan = Plan::CreateTable {
        table_name: "t".to_string(),
        columns: vec![Column { name: "x".to_string(), data_type: DataType::Float }],
    };
    assert_eq!(execute(plan, &mut db).unwrap(), ExecutionResult::Success("Table 't' created successfully".to_string()));
    let plan = Plan::CreateIndex { table_name: "t".to_string(), column_name: "x".to_string() };
    assert_eq!(
        execute(plan, &mut db).unwrap(),
        ExecutionResult::Success("Index created on column 'x' of table 't'".to_string())
    );
    let plan = Plan::Insert { table_name: "t".to_string(), values: vec![Value::Float(1.5f64.to_bits())] };
    assert_eq!(execute(plan, &mut db).unwrap(), ExecutionResult::Success("1 row inserted".to_string()));
    let plan = Plan::Delete { table_name: "t".to_string(), filter: None };
    assert_eq!(execute(plan, &mut db).unwrap(), ExecutionResult::Success("1 row(s) deleted".to_string()));
}

#[test]
fn comparisons_follow_kind_rules() {
    let one = Value::Int(1);
    let two = Value::Int(2);
    assert!(compare_values(&two, &Operator::GreaterThan, &one));
    assert!(!compare_values(&one, &Operator::GreaterThan, &Value::Float(0.5f64.to_bits())));
    assert!(compare_values(&Value::Null, &Operator::Equals, &Value::Null));
    assert!(!compare_values(&Value::Null, &Operator::LessOrEqual, &Value::Null));
    let a = Value::Text("apple".to_string());
    let b = Value::Text("banana".to_string());
    assert!(compare_values(&a, &Operator::LessThan, &b));
    assert!(compare_values(&b, &Operator::GreaterOrEqual, &a));
    let nan = Value::Float(f64::NAN.to_bits());
    assert!(!compare_values(&nan, &Operator::LessThan, &Value::Float(1.0f64.to_bits())));
    assert!(compare_values(&Value::Float((-2.0f64).to_bits()), &Operator::LessThan, &Value::Float(1.0f64.to_bits())));
    assert!(compare_values(&one, &Operator::NotEquals, &Value::Text("1".to_string())));
}

#[test]
fn maintained_index_equals_fresh_build_after_delete() {
    let mut db = users();
    db.insert_row("users", vec![Value::Int(1), Value::Text("Cy".to_string())]).unwrap();
    db.create_index("users", "id").unwrap();
    db.create_index("users", "name").unwrap();
    db.delete_rows("users", Some(&filter("name", Operator::Equals, Value::Text("Alice".to_string())))).unwrap();
    let rows = db.select_all("users").unwrap().1;
    for k in 0..2 {
        let idx = &db.indexes[0][k];
        let mut fresh = mini_sql_db::index::Index::new(idx.column_name.clone(), idx.column_index);
        fresh.build(&rows);
        assert_eq!(fresh.tree, idx.tree);
    }
    assert_eq!(db.indexes[0][0].lookup(&Value::Int(1)), Some(&vec![1]));
}

#[test]
fn rows_keep_their_shape_through_operations() {
    let mut db = users();
    db.insert_row("users", vec![Value::Null, Value::Null]).unwrap();
    db.update_rows("users", "name", Value::Null, Some(&filter("id", Operator::LessThan, Value::Int(2)))).unwrap();
    let (_, rows) = db.select_all("users").unwrap();
    assert_eq!(rows, vec![vec![Value::Int(1), Value::Null], row(2, "Bob"), vec![Value::Null, Value::Null]]);
    for r in &rows {
        assert_eq!(r.len(), 2);
    }
}

#[test]
fn float_equality_is_numeric() {
    let z = Value::Float(0.0f64.to_bits());
    let nz = Value::Float((-0.0f64).to_bits());
    let nan = Value::Float(f64::NAN.to_bits());
    assert!(compare_values(&z, &Operator::Equals, &nz));
    assert!(!compare_values(&nan, &Operator::Equals, &nan));
    assert!(compare_values(&nan, &Operator::NotEquals, &nan));
    let mut db = Database::new();
    let cols = vec![Column { name: "f".to_string(), data_type: DataType::Float }];
    db.create_table("t".to_string(), cols).unwrap();
    db.insert_row("t", vec![nz.clone()]).unwrap();
    db.insert_row("t", vec![nan.clone()]).unwrap();
    let (_, scanned) = db.select_with_filter("t", vec![], Some(&filter("f", Operator::Equals, z.clone()))).unwrap();
    assert_eq!(scanned, vec![vec![nz.clone()]]);
    db.create_index("t", "f").unwrap();
    let (_, indexed) = db.select_with_filter("t", vec![], Some(&filter("f", Operator::Equals, z.clone()))).unwrap();
    assert_eq!(indexed, vec![vec![nz.clone()]]);
    let (_, none) = db.select_with_filter("t", vec![], Some(&filter("f", Operator::Equals, nan.clone()))).unwrap();
    assert_eq!(none.len(), 0);
}
