use mini_sql_db::index::{Index, IndexKey};
use mini_sql_db::value::Value;

#[test]
fn test_index_basic() {
    let mut index = Index::new("id".to_string(), 0);

    let rows = vec![
        vec![Value::Int(1), Value::Text("Alice".to_string())],
        vec![Value::Int(2), Value::Text("Bob".to_string())],
        vec![Value::Int(3), Value::Text("Charlie".to_string())],
    ];

    index.build(&rows);

    assert_eq!(index.lookup(&Value::Int(2)), Some(&vec![1]));
    assert_eq!(index.lookup(&Value::Int(99)), None);
}

#[test]
fn test_index_range() {
    let mut index = Index::new("id".to_string(), 0);

    let rows = vec![
        vec![Value::Int(1)],
        vec![Value::Int(5)],
        vec![Value::Int(10)],
        vec![Value::Int(15)],
    ];

    index.build(&rows);

    let result = index.range_lookup(&Value::Int(5), &Value::Int(10));
    assert_eq!(result, vec![1, 2]);
}

#[test]
fn index_keeps_insertion_order_under_equal_keys() {
    let mut index = Index::new("k".to_string(), 0);
    index.insert(0, &Value::Text("b".to_string()));
    index.insert(1, &Value::Text("a".to_string()));
    index.insert(2, &Value::Text("b".to_string()));
    assert_eq!(index.lookup(&Value::Text("b".to_string())), Some(&vec![0, 2]));
    assert_eq!(index.lookup(&Value::Text("a".to_string())), Some(&vec![1]));
    assert_eq!(index.greater_than(&Value::Text("a".to_string())), vec![0, 2]);
    assert_eq!(index.less_than(&Value::Text("b".to_string())), vec![1]);
}

#[test]
fn range_of_single_key_matches_lookup() {
    let mut index = Index::new("id".to_string(), 0);
    let rows = vec![vec![Value::Int(4)], vec![Value::Int(7)], vec![Value::Int(4)]];
    index.build(&rows);
    assert_eq!(index.range_lookup(&Value::Int(4), &Value::Int(4)), vec![0, 2]);
    assert_eq!(index.lookup(&Value::Int(4)), Some(&vec![0, 2]));
    assert_eq!(index.range_lookup(&Value::Int(5), &Value::Int(5)), Vec::<usize>::new());
    assert_eq!(index.lookup(&Value::Int(5)), None);
}

#[test]
fn range_with_low_above_high_is_empty() {
    let mut index = Index::new("id".to_string(), 0);
    let rows = vec![vec![Value::Int(1)], vec![Value::Int(2)]];
    index.build(&rows);
    assert_eq!(index.range_lookup(&Value::Int(2), &Value::Int(1)), Vec::<usize>::new());
}

#[test]
fn keys_order_by_kind_then_value() {
    let nan = f64::NAN.to_bits();
    let neg = (-1.5f64).to_bits();
    let pos = 2.0f64.to_bits();
    let mut index = Index::new("v".to_string(), 0);
    let rows = vec![
        vec![Value::Null],
        vec![Value::Float(pos)],
        vec![Value::Text("x".to_string())],
        vec![Value::Int(3)],
        vec![Value::Float(neg)],
        vec![Value::Float(nan)],
    ];
    index.build(&rows);
    assert_eq!(index.greater_than(&Value::Int(0)), vec![3, 2, 5, 4, 1, 0]);
    assert_eq!(index.less_than(&Value::Float(0.0f64.to_bits())), vec![3, 2, 5, 4]);
    assert_eq!(index.tree.len(), 6);
    assert!(matches!(index.tree[0].0, IndexKey::Int(3)));
}

#[test]
fn build_skips_rows_without_the_column() {
    let mut index = Index::new("b".to_string(), 1);
    let rows = vec![vec![Value::Int(1)], vec![Value::Int(1), Value::Int(9)]];
    index.build(&rows);
    assert_eq!(index.lookup(&Value::Int(9)), Some(&vec![1]));
    assert_eq!(index.tree.len(), 1);
}

#[test]
fn lexer_cursor_skips_whitespace() {
    let mut lx = mini_sql_db::lexer::Lexer::new("  \tab");
    lx.skip_whitespace();
    assert_eq!(lx.position, 3);
    assert_eq!(lx.current_char(), 'a');
    lx.advance();
    assert_eq!(lx.current_char(), 'b');
    lx.advance();
    assert!(lx.at_end());
}

#[test]
fn zeros_share_a_key_and_nan_finds_nothing() {
    let mut index = Index::new("f".to_string(), 0);
    let rows = vec![
        vec![Value::Float(0.0f64.to_bits())],
        vec![Value::Float((-0.0f64).to_bits())],
        vec![Value::Float(f64::NAN.to_bits())],
    ];
    index.build(&rows);
    assert_eq!(index.lookup(&Value::Float((-0.0f64).to_bits())), Some(&vec![0, 1]));
    assert_eq!(index.lookup(&Value::Float(0.0f64.to_bits())), Some(&vec![0, 1]));
    assert_eq!(index.lookup(&Value::Float(f64::NAN.to_bits())), None);
    let nan = Value::Float(f64::NAN.to_bits());
    assert_eq!(index.range_lookup(&nan, &nan), Vec::<usize>::new());
    assert_eq!(index.range_lookup(&Value::Float(0.0f64.to_bits()), &Value::Float(0.0f64.to_bits())), vec![0, 1]);
}

#[test]
fn lexer_cursor_skips_unicode_whitespace() {
    let mut lx = mini_sql_db::lexer::Lexer::new("\u{3000}\u{a0}x");
    lx.skip_whitespace();
    assert_eq!(lx.position, 2);
    assert_eq!(lx.current_char(), 'x');
}
