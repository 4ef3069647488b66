use mini_sql_db::codec::{
    decode_table_text, encode_table_text, escape_string, parse_int, string_to_datatype, to_cell, to_value,
    unescape_string, Cell, CodecError,
};
use mini_sql_db::database::Database;
use mini_sql_db::value::{Column, DataType, Value};

fn cols() -> Vec<Column> {
    vec![
        Column { name: "id".to_string(), data_type: DataType::Int },
        Column { name: "name".to_string(), data_type: DataType::Text },
        Column { name: "score".to_string(), data_type: DataType::Float },
    ]
}

#[test]
fn escape_and_unescape() {
    assert_eq!(escape_string("a|b\\c\nd\re"), "a\\|b\\\\c\\nd\\re".to_string());
    assert_eq!(unescape_string("a\\|b\\\\c\\nd\\re"), "a|b\\c\nd\re".to_string());
    assert_eq!(unescape_string("x\\qy\\"), "x\\qy\\".to_string());
}

#[test]
fn table_text_layout() {
    let rows = vec![
        vec![Cell::Int(-12), Cell::Text("a|b".to_string()), Cell::Float("1.5".to_string())],
        vec![Cell::Null, Cell::Null, Cell::Null],
    ];
    let text = encode_table_text(&cols(), &rows);
    assert_eq!(text, "id:INT,name:TEXT,score:FLOAT\n-12|a\\|b|1.5\nNULL|NULL|NULL\n".to_string());
}

#[test]
fn table_round_trip() {
    let rows = vec![
        vec![Cell::Int(i64::MIN), Cell::Text("line\nbreak \\ and | pipe".to_string()), Cell::Float("-0.25".to_string())],
        vec![Cell::Int(i64::MAX), Cell::Text("".to_string()), Cell::Null],
    ];
    let text = encode_table_text(&cols(), &rows);
    let (c, r) = decode_table_text(&text).unwrap();
    assert_eq!(c, cols());
    assert_eq!(r, rows);
}

#[test]
fn text_null_literal_reloads_as_null() {
    let rows = vec![vec![Cell::Int(1), Cell::Text("NULL".to_string()), Cell::Null]];
    let text = encode_table_text(&cols(), &rows);
    let (_, r) = decode_table_text(&text).unwrap();
    assert_eq!(r, vec![vec![Cell::Int(1), Cell::Null, Cell::Null]]);
}

#[test]
fn decoding_errors() {
    assert!(matches!(decode_table_text("id:INT\nabc\n"), Err(CodecError::InvalidInteger(_))));
    assert!(matches!(decode_table_text("id:INT,x:TEXT\n1\n"), Err(CodecError::FieldCount { expected: 2, got: 1 })));
    assert!(matches!(decode_table_text("id:BLOB\n"), Err(CodecError::UnknownType(_))));
    assert!(matches!(decode_table_text("idINT\n"), Err(CodecError::InvalidColumn(_))));
    assert!(matches!(string_to_datatype("FLOAT"), Ok(DataType::Float)));
}

#[test]
fn crlf_endings_are_tolerated() {
    let (c, r) = decode_table_text("  id:INT \r\n7\r\n8\n").unwrap();
    assert_eq!(c, vec![Column { name: "id".to_string(), data_type: DataType::Int }]);
    assert_eq!(r, vec![vec![Cell::Int(7)], vec![Cell::Int(8)]]);
}

#[test]
fn blank_row_lines_are_rows() {
    let one = vec![Column { name: "note".to_string(), data_type: DataType::Text }];
    let rows = vec![vec![Cell::Text("".to_string())], vec![Cell::Text(" \t ".to_string())]];
    let text = encode_table_text(&one, &rows);
    assert_eq!(text, "note:TEXT\n\n \t \n".to_string());
    let (c, r) = decode_table_text(&text).unwrap();
    assert_eq!(c, one);
    assert_eq!(r, rows);
    assert!(matches!(decode_table_text("id:INT\n\n"), Err(CodecError::InvalidInteger(_))));
}

#[test]
fn integers_parse_like_std() {
    let p = |s: &str| parse_int(&s.chars().collect());
    assert_eq!(p("42"), Some(42));
    assert_eq!(p("+7"), Some(7));
    assert_eq!(p("-9223372036854775808"), Some(i64::MIN));
    assert_eq!(p("9223372036854775808"), None);
    assert_eq!(p("-"), None);
    assert_eq!(p("1x"), None);
    assert_eq!(p(""), None);
}

#[test]
fn cells_and_values_convert() {
    assert_eq!(to_cell(&Value::Int(5)), Some(Cell::Int(5)));
    assert_eq!(to_cell(&Value::Float(0)), None);
    assert_eq!(to_value(&Cell::Text("q".to_string())), Some(Value::Text("q".to_string())));
    assert_eq!(to_value(&Cell::Float("1".to_string())), None);
}

#[test]
fn stored_null_text_in_a_database_reloads_as_null() {
    let mut db = Database::new();
    let cols = vec![Column { name: "s".to_string(), data_type: DataType::Text }];
    db.create_table("t".to_string(), cols).unwrap();
    db.insert_row("t", vec![Value::Text("NULL".to_string())]).unwrap();
    let table = db.get_table("t").unwrap();
    let cells: Vec<Vec<Cell>> = table.rows.iter().map(|r| r.iter().map(|v| to_cell(v).unwrap()).collect()).collect();
    let text = encode_table_text(&table.columns, &cells);
    let (_, back) = decode_table_text(&text).unwrap();
    let values: Vec<Vec<Value>> = back.iter().map(|r| r.iter().map(|c| to_value(c).unwrap()).collect()).collect();
    assert_eq!(values, vec![vec![Value::Null]]);
}
