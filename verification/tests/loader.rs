use queryer::csv::{parse_csv, render_csv, try_parse_int};
use queryer::error::Error;
use queryer::loader::detect_content;
use queryer::table::Table;
use queryer::value::Value;
use queryer::DataSet;

#[test]
fn loads_csv_with_inferred_types() {
    let ds = detect_content("name,age\nAlice,30\nBob,\n".to_string())
        .load()
        .unwrap();
    assert_eq!(ds.0.names, vec!["name".to_string(), "age".to_string()]);
    assert_eq!(
        ds.0.rows,
        vec![
            vec![Value::Str("Alice".to_string()), Value::Int(30)],
            vec![Value::Str("Bob".to_string()), Value::Null],
        ]
    );
}

#[test]
fn empty_input_is_a_load_error() {
    let e = detect_content(String::new()).load().unwrap_err();
    match &e {
        Error::Load(msg) => assert_eq!(msg, "empty input"),
        other => panic!("expected a load error, got {:?}", other),
    }
}

#[test]
fn ragged_rows_are_a_load_error() {
    let e = detect_content("a,b\n1\n".to_string()).load().unwrap_err();
    match &e {
        Error::Load(msg) => assert_eq!(msg, "ragged rows"),
        other => panic!("expected a load error, got {:?}", other),
    }
}

#[test]
fn non_canonical_numbers_stay_text() {
    let t = parse_csv("id\n007\n").unwrap();
    assert_eq!(t.rows, vec![vec![Value::Str("007".to_string())]]);
}

#[test]
fn mixed_column_stays_text() {
    let t = parse_csv("v\n12\nx\n").unwrap();
    assert_eq!(
        t.rows,
        vec![
            vec![Value::Str("12".to_string())],
            vec![Value::Str("x".to_string())],
        ]
    );
}

#[test]
fn integer_extremes_round_trip() {
    let text = "v\n9223372036854775807\n-9223372036854775808\n0\n";
    let t = parse_csv(text).unwrap();
    assert_eq!(
        t.rows,
        vec![
            vec![Value::Int(i64::MAX)],
            vec![Value::Int(i64::MIN)],
            vec![Value::Int(0)],
        ]
    );
    assert_eq!(render_csv(&t).unwrap(), text);
}

#[test]
fn out_of_range_numbers_stay_text() {
    let t = parse_csv("v\n9223372036854775808\n").unwrap();
    assert_eq!(
        t.rows,
        vec![vec![Value::Str("9223372036854775808".to_string())]]
    );
}

#[test]
fn try_parse_int_accepts_only_canonical() {
    assert_eq!(try_parse_int(&"42".to_string()), Some(42));
    assert_eq!(try_parse_int(&"-5".to_string()), Some(-5));
    assert_eq!(try_parse_int(&"0".to_string()), Some(0));
    assert_eq!(try_parse_int(&"007".to_string()), None);
    assert_eq!(try_parse_int(&"-0".to_string()), None);
    assert_eq!(try_parse_int(&"".to_string()), None);
    assert_eq!(try_parse_int(&"-".to_string()), None);
    assert_eq!(try_parse_int(&"+5".to_string()), None);
    assert_eq!(try_parse_int(&"4 2".to_string()), None);
    assert_eq!(try_parse_int(&"9223372036854775808".to_string()), None);
    assert_eq!(try_parse_int(&"-9223372036854775808".to_string()), Some(i64::MIN));
}

#[test]
fn delimiter_in_cell_is_a_serialization_error() {
    let mut ds = DataSet(Table {
        names: vec!["a".to_string()],
        rows: vec![vec![Value::Str("x,y".to_string())]],
    });
    let e = ds.to_csv().unwrap_err();
    assert!(matches!(e, Error::Serialization(_)));
}

#[test]
fn bool_values_render_as_words() {
    let mut ds = DataSet(Table {
        names: vec!["a".to_string(), "b".to_string()],
        rows: vec![vec![Value::Bool(true), Value::Bool(false)]],
    });
    assert_eq!(ds.to_csv().unwrap(), "a,b\ntrue,false\n");
}
