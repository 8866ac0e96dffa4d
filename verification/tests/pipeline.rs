use queryer::convert::{
    plan, translate, OrderByItem, Proj, SelectItem, SelectStmt, Stmt, TableFactor, TableRef,
};
use queryer::error::Error;
use queryer::expr::{BinOp, Expr};
use queryer::run;
use queryer::value::Value;

fn col(name: &str) -> Expr {
    Expr::Col(name.to_string())
}

fn lit_int(n: i64) -> Expr {
    Expr::Lit(Value::Int(n))
}

fn binary(op: BinOp, l: Expr, r: Expr) -> Expr {
    Expr::Binary(op, Box::new(l), Box::new(r))
}

fn select_all_from(source: &str) -> SelectStmt {
    SelectStmt {
        projection: vec![SelectItem::Wildcard],
        from: vec![TableRef {
            factor: TableFactor::Named(source.to_string()),
            has_joins: false,
        }],
        selection: None,
        group_by: false,
        having: false,
        order_by: vec![],
        offset: None,
        limit: None,
        other_clause: None,
    }
}

fn p7_statement() -> Stmt {
    // SELECT name FROM src WHERE age >= 25 ORDER BY age DESC, name LIMIT 2
    let mut q = select_all_from("src");
    q.projection = vec![SelectItem::Expr(col("name"))];
    q.selection = Some(binary(BinOp::Gte, col("age"), lit_int(25)));
    q.order_by = vec![
        OrderByItem { expr: col("age"), asc: Some(false) },
        OrderByItem { expr: col("name"), asc: None },
    ];
    q.limit = Some(lit_int(2));
    Stmt::Select(q)
}

const P7_CSV: &str = "name,age\nAlice,30\nBob,25\nCarol,25\n";

#[test]
fn translate_simple_select() {
    let sql = translate(&p7_statement()).unwrap();
    assert_eq!(sql.source, "src");
    assert!(sql.condition.is_some());
    assert_eq!(sql.order_by.len(), 2);
    assert_eq!(sql.order_by[0].0, "age");
    assert!(sql.order_by[0].1);
    assert_eq!(sql.order_by[1].0, "name");
    assert!(!sql.order_by[1].1);
    assert_eq!(sql.offset, None);
    assert_eq!(sql.limit, Some(2));
    assert_eq!(sql.selection.len(), 1);
    assert!(matches!(&sql.selection[0], Proj::Named { name, .. } if name == "name"));
}

#[test]
fn translation_is_deterministic() {
    let a = translate(&p7_statement()).unwrap();
    let b = translate(&p7_statement()).unwrap();
    assert_eq!(a.source, b.source);
    assert_eq!(a.order_by, b.order_by);
    assert_eq!(a.offset, b.offset);
    assert_eq!(a.limit, b.limit);
}

#[test]
fn plan_rejects_zero_statements() {
    let e = plan(&vec![]).unwrap_err();
    assert!(matches!(e, Error::MultiStatement(0)));
}

#[test]
fn plan_rejects_two_statements() {
    let e = plan(&vec![p7_statement(), p7_statement()]).unwrap_err();
    assert!(matches!(e, Error::MultiStatement(2)));
}

#[test]
fn scenario_filter_sort_limit() {
    let sql = plan(&vec![p7_statement()]).unwrap();
    let ds = run(&sql, P7_CSV.to_string()).unwrap();
    assert_eq!(ds.0.names, vec!["name".to_string()]);
    assert_eq!(
        ds.0.rows,
        vec![
            vec![Value::Str("Alice".to_string())],
            vec![Value::Str("Bob".to_string())],
        ]
    );
}

#[test]
fn offset_past_end_yields_empty() {
    let mut q = select_all_from("src");
    q.offset = Some(lit_int(10));
    let sql = translate(&Stmt::Select(q)).unwrap();
    let ds = run(&sql, P7_CSV.to_string()).unwrap();
    assert_eq!(ds.0.rows.len(), 0);
    assert_eq!(ds.0.names.len(), 2);
}

#[test]
fn missing_column_in_where_names_it() {
    let mut q = select_all_from("src");
    q.selection = Some(binary(BinOp::Eq, col("salary"), lit_int(1)));
    let sql = translate(&Stmt::Select(q)).unwrap();
    let e = run(&sql, P7_CSV.to_string()).unwrap_err();
    assert!(matches!(e, Error::Evaluation(_)));
    assert_eq!(e.detail(), "salary");
}

#[test]
fn row_count_formula() {
    // 3 rows pass the filter age >= 25; offset 1, limit 5 => min(5, 3 - 1) = 2.
    let mut q = select_all_from("src");
    q.selection = Some(binary(BinOp::Gte, col("age"), lit_int(25)));
    q.offset = Some(lit_int(1));
    q.limit = Some(lit_int(5));
    let sql = translate(&Stmt::Select(q)).unwrap();
    let ds = run(&sql, P7_CSV.to_string()).unwrap();
    assert_eq!(ds.0.rows.len(), 2);
}

#[test]
fn sort_is_stable_for_equal_keys() {
    // All rows share the same key; their input order must be kept.
    let csv = "name,grade\nzoe,1\namy,1\nmia,1\n";
    let mut q = select_all_from("src");
    q.projection = vec![SelectItem::Expr(col("name"))];
    q.order_by = vec![OrderByItem { expr: col("grade"), asc: None }];
    let sql = translate(&Stmt::Select(q)).unwrap();
    let ds = run(&sql, csv.to_string()).unwrap();
    assert_eq!(
        ds.0.rows,
        vec![
            vec![Value::Str("zoe".to_string())],
            vec![Value::Str("amy".to_string())],
            vec![Value::Str("mia".to_string())],
        ]
    );
}

#[test]
fn nulls_sort_first_both_directions() {
    let csv = "name,age\nAlice,30\nBob,\nCarol,25\n";
    for desc in [false, true] {
        let mut q = select_all_from("src");
        q.projection = vec![SelectItem::Expr(col("name"))];
        q.order_by = vec![OrderByItem {
            expr: col("age"),
            asc: if desc { Some(false) } else { None },
        }];
        let sql = translate(&Stmt::Select(q)).unwrap();
        let ds = run(&sql, csv.to_string()).unwrap();
        assert_eq!(ds.0.rows[0], vec![Value::Str("Bob".to_string())]);
    }
}

#[test]
fn csv_round_trip_select_all() {
    let text = "name,age\nAlice,30\nBob,25\nCarol,25\n";
    let sql = translate(&Stmt::Select(select_all_from("src"))).unwrap();
    let mut ds = run(&sql, text.to_string()).unwrap();
    assert_eq!(ds.to_csv().unwrap(), text);
}

#[test]
fn rejects_non_query_statement() {
    let e = translate(&Stmt::Other("INSERT".to_string())).unwrap_err();
    match &e {
        Error::UnsupportedStatement(name) => assert_eq!(name, "INSERT"),
        other => panic!("expected an unsupported statement error, got {:?}", other),
    }
}

#[test]
fn rejects_join() {
    let mut q = select_all_from("src");
    q.from[0].has_joins = true;
    let e = translate(&Stmt::Select(q)).unwrap_err();
    assert!(matches!(e, Error::UnsupportedSource(_)));
}

#[test]
fn rejects_multiple_tables() {
    let mut q = select_all_from("src");
    q.from.push(TableRef {
        factor: TableFactor::Named("other".to_string()),
        has_joins: false,
    });
    let e = translate(&Stmt::Select(q)).unwrap_err();
    assert!(matches!(e, Error::UnsupportedSource(_)));
}

#[test]
fn rejects_group_by() {
    let mut q = select_all_from("src");
    q.group_by = true;
    let e = translate(&Stmt::Select(q)).unwrap_err();
    match &e {
        Error::UnsupportedClause(name) => assert_eq!(name, "GROUP BY"),
        other => panic!("expected an unsupported clause error, got {:?}", other),
    }
}

#[test]
fn rejects_negative_limit() {
    let mut q = select_all_from("src");
    q.limit = Some(lit_int(-1));
    let e = translate(&Stmt::Select(q)).unwrap_err();
    match &e {
        Error::UnsupportedClause(name) => assert_eq!(name, "LIMIT"),
        other => panic!("expected an unsupported clause error, got {:?}", other),
    }
}

#[test]
fn rejects_order_by_expression() {
    let mut q = select_all_from("src");
    q.order_by = vec![OrderByItem {
        expr: binary(BinOp::Lt, col("age"), lit_int(3)),
        asc: None,
    }];
    let e = translate(&Stmt::Select(q)).unwrap_err();
    assert!(matches!(e, Error::UnsupportedClause(_)));
}

#[test]
fn non_boolean_condition_is_an_error() {
    let mut q = select_all_from("src");
    q.selection = Some(col("age"));
    let sql = translate(&Stmt::Select(q)).unwrap();
    let e = run(&sql, P7_CSV.to_string()).unwrap_err();
    assert!(matches!(e, Error::Evaluation(_)));
    assert_eq!(e.detail(), "type mismatch");
}

#[test]
fn type_mismatch_in_filter() {
    let mut q = select_all_from("src");
    q.selection = Some(binary(BinOp::Gte, col("name"), lit_int(25)));
    let sql = translate(&Stmt::Select(q)).unwrap();
    let e = run(&sql, P7_CSV.to_string()).unwrap_err();
    match &e {
        Error::Evaluation(msg) => assert_eq!(msg, "type mismatch"),
        other => panic!("expected an evaluation error, got {:?}", other),
    }
}
