use river::ast::{BinaryOp, Expression};
use river::joins::{
    extract_field_name, hash_join, join_results, merge_columns, merge_vals, nested_loop_join, nested_loop_join_at,
    resolve_equi_columns, RiverError,
};
use river::joins_spec::{JoinKind, JoinStrategy};
use river::value::{QueryResult, Value};

fn users() -> QueryResult {
    QueryResult {
        columns: vec!["id".into(), "name".into()],
        column_sources: vec![Some("users".into()), Some("users".into())],
        rows: vec![
            vec![Value::Int(1), Value::String("Alice".into())],
            vec![Value::Int(2), Value::String("Bob".into())],
            vec![Value::Int(3), Value::String("Carol".into())],
        ],
        elapsed_ms: 4,
        rows_affected: 0,
    }
}

fn orders() -> QueryResult {
    QueryResult {
        columns: vec!["user_id".into(), "item".into()],
        column_sources: vec![Some("orders".into()), Some("orders".into())],
        rows: vec![
            vec![Value::Int(2), Value::String("pen".into())],
            vec![Value::Int(1), Value::String("ink".into())],
            vec![Value::Int(2), Value::String("pad".into())],
            vec![Value::Int(9), Value::String("cap".into())],
        ],
        elapsed_ms: 6,
        rows_affected: 0,
    }
}

fn eq(l: &str, r: &str) -> Expression {
    Expression::BinaryOp {
        op: BinaryOp::Eq,
        left: Box::new(Expression::Ident(l.into())),
        right: Box::new(Expression::Ident(r.into())),
    }
}

fn cell_text(v: &Value) -> String {
    match v {
        Value::Null => "null".into(),
        Value::Int(i) => i.to_string(),
        Value::String(s) => s.clone(),
        Value::Bool(b) => b.to_string(),
        Value::Float(b) => f64::from_bits(*b).to_string(),
    }
}

fn rows_text(r: &QueryResult) -> Vec<String> {
    r.rows.iter().map(|row| row.iter().map(cell_text).collect::<Vec<_>>().join(",")).collect()
}

#[test]
fn merge_puts_left_before_right() {
    let (cols, srcs) = merge_columns(&["a".into()], &[None], &["b".into(), "c".into()], &[Some("t".into()), None]);
    assert_eq!(cols, vec!["a".to_string(), "b".into(), "c".into()]);
    assert_eq!(srcs, vec![None, Some("t".to_string()), None]);
    let row = merge_vals(&[Value::Int(1)], &[Value::Null, Value::Bool(true)]);
    assert_eq!(row.len(), 3);
    assert!(matches!(row[2], Value::Bool(true)));
}

#[test]
fn equi_columns_are_found_on_either_side() {
    let u = users();
    let o = orders();
    let c = eq("id", "user_id");
    assert_eq!(resolve_equi_columns(&c, &u.columns, &u.column_sources, &o.columns, &o.column_sources), Some((0, 0)));
    let swapped = eq("user_id", "id");
    assert_eq!(resolve_equi_columns(&swapped, &u.columns, &u.column_sources, &o.columns, &o.column_sources), Some((0, 0)));
    let q = Expression::BinaryOp {
        op: BinaryOp::Eq,
        left: Box::new(Expression::QualifiedIdent { table: "orders".into(), field: "item".into() }),
        right: Box::new(Expression::QualifiedIdent { table: "users".into(), field: "name".into() }),
    };
    assert_eq!(resolve_equi_columns(&q, &u.columns, &u.column_sources, &o.columns, &o.column_sources), Some((1, 1)));
    let not_eq = Expression::BinaryOp {
        op: BinaryOp::Lt,
        left: Box::new(Expression::Ident("id".into())),
        right: Box::new(Expression::Ident("user_id".into())),
    };
    assert_eq!(resolve_equi_columns(&not_eq, &u.columns, &u.column_sources, &o.columns, &o.column_sources), None);
    assert_eq!(extract_field_name(&Expression::Ident("x".into())).map(|s| s.as_str()), Some("x"));
    assert_eq!(extract_field_name(&Expression::Integer(1)), None);
}

#[test]
fn inner_hash_join_pairs_rows_with_equal_keys() {
    let r = hash_join(users(), orders(), &eq("id", "user_id"), JoinKind::Inner).unwrap();
    assert_eq!(r.columns, vec!["id".to_string(), "name".into(), "user_id".into(), "item".into()]);
    assert_eq!(r.rows_affected, 0);
    assert_eq!(r.elapsed_ms, 0);
    assert_eq!(rows_text(&r), vec!["2,Bob,2,pen", "1,Alice,1,ink", "2,Bob,2,pad"]);
    for row in &r.rows {
        assert_eq!(cell_text(&row[0]), cell_text(&row[2]));
    }
}

#[test]
fn full_hash_join_adds_unmatched_rows_padded_with_nulls() {
    let r = hash_join(users(), orders(), &eq("id", "user_id"), JoinKind::Full).unwrap();
    assert_eq!(
        rows_text(&r),
        vec!["2,Bob,2,pen", "1,Alice,1,ink", "2,Bob,2,pad", "3,Carol,null,null", "null,null,9,cap"]
    );
}

#[test]
fn hash_join_refuses_a_condition_that_is_not_an_equality() {
    let c = Expression::Boolean(true);
    match hash_join(users(), orders(), &c, JoinKind::Inner) {
        Err(RiverError::Unsupported(m)) => assert_eq!(m, "hash join requires equi-join condition"),
        other => panic!("unexpected {:?}", other.map(|r| r.rows.len())),
    }
}

#[test]
fn cross_join_without_limit_has_every_pair() {
    let r = nested_loop_join_at(users(), orders(), &Expression::Null, JoinKind::Cross, None, "t").unwrap();
    assert_eq!(r.rows.len(), 3 * 4);
    assert_eq!(rows_text(&r)[0], "1,Alice,2,pen");
    assert_eq!(rows_text(&r)[5], "2,Bob,1,ink");
    assert_eq!(rows_text(&r)[11], "3,Carol,9,cap");
}

#[test]
fn cross_join_stops_at_the_limit() {
    let r = nested_loop_join_at(users(), orders(), &Expression::Null, JoinKind::Cross, Some(5), "t").unwrap();
    assert_eq!(r.rows.len(), 5);
    let zero = nested_loop_join(users(), orders(), &Expression::Null, JoinKind::Cross, Some(0)).unwrap();
    assert_eq!(zero.rows.len(), 1);
}

#[test]
fn nested_left_join_matches_the_hash_join() {
    let nested = nested_loop_join_at(users(), orders(), &eq("id", "user_id"), JoinKind::Left, None, "t").unwrap();
    assert_eq!(rows_text(&nested), vec!["1,Alice,1,ink", "2,Bob,2,pen", "2,Bob,2,pad", "3,Carol,null,null"]);
    let mut a = rows_text(&nested);
    let mut b = rows_text(&hash_join(users(), orders(), &eq("id", "user_id"), JoinKind::Left).unwrap());
    a.sort();
    b.sort();
    assert_eq!(a, b);
}

#[test]
fn nested_right_join_keeps_unmatched_right_rows() {
    let c = Expression::BinaryOp {
        op: BinaryOp::Gt,
        left: Box::new(Expression::Ident("user_id".into())),
        right: Box::new(Expression::Ident("id".into())),
    };
    let r = nested_loop_join_at(users(), orders(), &c, JoinKind::Right, None, "t").unwrap();
    assert_eq!(
        rows_text(&r),
        vec!["1,Alice,2,pen", "1,Alice,2,pad", "1,Alice,9,cap", "2,Bob,9,cap", "3,Carol,9,cap", "null,null,1,ink"]
    );
}

#[test]
fn nested_join_refuses_float_arithmetic_in_its_condition() {
    let c = Expression::BinaryOp {
        op: BinaryOp::Eq,
        left: Box::new(Expression::BinaryOp {
            op: BinaryOp::Add,
            left: Box::new(Expression::Number(1.0f64.to_bits())),
            right: Box::new(Expression::Number(2.0f64.to_bits())),
        }),
        right: Box::new(Expression::Ident("id".into())),
    };
    match nested_loop_join_at(users(), orders(), &c, JoinKind::Inner, None, "t") {
        Err(RiverError::Unsupported(m)) => assert_eq!(m, "join condition needs a floating-point computation"),
        other => panic!("unexpected {:?}", other.map(|r| r.rows.len())),
    }
}

#[test]
fn join_results_picks_hash_or_nested_loop() {
    let by_hash = join_results(users(), orders(), &eq("id", "user_id"), &JoinStrategy::Auto, JoinKind::Inner, Some(1)).unwrap();
    // A hash join does not apply the limit.
    assert_eq!(by_hash.rows.len(), 3);
    let nested = join_results(users(), orders(), &eq("id", "user_id"), &JoinStrategy::NestedLoop, JoinKind::Inner, Some(1)).unwrap();
    assert_eq!(rows_text(&nested), vec!["1,Alice,1,ink"]);
}

#[test]
fn inner_join_strategies_give_the_same_rows() {
    let hashed = hash_join(users(), orders(), &eq("id", "user_id"), JoinKind::Inner).unwrap();
    let nested = nested_loop_join_at(users(), orders(), &eq("id", "user_id"), JoinKind::Inner, None, "t").unwrap();
    assert_eq!(hashed.columns, nested.columns);
    let mut a = rows_text(&hashed);
    let mut b = rows_text(&nested);
    assert_eq!(b, vec!["1,Alice,1,ink", "2,Bob,2,pen", "2,Bob,2,pad"]);
    a.sort();
    b.sort();
    assert_eq!(a, b);
}

#[test]
fn inner_join_with_a_limit_returns_at_most_that_many_rows() {
    let two = nested_loop_join_at(users(), orders(), &eq("id", "user_id"), JoinKind::Inner, Some(2), "t").unwrap();
    assert_eq!(rows_text(&two), vec!["1,Alice,1,ink", "2,Bob,2,pen"]);
    let zero = nested_loop_join_at(users(), orders(), &eq("id", "user_id"), JoinKind::Inner, Some(0), "t").unwrap();
    assert!(zero.rows.len() <= 1);
    // Left joins add unmatched rows after the scan, even past the limit.
    let none = nested_loop_join_at(users(), orders(), &Expression::Boolean(false), JoinKind::Left, Some(1), "t").unwrap();
    assert_eq!(none.rows.len(), 3);
}

#[test]
fn hash_join_pads_by_the_built_side() {
    // The left side has more rows, so the right side is built; an unmatched
    // left row is then followed by as many nulls as the left side has columns.
    let tags = QueryResult {
        columns: vec!["uid".into()],
        column_sources: vec![None],
        rows: vec![vec![Value::Int(1)]],
        elapsed_ms: 0,
        rows_affected: 0,
    };
    let r = hash_join(users(), tags, &eq("id", "uid"), JoinKind::Left).unwrap();
    assert_eq!(rows_text(&r), vec!["1,Alice,1", "2,Bob,null,null", "3,Carol,null,null"]);
}

#[test]
fn outer_join_strategies_give_the_same_rows() {
    for kind in [JoinKind::Left, JoinKind::Right, JoinKind::Full] {
        let hashed = hash_join(users(), orders(), &eq("id", "user_id"), kind).unwrap();
        let nested = nested_loop_join_at(users(), orders(), &eq("id", "user_id"), kind, None, "t").unwrap();
        assert_eq!(hashed.columns, nested.columns);
        let mut a = rows_text(&hashed);
        let mut b = rows_text(&nested);
        a.sort();
        b.sort();
        assert_eq!(a, b);
    }
}

#[test]
fn limited_join_is_a_prefix_of_the_unlimited_one() {
    for kind in [JoinKind::Inner, JoinKind::Left, JoinKind::Full, JoinKind::Cross] {
        let all = nested_loop_join_at(users(), orders(), &eq("id", "user_id"), kind, None, "t").unwrap();
        for n in 0..6u64 {
            let some = nested_loop_join_at(users(), orders(), &eq("id", "user_id"), kind, Some(n), "t").unwrap();
            let (a, b) = (rows_text(&some), rows_text(&all));
            assert!(a.len() <= b.len() && b[..a.len()] == a[..], "{:?} {}", kind, n);
            if n >= 1 && matches!(kind, JoinKind::Inner | JoinKind::Cross) {
                assert_eq!(a.len(), (n as usize).min(b.len()));
            }
        }
    }
}

fn qualified_eq(ta: &str, fa: &str, tb: &str, fb: &str) -> Expression {
    Expression::BinaryOp {
        op: BinaryOp::Eq,
        left: Box::new(Expression::QualifiedIdent { table: ta.into(), field: fa.into() }),
        right: Box::new(Expression::QualifiedIdent { table: tb.into(), field: fb.into() }),
    }
}

#[test]
fn qualified_join_strategies_give_the_same_rows() {
    let cond = qualified_eq("users", "id", "orders", "user_id");
    for kind in [JoinKind::Inner, JoinKind::Left, JoinKind::Right, JoinKind::Full] {
        let hashed = hash_join(users(), orders(), &cond, kind).unwrap();
        let nested = nested_loop_join_at(users(), orders(), &cond, kind, None, "t").unwrap();
        assert_eq!(hashed.columns, nested.columns);
        assert_eq!(hashed.column_sources, nested.column_sources);
        let mut a = rows_text(&hashed);
        let mut b = rows_text(&nested);
        a.sort();
        b.sort();
        assert_eq!(a, b, "{:?}", kind);
    }
}

#[test]
fn hash_join_rows_have_a_cell_per_column() {
    for kind in [JoinKind::Inner, JoinKind::Left, JoinKind::Right, JoinKind::Full] {
        let r = hash_join(users(), orders(), &eq("id", "user_id"), kind).unwrap();
        assert_eq!(r.columns.len(), 4);
        assert!(r.rows.iter().all(|row| row.len() == 4), "{:?}", kind);
        assert_eq!((r.elapsed_ms, r.rows_affected), (0, 0));
    }
}
