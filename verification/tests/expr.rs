use std::cmp::Ordering;

use river::ast::{BinaryOp, DataType, Expression, UnaryOp};
use river::expr::{cast_value, cmp_values, eval_binary, eval_expr, eval_expr_at, eval_unary, is_truthy};
use river::value::Value;

fn ident(n: &str) -> Box<Expression> {
    Box::new(Expression::Ident(n.into()))
}

fn int_lit(i: i64) -> Box<Expression> {
    Box::new(Expression::Integer(i))
}

#[test]
fn arithmetic_on_integers_and_overflow_gives_null() {
    let cols = vec!["a".to_string(), "b".to_string()];
    let srcs = vec![None, None];
    let row = vec![Value::Int(7), Value::Int(5)];
    let add = Expression::BinaryOp { op: BinaryOp::Add, left: ident("a"), right: ident("b") };
    assert!(matches!(eval_expr_at(&add, &cols, &srcs, &row, "t"), Some(Value::Int(12))));
    let div = Expression::BinaryOp { op: BinaryOp::Div, left: ident("a"), right: int_lit(0) };
    assert!(matches!(eval_expr_at(&div, &cols, &srcs, &row, "t"), Some(Value::Null)));
    let over = Expression::BinaryOp { op: BinaryOp::Mul, left: int_lit(i64::MAX), right: int_lit(2) };
    assert!(matches!(eval_expr_at(&over, &cols, &srcs, &row, "t"), Some(Value::Null)));
    let modulo = Expression::BinaryOp { op: BinaryOp::Mod, left: int_lit(-7), right: int_lit(3) };
    assert!(matches!(eval_expr_at(&modulo, &cols, &srcs, &row, "t"), Some(Value::Int(-1))));
}

#[test]
fn unknown_column_is_null_and_float_arithmetic_is_not_computed() {
    let cols = vec!["a".to_string()];
    let srcs = vec![None];
    let row = vec![Value::Float(1.5f64.to_bits())];
    assert!(matches!(eval_expr_at(&Expression::Ident("zz".into()), &cols, &srcs, &row, "t"), Some(Value::Null)));
    let add = Expression::BinaryOp { op: BinaryOp::Add, left: ident("a"), right: ident("a") };
    assert!(eval_expr_at(&add, &cols, &srcs, &row, "t").is_none());
}

#[test]
fn qualified_identifier_prefers_its_table() {
    let cols = vec!["id".to_string(), "id".to_string()];
    let srcs = vec![Some("users".to_string()), Some("orders".to_string())];
    let row = vec![Value::Int(1), Value::Int(2)];
    let e = Expression::QualifiedIdent { table: "orders".into(), field: "id".into() };
    assert!(matches!(eval_expr_at(&e, &cols, &srcs, &row, "t"), Some(Value::Int(2))));
    let bare = Expression::Ident("id".into());
    assert!(matches!(eval_expr_at(&bare, &cols, &srcs, &row, "t"), Some(Value::Int(1))));
}

#[test]
fn order_of_cells_and_its_reverse() {
    let pairs = vec![
        (Value::Null, Value::Int(0)),
        (Value::String("apple".into()), Value::String("apples".into())),
        (Value::Int(3), Value::Float(2.5f64.to_bits())),
        (Value::Bool(false), Value::Bool(true)),
        (Value::Float(f64::NAN.to_bits()), Value::Float(1.0f64.to_bits())),
        (Value::Int(1), Value::String("1".into())),
    ];
    let expected = vec![
        Ordering::Less,
        Ordering::Less,
        Ordering::Greater,
        Ordering::Less,
        Ordering::Equal,
        Ordering::Equal,
    ];
    for ((a, b), e) in pairs.iter().zip(expected) {
        assert_eq!(cmp_values(a, b), e);
        assert_eq!(cmp_values(b, a), e.reverse());
    }
}

#[test]
fn comparison_operators_follow_the_order() {
    let a = Value::Int(2);
    let b = Value::Int(3);
    assert!(matches!(eval_binary(&BinaryOp::Gt, &a, &b), Some(Value::Bool(false))));
    assert!(matches!(eval_binary(&BinaryOp::Lt, &b, &a), Some(Value::Bool(false))));
    assert!(matches!(eval_binary(&BinaryOp::Lte, &a, &b), Some(Value::Bool(true))));
    assert!(matches!(eval_binary(&BinaryOp::Eq, &Value::Null, &Value::Null), Some(Value::Bool(true))));
    let nan = Value::Float(f64::NAN.to_bits());
    assert!(matches!(eval_binary(&BinaryOp::Eq, &nan, &nan), Some(Value::Bool(false))));
    let z = Value::Float(0.0f64.to_bits());
    let nz = Value::Float((-0.0f64).to_bits());
    assert!(matches!(eval_binary(&BinaryOp::Eq, &z, &nz), Some(Value::Bool(true))));
}

#[test]
fn like_ignores_wildcards() {
    let s = Value::String("hello world".into());
    let p = Value::String("%lo w%".into());
    assert!(matches!(eval_binary(&BinaryOp::Like, &s, &p), Some(Value::Bool(true))));
    let q = Value::String("%xyz%".into());
    assert!(matches!(eval_binary(&BinaryOp::Like, &s, &q), Some(Value::Bool(false))));
}

#[test]
fn truthiness_and_double_not() {
    let vals = vec![
        (Value::Null, false),
        (Value::Int(0), false),
        (Value::Int(-3), true),
        (Value::String(String::new()), false),
        (Value::String("x".into()), true),
        (Value::Float((-0.0f64).to_bits()), false),
        (Value::Float(0.5f64.to_bits()), true),
        (Value::Bool(true), true),
    ];
    for (v, t) in vals {
        assert_eq!(is_truthy(&v), t);
        let once = eval_unary(&UnaryOp::Not, &v).unwrap();
        let twice = eval_unary(&UnaryOp::Not, &once).unwrap();
        assert!(matches!(twice, Value::Bool(b) if b == t));
        assert!(matches!(cast_value(&v, &DataType::Boolean), Some(Value::Bool(b)) if b == t));
    }
}

#[test]
fn negation_twice_gives_the_value_back() {
    let n = eval_unary(&UnaryOp::Neg, &Value::Int(5)).unwrap();
    assert!(matches!(n, Value::Int(-5)));
    assert!(matches!(eval_unary(&UnaryOp::Neg, &n), Some(Value::Int(5))));
    assert!(eval_unary(&UnaryOp::Neg, &Value::Int(i64::MIN)).is_none());
    let f = eval_unary(&UnaryOp::Neg, &Value::Float(2.5f64.to_bits())).unwrap();
    assert!(matches!(f, Value::Float(b) if f64::from_bits(b) == -2.5));
    assert!(matches!(eval_unary(&UnaryOp::Neg, &f), Some(Value::Float(b)) if b == 2.5f64.to_bits()));
}

#[test]
fn cast_integer_to_text_and_back() {
    for i in [0i64, 7, -42, i64::MAX, i64::MIN] {
        let t = cast_value(&Value::Int(i), &DataType::String).unwrap();
        assert!(matches!(&t, Value::String(s) if *s == i.to_string()));
        assert!(matches!(cast_value(&t, &DataType::Integer), Some(Value::Int(j)) if j == i));
    }
    assert!(matches!(cast_value(&Value::String("+12".into()), &DataType::Integer), Some(Value::Int(12))));
    assert!(matches!(cast_value(&Value::String("12a".into()), &DataType::Integer), Some(Value::Null)));
    assert!(matches!(
        cast_value(&Value::String("9223372036854775808".into()), &DataType::Integer),
        Some(Value::Null)
    ));
    assert!(matches!(
        cast_value(&Value::Float(2.9f64.to_bits()), &DataType::Integer),
        Some(Value::Int(2))
    ));
    assert!(matches!(
        cast_value(&Value::Int(3), &DataType::Float),
        Some(Value::Float(b)) if b == 3.0f64.to_bits()
    ));
    assert!(matches!(
        cast_value(&Value::Int(9007199254740993), &DataType::Float),
        Some(Value::Float(b)) if b == (9007199254740993i64 as f64).to_bits()
    ));
}

#[test]
fn between_is_both_bounds() {
    let cols: Vec<String> = vec![];
    let srcs: Vec<Option<String>> = vec![];
    let row: Vec<Value> = vec![];
    for v in [1i64, 2, 5, 6] {
        let e = Expression::Between { expr: int_lit(v), low: int_lit(2), high: int_lit(5) };
        let both = Expression::BinaryOp {
            op: BinaryOp::And,
            left: Box::new(Expression::BinaryOp { op: BinaryOp::Gte, left: int_lit(v), right: int_lit(2) }),
            right: Box::new(Expression::BinaryOp { op: BinaryOp::Lte, left: int_lit(v), right: int_lit(5) }),
        };
        let a = eval_expr_at(&e, &cols, &srcs, &row, "t");
        let b = eval_expr_at(&both, &cols, &srcs, &row, "t");
        let expected = (2..=5).contains(&v);
        assert!(matches!(a, Some(Value::Bool(x)) if x == expected));
        assert!(matches!(b, Some(Value::Bool(x)) if x == expected));
    }
}

#[test]
fn functions_concat_coalesce_replace_and_now() {
    let cols: Vec<String> = vec![];
    let srcs: Vec<Option<String>> = vec![];
    let row: Vec<Value> = vec![];
    let call = |name: &str, args: Vec<Expression>| Expression::FnCall { name: name.into(), args };
    let concat = call("CONCAT", vec![Expression::String("a".into()), Expression::Integer(1), Expression::Null]);
    assert!(matches!(eval_expr_at(&concat, &cols, &srcs, &row, "t"), Some(Value::String(s)) if s == "a1"));
    let co = call("coalesce", vec![Expression::Null, Expression::Integer(4), Expression::Integer(5)]);
    assert!(matches!(eval_expr_at(&co, &cols, &srcs, &row, "t"), Some(Value::Int(4))));
    let rep = call(
        "replace",
        vec![Expression::String("banana".into()), Expression::String("an".into()), Expression::String("o".into())],
    );
    assert!(matches!(eval_expr_at(&rep, &cols, &srcs, &row, "t"), Some(Value::String(s)) if s == "booa"));
    let now = call("now", vec![]);
    assert!(matches!(eval_expr_at(&now, &cols, &srcs, &row, "2024-01-02 03:04:05"), Some(Value::String(s)) if s == "2024-01-02 03:04:05"));
    // With the clock: the text has the shape of a timestamp.
    match eval_expr(&now, &cols, &srcs, &row) {
        Some(Value::String(s)) => {
            assert_eq!(s.len(), 19);
            let shape: String = s.chars().map(|c| if c.is_ascii_digit() { 'd' } else { c }).collect();
            assert_eq!(shape, "dddd-dd-dd dd:dd:dd");
        }
        other => panic!("unexpected {:?}", other),
    }
}

#[test]
fn case_picks_the_first_matching_branch() {
    let cols = vec!["x".to_string()];
    let srcs = vec![None];
    let row = vec![Value::Int(2)];
    let e = Expression::Case {
        expr: Some(ident("x")),
        whens: vec![
            (Expression::Integer(1), Expression::String("one".into())),
            (Expression::Integer(2), Expression::String("two".into())),
        ],
        else_expr: Some(Box::new(Expression::String("many".into()))),
    };
    assert!(matches!(eval_expr_at(&e, &cols, &srcs, &row, "t"), Some(Value::String(s)) if s == "two"));
    let row3 = vec![Value::Int(3)];
    assert!(matches!(eval_expr_at(&e, &cols, &srcs, &row3, "t"), Some(Value::String(s)) if s == "many"));
}

#[test]
fn cast_text_to_float_is_null_unless_a_float_literal() {
    for bad in ["abc", "1e", ".", "1.2.3", " 1", "", "+", "e5", "1e+", "infx"] {
        assert!(matches!(cast_value(&Value::String(bad.into()), &DataType::Float), Some(Value::Null)), "{}", bad);
        assert!(bad.parse::<f64>().is_err());
    }
    // A literal's value is a float computation, left out of the library.
    for good in ["1.5", "-2", "+.5", "3.", "1E10", "1e-3", "inf", "-Infinity", "NaN"] {
        assert!(cast_value(&Value::String(good.into()), &DataType::Float).is_none(), "{}", good);
        assert!(good.parse::<f64>().is_ok());
    }
}

#[test]
fn casting_twice_is_casting_once() {
    let vals = vec![
        Value::Null,
        Value::Int(-4),
        Value::Bool(true),
        Value::String("12".into()),
        Value::String("x".into()),
        Value::Float(2.5f64.to_bits()),
    ];
    for t in [DataType::Integer, DataType::Float, DataType::String, DataType::Boolean, DataType::DateTime, DataType::Json] {
        for v in &vals {
            if let Some(w) = cast_value(v, &t) {
                let again = cast_value(&w, &t).unwrap();
                assert_eq!(format!("{:?}", again), format!("{:?}", w));
            }
        }
    }
}
