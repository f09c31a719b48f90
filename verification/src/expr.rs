//! Evaluating expressions over a row.

use vstd::prelude::*;
use std::cmp::Ordering;
use crate::ast::{BinaryOp, DataType, Expression, UnaryOp};
use crate::clock::{is_timestamp, now_text};
use crate::expr_spec::{
    EvalEnv, between_value, binary_value, bool_text, call_value, cast_val, comma_texts,
    concat_texts, eval, eval_args, eval_case, first_non_null, position_from, order_of_sign, text_sign,
    qualified_position, qualified_position_from, truthy, unary_value, value_order,
    value_text, when_matches, cell_at, arith_value, int_arith, like_value, eval_bool,
    lemma_eval_args_prefix_none, lemma_concat_prefix_none, lemma_comma_prefix_none,
};
use crate::float_bits::{
    float_is_zero_exec, float_negate_exec, float_partial_order_exec, float_to_int_exec,
    int_as_float_exec,
};
use crate::text::{
    chars_of, contains_exec, i64_to_string, is_float_text_exec, parse_i64_exec, replace_exec, string_of,
    without_wildcards_exec, lower_equals_exec,
};
use crate::value::{Val, Value, as_index, copy_value, opt_view, values_equal};

verus! {

/// Lexicographic comparison of two character sequences.
fn text_sign_exec(a: &[char], b: &[char]) -> (r: i8)
    ensures
        r as int == text_sign(a@, b@),
{
    let mut i: usize = 0;
    assert(a@.skip(0) =~= a@ && b@.skip(0) =~= b@);
    while i < a.len() && i < b.len()
        invariant
            i <= a@.len(),
            i <= b@.len(),
            text_sign(a@, b@) == text_sign(a@.skip(i as int), b@.skip(i as int)),
        decreases a.len() - i,
    {
        let x = a[i];
        let y = b[i];
        assert(a@.skip(i as int)[0] == x && b@.skip(i as int)[0] == y);
        if x < y {
            return -1;
        } else if x > y {
            return 1;
        }
        assert(a@.skip(i as int).drop_first() =~= a@.skip(i + 1));
        assert(b@.skip(i as int).drop_first() =~= b@.skip(i + 1));
        i = i + 1;
    }
    if i == a.len() && i == b.len() {
        assert(a@.skip(i as int).len() == 0 && b@.skip(i as int).len() == 0);
        0
    } else if i == a.len() {
        assert(a@.skip(i as int).len() == 0 && b@.skip(i as int).len() > 0);
        -1
    } else {
        assert(a@.skip(i as int).len() > 0 && b@.skip(i as int).len() == 0);
        1
    }
}

/// Lexicographic order of two strings.
fn text_order_exec(a: &String, b: &String) -> (r: Ordering)
    ensures
        r == order_of_sign(text_sign(a@, b@)),
{
    let xs = chars_of(a.as_str());
    let ys = chars_of(b.as_str());
    let s = text_sign_exec(xs.as_slice(), ys.as_slice());
    if s < 0 {
        Ordering::Less
    } else if s == 0 {
        Ordering::Equal
    } else {
        Ordering::Greater
    }
}

fn decided_or_equal_exec(o: Option<Ordering>) -> (r: Ordering)
    ensures
        r == crate::expr_spec::decided_or_equal(o),
{
    match o {
        Some(x) => x,
        None => Ordering::Equal,
    }
}

/// The order of two cells (see `value_order`).
pub fn cmp_values(a: &Value, b: &Value) -> (r: Ordering)
    ensures
        r == value_order(a@, b@),
{
    match (a, b) {
        (Value::Null, Value::Null) => Ordering::Equal,
        (Value::Null, _) => Ordering::Less,
        (_, Value::Null) => Ordering::Greater,
        (Value::String(x), Value::String(y)) => text_order_exec(x, y),
        (Value::Int(x), Value::Int(y)) => {
            if *x < *y {
                Ordering::Less
            } else if *x == *y {
                Ordering::Equal
            } else {
                Ordering::Greater
            }
        },
        (Value::Float(x), Value::Float(y)) => decided_or_equal_exec(float_partial_order_exec(*x, *y)),
        (Value::Bool(x), Value::Bool(y)) => {
            if *x == *y {
                Ordering::Equal
            } else if !*x {
                Ordering::Less
            } else {
                Ordering::Greater
            }
        },
        (Value::Int(x), Value::Float(y)) => decided_or_equal_exec(
            float_partial_order_exec(int_as_float_exec(*x), *y),
        ),
        (Value::Float(x), Value::Int(y)) => decided_or_equal_exec(
            float_partial_order_exec(*x, int_as_float_exec(*y)),
        ),
        _ => Ordering::Equal,
    }
}

/// Truthiness of a cell.
pub fn is_truthy(v: &Value) -> (r: bool)
    ensures
        r == truthy(v@),
{
    match v {
        Value::Bool(b) => *b,
        Value::Null => false,
        Value::Int(i) => *i != 0,
        Value::Float(f) => !float_is_zero_exec(*f),
        Value::String(s) => s.as_str().unicode_len() != 0,
    }
}

fn int_arith_exec(op: &BinaryOp, a: i64, b: i64) -> (r: Option<i64>)
    ensures
        r == int_arith(*op, a, b),
{
    match op {
        BinaryOp::Add => a.checked_add(b),
        BinaryOp::Sub => a.checked_sub(b),
        BinaryOp::Mul => a.checked_mul(b),
        BinaryOp::Div => a.checked_div(b),
        _ => a.checked_rem(b),
    }
}

fn arith_op(op: &BinaryOp, left: &Value, right: &Value) -> (r: Option<Value>)
    ensures
        opt_view(r) == arith_value(*op, left@, right@),
{
    match (left, right) {
        (Value::Int(a), Value::Int(b)) => match int_arith_exec(op, *a, *b) {
            Some(c) => Some(Value::Int(c)),
            None => Some(Value::Null),
        },
        (Value::Float(_), Value::Float(_)) => None,
        (Value::Int(_), Value::Float(_)) => None,
        (Value::Float(_), Value::Int(_)) => None,
        _ => Some(Value::Null),
    }
}

fn like_exec(left: &Value, right: &Value) -> (r: Value)
    ensures
        r@ == like_value(left@, right@),
{
    match (left, right) {
        (Value::String(s), Value::String(pat)) => {
            let sc = chars_of(s.as_str());
            let pc = chars_of(pat.as_str());
            let pattern = without_wildcards_exec(pc.as_slice());
            Value::Bool(contains_exec(sc.as_slice(), pattern.as_slice()))
        },
        _ => Value::Bool(false),
    }
}

/// A binary operator applied to two cells; `None` for floating-point
/// arithmetic, which is not computed here.
pub fn eval_binary(op: &BinaryOp, left: &Value, right: &Value) -> (r: Option<Value>)
    ensures
        opt_view(r) == binary_value(*op, left@, right@),
{
    match op {
        BinaryOp::And => Some(Value::Bool(is_truthy(left) && is_truthy(right))),
        BinaryOp::Or => Some(Value::Bool(is_truthy(left) || is_truthy(right))),
        BinaryOp::Eq => Some(Value::Bool(values_equal(left, right))),
        BinaryOp::Neq => Some(Value::Bool(!values_equal(left, right))),
        BinaryOp::Gt => Some(
            Value::Bool(
                match cmp_values(left, right) {
                    Ordering::Greater => true,
                    _ => false,
                },
            ),
        ),
        BinaryOp::Gte => Some(
            Value::Bool(
                match cmp_values(left, right) {
                    Ordering::Less => false,
                    _ => true,
                },
            ),
        ),
        BinaryOp::Lt => Some(
            Value::Bool(
                match cmp_values(left, right) {
                    Ordering::Less => true,
                    _ => false,
                },
            ),
        ),
        BinaryOp::Lte => Some(
            Value::Bool(
                match cmp_values(left, right) {
                    Ordering::Greater => false,
                    _ => true,
                },
            ),
        ),
        BinaryOp::Like | BinaryOp::ILike => Some(like_exec(left, right)),
        _ => arith_op(op, left, right),
    }
}

/// A unary operator applied to a cell; `None` for the negation of
/// `i64::MIN`, which overflows.
pub fn eval_unary(op: &UnaryOp, val: &Value) -> (r: Option<Value>)
    ensures
        opt_view(r) == unary_value(*op, val@),
{
    match op {
        UnaryOp::Not => Some(Value::Bool(!is_truthy(val))),
        UnaryOp::Neg => match val {
            Value::Int(i) => if *i == i64::MIN {
                None
            } else {
                Some(Value::Int(-*i))
            },
            Value::Float(f) => Some(Value::Float(float_negate_exec(*f))),
            _ => Some(Value::Null),
        },
    }
}

fn bool_to_string(b: bool) -> (r: String)
    ensures
        r@ == bool_text(b),
{
    if b {
        String::from_str("true")
    } else {
        String::from_str("false")
    }
}

/// The text of a cell (`to_string`); `None` for a float, whose decimal text
/// is not computed here.
pub fn value_to_string(v: &Value) -> (r: Option<String>)
    ensures
        match r {
            Some(s) => value_text(v@) == Some(s@),
            None => value_text(v@) is None,
        },
{
    match v {
        Value::Null => Some(String::new()),
        Value::String(s) => Some(s.clone()),
        Value::Int(i) => Some(i64_to_string(*i)),
        Value::Float(_) => None,
        Value::Bool(b) => Some(bool_to_string(*b)),
    }
}

/// `CAST(v AS target)`; `None` where a float would be parsed from or
/// written as text.
pub fn cast_value(v: &Value, target: &DataType) -> (r: Option<Value>)
    ensures
        opt_view(r) == cast_val(v@, *target),
{
    match target {
        DataType::Integer => match v {
            Value::Int(i) => Some(Value::Int(*i)),
            Value::Float(f) => Some(Value::Int(float_to_int_exec(*f))),
            Value::String(s) => match parse_i64_exec(s.as_str()) {
                Some(i) => Some(Value::Int(i)),
                None => Some(Value::Null),
            },
            Value::Bool(b) => Some(Value::Int(if *b { 1 } else { 0 })),
            Value::Null => Some(Value::Null),
        },
        DataType::Float => match v {
            Value::Float(f) => Some(Value::Float(*f)),
            Value::Int(i) => Some(Value::Float(int_as_float_exec(*i))),
            Value::String(s) => if is_float_text_exec(s.as_str()) {
                None
            } else {
                Some(Value::Null)
            },
            _ => Some(Value::Null),
        },
        DataType::String | DataType::DateTime | DataType::Json => match v {
            Value::Null => Some(Value::Null),
            _ => match value_to_string(v) {
                Some(t) => Some(Value::String(t)),
                None => None,
            },
        },
        DataType::Boolean => match v {
            Value::Bool(b) => Some(Value::Bool(*b)),
            _ => Some(Value::Bool(is_truthy(v))),
        },
    }
}

/// The environment of an evaluation, as values.
pub open spec fn env_of(
    columns: &[String],
    sources: &[Option<String>],
    row: &[Value],
    now: Seq<char>,
) -> EvalEnv {
    EvalEnv {
        columns: columns.deep_view(),
        sources: sources.deep_view(),
        row: row.deep_view(),
        now: now,
    }
}

/// The first column named `name`.
pub fn find_column(columns: &[String], name: &String) -> (r: Option<usize>)
    ensures
        as_index(r) == position_from(columns.deep_view(), name@, 0),
{
    let mut i: usize = 0;
    while i < columns.len()
        invariant
            i <= columns@.len(),
            position_from(columns.deep_view(), name@, 0) == position_from(
                columns.deep_view(),
                name@,
                i as int,
            ),
        decreases columns.len() - i,
    {
        assert(columns.deep_view()[i as int] == columns@[i as int]@);
        if columns[i].eq(name) {
            return Some(i);
        }
        i = i + 1;
    }
    None
}

/// Whether column `i` comes from `table`.
fn source_is(sources: &[Option<String>], i: usize, table: &String) -> (r: bool)
    ensures
        r == (i < sources.deep_view().len() && sources.deep_view()[i as int] == Some(table@)),
{
    if i < sources.len() {
        assert(sources.deep_view()[i as int] == sources@[i as int].deep_view());
        match &sources[i] {
            Some(s) => s.eq(table),
            None => false,
        }
    } else {
        false
    }
}

/// The first column named `field` whose source is `table`.
pub fn find_qualified_column(
    columns: &[String],
    sources: &[Option<String>],
    table: &String,
    field: &String,
) -> (r: Option<usize>)
    ensures
        as_index(r) == qualified_position_from(
            columns.deep_view(),
            sources.deep_view(),
            table@,
            field@,
            0,
        ),
{
    let mut i: usize = 0;
    while i < columns.len()
        invariant
            i <= columns@.len(),
            qualified_position_from(columns.deep_view(), sources.deep_view(), table@, field@, 0)
                == qualified_position_from(
                columns.deep_view(),
                sources.deep_view(),
                table@,
                field@,
                i as int,
            ),
        decreases columns.len() - i,
    {
        assert(columns.deep_view()[i as int] == columns@[i as int]@);
        if columns[i].eq(field) && source_is(sources, i, table) {
            return Some(i);
        }
        i = i + 1;
    }
    None
}

/// The position a qualified name resolves to.
pub fn resolve_qualified(
    columns: &[String],
    sources: &[Option<String>],
    table: &String,
    field: &String,
) -> (r: Option<usize>)
    ensures
        as_index(r) == qualified_position(columns.deep_view(), sources.deep_view(), table@, field@),
{
    match find_qualified_column(columns, sources, table, field) {
        Some(i) => Some(i),
        None => find_column(columns, field),
    }
}

/// The cell at a position, `Null` when there is none.
fn cell_or_null(row: &[Value], pos: Option<usize>) -> (r: Value)
    ensures
        r@ == cell_at(row.deep_view(), as_index(pos)),
{
    match pos {
        Some(i) => if i < row.len() {
            copy_value(&row[i])
        } else {
            Value::Null
        },
        None => Value::Null,
    }
}

/// The texts of all values concatenated.
fn concat_exec(vals: &[Value]) -> (r: Option<String>)
    ensures
        match r {
            Some(s) => concat_texts(vals.deep_view()) == Some(s@),
            None => concat_texts(vals.deep_view()) is None,
        },
{
    let ghost dv = vals.deep_view();
    let mut out = String::new();
    assert(dv.take(0) =~= Seq::<Val>::empty());
    for k in 0..vals.len()
        invariant
            dv == vals.deep_view(),
            concat_texts(dv.take(k as int)) == Some(out@),
    {
        assert(dv.take(k + 1).drop_last() =~= dv.take(k as int));
        assert(dv.take(k + 1).last() == vals@[k as int]@);
        match value_to_string(&vals[k]) {
            Some(t) => {
                out.append(t.as_str());
            },
            None => {
                proof {
                    lemma_concat_prefix_none(dv, k + 1);
                }
                return None;
            },
        }
    }
    assert(dv.take(vals.len() as int) =~= dv);
    Some(out)
}

/// The texts of all values separated by `", "`.
fn comma_exec(vals: &[Value]) -> (r: Option<String>)
    ensures
        match r {
            Some(s) => comma_texts(vals.deep_view()) == Some(s@),
            None => comma_texts(vals.deep_view()) is None,
        },
{
    let ghost dv = vals.deep_view();
    if vals.len() == 0 {
        return Some(String::new());
    }
    let mut out = match value_to_string(&vals[0]) {
        Some(t) => t,
        None => {
            assert(dv.take(1).len() == 1 && dv.take(1)[0] == dv[0]);
            proof {
                lemma_comma_prefix_none(dv, 1);
            }
            return None;
        },
    };
    assert(dv.take(1).len() == 1 && dv.take(1)[0] == dv[0]);
    for k in 1..vals.len()
        invariant
            dv == vals.deep_view(),
            1 <= k <= dv.len(),
            comma_texts(dv.take(k as int)) == Some(out@),
    {
        assert(dv.take(k + 1).drop_last() =~= dv.take(k as int));
        assert(dv.take(k + 1).last() == vals@[k as int]@);
        match value_to_string(&vals[k]) {
            Some(t) => {
                out.append(", ");
                out.append(t.as_str());
            },
            None => {
                proof {
                    lemma_comma_prefix_none(dv, k + 1);
                }
                return None;
            },
        }
    }
    assert(dv.take(vals.len() as int) =~= dv);
    Some(out)
}

/// The first value that is not `Null`.
fn first_non_null_exec(vals: &[Value]) -> (r: Value)
    ensures
        r@ == first_non_null(vals.deep_view()),
{
    let ghost dv = vals.deep_view();
    assert(dv.skip(0) =~= dv);
    for k in 0..vals.len()
        invariant
            dv == vals.deep_view(),
            first_non_null(dv) == first_non_null(dv.skip(k as int)),
    {
        assert(dv.skip(k as int)[0] == vals@[k as int]@);
        assert(dv.skip(k as int).drop_first() =~= dv.skip(k + 1));
        match &vals[k] {
            Value::Null => {},
            _ => {
                return copy_value(&vals[k]);
            },
        }
    }
    assert(dv.skip(vals.len() as int).len() == 0);
    Value::Null
}

/// A function call on evaluated arguments (see `call_value`).
pub fn call_function(name: &str, vals: &[Value], now: &str) -> (r: Option<Value>)
    ensures
        opt_view(r) == call_value(name@, vals.deep_view(), now@),
{
    let nm = chars_of(name);
    let concat_name = chars_of("concat");
    let now_name = chars_of("now");
    let timestamp_name = chars_of("current_timestamp");
    let coalesce_name = chars_of("coalesce");
    let replace_name = chars_of("replace");
    if lower_equals_exec(nm.as_slice(), concat_name.as_slice()) {
        match concat_exec(vals) {
            Some(t) => Some(Value::String(t)),
            None => None,
        }
    } else if lower_equals_exec(nm.as_slice(), now_name.as_slice()) || lower_equals_exec(
        nm.as_slice(),
        timestamp_name.as_slice(),
    ) {
        Some(Value::String(String::from_str(now)))
    } else if lower_equals_exec(nm.as_slice(), coalesce_name.as_slice()) {
        Some(first_non_null_exec(vals))
    } else if lower_equals_exec(nm.as_slice(), replace_name.as_slice()) {
        if vals.len() >= 3 {
            let ghost dv = vals.deep_view();
            assert(dv[0] == vals@[0]@ && dv[1] == vals@[1]@ && dv[2] == vals@[2]@);
            match (value_to_string(&vals[0]), value_to_string(&vals[1]), value_to_string(&vals[2])) {
                (Some(s), Some(from), Some(to)) => {
                    let sc = chars_of(s.as_str());
                    let fc = chars_of(from.as_str());
                    let tc = chars_of(to.as_str());
                    let out = replace_exec(sc.as_slice(), fc.as_slice(), tc.as_slice());
                    Some(Value::String(string_of(out.as_slice())))
                },
                _ => None,
            }
        } else {
            Some(Value::Null)
        }
    } else {
        match comma_exec(vals) {
            Some(t) => Some(Value::String(t)),
            None => None,
        }
    }
}

/// `BETWEEN` on evaluated bounds.
fn between_exec(v: &Value, lo: &Value, hi: &Value) -> (r: Value)
    ensures
        r@ == between_value(v@, lo@, hi@),
{
    let above_low = match cmp_values(v, lo) {
        Ordering::Less => false,
        _ => true,
    };
    let below_high = match cmp_values(v, hi) {
        Ordering::Greater => false,
        _ => true,
    };
    Value::Bool(above_low && below_high)
}

/// Evaluates an expression over a row, with `now()` reading `now`. `None`
/// where evaluation needs floating-point arithmetic, a float's decimal text
/// or the value of a float parsed from text, or negates `i64::MIN`.
#[verifier::rlimit(80)]
#[verifier::spinoff_prover]
pub fn eval_expr_at(
    expr: &Expression,
    columns: &[String],
    sources: &[Option<String>],
    row: &[Value],
    now: &str,
) -> (r: Option<Value>)
    ensures
        opt_view(r) == eval(*expr, env_of(columns, sources, row, now@)),
    decreases expr,
{
    let ghost env = env_of(columns, sources, row, now@);
    match expr {
        Expression::String(s) => Some(Value::String(s.clone())),
        Expression::Number(n) => Some(Value::Float(*n)),
        Expression::Integer(i) => Some(Value::Int(*i)),
        Expression::Boolean(b) => Some(Value::Bool(*b)),
        Expression::Null => Some(Value::Null),
        Expression::Ident(name) => Some(cell_or_null(row, find_column(columns, name))),
        Expression::QualifiedIdent { table, field } => Some(
            cell_or_null(row, resolve_qualified(columns, sources, table, field)),
        ),
        Expression::BinaryOp { op, left, right } => {
            let l = eval_expr_at(left, columns, sources, row, now);
            let r = eval_expr_at(right, columns, sources, row, now);
            match (l, r) {
                (Some(lv), Some(rv)) => eval_binary(op, &lv, &rv),
                _ => None,
            }
        },
        Expression::UnaryOp { op, expr: inner } => {
            match eval_expr_at(inner, columns, sources, row, now) {
                Some(v) => eval_unary(op, &v),
                None => None,
            }
        },
        Expression::Between { expr: inner, low, high } => {
            let v = eval_expr_at(inner, columns, sources, row, now);
            let lo = eval_expr_at(low, columns, sources, row, now);
            let hi = eval_expr_at(high, columns, sources, row, now);
            match (v, lo, hi) {
                (Some(v), Some(lo), Some(hi)) => Some(between_exec(&v, &lo, &hi)),
                _ => None,
            }
        },
        Expression::Case { expr: case_val, whens, else_expr } => {
            let case_value: Option<Option<Value>> = if whens.len() == 0 {
                None
            } else {
                match case_val {
                    Some(cv) => Some(eval_expr_at(cv, columns, sources, row, now)),
                    None => None,
                }
            };
            let ghost cvs = match case_val {
                Some(cv) => Some(eval(**cv, env)),
                None => None,
            };
            let ghost else_value = match else_expr {
                Some(x) => eval(**x, env),
                None => Some(Val::Null),
            };
            assert(eval(*expr, env) == eval_case(cvs, whens@, else_value, env));
            if whens.len() == 0 {
                assert(whens@.len() == 0);
                return match else_expr {
                    Some(x) => eval_expr_at(x, columns, sources, row, now),
                    None => Some(Value::Null),
                };
            }
            assert(case_value_view(case_value) == cvs);
            let step = first_matching_when(case_value, whens, columns, sources, row, now);
            assert(eval_case(cvs, whens@, else_value, env) == match step {
                CaseStep::Stuck => None,
                CaseStep::Matched(x) => opt_view(x),
                CaseStep::Unmatched => else_value,
            });
            match step {
                CaseStep::Stuck => None,
                CaseStep::Matched(r) => r,
                CaseStep::Unmatched => {
                    match else_expr {
                        Some(x) => eval_expr_at(x, columns, sources, row, now),
                        None => Some(Value::Null),
                    }
                },
            }
        },
        Expression::Cast { expr: inner, target } => {
            match eval_expr_at(inner, columns, sources, row, now) {
                Some(v) => cast_value(&v, target),
                None => None,
            }
        },
        Expression::Array(_) => Some(Value::String(String::from_str("[...]"))),
        Expression::Object(_) => Some(Value::String(String::from_str("{...}"))),
        Expression::FnCall { name, args } => {
            match eval_args_exec(args, columns, sources, row, now) {
                Some(vals) => call_function(name.as_str(), vals.as_slice(), now),
                None => None,
            }
        },
    }
}

/// The case value of a `CASE` as evaluated.
pub open spec fn case_value_view(c: Option<Option<Value>>) -> Option<Option<Val>> {
    match c {
        Some(x) => Some(opt_view(x)),
        None => None,
    }
}

/// How a scan of the `WHEN`s ended.
pub enum CaseStep {
    /// Evaluation could not be completed.
    Stuck,
    /// A `WHEN` matched, with the value of its `THEN`.
    Matched(Option<Value>),
    /// No `WHEN` matched.
    Unmatched,
}

/// Scans the `WHEN`s of a `CASE` for the first that matches.
fn first_matching_when(
    case_value: Option<Option<Value>>,
    whens: &Vec<(Expression, Expression)>,
    columns: &[String],
    sources: &[Option<String>],
    row: &[Value],
    now: &str,
) -> (r: CaseStep)
    ensures
        forall|ev: Option<Val>|
            #![trigger eval_case(case_value_view(case_value), whens@, ev, env_of(columns, sources, row, now@))]
            eval_case(case_value_view(case_value), whens@, ev, env_of(columns, sources, row, now@))
                == match r {
                CaseStep::Stuck => None,
                CaseStep::Matched(x) => opt_view(x),
                CaseStep::Unmatched => ev,
            },
    decreases whens,
{
    let ghost env = env_of(columns, sources, row, now@);
    let ghost cvs = case_value_view(case_value);
    let mut k: usize = 0;
    assert(whens@.skip(0) =~= whens@);
    while k < whens.len()
        invariant
            k <= whens@.len(),
            env == env_of(columns, sources, row, now@),
            cvs == case_value_view(case_value),
            forall|ev: Option<Val>|
                #![trigger eval_case(cvs, whens@, ev, env)]
                eval_case(cvs, whens@, ev, env) == eval_case(cvs, whens@.skip(k as int), ev, env),
        decreases whens.len() - k,
    {
        let pair = &whens[k];
        assert(whens@.skip(k as int)[0] == whens@[k as int]);
        assert(whens@.skip(k as int).drop_first() =~= whens@.skip(k + 1));
        let wv = eval_expr_at(&pair.0, columns, sources, row, now);
        let matched: Option<bool> = match &case_value {
            Some(Some(cv)) => match &wv {
                Some(b) => Some(values_equal(cv, b)),
                None => None,
            },
            Some(None) => None,
            None => match &wv {
                Some(Value::Bool(b)) => Some(*b),
                Some(_) => Some(false),
                None => None,
            },
        };
        assert(matched == when_matches(cvs, opt_view(wv)));
        match matched {
            None => {
                return CaseStep::Stuck;
            },
            Some(true) => {
                return CaseStep::Matched(eval_expr_at(&pair.1, columns, sources, row, now));
            },
            Some(false) => {},
        }
        k = k + 1;
    }
    assert(whens@.skip(k as int) =~= Seq::<(Expression, Expression)>::empty());
    CaseStep::Unmatched
}

/// The arguments of a call evaluated in order.
fn eval_args_exec(
    args: &Vec<Expression>,
    columns: &[String],
    sources: &[Option<String>],
    row: &[Value],
    now: &str,
) -> (r: Option<Vec<Value>>)
    ensures
        match r {
            Some(vals) => eval_args(args@, env_of(columns, sources, row, now@)) == Some(vals.deep_view()),
            None => eval_args(args@, env_of(columns, sources, row, now@)) is None,
        },
    decreases args,
{
    let ghost env = env_of(columns, sources, row, now@);
    let mut vals: Vec<Value> = Vec::new();
    assert(args@.take(0) =~= Seq::<Expression>::empty());
    assert(vals.deep_view() =~= Seq::<Val>::empty());
    for k in 0..args.len()
        invariant
            env == env_of(columns, sources, row, now@),
            eval_args(args@.take(k as int), env) == Some(vals.deep_view()),
    {
        assert(args@.take(k + 1).drop_last() =~= args@.take(k as int));
        assert(args@.take(k + 1).last() == args@[k as int]);
        match eval_expr_at(&args[k], columns, sources, row, now) {
            Some(v) => {
                let ghost before = vals.deep_view();
                let ghost vv = v@;
                vals.push(v);
                assert(vals.deep_view() =~= before.push(vv));
            },
            None => {
                proof {
                    lemma_eval_args_prefix_none(args@, env, k + 1);
                }
                return None;
            },
        }
    }
    assert(args@.take(args.len() as int) =~= args@);
    Some(vals)
}

/// Evaluates an expression over a row, reading the clock for `now()`.
pub fn eval_expr(
    expr: &Expression,
    columns: &[String],
    sources: &[Option<String>],
    row: &[Value],
) -> (r: Option<Value>)
    ensures
        exists|now: Seq<char>| is_timestamp(now) && opt_view(r) == #[trigger] eval(*expr, env_of(columns, sources, row, now)),
{
    let now = now_text();
    let r = eval_expr_at(expr, columns, sources, row, now.as_str());
    assert(opt_view(r) == eval(*expr, env_of(columns, sources, row, now@)));
    r
}

/// Whether an expression evaluates to `true` over a row.
pub fn eval_expr_bool_at(
    expr: &Expression,
    columns: &[String],
    sources: &[Option<String>],
    row: &[Value],
    now: &str,
) -> (r: Option<bool>)
    ensures
        r == eval_bool(*expr, env_of(columns, sources, row, now@)),
{
    match eval_expr_at(expr, columns, sources, row, now) {
        Some(Value::Bool(b)) => Some(b),
        Some(_) => Some(false),
        None => None,
    }
}

/// Whether an expression evaluates to `true` over a row, with `now()`
/// reading the clock.
pub fn eval_expr_bool(
    expr: &Expression,
    columns: &[String],
    sources: &[Option<String>],
    row: &[Value],
) -> (r: Option<bool>)
    ensures
        exists|now: Seq<char>| is_timestamp(now) && r == #[trigger] eval_bool(*expr, env_of(columns, sources, row, now)),
{
    let now = now_text();
    let r = eval_expr_bool_at(expr, columns, sources, row, now.as_str());
    assert(r == eval_bool(*expr, env_of(columns, sources, row, now@)));
    r
}

} // verus!
