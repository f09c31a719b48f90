//! What evaluating an expression over a row means.
//!
//! The evaluation is partial in one respect: floating-point arithmetic, the
//! decimal text of a float and the value of a float parsed from text are
//! not computed here, and neither is the negation of `i64::MIN`, on which the
//! integer negation overflows. Where evaluation reaches one of these the
//! result is `None`.

use vstd::prelude::*;
use std::cmp::Ordering;
use crate::ast::{BinaryOp, DataType, Expression, UnaryOp};
use crate::float_bits::{float_partial_order, float_negated, float_is_zero, int_as_float, float_to_int};
use crate::text::{contains_text, int_decimal, is_float_text, lower_equals, parse_i64, replaced, without_wildcards};
use crate::value::{Val, val_eq};

verus! {

/// The columns, their sources and the row that identifiers resolve against,
/// and the text that `now()` reads.
pub ghost struct EvalEnv {
    pub columns: Seq<Seq<char>>,
    pub sources: Seq<Option<Seq<char>>>,
    pub row: Seq<Val>,
    pub now: Seq<char>,
}

/// Lexicographic comparison of texts by code point (the order of `String`):
/// -1, 0 or 1.
pub open spec fn text_sign(a: Seq<char>, b: Seq<char>) -> int
    decreases a.len(),
{
    if a.len() == 0 {
        if b.len() == 0 {
            0
        } else {
            -1
        }
    } else if b.len() == 0 {
        1
    } else if a[0] < b[0] {
        -1
    } else if a[0] > b[0] {
        1
    } else {
        text_sign(a.drop_first(), b.drop_first())
    }
}

pub open spec fn order_of_sign(s: int) -> Ordering {
    if s < 0 {
        Ordering::Less
    } else if s == 0 {
        Ordering::Equal
    } else {
        Ordering::Greater
    }
}

/// A comparison that came out undecided (NaN) counts as equal.
pub open spec fn decided_or_equal(o: Option<Ordering>) -> Ordering {
    match o {
        Some(x) => x,
        None => Ordering::Equal,
    }
}

pub open spec fn int_order(a: i64, b: i64) -> Ordering {
    if a < b {
        Ordering::Less
    } else if a == b {
        Ordering::Equal
    } else {
        Ordering::Greater
    }
}

pub open spec fn bool_order(a: bool, b: bool) -> Ordering {
    if a == b {
        Ordering::Equal
    } else if !a {
        Ordering::Less
    } else {
        Ordering::Greater
    }
}

/// The order of two cells: `Null` first; strings, integers, floats and
/// booleans among themselves; an integer against a float after converting
/// the integer to the nearest float; any other pair is equal.
pub open spec fn value_order(a: Val, b: Val) -> Ordering {
    match (a, b) {
        (Val::Null, Val::Null) => Ordering::Equal,
        (Val::Null, _) => Ordering::Less,
        (_, Val::Null) => Ordering::Greater,
        (Val::Str(x), Val::Str(y)) => order_of_sign(text_sign(x, y)),
        (Val::Int(x), Val::Int(y)) => int_order(x, y),
        (Val::Float(x), Val::Float(y)) => decided_or_equal(float_partial_order(x, y)),
        (Val::Bool(x), Val::Bool(y)) => bool_order(x, y),
        (Val::Int(x), Val::Float(y)) => decided_or_equal(float_partial_order(int_as_float(x), y)),
        (Val::Float(x), Val::Int(y)) => decided_or_equal(float_partial_order(x, int_as_float(y))),
        _ => Ordering::Equal,
    }
}

/// Truthiness: `false`, `Null`, zero and the empty string are false.
pub open spec fn truthy(v: Val) -> bool {
    match v {
        Val::Bool(b) => b,
        Val::Null => false,
        Val::Int(i) => i != 0,
        Val::Float(f) => !float_is_zero(f),
        Val::Str(s) => s.len() != 0,
    }
}

/// Checked integer arithmetic; `None` on overflow or division by zero.
pub open spec fn int_arith(op: BinaryOp, a: i64, b: i64) -> Option<i64> {
    match op {
        BinaryOp::Add => a.checked_add(b),
        BinaryOp::Sub => a.checked_sub(b),
        BinaryOp::Mul => a.checked_mul(b),
        BinaryOp::Div => a.checked_div(b),
        _ => a.checked_rem(b),
    }
}

/// An arithmetic operator applied to cells: integers with overflow checks
/// (`Null` on overflow or division by zero), floats not computed here
/// (`None`), and `Null` for any other kinds.
pub open spec fn arith_value(op: BinaryOp, l: Val, r: Val) -> Option<Val> {
    match (l, r) {
        (Val::Int(a), Val::Int(b)) => match int_arith(op, a, b) {
            Some(c) => Some(Val::Int(c)),
            None => Some(Val::Null),
        },
        (Val::Float(_), Val::Float(_)) => None,
        (Val::Int(_), Val::Float(_)) => None,
        (Val::Float(_), Val::Int(_)) => None,
        _ => Some(Val::Null),
    }
}

/// `LIKE`: both strings, and the pattern with `%` and `_` removed occurs in
/// the text.
pub open spec fn like_value(l: Val, r: Val) -> Val {
    match (l, r) {
        (Val::Str(s), Val::Str(p)) => Val::Bool(contains_text(s, without_wildcards(p))),
        _ => Val::Bool(false),
    }
}

pub open spec fn binary_value(op: BinaryOp, l: Val, r: Val) -> Option<Val> {
    match op {
        BinaryOp::And => Some(Val::Bool(truthy(l) && truthy(r))),
        BinaryOp::Or => Some(Val::Bool(truthy(l) || truthy(r))),
        BinaryOp::Eq => Some(Val::Bool(val_eq(l, r))),
        BinaryOp::Neq => Some(Val::Bool(!val_eq(l, r))),
        BinaryOp::Gt => Some(Val::Bool(value_order(l, r) == Ordering::Greater)),
        BinaryOp::Gte => Some(Val::Bool(value_order(l, r) != Ordering::Less)),
        BinaryOp::Lt => Some(Val::Bool(value_order(l, r) == Ordering::Less)),
        BinaryOp::Lte => Some(Val::Bool(value_order(l, r) != Ordering::Greater)),
        BinaryOp::Like | BinaryOp::ILike => Some(like_value(l, r)),
        _ => arith_value(op, l, r),
    }
}

pub open spec fn unary_value(op: UnaryOp, v: Val) -> Option<Val> {
    match op {
        UnaryOp::Not => Some(Val::Bool(!truthy(v))),
        UnaryOp::Neg => match v {
            Val::Int(i) => if i == i64::MIN {
                None
            } else {
                Some(Val::Int(-i as i64))
            },
            Val::Float(f) => Some(Val::Float(float_negated(f))),
            _ => Some(Val::Null),
        },
    }
}

pub open spec fn bool_text(b: bool) -> Seq<char> {
    if b {
        "true"@
    } else {
        "false"@
    }
}

/// The text of a cell (`to_string`); a float's text is not computed here.
pub open spec fn value_text(v: Val) -> Option<Seq<char>> {
    match v {
        Val::Null => Some(Seq::empty()),
        Val::Str(s) => Some(s),
        Val::Int(i) => Some(int_decimal(i as int)),
        Val::Float(_) => None,
        Val::Bool(b) => Some(bool_text(b)),
    }
}

/// `CAST(v AS target)`.
pub open spec fn cast_val(v: Val, target: DataType) -> Option<Val> {
    match target {
        DataType::Integer => match v {
            Val::Int(_) => Some(v),
            Val::Float(f) => Some(Val::Int(float_to_int(f))),
            Val::Str(s) => match parse_i64(s) {
                Some(i) => Some(Val::Int(i)),
                None => Some(Val::Null),
            },
            Val::Bool(b) => Some(Val::Int(if b { 1 } else { 0 })),
            Val::Null => Some(Val::Null),
        },
        DataType::Float => match v {
            Val::Float(_) => Some(v),
            Val::Int(i) => Some(Val::Float(int_as_float(i))),
            Val::Str(s) => if is_float_text(s) {
                None
            } else {
                Some(Val::Null)
            },
            _ => Some(Val::Null),
        },
        DataType::String | DataType::DateTime | DataType::Json => match v {
            Val::Null => Some(Val::Null),
            _ => match value_text(v) {
                Some(t) => Some(Val::Str(t)),
                None => None,
            },
        },
        DataType::Boolean => match v {
            Val::Bool(_) => Some(v),
            _ => Some(Val::Bool(truthy(v))),
        },
    }
}

/// The first position at or after `start` holding `name`.
pub open spec fn position_from(columns: Seq<Seq<char>>, name: Seq<char>, start: int) -> Option<int>
    decreases columns.len() - start,
{
    if start < 0 || start >= columns.len() {
        None
    } else if columns[start] == name {
        Some(start)
    } else {
        position_from(columns, name, start + 1)
    }
}

/// Column `i` is named `field` and its source is `table`.
pub open spec fn qualified_at(
    columns: Seq<Seq<char>>,
    sources: Seq<Option<Seq<char>>>,
    table: Seq<char>,
    field: Seq<char>,
    i: int,
) -> bool {
    columns[i] == field && i < sources.len() && sources[i] == Some(table)
}

/// The first position at or after `start` of column `field` from `table`.
pub open spec fn qualified_position_from(
    columns: Seq<Seq<char>>,
    sources: Seq<Option<Seq<char>>>,
    table: Seq<char>,
    field: Seq<char>,
    start: int,
) -> Option<int>
    decreases columns.len() - start,
{
    if start < 0 || start >= columns.len() {
        None
    } else if qualified_at(columns, sources, table, field, start) {
        Some(start)
    } else {
        qualified_position_from(columns, sources, table, field, start + 1)
    }
}

/// The position that a qualified name resolves to: the column with that
/// name from that table, or else the first column with that name.
pub open spec fn qualified_position(
    columns: Seq<Seq<char>>,
    sources: Seq<Option<Seq<char>>>,
    table: Seq<char>,
    field: Seq<char>,
) -> Option<int> {
    match qualified_position_from(columns, sources, table, field, 0) {
        Some(i) => Some(i),
        None => position_from(columns, field, 0),
    }
}

/// The cell at a resolved position, `Null` when unresolved or past the row.
pub open spec fn cell_at(row: Seq<Val>, pos: Option<int>) -> Val {
    match pos {
        Some(i) => if 0 <= i < row.len() {
            row[i]
        } else {
            Val::Null
        },
        None => Val::Null,
    }
}

/// The texts of all values joined, or `None` if one is a float.
pub open spec fn concat_texts(vals: Seq<Val>) -> Option<Seq<char>>
    decreases vals.len(),
{
    if vals.len() == 0 {
        Some(Seq::empty())
    } else {
        match (concat_texts(vals.drop_last()), value_text(vals.last())) {
            (Some(a), Some(b)) => Some(a + b),
            _ => None,
        }
    }
}

/// The texts of all values separated by `", "`, or `None` if one is a float.
pub open spec fn comma_texts(vals: Seq<Val>) -> Option<Seq<char>>
    decreases vals.len(),
{
    if vals.len() == 0 {
        Some(Seq::empty())
    } else if vals.len() == 1 {
        value_text(vals[0])
    } else {
        match (comma_texts(vals.drop_last()), value_text(vals.last())) {
            (Some(a), Some(b)) => Some(a + ", "@ + b),
            _ => None,
        }
    }
}

/// The first value that is not `Null`, else `Null`.
pub open spec fn first_non_null(vals: Seq<Val>) -> Val
    decreases vals.len(),
{
    if vals.len() == 0 {
        Val::Null
    } else if vals[0] != Val::Null {
        vals[0]
    } else {
        first_non_null(vals.drop_first())
    }
}

/// A function call on evaluated arguments: `concat`, `now` and
/// `current_timestamp`, `coalesce`, `replace`; any other name joins the
/// arguments' texts with `", "`. Names match without regard to ASCII case.
pub open spec fn call_value(name: Seq<char>, vals: Seq<Val>, now: Seq<char>) -> Option<Val> {
    if lower_equals(name, "concat"@) {
        match concat_texts(vals) {
            Some(t) => Some(Val::Str(t)),
            None => None,
        }
    } else if lower_equals(name, "now"@) || lower_equals(name, "current_timestamp"@) {
        Some(Val::Str(now))
    } else if lower_equals(name, "coalesce"@) {
        Some(first_non_null(vals))
    } else if lower_equals(name, "replace"@) {
        if vals.len() >= 3 {
            match (value_text(vals[0]), value_text(vals[1]), value_text(vals[2])) {
                (Some(s), Some(from), Some(to)) => Some(Val::Str(replaced(s, from, to))),
                _ => None,
            }
        } else {
            Some(Val::Null)
        }
    } else {
        match comma_texts(vals) {
            Some(t) => Some(Val::Str(t)),
            None => None,
        }
    }
}

/// `BETWEEN`: not below the low bound and not above the high bound.
pub open spec fn between_value(v: Val, lo: Val, hi: Val) -> Val {
    Val::Bool(value_order(v, lo) != Ordering::Less && value_order(v, hi) != Ordering::Greater)
}

/// The value of an expression over a row; `None` where evaluation needs a
/// computation that this library leaves out (see the module's note).
pub open spec fn eval(e: Expression, env: EvalEnv) -> Option<Val>
    decreases e,
{
    match e {
        Expression::String(s) => Some(Val::Str(s@)),
        Expression::Number(n) => Some(Val::Float(n)),
        Expression::Integer(i) => Some(Val::Int(i)),
        Expression::Boolean(b) => Some(Val::Bool(b)),
        Expression::Null => Some(Val::Null),
        Expression::Ident(name) => Some(cell_at(env.row, position_from(env.columns, name@, 0))),
        Expression::QualifiedIdent { table, field } => Some(
            cell_at(env.row, qualified_position(env.columns, env.sources, table@, field@)),
        ),
        Expression::BinaryOp { op, left, right } => match (eval(*left, env), eval(*right, env)) {
            (Some(l), Some(r)) => binary_value(op, l, r),
            _ => None,
        },
        Expression::UnaryOp { op, expr } => match eval(*expr, env) {
            Some(v) => unary_value(op, v),
            None => None,
        },
        Expression::Between { expr, low, high } => match (
            eval(*expr, env),
            eval(*low, env),
            eval(*high, env),
        ) {
            (Some(v), Some(lo), Some(hi)) => Some(between_value(v, lo, hi)),
            _ => None,
        },
        Expression::Case { expr, whens, else_expr } => {
            let case_value = match expr {
                Some(cv) => Some(eval(*cv, env)),
                None => None,
            };
            let else_value = match else_expr {
                Some(x) => eval(*x, env),
                None => Some(Val::Null),
            };
            eval_case(case_value, whens@, else_value, env)
        },
        Expression::Cast { expr, target } => match eval(*expr, env) {
            Some(v) => cast_val(v, target),
            None => None,
        },
        Expression::Array(_) => Some(Val::Str("[...]"@)),
        Expression::Object(_) => Some(Val::Str("{...}"@)),
        Expression::FnCall { name, args } => match eval_args(args@, env) {
            Some(vals) => call_value(name@, vals, env.now),
            None => None,
        },
    }
}

/// The arguments evaluated in order; `None` if one of them is.
pub open spec fn eval_args(args: Seq<Expression>, env: EvalEnv) -> Option<Seq<Val>>
    decreases args,
{
    if args.len() == 0 {
        Some(Seq::empty())
    } else {
        match (eval_args(args.drop_last(), env), eval(args.last(), env)) {
            (Some(vs), Some(v)) => Some(vs.push(v)),
            _ => None,
        }
    }
}

/// Whether a `WHEN` matches: equal to the case value when there is one,
/// else the `WHEN` expression is `true`.
pub open spec fn when_matches(case_value: Option<Option<Val>>, w: Option<Val>) -> Option<bool> {
    match case_value {
        Some(Some(cv)) => match w {
            Some(wv) => Some(val_eq(cv, wv)),
            None => None,
        },
        Some(None) => None,
        None => match w {
            Some(wv) => Some(wv == Val::Bool(true)),
            None => None,
        },
    }
}

/// `CASE`: the result of the first matching `WHEN`, else the `ELSE` value.
pub open spec fn eval_case(
    case_value: Option<Option<Val>>,
    whens: Seq<(Expression, Expression)>,
    else_value: Option<Val>,
    env: EvalEnv,
) -> Option<Val>
    decreases whens,
{
    if whens.len() == 0 {
        else_value
    } else {
        match when_matches(case_value, eval(whens[0].0, env)) {
            Some(true) => eval(whens[0].1, env),
            Some(false) => eval_case(case_value, whens.drop_first(), else_value, env),
            None => None,
        }
    }
}

/// Whether an expression evaluates to `true` (anything else, `Null`
/// included, is not).
pub open spec fn eval_bool(e: Expression, env: EvalEnv) -> Option<bool> {
    match eval(e, env) {
        Some(v) => Some(v == Val::Bool(true)),
        None => None,
    }
}

pub proof fn lemma_eval_args_prefix_none(args: Seq<Expression>, env: EvalEnv, k: int)
    requires
        0 <= k <= args.len(),
        eval_args(args.take(k), env) is None,
    ensures
        eval_args(args, env) is None,
    decreases args.len() - k,
{
    if k < args.len() {
        assert(args.take(k + 1).drop_last() =~= args.take(k));
        lemma_eval_args_prefix_none(args, env, k + 1);
    } else {
        assert(args.take(k) =~= args);
    }
}

pub proof fn lemma_concat_prefix_none(vals: Seq<Val>, k: int)
    requires
        0 <= k <= vals.len(),
        concat_texts(vals.take(k)) is None,
    ensures
        concat_texts(vals) is None,
    decreases vals.len() - k,
{
    if k < vals.len() {
        assert(vals.take(k + 1).drop_last() =~= vals.take(k));
        lemma_concat_prefix_none(vals, k + 1);
    } else {
        assert(vals.take(k) =~= vals);
    }
}

pub proof fn lemma_comma_prefix_none(vals: Seq<Val>, k: int)
    requires
        1 <= k <= vals.len(),
        comma_texts(vals.take(k)) is None,
    ensures
        comma_texts(vals) is None,
    decreases vals.len() - k,
{
    if k < vals.len() {
        assert(vals.take(k + 1).drop_last() =~= vals.take(k));
        lemma_comma_prefix_none(vals, k + 1);
    } else {
        assert(vals.take(k) =~= vals);
    }
}

} // verus!
