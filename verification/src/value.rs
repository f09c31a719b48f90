//! Cell values and query results.
//!
//! A floating-point cell is carried by its IEEE-754 binary64 bit pattern, so
//! that equality, ordering and hashing keys are exact integer facts.

use vstd::prelude::*;
use crate::float_bits::{float_eq, float_eq_exec};

verus! {

/// One cell of a query result.
#[derive(Debug, Clone)]
pub enum Value {
    Null,
    String(String),
    Int(i64),
    /// The IEEE-754 binary64 encoding of the number.
    Float(u64),
    Bool(bool),
}

/// The mathematical content of a [`Value`]: strings by their characters.
pub ghost enum Val {
    Null,
    Str(Seq<char>),
    Int(i64),
    Float(u64),
    Bool(bool),
}

impl View for Value {
    type V = Val;

    open spec fn view(&self) -> Val {
        match self {
            Value::Null => Val::Null,
            Value::String(s) => Val::Str(s@),
            Value::Int(i) => Val::Int(*i),
            Value::Float(b) => Val::Float(*b),
            Value::Bool(b) => Val::Bool(*b),
        }
    }
}

impl DeepView for Value {
    type V = Val;

    open spec fn deep_view(&self) -> Val {
        self@
    }
}

/// A copy of a value, with the same content.
pub fn copy_value(v: &Value) -> (r: Value)
    ensures
        r@ == v@,
{
    match v {
        Value::Null => Value::Null,
        Value::String(s) => Value::String(s.clone()),
        Value::Int(i) => Value::Int(*i),
        Value::Float(b) => Value::Float(*b),
        Value::Bool(b) => Value::Bool(*b),
    }
}

} // verus!

verus! {

/// Equality of two values as `==` on cells compares them: same kind and
/// same content, with IEEE equality for floats.
pub open spec fn val_eq(a: Val, b: Val) -> bool {
    match (a, b) {
        (Val::Null, Val::Null) => true,
        (Val::Str(x), Val::Str(y)) => x == y,
        (Val::Int(x), Val::Int(y)) => x == y,
        (Val::Float(x), Val::Float(y)) => float_eq(x, y),
        (Val::Bool(x), Val::Bool(y)) => x == y,
        _ => false,
    }
}

pub fn values_equal(a: &Value, b: &Value) -> (r: bool)
    ensures
        r == val_eq(a@, b@),
{
    match (a, b) {
        (Value::Null, Value::Null) => true,
        (Value::String(x), Value::String(y)) => x.eq(y),
        (Value::Int(x), Value::Int(y)) => *x == *y,
        (Value::Float(x), Value::Float(y)) => float_eq_exec(*x, *y),
        (Value::Bool(x), Value::Bool(y)) => *x == *y,
        _ => false,
    }
}

/// A copy of a row of values.
pub fn copy_row(row: &[Value]) -> (r: Vec<Value>)
    ensures
        r.deep_view() == row.deep_view(),
{
    let mut out: Vec<Value> = Vec::new();
    for i in 0..row.len()
        invariant
            out@.len() == i,
            forall|j: int| 0 <= j < i ==> #[trigger] out@[j]@ == row@[j]@,
    {
        let c = copy_value(&row[i]);
        out.push(c);
    }
    assert(out.deep_view() =~= row.deep_view());
    out
}

} // verus!

verus! {

/// The content of an optional value.
pub open spec fn opt_view(r: Option<Value>) -> Option<Val> {
    match r {
        Some(v) => Some(v@),
        None => None,
    }
}

/// An optional position as an integer.
pub open spec fn as_index(r: Option<usize>) -> Option<int> {
    match r {
        Some(i) => Some(i as int),
        None => None,
    }
}

} // verus!

verus! {

/// The outcome of a query: named columns, the table each column came from
/// (when known), the rows, the time it took and the rows a statement changed.
pub struct QueryResult {
    pub columns: Vec<String>,
    pub column_sources: Vec<Option<String>>,
    pub rows: Vec<Vec<Value>>,
    /// Elapsed time in whole milliseconds.
    pub elapsed_ms: u128,
    pub rows_affected: u64,
}

/// The content of a [`QueryResult`].
pub ghost struct ResultView {
    pub columns: Seq<Seq<char>>,
    pub sources: Seq<Option<Seq<char>>>,
    pub rows: Seq<Seq<Val>>,
    pub elapsed_ms: u128,
    pub rows_affected: u64,
}

impl View for QueryResult {
    type V = ResultView;

    open spec fn view(&self) -> ResultView {
        ResultView {
            columns: self.columns.deep_view(),
            sources: self.column_sources.deep_view(),
            rows: self.rows.deep_view(),
            elapsed_ms: self.elapsed_ms,
            rows_affected: self.rows_affected,
        }
    }
}

/// A copy of a text.
pub fn copy_text(s: &String) -> (r: String)
    ensures
        r@ == s@,
{
    s.clone()
}

/// A copy of an optional text.
pub fn copy_opt_text(s: &Option<String>) -> (r: Option<String>)
    ensures
        r.deep_view() == s.deep_view(),
{
    match s {
        Some(t) => Some(t.clone()),
        None => None,
    }
}

} // verus!
