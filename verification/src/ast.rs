//! The expression tree that the evaluator and the joins read.

use vstd::prelude::*;

verus! {

#[derive(Debug, Clone, Copy)]
pub enum BinaryOp {
    And,
    Or,
    Eq,
    Neq,
    Gt,
    Gte,
    Lt,
    Lte,
    Like,
    ILike,
    Add,
    Sub,
    Mul,
    Div,
    Mod,
}

#[derive(Debug, Clone, Copy)]
pub enum UnaryOp {
    Not,
    Neg,
}

/// Target types of `CAST`.
#[derive(Debug, Clone, Copy)]
pub enum DataType {
    Integer,
    Float,
    String,
    Boolean,
    DateTime,
    Json,
}

/// An expression of a query. `Number` holds the IEEE-754 binary64 encoding
/// of a floating-point literal.
#[allow(inconsistent_fields)]
#[derive(Debug)]
pub enum Expression {
    String(String),
    Number(u64),
    Integer(i64),
    Boolean(bool),
    Null,
    Ident(String),
    QualifiedIdent { table: String, field: String },
    BinaryOp { op: BinaryOp, left: Box<Expression>, right: Box<Expression> },
    UnaryOp { op: UnaryOp, expr: Box<Expression> },
    Between { expr: Box<Expression>, low: Box<Expression>, high: Box<Expression> },
    Case {
        expr: Option<Box<Expression>>,
        whens: Vec<(Expression, Expression)>,
        else_expr: Option<Box<Expression>>,
    },
    Cast { expr: Box<Expression>, target: DataType },
    Array(Vec<Expression>),
    Object(Vec<(String, Expression)>),
    FnCall { name: String, args: Vec<Expression> },
}

} // verus!
