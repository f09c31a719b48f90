//! Laws of expression evaluation: how comparisons, negation, `NOT`, casts
//! and `BETWEEN` relate to one another.

use vstd::prelude::*;
use std::cmp::Ordering;
use crate::ast::{BinaryOp, DataType, UnaryOp};
use crate::expr_spec::{
    between_value, binary_value, cast_val, decided_or_equal, text_sign, truthy, unary_value, value_order, value_text,
};
use crate::float_bits::{float_negated, float_partial_order};
use crate::text::lemma_parse_int_decimal;
use crate::value::Val;

verus! {

/// The reverse of an ordering.
pub open spec fn flipped(o: Ordering) -> Ordering {
    match o {
        Ordering::Less => Ordering::Greater,
        Ordering::Equal => Ordering::Equal,
        Ordering::Greater => Ordering::Less,
    }
}

/// Comparing texts the other way round gives the opposite sign.
pub proof fn lemma_text_sign_antisymmetric(a: Seq<char>, b: Seq<char>)
    ensures
        text_sign(a, b) == -text_sign(b, a),
    decreases a.len(),
{
    if a.len() > 0 && b.len() > 0 && a[0] == b[0] {
        lemma_text_sign_antisymmetric(a.drop_first(), b.drop_first());
    }
}

proof fn lemma_float_order_flipped(x: u64, y: u64)
    ensures
        decided_or_equal(float_partial_order(x, y)) == flipped(decided_or_equal(float_partial_order(y, x))),
{
}

/// Comparing two cells the other way round gives the reverse order.
pub proof fn lemma_order_antisymmetric(a: Val, b: Val)
    ensures
        value_order(a, b) == flipped(value_order(b, a)),
{
    match (a, b) {
        (Val::Str(x), Val::Str(y)) => {
            lemma_text_sign_antisymmetric(x, y);
        },
        (Val::Float(x), Val::Float(y)) => {
            lemma_float_order_flipped(x, y);
        },
        (Val::Int(x), Val::Float(y)) => {
            lemma_float_order_flipped(crate::float_bits::int_as_float(x), y);
        },
        (Val::Float(x), Val::Int(y)) => {
            lemma_float_order_flipped(x, crate::float_bits::int_as_float(y));
        },
        _ => {},
    }
}

/// `a > b` exactly when `b < a`.
pub proof fn lemma_greater_is_reversed_less(a: Val, b: Val)
    ensures
        binary_value(BinaryOp::Gt, a, b) == binary_value(BinaryOp::Lt, b, a),
{
    lemma_order_antisymmetric(a, b);
}

/// Negating an integer other than the smallest twice gives it back.
pub proof fn lemma_neg_int_involutive(i: i64)
    requires
        i != i64::MIN,
    ensures
        unary_value(UnaryOp::Neg, Val::Int(i)) matches Some(m) && unary_value(UnaryOp::Neg, m) == Some(
            Val::Int(i),
        ),
{
}

/// Negating a float twice gives the same bits back.
pub proof fn lemma_neg_float_involutive(f: u64)
    ensures
        unary_value(UnaryOp::Neg, Val::Float(f)) == Some(Val::Float(float_negated(f))),
        unary_value(UnaryOp::Neg, Val::Float(float_negated(f))) == Some(Val::Float(f)),
{
}

/// `NOT NOT v` is the truthiness of `v`.
pub proof fn lemma_not_not(v: Val)
    ensures
        unary_value(UnaryOp::Not, v) matches Some(w) && unary_value(UnaryOp::Not, w) == Some(Val::Bool(truthy(v))),
{
}

/// Casting to `BOOLEAN` gives a cell's truthiness.
pub proof fn lemma_cast_boolean_is_truthiness(v: Val)
    ensures
        cast_val(v, DataType::Boolean) == Some(Val::Bool(truthy(v))),
{
}

/// An integer cast to text and back to an integer is unchanged.
pub proof fn lemma_cast_text_round_trip(i: i64)
    ensures
        cast_val(Val::Int(i), DataType::String) matches Some(t) && cast_val(t, DataType::Integer) == Some(Val::Int(i)),
{
    lemma_parse_int_decimal(i);
}

/// `v BETWEEN lo AND hi` is `v >= lo AND v <= hi`.
pub proof fn lemma_between_is_both_bounds(v: Val, lo: Val, hi: Val)
    ensures
        binary_value(BinaryOp::Gte, v, lo) matches Some(a) && binary_value(BinaryOp::Lte, v, hi) matches Some(b)
            && binary_value(BinaryOp::And, a, b) == Some(between_value(v, lo, hi)),
{
}

/// A cast lands on a value that the same cast gives back unchanged, so
/// casting twice is casting once.
pub proof fn lemma_cast_idempotent(v: Val, target: DataType)
    ensures
        cast_val(v, target) matches Some(w) ==> cast_val(w, target) == Some(w),
{
    match target {
        DataType::Integer => {},
        DataType::Float => {},
        DataType::Boolean => {},
        _ => {
            if let Some(Val::Str(t)) = cast_val(v, target) {
                assert(value_text(Val::Str(t)) == Some(t));
            }
        },
    }
}

/// Texts compare as `String` ordering does, character by character: at
/// the first position where two texts differ, the one with the smaller
/// character is the smaller; a text that is a proper prefix of another is
/// smaller than it; a text equals itself. As cells, the smaller text orders
/// `Less`.
pub proof fn lemma_text_order_is_lexicographic(a: Seq<char>, b: Seq<char>, k: int)
    ensures
        0 <= k < a.len() && k < b.len() && (forall|i: int| 0 <= i < k ==> a[i] == b[i]) && a[k] < b[k]
            ==> text_sign(a, b) == -1 && value_order(Val::Str(a), Val::Str(b)) == Ordering::Less,
        a.len() < b.len() && (forall|i: int| 0 <= i < a.len() ==> a[i] == b[i]) ==> text_sign(a, b) == -1
            && value_order(Val::Str(a), Val::Str(b)) == Ordering::Less,
        text_sign(a, a) == 0,
        value_order(Val::Str(a), Val::Str(a)) == Ordering::Equal,
    decreases a.len(),
{
    if a.len() > 0 {
        lemma_text_order_is_lexicographic(a.drop_first(), a.drop_first(), 0);
        if b.len() > 0 && a[0] == b[0] {
            let (ta, tb) = (a.drop_first(), b.drop_first());
            lemma_text_order_is_lexicographic(ta, tb, k - 1);
            if 0 < k < a.len() && k < b.len() && (forall|i: int| 0 <= i < k ==> a[i] == b[i]) && a[k] < b[k] {
                assert forall|i: int| 0 <= i < k - 1 implies ta[i] == tb[i] by {
                    assert(a[i + 1] == b[i + 1]);
                }
                assert(ta[k - 1] == a[k] && tb[k - 1] == b[k]);
            }
            if a.len() < b.len() && (forall|i: int| 0 <= i < a.len() ==> a[i] == b[i]) {
                assert forall|i: int| 0 <= i < ta.len() implies ta[i] == tb[i] by {
                    assert(a[i + 1] == b[i + 1]);
                }
            }
        }
    }
}

} // verus!

verus! {

/// Integer `+`, `-` and `*` give the exact sum, difference and product
/// when it fits in 64 bits, and `Null` when it does not.
pub proof fn lemma_int_arithmetic_exact(a: i64, b: i64)
    ensures
        i64::MIN <= a + b <= i64::MAX ==> (binary_value(BinaryOp::Add, Val::Int(a), Val::Int(b)) matches Some(
            Val::Int(c),
        ) && c == a + b),
        !(i64::MIN <= a + b <= i64::MAX) ==> binary_value(BinaryOp::Add, Val::Int(a), Val::Int(b)) == Some(
            Val::Null,
        ),
        i64::MIN <= a - b <= i64::MAX ==> (binary_value(BinaryOp::Sub, Val::Int(a), Val::Int(b)) matches Some(
            Val::Int(c),
        ) && c == a - b),
        !(i64::MIN <= a - b <= i64::MAX) ==> binary_value(BinaryOp::Sub, Val::Int(a), Val::Int(b)) == Some(
            Val::Null,
        ),
        i64::MIN <= a * b <= i64::MAX ==> (binary_value(BinaryOp::Mul, Val::Int(a), Val::Int(b)) matches Some(
            Val::Int(c),
        ) && c == a * b),
        !(i64::MIN <= a * b <= i64::MAX) ==> binary_value(BinaryOp::Mul, Val::Int(a), Val::Int(b)) == Some(
            Val::Null,
        ),
{
}

/// Subtraction undoes addition on integers: where `a + b` fits in 64
/// bits, `(a + b) - b` evaluates back to `a`.
pub proof fn lemma_sub_undoes_add(a: i64, b: i64)
    requires
        i64::MIN <= a + b <= i64::MAX,
    ensures
        (binary_value(BinaryOp::Add, Val::Int(a), Val::Int(b)) matches Some(s) && binary_value(BinaryOp::Sub, s, Val::Int(b))
            == Some(Val::Int(a))),
{
    lemma_int_arithmetic_exact(a, b);
    let s = binary_value(BinaryOp::Add, Val::Int(a), Val::Int(b)).unwrap();
    if let Val::Int(c) = s {
        lemma_int_arithmetic_exact(c, b);
    }
}

} // verus!
