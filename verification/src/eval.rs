use vstd::prelude::*;
use crate::ast::{add_only, leaves_nonneg, literal_sum, Expr};
use crate::token::Op;

verus! {

/// How evaluation can fail: dividing by a subexpression whose value is zero,
/// or an intermediate result that does not fit in an `i64`.
#[derive(Clone, Copy, Debug, PartialEq, Eq, Structural)]
pub enum EvalError {
    DivisionByZero,
    Overflow,
}

/// Whether `v` fits in the machine integer type the evaluator computes with.
pub open spec fn fits_i64(v: int) -> bool {
    i64::MIN <= v <= i64::MAX
}

/// Integer division rounding toward zero, as `i64` division does.
/// Meaningful only for `d != 0`.
pub open spec fn div_trunc(x: int, d: int) -> int {
    if x == 0 {
        0
    } else if x > 0 && d > 0 {
        x / d
    } else if x < 0 && d < 0 {
        (x * -1) / (d * -1)
    } else if x < 0 {
        ((x * -1) / d) * -1
    } else {
        (x / (d * -1)) * -1
    }
}

/// The result of combining two operand values with one operator.
pub open spec fn apply_op(op: Op, l: int, r: int) -> Result<int, EvalError> {
    match op {
        Op::Add => if fits_i64(l + r) {
            Ok(l + r)
        } else {
            Err(EvalError::Overflow)
        },
        Op::Sub => if fits_i64(l - r) {
            Ok(l - r)
        } else {
            Err(EvalError::Overflow)
        },
        Op::Mul => if fits_i64(l * r) {
            Ok(l * r)
        } else {
            Err(EvalError::Overflow)
        },
        Op::Div => if r == 0 {
            Err(EvalError::DivisionByZero)
        } else if fits_i64(div_trunc(l, r)) {
            Ok(div_trunc(l, r))
        } else {
            Err(EvalError::Overflow)
        },
    }
}

/// The value of an expression tree: literals evaluate to themselves, a binary
/// node evaluates its left subtree, then its right subtree, then combines the
/// two values; the first failure anywhere in that order is the result.
pub open spec fn spec_eval(e: Expr) -> Result<int, EvalError>
    decreases e,
{
    match e {
        Expr::Literal { value } => Ok(value as int),
        Expr::BinaryOperation { operator, left, right } => match spec_eval(*left) {
            Err(er) => Err(er),
            Ok(l) => match spec_eval(*right) {
                Err(er) => Err(er),
                Ok(r) => apply_op(operator, l, r),
            },
        },
    }
}

/// Walk the tree and compute its value, left subtree before right subtree,
/// failing on a division whose right operand is zero and on any intermediate
/// result outside the `i64` range.
pub fn evaluate(e: &Expr) -> (r: Result<i64, EvalError>)
    ensures
        match r {
            Ok(v) => spec_eval(*e) == Ok::<int, EvalError>(v as int),
            Err(er) => spec_eval(*e) == Err::<int, EvalError>(er),
        },
    decreases e,
{
    match e {
        Expr::Literal { value } => Ok(*value),
        Expr::BinaryOperation { operator, left, right } => {
            let l = match evaluate(&**left) {
                Ok(v) => v,
                Err(er) => {
                    return Err(er);
                },
            };
            let r = match evaluate(&**right) {
                Ok(v) => v,
                Err(er) => {
                    return Err(er);
                },
            };
            match operator {
                Op::Add => match l.checked_add(r) {
                    Some(v) => Ok(v),
                    None => Err(EvalError::Overflow),
                },
                Op::Sub => match l.checked_sub(r) {
                    Some(v) => Ok(v),
                    None => Err(EvalError::Overflow),
                },
                Op::Mul => match l.checked_mul(r) {
                    Some(v) => Ok(v),
                    None => Err(EvalError::Overflow),
                },
                Op::Div => if r == 0 {
                    Err(EvalError::DivisionByZero)
                } else {
                    match l.checked_div(r) {
                        Some(v) => Ok(v),
                        None => Err(EvalError::Overflow),
                    }
                },
            }
        },
    }
}

proof fn lemma_literal_sum_nonneg(e: Expr)
    requires
        leaves_nonneg(e),
    ensures
        literal_sum(e) >= 0,
    decreases e,
{
    match e {
        Expr::Literal { value } => {},
        Expr::BinaryOperation { operator, left, right } => {
            lemma_literal_sum_nonneg(*left);
            lemma_literal_sum_nonneg(*right);
        },
    }
}

/// Law: an expression built from literals and `+` alone evaluates to the
/// arithmetic sum of its literal leaves, whenever the leaves are non-negative
/// (as all parsed literals are) and that sum fits in an `i64`.
pub proof fn lemma_add_only_eval_is_sum(e: Expr)
    requires
        add_only(e),
        leaves_nonneg(e),
        literal_sum(e) <= i64::MAX,
    ensures
        spec_eval(e) == Ok::<int, EvalError>(literal_sum(e)),
    decreases e,
{
    match e {
        Expr::Literal { value } => {},
        Expr::BinaryOperation { operator, left, right } => {
            lemma_literal_sum_nonneg(*left);
            lemma_literal_sum_nonneg(*right);
            lemma_add_only_eval_is_sum(*left);
            lemma_add_only_eval_is_sum(*right);
        },
    }
}

/// Law: for addition-only trees the evaluated value depends only on the sum
/// of the leaves, so reordering operands or regrouping the additions — a
/// left-leaning tree against any other shape — cannot change the value.
pub proof fn lemma_add_only_value_shape_independent(a: Expr, b: Expr)
    requires
        add_only(a),
        add_only(b),
        leaves_nonneg(a),
        leaves_nonneg(b),
        literal_sum(a) == literal_sum(b),
        literal_sum(a) <= i64::MAX,
    ensures
        spec_eval(a) == spec_eval(b),
{
    lemma_add_only_eval_is_sum(a);
    lemma_add_only_eval_is_sum(b);
}

} // verus!
