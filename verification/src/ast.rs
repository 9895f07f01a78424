use vstd::prelude::*;
use crate::token::Op;

verus! {

/// A node of the abstract syntax tree: either a numeric literal leaf or a
/// binary operation owning its two subtrees.
#[derive(Debug)]
pub enum Expr {
    Literal { value: i64 },
    BinaryOperation { operator: Op, left: Box<Expr>, right: Box<Expr> },
}

/// The values of the literal leaves of `e`, in left-to-right order.
pub open spec fn leaf_values(e: Expr) -> Seq<int>
    decreases e,
{
    match e {
        Expr::Literal { value } => seq![value as int],
        Expr::BinaryOperation { operator, left, right } => leaf_values(*left) + leaf_values(*right),
    }
}

/// Whether every operator in `e` is an addition.
pub open spec fn add_only(e: Expr) -> bool
    decreases e,
{
    match e {
        Expr::Literal { value } => true,
        Expr::BinaryOperation { operator, left, right } => {
            &&& operator == Op::Add
            &&& add_only(*left)
            &&& add_only(*right)
        },
    }
}

/// Whether every literal leaf of `e` holds a non-negative value, as every
/// tree built by parsing tokenized text does.
pub open spec fn leaves_nonneg(e: Expr) -> bool
    decreases e,
{
    match e {
        Expr::Literal { value } => value >= 0,
        Expr::BinaryOperation { operator, left, right } => leaves_nonneg(*left) && leaves_nonneg(
            *right,
        ),
    }
}

/// The arithmetic sum of the literal leaves of `e`.
pub open spec fn literal_sum(e: Expr) -> int
    decreases e,
{
    match e {
        Expr::Literal { value } => value as int,
        Expr::BinaryOperation { operator, left, right } => literal_sum(*left) + literal_sum(*right),
    }
}

} // verus!
