//! Arithmetic expressions: the input language of the circuit compiler.
//!
//! An expression is an immutable tree of binary additions and
//! multiplications over unsigned constants and named input variables.
//! Its meaning is `eval_expr`: the residue the tree computes, given a
//! residue for every input variable.

use crate::field::{fadd, fmul, p};
use vstd::prelude::*;

verus! {

/// The two algebraic operators an operation node may carry.
#[derive(Clone, Copy, PartialEq, Eq, Structural, Debug)]
pub enum BinOp {
    Add,
    Mul,
}

/// An expression tree: a binary operation, a constant, or a reference to
/// the input variable at a given index.
#[derive(Debug)]
pub enum Expression {
    Operation { op: BinOp, left: Box<Expression>, right: Box<Expression> },
    Const { const_value: u32 },
    Var { index: u32 },
}

/// Every variable reference stays below the declared input arity.
pub open spec fn expr_wf(e: Expression, arity: nat) -> bool
    decreases e,
{
    match e {
        Expression::Operation { op, left, right } => expr_wf(*left, arity) && expr_wf(
            *right,
            arity,
        ),
        Expression::Const { const_value } => true,
        Expression::Var { index } => (index as nat) < arity,
    }
}

/// The number of nodes in the tree.
pub open spec fn expr_size(e: Expression) -> nat
    decreases e,
{
    match e {
        Expression::Operation { op, left, right } => 1 + expr_size(*left) + expr_size(*right),
        Expression::Const { const_value } => 1,
        Expression::Var { index } => 1,
    }
}

/// The residue an expression computes under an assignment of residues to
/// the input variables (entries of `a` beyond the variables are ignored).
pub open spec fn eval_expr(e: Expression, a: Seq<int>) -> int
    decreases e,
{
    match e {
        Expression::Operation { op, left, right } => {
            let l = eval_expr(*left, a);
            let r = eval_expr(*right, a);
            match op {
                BinOp::Add => fadd(l, r),
                BinOp::Mul => fmul(l, r),
            }
        },
        Expression::Const { const_value } => const_value as int % p(),
        Expression::Var { index } => a[index as int],
    }
}

/// Counts the nodes of an expression, so that a caller can honour the
/// compiler's machine limit before compiling.  Fails exactly when the
/// count would exceed that limit.
pub fn expr_node_count(e: &Expression) -> (r: Option<usize>)
    ensures
        r is Some <==> expr_size(*e) <= crate::circuit::MAX_WIRES,
        r is Some ==> r->0 == expr_size(*e),
    decreases expr_size(*e),
{
    match e {
        Expression::Operation { op, left, right } => {
            let l = match expr_node_count(&**left) {
                Option::Some(x) => x,
                Option::None => {
                    return None;
                },
            };
            let r0 = match expr_node_count(&**right) {
                Option::Some(x) => x,
                Option::None => {
                    return None;
                },
            };
            if l >= crate::circuit::MAX_WIRES || r0 >= crate::circuit::MAX_WIRES - l {
                return None;
            }
            Some(1 + l + r0)
        },
        Expression::Const { const_value } => Some(1),
        Expression::Var { index } => Some(1),
    }
}

} // verus!
