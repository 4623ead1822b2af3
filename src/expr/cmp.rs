use vstd::prelude::*;
use crate::expr::{binary, built, unary, Expression};
use crate::graph::{operand_valid, Graph, Operand};
use crate::ops::{BinOp, Cmp, Op, UnOp};

verus! {

/// Whether the two operands are equal; with an operand gone there is no value.
pub fn eq(g: &mut Graph, lhs: Operand, rhs: Operand) -> (r: Expression)
    requires
        old(g).wf(),
        operand_valid(old(g), lhs),
        operand_valid(old(g), rhs),
    ensures
        built(old(g), final(g), r, Op::Binary(BinOp::Compare(Cmp::Eq)), seq![lhs, rhs]),
{
    binary(g, lhs, rhs, BinOp::Compare(Cmp::Eq))
}

/// Whether the integer operand equals the constant `rhs`.
pub fn eq_val(g: &mut Graph, lhs: Operand, rhs: i64) -> (r: Expression)
    requires
        old(g).wf(),
        operand_valid(old(g), lhs),
    ensures
        built(old(g), final(g), r, Op::Unary(UnOp::CmpVal(Cmp::Eq, rhs)), seq![lhs]),
{
    unary(g, lhs, UnOp::CmpVal(Cmp::Eq, rhs))
}

/// Whether the two operands differ; with an operand gone there is no value.
pub fn ne(g: &mut Graph, lhs: Operand, rhs: Operand) -> (r: Expression)
    requires
        old(g).wf(),
        operand_valid(old(g), lhs),
        operand_valid(old(g), rhs),
    ensures
        built(old(g), final(g), r, Op::Binary(BinOp::Compare(Cmp::Ne)), seq![lhs, rhs]),
{
    binary(g, lhs, rhs, BinOp::Compare(Cmp::Ne))
}

/// Whether the integer operand differs from the constant `rhs`.
pub fn ne_val(g: &mut Graph, lhs: Operand, rhs: i64) -> (r: Expression)
    requires
        old(g).wf(),
        operand_valid(old(g), lhs),
    ensures
        built(old(g), final(g), r, Op::Unary(UnOp::CmpVal(Cmp::Ne, rhs)), seq![lhs]),
{
    unary(g, lhs, UnOp::CmpVal(Cmp::Ne, rhs))
}

/// Whether the integer `lhs` is greater than the integer `rhs`.
pub fn gt(g: &mut Graph, lhs: Operand, rhs: Operand) -> (r: Expression)
    requires
        old(g).wf(),
        operand_valid(old(g), lhs),
        operand_valid(old(g), rhs),
    ensures
        built(old(g), final(g), r, Op::Binary(BinOp::Compare(Cmp::Gt)), seq![lhs, rhs]),
{
    binary(g, lhs, rhs, BinOp::Compare(Cmp::Gt))
}

/// Whether the integer operand is greater than the constant `rhs`.
pub fn gt_val(g: &mut Graph, lhs: Operand, rhs: i64) -> (r: Expression)
    requires
        old(g).wf(),
        operand_valid(old(g), lhs),
    ensures
        built(old(g), final(g), r, Op::Unary(UnOp::CmpVal(Cmp::Gt, rhs)), seq![lhs]),
{
    unary(g, lhs, UnOp::CmpVal(Cmp::Gt, rhs))
}

/// Whether the integer `lhs` is less than the integer `rhs`.
pub fn lt(g: &mut Graph, lhs: Operand, rhs: Operand) -> (r: Expression)
    requires
        old(g).wf(),
        operand_valid(old(g), lhs),
        operand_valid(old(g), rhs),
    ensures
        built(old(g), final(g), r, Op::Binary(BinOp::Compare(Cmp::Lt)), seq![lhs, rhs]),
{
    binary(g, lhs, rhs, BinOp::Compare(Cmp::Lt))
}

/// Whether the integer operand is less than the constant `rhs`.
pub fn lt_val(g: &mut Graph, lhs: Operand, rhs: i64) -> (r: Expression)
    requires
        old(g).wf(),
        operand_valid(old(g), lhs),
    ensures
        built(old(g), final(g), r, Op::Unary(UnOp::CmpVal(Cmp::Lt, rhs)), seq![lhs]),
{
    unary(g, lhs, UnOp::CmpVal(Cmp::Lt, rhs))
}

/// Whether the integer `lhs` is at least the integer `rhs`.
pub fn gte(g: &mut Graph, lhs: Operand, rhs: Operand) -> (r: Expression)
    requires
        old(g).wf(),
        operand_valid(old(g), lhs),
        operand_valid(old(g), rhs),
    ensures
        built(old(g), final(g), r, Op::Binary(BinOp::Compare(Cmp::Gte)), seq![lhs, rhs]),
{
    binary(g, lhs, rhs, BinOp::Compare(Cmp::Gte))
}

/// Whether the integer operand is at least the constant `rhs`.
pub fn gte_val(g: &mut Graph, lhs: Operand, rhs: i64) -> (r: Expression)
    requires
        old(g).wf(),
        operand_valid(old(g), lhs),
    ensures
        built(old(g), final(g), r, Op::Unary(UnOp::CmpVal(Cmp::Gte, rhs)), seq![lhs]),
{
    unary(g, lhs, UnOp::CmpVal(Cmp::Gte, rhs))
}

/// Whether the integer `lhs` is at most the integer `rhs`.
pub fn lte(g: &mut Graph, lhs: Operand, rhs: Operand) -> (r: Expression)
    requires
        old(g).wf(),
        operand_valid(old(g), lhs),
        operand_valid(old(g), rhs),
    ensures
        built(old(g), final(g), r, Op::Binary(BinOp::Compare(Cmp::Lte)), seq![lhs, rhs]),
{
    binary(g, lhs, rhs, BinOp::Compare(Cmp::Lte))
}

/// Whether the integer operand is at most the constant `rhs`.
pub fn lte_val(g: &mut Graph, lhs: Operand, rhs: i64) -> (r: Expression)
    requires
        old(g).wf(),
        operand_valid(old(g), lhs),
    ensures
        built(old(g), final(g), r, Op::Unary(UnOp::CmpVal(Cmp::Lte, rhs)), seq![lhs]),
{
    unary(g, lhs, UnOp::CmpVal(Cmp::Lte, rhs))
}

} // verus!
