use vstd::prelude::*;
use crate::expr::{binary, built, unary, Expression};
use crate::graph::{operand_valid, Graph, Operand};
use crate::ops::{BinOp, Op, UnOp};

verus! {

/// The absolute value of an integer (wrapping at the most negative one).
pub fn abs(g: &mut Graph, value: Operand) -> (r: Expression)
    requires
        old(g).wf(),
        operand_valid(old(g), value),
    ensures
        built(old(g), final(g), r, Op::Unary(UnOp::Abs), seq![value]),
{
    unary(g, value, UnOp::Abs)
}

/// The negation of an integer (wrapping).
pub fn neg(g: &mut Graph, value: Operand) -> (r: Expression)
    requires
        old(g).wf(),
        operand_valid(old(g), value),
    ensures
        built(old(g), final(g), r, Op::Unary(UnOp::Neg), seq![value]),
{
    unary(g, value, UnOp::Neg)
}

/// The wrapping sum of two integers; a vanished addend counts as 0.
pub fn plus(g: &mut Graph, lhs: Operand, rhs: Operand) -> (r: Expression)
    requires
        old(g).wf(),
        operand_valid(old(g), lhs),
        operand_valid(old(g), rhs),
    ensures
        built(old(g), final(g), r, Op::Binary(BinOp::Plus), seq![lhs, rhs]),
{
    binary(g, lhs, rhs, BinOp::Plus)
}

/// The wrapping product of two integers; a vanished factor counts as 1.
pub fn times(g: &mut Graph, lhs: Operand, rhs: Operand) -> (r: Expression)
    requires
        old(g).wf(),
        operand_valid(old(g), lhs),
        operand_valid(old(g), rhs),
    ensures
        built(old(g), final(g), r, Op::Binary(BinOp::Times), seq![lhs, rhs]),
{
    binary(g, lhs, rhs, BinOp::Times)
}

} // verus!
