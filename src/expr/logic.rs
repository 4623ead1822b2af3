use vstd::prelude::*;
use crate::expr::{binary, built, unary, Expression};
use crate::graph::{operand_valid, Graph, Operand};
use crate::ops::{BinOp, Op, UnOp};

verus! {

/// Whether both operands hold true. A vanished operand is left out; with
/// both gone the result is false.
pub fn and(g: &mut Graph, lhs: Operand, rhs: Operand) -> (r: Expression)
    requires
        old(g).wf(),
        operand_valid(old(g), lhs),
        operand_valid(old(g), rhs),
    ensures
        built(old(g), final(g), r, Op::Binary(BinOp::And), seq![lhs, rhs]),
{
    binary(g, lhs, rhs, BinOp::And)
}

/// The negation of a truth value.
pub fn not(g: &mut Graph, value: Operand) -> (r: Expression)
    requires
        old(g).wf(),
        operand_valid(old(g), value),
    ensures
        built(old(g), final(g), r, Op::Unary(UnOp::Not), seq![value]),
{
    unary(g, value, UnOp::Not)
}

/// Whether either operand holds true; a vanished operand counts as false.
pub fn or(g: &mut Graph, lhs: Operand, rhs: Operand) -> (r: Expression)
    requires
        old(g).wf(),
        operand_valid(old(g), lhs),
        operand_valid(old(g), rhs),
    ensures
        built(old(g), final(g), r, Op::Binary(BinOp::Or), seq![lhs, rhs]),
{
    binary(g, lhs, rhs, BinOp::Or)
}

} // verus!
