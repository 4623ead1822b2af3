use vstd::prelude::*;
use crate::expr::{binary, built, unary, Expression};
use crate::graph::{operand_valid, Graph, Operand};
use crate::ops::{BinOp, Op, UnOp};

verus! {

/// Whether a text is empty.
pub fn is_empty(g: &mut Graph, value: Operand) -> (r: Expression)
    requires
        old(g).wf(),
        operand_valid(old(g), value),
    ensures
        built(old(g), final(g), r, Op::Unary(UnOp::IsEmpty), seq![value]),
{
    unary(g, value, UnOp::IsEmpty)
}

/// The length of a text in UTF-8 bytes.
pub fn len(g: &mut Graph, value: Operand) -> (r: Expression)
    requires
        old(g).wf(),
        operand_valid(old(g), value),
    ensures
        built(old(g), final(g), r, Op::Unary(UnOp::Len), seq![value]),
{
    unary(g, value, UnOp::Len)
}

/// The text that a value displays as.
pub fn to_string(g: &mut Graph, value: Operand) -> (r: Expression)
    requires
        old(g).wf(),
        operand_valid(old(g), value),
    ensures
        built(old(g), final(g), r, Op::Unary(UnOp::Format), seq![value]),
{
    unary(g, value, UnOp::Format)
}

/// A text without its leading and trailing white space.
pub fn trim(g: &mut Graph, value: Operand) -> (r: Expression)
    requires
        old(g).wf(),
        operand_valid(old(g), value),
    ensures
        built(old(g), final(g), r, Op::Unary(UnOp::Trim), seq![value]),
{
    unary(g, value, UnOp::Trim)
}

/// The lowercase form of a text.
pub fn to_lowercase(g: &mut Graph, value: Operand) -> (r: Expression)
    requires
        old(g).wf(),
        operand_valid(old(g), value),
    ensures
        built(old(g), final(g), r, Op::Unary(UnOp::Lowercase), seq![value]),
{
    unary(g, value, UnOp::Lowercase)
}

/// The text of `lhs` followed by the text of `rhs`; a vanished text reads as
/// empty.
pub fn concat(g: &mut Graph, lhs: Operand, rhs: Operand) -> (r: Expression)
    requires
        old(g).wf(),
        operand_valid(old(g), lhs),
        operand_valid(old(g), rhs),
    ensures
        built(old(g), final(g), r, Op::Binary(BinOp::Concat), seq![lhs, rhs]),
{
    binary(g, lhs, rhs, BinOp::Concat)
}

} // verus!
