//! Derived expressions: nodes of the graph whose value is computed from cells
//! and other nodes, cached, and recomputed only after an operand changed.
pub mod cmp;
pub mod logic;
pub mod math;
pub mod text;

use vstd::prelude::*;
use crate::graph::{borrows_kept, kept, fields_unchanged, keeps_dead, lemma_node_value, operand_vals, operand_valid, operands_ok, Graph, Operand};
use crate::ops::eval;
use crate::obsv::ObservablePtr;
use crate::ops::{opt_view, BinOp, Op, UnOp};
use crate::value::{Value, ValueModel};

verus! {

/// A handle to a derived node of a graph.
#[derive(Clone, Copy, Debug)]
pub struct Expression {
    pub node: usize,
}

/// `g1` is `g0` with one more node, `e`, that combines `ops` by `op`; the node
/// is clean and holds its value, and nothing else that can be read changed.
pub open spec fn built(g0: &Graph, g1: &Graph, e: Expression, op: Op, ops: Seq<Operand>) -> bool {
    &&& g1.wf()
    &&& kept(g0, g1)
    &&& borrows_kept(g0, g1)
    &&& e.node == g0.node_count()
    &&& g1.node_count() == g0.node_count() + 1
    &&& g1.node_op(e.node as int) == op
    &&& g1.node_operands(e.node as int) == ops
    &&& !g1.node_dirty(e.node as int)
    &&& g1.node_cached(e.node as int) == g1.current(e.node as int)
    &&& forall|x: usize| #[trigger] g1.node_leaves(e.node as int).contains(x) ==> x < g0.cell_count()
    &&& forall|x: usize|
        #[trigger] g1.node_leaves(e.node as int).contains(x) <==> exists|k: int|
            0 <= k < ops.len() && #[trigger] g0.source_leaves(ops[k]).contains(x)
    &&& forall|m: int| 0 <= m < g0.node_count() ==> #[trigger] g1.current(m) == g0.current(m)
    &&& forall|x: usize| #![trigger g1.cell_alive(x)] #![trigger g1.cell_value(x)] g1.cell_val(x) == g0.cell_val(x)
    &&& keeps_dead(g0, g1)
    &&& fields_unchanged(g0, g1)
}

/// `g1` and `v` are the graph and the result after reading node `n` of `g0`:
/// the result is the node's current value, the node is clean afterwards, and a
/// node that was clean is read without any change to the graph.
pub open spec fn got(g0: &Graph, g1: &Graph, n: int, v: Option<ValueModel>) -> bool {
    &&& v == g0.current(n)
    &&& !g1.node_dirty(n)
    &&& !g0.node_dirty(n) ==> *g1 == *g0
}

/// Reading a node gives its combining function applied to the values that its
/// operands hold at the time of the read, however many changes and skipped
/// reads came before.
pub proof fn lemma_get_combines_current(g0: &Graph, g1: &Graph, n: int, v: Option<ValueModel>)
    requires
        g0.wf(),
        0 <= n < g0.node_count(),
        got(g0, g1, n, v),
    ensures
        v == eval(g0.node_op(n), operand_vals(g0, n)),
{
    lemma_node_value(g0, n);
}

/// Reading a node twice with no change in between gives the same value, and the
/// second read changes nothing, so it does not compute again.
pub proof fn lemma_get_idempotent(
    g0: &Graph,
    g1: &Graph,
    g2: &Graph,
    n: int,
    v1: Option<ValueModel>,
    v2: Option<ValueModel>,
)
    requires
        got(g0, g1, n, v1),
        got(g1, g2, n, v2),
        g1.current(n) == g0.current(n),
    ensures
        v1 == v2,
        *g2 == *g1,
{
}

/// The operands that name the targets of `targets`, in order.
pub open spec fn cells_of(targets: Seq<ObservablePtr>) -> Seq<Operand> {
    targets.map_values(|p: ObservablePtr| Operand::Cell(p.cell))
}

pub(crate) fn build(g: &mut Graph, op: Op, operands: Vec<Operand>) -> (r: Expression)
    requires
        old(g).wf(),
        operands_ok(old(g), op, operands@),
    ensures
        built(old(g), final(g), r, op, operands@),
{
    Expression { node: g.add_node(op, operands) }
}

impl Expression {
    /// A node that combines the cells behind `targets` by `op`. Its first value
    /// is computed at once.
    pub fn new(g: &mut Graph, targets: &Vec<ObservablePtr>, op: Op) -> (r: Expression)
        requires
            old(g).wf(),
            operands_ok(old(g), op, cells_of(targets@)),
        ensures
            built(old(g), final(g), r, op, cells_of(targets@)),
    {
        let mut ops: Vec<Operand> = Vec::new();
        let mut i: usize = 0;
        while i < targets.len()
            invariant
                i <= targets.len(),
                ops@ == cells_of(targets@.take(i as int)),
            decreases targets.len() - i,
        {
            ops.push(Operand::Cell(targets[i].cell));
            proof {
                assert(targets@.take(i + 1) =~= targets@.take(i as int).push(targets@[i as int]));
                assert(ops@ =~= cells_of(targets@.take(i + 1)));
            }
            i = i + 1;
        }
        proof {
            assert(targets@.take(targets@.len() as int) =~= targets@);
        }
        build(g, op, ops)
    }

    /// A node that applies `u` to `target`.
    pub fn new_unary(g: &mut Graph, target: Operand, u: UnOp) -> (r: Expression)
        requires
            old(g).wf(),
            operand_valid(old(g), target),
        ensures
            built(old(g), final(g), r, Op::Unary(u), seq![target]),
    {
        unary(g, target, u)
    }

    /// The value of this node: the cached one while clean, else recomputed from
    /// the current values of its operands, then cached.
    pub fn get(&self, g: &mut Graph) -> (r: Option<Value>)
        requires
            old(g).wf(),
            self.node < old(g).node_count(),
        ensures
            final(g).wf(),
            kept(old(g), final(g)),
            borrows_kept(old(g), final(g)),
            got(old(g), final(g), self.node as int, opt_view(r)),
            forall|m: int| #[trigger] final(g).current(m) == old(g).current(m),
            forall|x: usize| #![trigger final(g).cell_alive(x)] #![trigger final(g).cell_value(x)] final(g).cell_val(x) == old(g).cell_val(x),
            keeps_dead(old(g), final(g)),
            fields_unchanged(old(g), final(g)),
            final(g).node_count() == old(g).node_count(),
            final(g).cell_count() == old(g).cell_count(),
            final(g).handler_count() == old(g).handler_count(),
    {
        g.get_node(self.node)
    }

    /// What another expression reads when it takes this one as an operand.
    pub fn operand(&self) -> (r: Operand)
        ensures
            r == Operand::Node(self.node),
    {
        Operand::Node(self.node)
    }
}

/// The wrapping sum of the cells behind `targets`; a cell that is gone counts as 0.
pub fn sum(g: &mut Graph, targets: &Vec<ObservablePtr>) -> (r: Expression)
    requires
        old(g).wf(),
        forall|k: int| 0 <= k < targets@.len() ==> #[trigger] targets@[k].cell < old(g).cell_count(),
    ensures
        built(old(g), final(g), r, Op::Sum, cells_of(targets@)),
{
    proof {
        assert forall|k: int| 0 <= k < cells_of(targets@).len() implies operand_valid(old(g), #[trigger] cells_of(targets@)[k])
            && cells_of(targets@)[k] is Cell by {
            assert(cells_of(targets@)[k] == Operand::Cell(targets@[k].cell));
        }
    }
    Expression::new(g, targets, Op::Sum)
}

/// Whether every cell behind `targets` that is still there holds true; false
/// when none is there.
pub fn and(g: &mut Graph, targets: &Vec<ObservablePtr>) -> (r: Expression)
    requires
        old(g).wf(),
        forall|k: int| 0 <= k < targets@.len() ==> #[trigger] targets@[k].cell < old(g).cell_count(),
    ensures
        built(old(g), final(g), r, Op::All, cells_of(targets@)),
{
    proof {
        assert forall|k: int| 0 <= k < cells_of(targets@).len() implies operand_valid(old(g), #[trigger] cells_of(targets@)[k])
            && cells_of(targets@)[k] is Cell by {
            assert(cells_of(targets@)[k] == Operand::Cell(targets@[k].cell));
        }
    }
    Expression::new(g, targets, Op::All)
}

/// The text of the cell behind `target`; empty text once the cell is gone.
pub fn to_string(g: &mut Graph, target: &ObservablePtr) -> (r: Expression)
    requires
        old(g).wf(),
        target.cell < old(g).cell_count(),
    ensures
        built(old(g), final(g), r, Op::ToText, seq![Operand::Cell(target.cell)]),
{
    let mut ops: Vec<Operand> = Vec::new();
    ops.push(Operand::Cell(target.cell));
    proof {
        assert(ops@ =~= seq![Operand::Cell(target.cell)]);
    }
    build(g, Op::ToText, ops)
}

/// A node that applies `u` to `src`.
pub fn unary(g: &mut Graph, src: Operand, u: UnOp) -> (r: Expression)
    requires
        old(g).wf(),
        operand_valid(old(g), src),
    ensures
        built(old(g), final(g), r, Op::Unary(u), seq![src]),
{
    let mut ops: Vec<Operand> = Vec::new();
    ops.push(src);
    proof {
        assert(ops@ =~= seq![src]);
    }
    build(g, Op::Unary(u), ops)
}

/// A node that applies `b` to `lhs` and `rhs`.
pub fn binary(g: &mut Graph, lhs: Operand, rhs: Operand, b: BinOp) -> (r: Expression)
    requires
        old(g).wf(),
        operand_valid(old(g), lhs),
        operand_valid(old(g), rhs),
    ensures
        built(old(g), final(g), r, Op::Binary(b), seq![lhs, rhs]),
{
    let mut ops: Vec<Operand> = Vec::new();
    ops.push(lhs);
    ops.push(rhs);
    proof {
        assert(ops@ =~= seq![lhs, rhs]);
    }
    build(g, Op::Binary(b), ops)
}

} // verus!
