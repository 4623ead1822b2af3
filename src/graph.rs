//! The dependency graph that owns every cell, invalidation handler, derived
//! expression and bound field, and keeps the rules that tie them together.
use vstd::prelude::*;
use crate::borrow::BorrowCounts;
use crate::ops::{apply, eval, eval_binary, eval_unary, opt_view, opts_view, Op};
use crate::rcref::{slot_alive, Heap, RcRef};
use crate::value::{Value, ValueModel};
use crate::weak::{ids_of, lemma_live_ids_alive, lemma_live_ids_keeps, lemma_live_ids_no_dup, live_ids, WeakList};

verus! {

/// Who owns an invalidation handler.
#[derive(Clone, Copy, Debug, PartialEq, Eq, Structural)]
pub enum Owner {
    User,
    Node(usize),
    Field(usize),
}

/// The state of an invalidation handler: whether it fired since it was last
/// cleared, and how many times it fired in all (saturating).
#[derive(Clone, Copy, Debug)]
pub struct Handler {
    pub pending: bool,
    pub count: u64,
    pub owner: Owner,
}

/// The state of a handler after it fired once.
pub open spec fn bumped(h: Handler) -> Handler {
    Handler {
        pending: true,
        count: if h.count < u64::MAX {
            (h.count + 1) as u64
        } else {
            h.count
        },
        owner: h.owner,
    }
}

/// Where a derived value reads one of its operands: a cell, or another node.
#[derive(Clone, Copy, Debug, PartialEq, Eq, Structural)]
pub enum Operand {
    Cell(usize),
    Node(usize),
}

/// One cell: its value, whether it is still alive, its access accounting and
/// the handlers to invalidate when it changes.
pub struct CellData {
    pub(crate) value: Value,
    pub(crate) alive: bool,
    pub(crate) borrow_counts: BorrowCounts,
    pub(crate) on_invalidated: WeakList,
    pub(crate) in_field: bool,
}

/// One derived node: how it combines its operands, the cells it depends on,
/// its own handler (its dirty flag) and the value it last computed.
pub struct Node {
    pub(crate) op: Op,
    pub(crate) operands: Vec<Operand>,
    pub(crate) leaves: Vec<usize>,
    pub(crate) handler: usize,
    pub(crate) cached: Option<Value>,
}

/// The link of a bound field to the value it mirrors.
#[derive(Clone, Copy, Debug)]
pub struct FieldBinding {
    pub source: Operand,
    pub handler: usize,
}

/// A field: a cell of its own, and optionally a binding that it mirrors.
pub struct Field {
    pub(crate) cell: usize,
    pub(crate) binding: Option<FieldBinding>,
}

/// Owns every cell, handler, node and field. There is no process-wide state:
/// each graph is independent of every other.
pub struct Graph {
    pub(crate) cells: Vec<CellData>,
    pub(crate) handlers: Heap<Handler>,
    pub(crate) nodes: Vec<Node>,
    pub(crate) fields: Vec<Field>,
}

impl Graph {
    pub closed spec fn cell_count(&self) -> nat {
        self.cells@.len()
    }

    pub closed spec fn cell_alive(&self, c: usize) -> bool {
        c < self.cells@.len() && self.cells@[c as int].alive
    }

    /// The value held by cell `c`.
    pub closed spec fn cell_value(&self, c: usize) -> ValueModel {
        self.cells@[c as int].value@
    }

    /// What a weak handle to cell `c` reads: its value, or nothing once it is gone.
    pub open spec fn cell_val(&self, c: usize) -> Option<ValueModel> {
        if self.cell_alive(c) {
            Some(self.cell_value(c))
        } else {
            None
        }
    }

    pub closed spec fn cell_borrows(&self, c: usize) -> BorrowCounts {
        self.cells@[c as int].borrow_counts
    }

    /// The handler entries registered on cell `c`, dead ones included.
    pub closed spec fn listeners(&self, c: usize) -> Seq<usize> {
        self.cells@[c as int].on_invalidated@
    }

    /// The handler slots: a live handler's state, or nothing once it is released.
    pub closed spec fn handler_slots(&self) -> Seq<Option<Handler>> {
        self.handlers@
    }

    pub open spec fn handler_count(&self) -> nat {
        self.handler_slots().len()
    }

    pub open spec fn handler_alive(&self, h: usize) -> bool {
        slot_alive(self.handler_slots(), h)
    }

    pub open spec fn handler(&self, h: usize) -> Handler {
        self.handler_slots()[h as int].unwrap()
    }

    /// The live handlers registered on cell `c`, in order: those that a change fires.
    pub open spec fn live_listeners(&self, c: usize) -> Seq<usize> {
        live_ids(self.listeners(c), self.handler_slots())
    }

    pub closed spec fn node_count(&self) -> nat {
        self.nodes@.len()
    }

    pub closed spec fn node_op(&self, n: int) -> Op {
        self.nodes@[n].op
    }

    pub closed spec fn node_operands(&self, n: int) -> Seq<Operand> {
        self.nodes@[n].operands@
    }

    pub closed spec fn node_leaves(&self, n: int) -> Seq<usize> {
        self.nodes@[n].leaves@
    }

    pub closed spec fn node_handler(&self, n: int) -> usize {
        self.nodes@[n].handler
    }

    /// Whether node `n` must recompute before its next read.
    pub open spec fn node_dirty(&self, n: int) -> bool {
        self.handler(self.node_handler(n)).pending
    }

    pub closed spec fn node_cached(&self, n: int) -> Option<ValueModel> {
        opt_view(self.nodes@[n].cached)
    }

    /// The value of operand `o` as read by node `n`: a cell's value while it is
    /// alive, an earlier node's current value.
    pub open spec fn operand_val(&self, n: int, o: Operand) -> Option<ValueModel> {
        match o {
            Operand::Cell(c) => self.cell_val(c),
            Operand::Node(m) => if 0 <= m < n {
                self.current(m as int)
            } else {
                None
            },
        }
    }

    /// The values of the cells that `ops` names; other operands read as absent.
    pub open spec fn cell_args(&self, ops: Seq<Operand>) -> Seq<Option<ValueModel>> {
        ops.map_values(
            |o: Operand|
                match o {
                    Operand::Cell(c) => self.cell_val(c),
                    Operand::Node(_) => None,
                },
        )
    }

    /// What node `n` yields when computed from the current values of its operands.
    pub open spec fn current(&self, n: int) -> Option<ValueModel>
        decreases n,
    {
        if 0 <= n < self.node_count() {
            let op = self.node_op(n);
            let ops = self.node_operands(n);
            let a0 = if ops.len() > 0 {
                match ops[0] {
                    Operand::Cell(c) => self.cell_val(c),
                    Operand::Node(m) => if 0 <= m < n {
                        self.current(m as int)
                    } else {
                        None
                    },
                }
            } else {
                None
            };
            let a1 = if ops.len() > 1 {
                match ops[1] {
                    Operand::Cell(c) => self.cell_val(c),
                    Operand::Node(m) => if 0 <= m < n {
                        self.current(m as int)
                    } else {
                        None
                    },
                }
            } else {
                None
            };
            match op {
                Op::Unary(u) => eval_unary(u, a0),
                Op::Binary(b) => eval_binary(b, a0, a1),
                _ => eval(op, self.cell_args(ops)),
            }
        } else {
            None
        }
    }

    /// The value a field bound to `o` mirrors, when there is one.
    pub open spec fn source_val(&self, o: Operand) -> Option<ValueModel> {
        self.operand_val(self.node_count() as int, o)
    }

    /// The cells whose values `o` depends on.
    pub open spec fn source_leaves(&self, o: Operand) -> Seq<usize> {
        match o {
            Operand::Cell(c) => seq![c],
            Operand::Node(m) => self.node_leaves(m as int),
        }
    }

    pub closed spec fn operand_ok(&self, bound: int, o: Operand) -> bool {
        match o {
            Operand::Cell(c) => c < self.cells@.len(),
            Operand::Node(m) => 0 <= m < bound,
        }
    }

    pub closed spec fn field_count(&self) -> nat {
        self.fields@.len()
    }

    pub closed spec fn field_cell(&self, f: int) -> usize {
        self.fields@[f].cell
    }

    pub closed spec fn field_binding(&self, f: int) -> Option<FieldBinding> {
        self.fields@[f].binding
    }

    /// The rules on cells: listener entries name allocated handlers, each once,
    /// and access accounting is consistent.
    pub closed spec fn cells_wf(&self) -> bool {
        forall|c: usize|
            c < self.cells@.len() ==> {
                &&& (#[trigger] self.listeners(c)).no_duplicates()
                &&& forall|k: int|
                    0 <= k < self.listeners(c).len() ==> self.listeners(c)[k] < self.handlers@.len()
                &&& self.cell_borrows(c).wf()
            }
    }

    /// The shape of node `n`: its operands come before it, its leaves cover the
    /// leaves of its operands, and its handler belongs to it.
    pub closed spec fn node_shape(&self, n: int) -> bool {
        let node = self.nodes@[n];
        let ops = node.operands@;
        &&& self.handler_alive(node.handler)
        &&& self.handler(node.handler).owner == Owner::Node(n as usize)
        &&& match node.op {
            Op::Unary(_) => ops.len() == 1,
            Op::Binary(_) => ops.len() == 2,
            Op::ToText => ops.len() == 1 && ops[0] is Cell,
            _ => forall|k: int| 0 <= k < ops.len() ==> (#[trigger] ops[k]) is Cell,
        }
        &&& forall|k: int|
            0 <= k < ops.len() ==> match #[trigger] ops[k] {
                Operand::Cell(c) => c < self.cells@.len() && node.leaves@.contains(c),
                Operand::Node(m) => 0 <= m < n && forall|x: usize|
                    #[trigger] self.nodes@[m as int].leaves@.contains(x) ==> node.leaves@.contains(x),
            }
        &&& forall|k: int| 0 <= k < node.leaves@.len() ==> #[trigger] node.leaves@[k] < self.cells@.len()
    }

    /// Node `n` is subscribed to every live cell it depends on, and its cached
    /// value is right whenever it is clean.
    pub closed spec fn node_sync(&self, n: int) -> bool {
        let node = self.nodes@[n];
        &&& forall|x: usize|
            #[trigger] node.leaves@.contains(x) && self.cell_alive(x) ==> self.listeners(x).contains(
                node.handler,
            )
        &&& !self.handler(node.handler).pending ==> opt_view(node.cached) == self.current(n)
    }

    /// The rules on field `f`: its cell is alive, and a binding's handler belongs
    /// to it, listens to its source and to its own cell, and while clean the
    /// cell holds the source's value.
    pub closed spec fn field_wf(&self, f: int) -> bool {
        let fd = self.fields@[f];
        &&& self.cell_alive(fd.cell)
        &&& self.cells@[fd.cell as int].in_field
        &&& match fd.binding {
            None => true,
            Some(b) => {
                &&& self.handler_alive(b.handler)
                &&& self.handler(b.handler).owner == Owner::Field(f as usize)
                &&& self.operand_ok(self.nodes@.len() as int, b.source)
                &&& !self.source_leaves(b.source).contains(fd.cell)
                &&& self.listeners(fd.cell).contains(b.handler)
                &&& forall|x: usize|
                    #[trigger] self.source_leaves(b.source).contains(x) && self.cell_alive(x)
                        ==> self.listeners(x).contains(b.handler)
                &&& !self.handler(b.handler).pending ==> (self.source_val(b.source) matches Some(v)
                    ==> self.cell_value(fd.cell) == v)
            },
        }
    }

    pub closed spec fn wf(&self) -> bool {
        &&& self.cells_wf()
        &&& forall|n: int| 0 <= n < self.nodes@.len() ==> #[trigger] self.node_shape(n)
        &&& forall|n: int| 0 <= n < self.nodes@.len() ==> #[trigger] self.node_sync(n)
        &&& forall|f: int| 0 <= f < self.fields@.len() ==> #[trigger] self.field_wf(f)
    }

    /// Create an empty graph.
    pub fn new() -> (g: Graph)
        ensures
            g.wf(),
            g.cell_count() == 0,
            g.handler_count() == 0,
            g.node_count() == 0,
            g.field_count() == 0,
    {
        Graph { cells: Vec::new(), handlers: Heap::new(), nodes: Vec::new(), fields: Vec::new() }
    }
}

/// `g1` has every node of `g0`, with the same combining function, operands and leaves.
pub closed spec fn same_nodes(g0: &Graph, g1: &Graph) -> bool {
    &&& g0.nodes@.len() <= g1.nodes@.len()
    &&& forall|m: int|
        0 <= m < g0.nodes@.len() ==> {
            &&& (#[trigger] g1.nodes@[m]).op == g0.nodes@[m].op
            &&& g1.nodes@[m].operands@ == g0.nodes@[m].operands@
            &&& g1.nodes@[m].leaves@ == g0.nodes@[m].leaves@
        }
}

/// A node's value depends only on the cells among its leaves.
proof fn lemma_current_frame(g0: &Graph, g1: &Graph, n: int)
    requires
        0 <= n < g0.nodes@.len(),
        same_nodes(g0, g1),
        forall|m: int| 0 <= m < g0.nodes@.len() ==> #[trigger] g0.node_shape(m),
        forall|x: usize| #[trigger] g0.nodes@[n].leaves@.contains(x) ==> g0.cell_val(x) == g1.cell_val(x),
    ensures
        g0.current(n) == g1.current(n),
    decreases n,
{
    let node = g0.nodes@[n];
    let ops = node.operands@;
    assert(g0.node_shape(n));
    assert forall|k: int| 0 <= k < ops.len() implies g0.operand_val(n, #[trigger] ops[k]) == g1.operand_val(n, ops[k]) by {
        match ops[k] {
            Operand::Cell(c) => {
                assert(node.leaves@.contains(c));
            },
            Operand::Node(m) => {
                assert(0 <= m < n);
                assert forall|x: usize| #[trigger] g0.nodes@[m as int].leaves@.contains(x) implies g0.cell_val(x) == g1.cell_val(x) by {
                    assert(node.leaves@.contains(x));
                }
                lemma_current_frame(g0, g1, m as int);
            },
        }
    }
    assert(g1.nodes@[n].operands@ == ops);
    match node.op {
        Op::Unary(_) => {
            assert(g0.operand_val(n, ops[0]) == g1.operand_val(n, ops[0]));
        },
        Op::Binary(_) => {
            assert(g0.operand_val(n, ops[0]) == g1.operand_val(n, ops[0]));
            assert(g0.operand_val(n, ops[1]) == g1.operand_val(n, ops[1]));
        },
        _ => {
            assert forall|k: int| 0 <= k < ops.len() implies #[trigger] g0.cell_args(ops)[k] == g1.cell_args(ops)[k] by {
                assert(ops[k] is Cell);
            }
            assert(g0.cell_args(ops) =~= g1.cell_args(ops));
        },
    }
}

/// `g1` is `g0` after cell `c` changed (its value, or it died) and then fired
/// every live handler registered on it.
pub closed spec fn changed_and_fired(g0: &Graph, g1: &Graph, c: usize) -> bool {
    &&& g1.cells@.len() == g0.cells@.len()
    &&& forall|x: usize| x < g0.cells@.len() && x != c ==> #[trigger] g1.cells@[x as int] == g0.cells@[x as int]
    &&& g1.cells@[c as int].borrow_counts == g0.cells@[c as int].borrow_counts
    &&& g1.cells@[c as int].in_field == g0.cells@[c as int].in_field
    &&& g1.listeners(c) == g0.live_listeners(c)
    &&& (g1.cell_alive(c) ==> g0.cell_alive(c))
    &&& g0.cell_alive(c)
    &&& g1.handlers@.len() == g0.handlers@.len()
    &&& forall|h: usize|
        h < g0.handlers@.len() ==> #[trigger] g1.handlers@[h as int] == if g0.live_listeners(c).contains(h) {
            Some(bumped(g0.handler(h)))
        } else {
            g0.handlers@[h as int]
        }
    &&& g1.nodes@ == g0.nodes@
    &&& g1.fields@ == g0.fields@
}

/// Changing a cell and firing its handlers keeps the graph's rules.
proof fn lemma_change_and_fire(g0: &Graph, g1: &Graph, c: usize)
    requires
        g0.wf(),
        c < g0.cells@.len(),
        changed_and_fired(g0, g1, c),
        g1.cell_alive(c) || !g0.cells@[c as int].in_field,
    ensures
        g1.wf(),
{
    let live = g0.live_listeners(c);
    assert(g0.cells_wf());
    assert(g0.listeners(c).no_duplicates());
    lemma_live_ids_no_dup(g0.listeners(c), g0.handlers@);
    lemma_live_ids_alive(g0.listeners(c), g0.handlers@);
    assert forall|h: usize| #[trigger] g1.handler_alive(h) == g0.handler_alive(h) by {
        if h < g0.handlers@.len() {
            assert(g1.handlers@[h as int] == if live.contains(h) { Some(bumped(g0.handler(h))) } else { g0.handlers@[h as int] });
            if live.contains(h) {
                let k = choose|k: int| 0 <= k < live.len() && live[k] == h;
                assert(slot_alive(g0.handlers@, live[k]));
            }
        }
    }
    assert forall|h: usize| g0.handler_alive(h) implies #[trigger] g1.handler(h).owner == g0.handler(h).owner
        && (!g1.handler(h).pending ==> !g0.handler(h).pending)
        && (live.contains(h) ==> g1.handler(h).pending) by {
        assert(g1.handlers@[h as int] == if live.contains(h) { Some(bumped(g0.handler(h))) } else { g0.handlers@[h as int] });
    }
    assert forall|x: usize, h: usize| x < g0.cells@.len() && g0.handler_alive(h) && #[trigger] g0.listeners(x).contains(h)
        implies #[trigger] g1.listeners(x).contains(h) by {
        if x == c {
            lemma_live_ids_keeps(g0.listeners(c), g0.handlers@, h);
        } else {
            assert(g1.cells@[x as int] == g0.cells@[x as int]);
        }
    }
    assert forall|x: usize| #![trigger g1.cell_alive(x)] #![trigger g1.cell_value(x)] x != c implies g1.cell_val(x) == g0.cell_val(x) by {
        if x < g0.cells@.len() {
            assert(g1.cells@[x as int] == g0.cells@[x as int]);
        }
    }
    assert(same_nodes(g0, g1));
    // the listener lists
    assert forall|x: usize| x < g1.cells@.len() implies {
        &&& (#[trigger] g1.listeners(x)).no_duplicates()
        &&& forall|k: int| 0 <= k < g1.listeners(x).len() ==> g1.listeners(x)[k] < g1.handlers@.len()
        &&& g1.cell_borrows(x).wf()
    } by {
        assert(g0.listeners(x).no_duplicates());
        assert(g0.cell_borrows(x).wf());
        if x == c {
            assert forall|k: int| 0 <= k < g1.listeners(x).len() implies g1.listeners(x)[k] < g1.handlers@.len() by {
                assert(slot_alive(g0.handlers@, live[k]));
            }
        } else {
            assert(g1.cells@[x as int] == g0.cells@[x as int]);
        }
    }
    assert(g1.cells_wf());
    assert forall|n: int| 0 <= n < g1.nodes@.len() implies #[trigger] g1.node_shape(n) by {
        assert(g0.node_shape(n));
        let node = g0.nodes@[n];
        assert(g1.handler_alive(node.handler));
        assert(g1.handler(node.handler).owner == g0.handler(node.handler).owner);
    }
    assert forall|n: int| 0 <= n < g1.nodes@.len() implies #[trigger] g1.node_sync(n) by {
        assert(g0.node_sync(n));
        assert(g0.node_shape(n));
        let node = g0.nodes@[n];
        let h = node.handler;
        assert forall|x: usize| #[trigger] node.leaves@.contains(x) && g1.cell_alive(x) implies g1.listeners(x).contains(h) by {
            let k = choose|k: int| 0 <= k < node.leaves@.len() && node.leaves@[k] == x;
            assert(node.leaves@[k] < g0.cells@.len());
            if x == c {
                assert(g0.cell_alive(x));
            } else {
                assert(g1.cells@[x as int] == g0.cells@[x as int]);
            }
            assert(g0.listeners(x).contains(h));
        }
        if !g1.handler(h).pending {
            assert(!g0.handler(h).pending);
            if node.leaves@.contains(c) {
                assert(g0.listeners(c).contains(h));
                lemma_live_ids_keeps(g0.listeners(c), g0.handlers@, h);
                assert(false);
            }
            assert forall|x: usize| #[trigger] g0.nodes@[n].leaves@.contains(x) implies g0.cell_val(x) == g1.cell_val(x) by {
            }
            lemma_current_frame(g0, g1, n);
        }
    }
    assert forall|f: int| 0 <= f < g1.fields@.len() implies #[trigger] g1.field_wf(f) by {
        assert(g0.field_wf(f));
        let fd = g0.fields@[f];
        if fd.cell == c {
            assert(g1.cell_alive(c));
        } else {
            assert(g1.cells@[fd.cell as int] == g0.cells@[fd.cell as int]);
        }
        match fd.binding {
            None => {},
            Some(b) => {
                let h = b.handler;
                assert(g1.handler_alive(h));
                assert(g1.listeners(fd.cell).contains(h));
                assert(g1.source_leaves(b.source) == g0.source_leaves(b.source));
                assert forall|x: usize| #[trigger] g1.source_leaves(b.source).contains(x) && g1.cell_alive(x)
                    implies g1.listeners(x).contains(h) by {
                    if x == c {
                        assert(g0.cell_alive(x));
                    } else {
                        if x < g0.cells@.len() {
                            assert(g1.cells@[x as int] == g0.cells@[x as int]);
                        }
                    }
                    assert(g0.listeners(x).contains(h));
                }
                if !g1.handler(h).pending {
                    assert(!g0.handler(h).pending);
                    if fd.cell == c {
                        lemma_live_ids_keeps(g0.listeners(c), g0.handlers@, h);
                        assert(false);
                    }
                    if g0.source_leaves(b.source).contains(c) {
                        assert(g0.listeners(c).contains(h));
                        lemma_live_ids_keeps(g0.listeners(c), g0.handlers@, h);
                        assert(false);
                    }
                    match b.source {
                        Operand::Cell(s) => {
                            assert(g0.source_leaves(b.source)[0] == s);
                            assert(s != c);
                        },
                        Operand::Node(m) => {
                            assert forall|x: usize| #[trigger] g0.nodes@[m as int].leaves@.contains(x) implies g0.cell_val(x) == g1.cell_val(x) by {
                            }
                            lemma_current_frame(g0, g1, m as int);
                        },
                    }
                    assert(g1.cell_value(fd.cell) == g0.cell_value(fd.cell));
                }
            },
        }
    }
}

fn bump(h: Handler) -> (r: Handler)
    ensures
        r == bumped(h),
{
    Handler {
        pending: true,
        count: if h.count < u64::MAX {
            h.count + 1
        } else {
            h.count
        },
        owner: h.owner,
    }
}

impl Graph {
    /// Fire every live handler registered on cell `c` once, and drop the dead
    /// entries of its list.
    fn fire(&mut self, c: usize)
        requires
            c < old(self).cells@.len(),
            old(self).cells_wf(),
        ensures
            final(self).cells@.len() == old(self).cells@.len(),
            forall|x: usize|
                x < old(self).cells@.len() && x != c ==> #[trigger] final(self).cells@[x as int] == old(
                    self,
                ).cells@[x as int],
            final(self).cells@[c as int].value == old(self).cells@[c as int].value,
            final(self).cells@[c as int].alive == old(self).cells@[c as int].alive,
            final(self).cells@[c as int].borrow_counts == old(self).cells@[c as int].borrow_counts,
            final(self).cells@[c as int].in_field == old(self).cells@[c as int].in_field,
            final(self).listeners(c) == old(self).live_listeners(c),
            final(self).handlers@.len() == old(self).handlers@.len(),
            forall|h: usize|
                h < old(self).handlers@.len() ==> #[trigger] final(self).handlers@[h as int] == if old(
                    self,
                ).live_listeners(c).contains(h) {
                    Some(bumped(old(self).handler(h)))
                } else {
                    old(self).handlers@[h as int]
                },
            final(self).nodes@ == old(self).nodes@,
            final(self).fields@ == old(self).fields@,
    {
        let ghost l = old(self).live_listeners(c);
        let ghost h0 = self.handlers@;
        proof {
            assert(old(self).listeners(c).no_duplicates());
            lemma_live_ids_no_dup(old(self).listeners(c), h0);
            lemma_live_ids_alive(old(self).listeners(c), h0);
        }
        let live = self.cells[c].on_invalidated.upgrade(&self.handlers);
        let ghost cells1 = self.cells@;
        let mut i: usize = 0;
        while i < live.len()
            invariant
                i <= live.len(),
                ids_of(live@) == l,
                l.no_duplicates(),
                forall|k: int| 0 <= k < l.len() ==> slot_alive(h0, #[trigger] l[k]),
                self.handlers@.len() == h0.len(),
                forall|h: usize|
                    h < h0.len() ==> #[trigger] self.handlers@[h as int] == if l.take(i as int).contains(h) {
                        Some(bumped(h0[h as int].unwrap()))
                    } else {
                        h0[h as int]
                    },
                self.cells@ == cells1,
                self.nodes@ == old(self).nodes@,
                self.fields@ == old(self).fields@,
            decreases live.len() - i,
        {
            let id = live[i].id;
            proof {
                assert(ids_of(live@)[i as int] == id);
                assert(slot_alive(h0, l[i as int]));
                assert(!l.take(i as int).contains(id)) by {
                    if l.take(i as int).contains(id) {
                        let k = choose|k: int| 0 <= k < i && #[trigger] l.take(i as int)[k] == id;
                        assert(l[k] == l[i as int]);
                    }
                }
                assert(self.handlers@[id as int] == h0[id as int]);
            }
            let cur = *self.handlers.get(id).unwrap();
            self.handlers.replace(id, bump(cur));
            proof {
                assert(l.take(i + 1) =~= l.take(i as int).push(id));
                assert forall|h: usize| h < h0.len() implies #[trigger] self.handlers@[h as int] == if l.take(i + 1).contains(h) {
                    Some(bumped(h0[h as int].unwrap()))
                } else {
                    h0[h as int]
                } by {
                    if h == id {
                        assert(l.take(i + 1)[i as int] == id);
                    } else {
                        if l.take(i as int).contains(h) {
                            let k = choose|k: int| 0 <= k < i && #[trigger] l.take(i as int)[k] == h;
                            assert(l.take(i + 1)[k] == h);
                        }
                        if l.take(i + 1).contains(h) {
                            let k = choose|k: int| 0 <= k < i + 1 && #[trigger] l.take(i + 1)[k] == h;
                            assert(k != i);
                            assert(l.take(i as int)[k] == h);
                        }
                    }
                }
            }
            i = i + 1;
        }
        proof {
            assert(l.take(l.len() as int) =~= l);
        }
    }
}

/// Cells may be added, listener lists may grow, access accounting may change
/// and handlers owned by users may come and go; as long as no cell value or
/// liveness, node or field changes, and the handlers of nodes and fields stay
/// as they are, the rules hold.
proof fn lemma_preserve(g0: &Graph, g1: &Graph)
    requires
        g0.wf(),
        g1.cells_wf(),
        g1.cells@.len() >= g0.cells@.len(),
        forall|x: usize| #![trigger g1.cell_alive(x)] #![trigger g1.cell_value(x)]
            x < g0.cells@.len() ==> {
                &&& g1.cell_val(x) == g0.cell_val(x)
                &&& g1.cells@[x as int].in_field == g0.cells@[x as int].in_field
                &&& g1.cells@[x as int].value == g0.cells@[x as int].value
            },
        forall|x: usize, h: usize|
            x < g0.cells@.len() && g0.handler_alive(h) && g0.handler(h).owner != Owner::User
                && #[trigger] g0.listeners(x).contains(h) ==> #[trigger] g1.listeners(x).contains(h),
        forall|h: usize|
            g0.handler_alive(h) && g0.handler(h).owner != Owner::User ==> #[trigger] g1.handler_alive(h)
                && g1.handler(h) == g0.handler(h),
        g1.nodes@ == g0.nodes@,
        g1.fields@ == g0.fields@,
    ensures
        g1.wf(),
{
    assert(same_nodes(g0, g1));
    assert forall|x: usize| x < g0.cells@.len() implies #[trigger] g1.cell_alive(x) == g0.cell_alive(x) by {
        assert(g1.cell_val(x) == g0.cell_val(x));
    }
    assert forall|n: int| 0 <= n < g1.nodes@.len() implies #[trigger] g1.node_shape(n) by {
        assert(g0.node_shape(n));
        assert(g1.handler_alive(g0.nodes@[n].handler));
    }
    assert forall|n: int| 0 <= n < g1.nodes@.len() implies #[trigger] g1.node_sync(n) by {
        assert(g0.node_sync(n));
        assert(g0.node_shape(n));
        let node = g0.nodes@[n];
        assert(g1.handler_alive(node.handler));
        assert forall|x: usize| #[trigger] node.leaves@.contains(x) && g1.cell_alive(x) implies g1.listeners(x).contains(node.handler) by {
            let k = choose|k: int| 0 <= k < node.leaves@.len() && node.leaves@[k] == x;
            assert(node.leaves@[k] < g0.cells@.len());
            assert(g1.cell_val(x) == g0.cell_val(x));
            assert(g0.listeners(x).contains(node.handler));
        }
        assert forall|x: usize| #[trigger] g0.nodes@[n].leaves@.contains(x) implies g0.cell_val(x) == g1.cell_val(x) by {
            let k = choose|k: int| 0 <= k < node.leaves@.len() && node.leaves@[k] == x;
            assert(node.leaves@[k] < g0.cells@.len());
        }
        lemma_current_frame(g0, g1, n);
    }
    assert forall|f: int| 0 <= f < g1.fields@.len() implies #[trigger] g1.field_wf(f) by {
        assert(g0.field_wf(f));
        let fd = g0.fields@[f];
        assert(g1.cell_val(fd.cell) == g0.cell_val(fd.cell));
        match fd.binding {
            None => {},
            Some(b) => {
                assert(g1.handler_alive(b.handler));
                assert(g0.listeners(fd.cell).contains(b.handler));
                assert(g1.source_leaves(b.source) == g0.source_leaves(b.source));
                assert forall|x: usize| #[trigger] g1.source_leaves(b.source).contains(x) && g1.cell_alive(x)
                    implies g1.listeners(x).contains(b.handler) by {
                    if x < g0.cells@.len() {
                        assert(g1.cell_val(x) == g0.cell_val(x));
                        assert(g0.listeners(x).contains(b.handler));
                    } else {
                        match b.source {
                            Operand::Cell(s) => {
                                assert(g0.source_leaves(b.source)[0] == s);
                            },
                            Operand::Node(m) => {
                                assert(g0.node_shape(m as int));
                                let k = choose|k: int| 0 <= k < g0.nodes@[m as int].leaves@.len() && g0.nodes@[m as int].leaves@[k] == x;
                                assert(g0.nodes@[m as int].leaves@[k] < g0.cells@.len());
                            },
                        }
                    }
                }
                match b.source {
                    Operand::Cell(s) => {
                        assert(g1.cell_val(s) == g0.cell_val(s));
                    },
                    Operand::Node(m) => {
                        assert(g0.node_shape(m as int));
                        assert forall|x: usize| #[trigger] g0.nodes@[m as int].leaves@.contains(x) implies g0.cell_val(x) == g1.cell_val(x) by {
                            let k = choose|k: int| 0 <= k < g0.nodes@[m as int].leaves@.len() && g0.nodes@[m as int].leaves@[k] == x;
                            assert(g0.nodes@[m as int].leaves@[k] < g0.cells@.len());
                        }
                        lemma_current_frame(g0, g1, m as int);
                    },
                }
            },
        }
    }
}

/// What every operation on a graph keeps: each node keeps its combining
/// function, operands and cells; a dead cell stays dead and each cell keeps
/// whether it belongs to a field; each field keeps its cell. Cells, nodes and
/// fields may only be added.
pub open spec fn kept(g0: &Graph, g1: &Graph) -> bool {
    &&& g0.node_count() <= g1.node_count()
    &&& forall|m: int|
        #![trigger g1.node_op(m)]
        #![trigger g1.node_operands(m)]
        #![trigger g1.node_leaves(m)]
        0 <= m < g0.node_count() ==> g1.node_op(m) == g0.node_op(m) && g1.node_operands(m) == g0.node_operands(m)
            && g1.node_leaves(m) == g0.node_leaves(m)
    &&& keeps_dead(g0, g1)
    &&& forall|x: usize| x < g0.cell_count() ==> #[trigger] g1.cell_in_field(x) == g0.cell_in_field(x)
    &&& g0.field_count() <= g1.field_count()
    &&& forall|f: int| 0 <= f < g0.field_count() ==> #[trigger] g1.field_cell(f) == g0.field_cell(f)
    &&& g0.handler_count() <= g1.handler_count()
    &&& forall|h: usize| #[trigger] g1.handler_alive(h) && h < g0.handler_count() ==> g0.handler_alive(h)
    &&& forall|x: usize, h: usize|
        x < g0.cell_count() && g0.handler_alive(h) && g1.handler_alive(h) && #[trigger] g0.listeners(x).contains(h)
            ==> #[trigger] g1.listeners(x).contains(h)
}

/// Every cell of `g0` has the same access accounting in `g1`.
pub open spec fn borrows_kept(g0: &Graph, g1: &Graph) -> bool {
    forall|x: usize| x < g0.cell_count() ==> #[trigger] g1.cell_borrows(x) == g0.cell_borrows(x)
}

/// `kept` composes.
pub proof fn lemma_kept_trans(g0: &Graph, g1: &Graph, g2: &Graph)
    requires
        kept(g0, g1),
        kept(g1, g2),
    ensures
        kept(g0, g2),
{
    assert forall|m: int|
        #![trigger g2.node_op(m)]
        #![trigger g2.node_operands(m)]
        #![trigger g2.node_leaves(m)]
        0 <= m < g0.node_count() implies g2.node_op(m) == g0.node_op(m) && g2.node_operands(m) == g0.node_operands(m)
            && g2.node_leaves(m) == g0.node_leaves(m) by {
        assert(g1.node_op(m) == g0.node_op(m));
    }
    assert forall|x: usize| x < g0.cell_count() implies #[trigger] g2.cell_in_field(x) == g0.cell_in_field(x) by {
        assert(g1.cell_in_field(x) == g0.cell_in_field(x));
    }
    assert forall|f: int| 0 <= f < g0.field_count() implies #[trigger] g2.field_cell(f) == g0.field_cell(f) by {
        assert(g1.field_cell(f) == g0.field_cell(f));
    }
    assert forall|c: usize| c < g0.cell_count() && #[trigger] g2.cell_alive(c) implies g0.cell_alive(c) by {
        assert(g1.cell_alive(c));
    }
    assert forall|h: usize| #[trigger] g2.handler_alive(h) && h < g0.handler_count() implies g0.handler_alive(h) by {
        assert(g1.handler_alive(h));
    }
    assert forall|x: usize, h: usize|
        x < g0.cell_count() && g0.handler_alive(h) && g2.handler_alive(h) && #[trigger] g0.listeners(x).contains(h)
            implies #[trigger] g2.listeners(x).contains(h) by {
        assert(g1.handler_alive(h));
        assert(g1.listeners(x).contains(h));
    }
}

/// `borrows_kept` composes.
pub proof fn lemma_borrows_kept_trans(g0: &Graph, g1: &Graph, g2: &Graph)
    requires
        borrows_kept(g0, g1),
        borrows_kept(g1, g2),
        g0.cell_count() <= g1.cell_count(),
    ensures
        borrows_kept(g0, g2),
{
    assert forall|x: usize| x < g0.cell_count() implies #[trigger] g2.cell_borrows(x) == g0.cell_borrows(x) by {
        assert(g1.cell_borrows(x) == g0.cell_borrows(x));
    }
}

proof fn lemma_kept_intro(g0: &Graph, g1: &Graph)
    requires
        g1.cells@.len() >= g0.cells@.len(),
        forall|x: usize|
            x < g0.cells@.len() ==> {
                &&& (#[trigger] g1.cells@[x as int]).in_field == g0.cells@[x as int].in_field
                &&& g1.cells@[x as int].borrow_counts == g0.cells@[x as int].borrow_counts
                &&& (g1.cells@[x as int].alive ==> g0.cells@[x as int].alive)
            },
        g1.nodes@.len() >= g0.nodes@.len(),
        forall|m: int|
            0 <= m < g0.nodes@.len() ==> {
                &&& (#[trigger] g1.nodes@[m]).op == g0.nodes@[m].op
                &&& g1.nodes@[m].operands@ == g0.nodes@[m].operands@
                &&& g1.nodes@[m].leaves@ == g0.nodes@[m].leaves@
            },
        g1.fields@.len() >= g0.fields@.len(),
        forall|f: int| 0 <= f < g0.fields@.len() ==> (#[trigger] g1.fields@[f]).cell == g0.fields@[f].cell,
        g0.handler_count() <= g1.handler_count(),
        forall|h: usize| #[trigger] g1.handler_alive(h) && h < g0.handler_count() ==> g0.handler_alive(h),
        forall|x: usize, h: usize|
            x < g0.cell_count() && g0.handler_alive(h) && g1.handler_alive(h) && #[trigger] g0.listeners(x).contains(h)
                ==> #[trigger] g1.listeners(x).contains(h),
    ensures
        kept(g0, g1),
        borrows_kept(g0, g1),
{
    assert forall|m: int|
        #![trigger g1.node_op(m)]
        #![trigger g1.node_operands(m)]
        #![trigger g1.node_leaves(m)]
        0 <= m < g0.node_count() implies g1.node_op(m) == g0.node_op(m) && g1.node_operands(m) == g0.node_operands(m)
            && g1.node_leaves(m) == g0.node_leaves(m) by {
        assert(g1.nodes@[m].op == g0.nodes@[m].op);
    }
    assert forall|x: usize| x < g0.cell_count() implies #[trigger] g1.cell_in_field(x) == g0.cell_in_field(x) by {
        assert(g1.cells@[x as int].in_field == g0.cells@[x as int].in_field);
    }
    assert forall|x: usize| x < g0.cell_count() implies #[trigger] g1.cell_borrows(x) == g0.cell_borrows(x) by {
        assert(g1.cells@[x as int].in_field == g0.cells@[x as int].in_field);
    }
    assert forall|f: int| 0 <= f < g0.field_count() implies #[trigger] g1.field_cell(f) == g0.field_cell(f) by {
        assert(g1.fields@[f].cell == g0.fields@[f].cell);
    }
    assert forall|c: usize| c < g0.cell_count() && #[trigger] g1.cell_alive(c) implies g0.cell_alive(c) by {
        assert(g1.cells@[c as int].in_field == g0.cells@[c as int].in_field);
    }
}

/// A live handler registered on cell `c` is exactly what a change of `c` fires.
pub proof fn lemma_live_listeners(g: &Graph, c: usize, h: usize)
    ensures
        g.live_listeners(c).contains(h) <==> g.listeners(c).contains(h) && g.handler_alive(h),
{
    lemma_live_ids_alive(g.listeners(c), g.handler_slots());
    if g.listeners(c).contains(h) && g.handler_alive(h) {
        lemma_live_ids_keeps(g.listeners(c), g.handler_slots(), h);
    }
    if g.live_listeners(c).contains(h) {
        let k = choose|k: int| 0 <= k < g.live_listeners(c).len() && g.live_listeners(c)[k] == h;
        assert(slot_alive(g.handler_slots(), g.live_listeners(c)[k]));
    }
}

/// No handler was added, removed or changed.
pub open spec fn handlers_unchanged(g0: &Graph, g1: &Graph) -> bool {
    &&& g1.handler_count() == g0.handler_count()
    &&& forall|h: usize| #[trigger] g1.handler_alive(h) == g0.handler_alive(h)
    &&& forall|h: usize| g0.handler_alive(h) ==> #[trigger] g1.handler(h) == g0.handler(h)
}

/// No field was added, and each keeps its cell and binding.
pub open spec fn fields_unchanged(g0: &Graph, g1: &Graph) -> bool {
    &&& g1.field_count() == g0.field_count()
    &&& forall|f: int|
        #![trigger g1.field_cell(f)]
        #![trigger g1.field_binding(f)]
        0 <= f < g0.field_count() ==> g1.field_cell(f) == g0.field_cell(f) && g1.field_binding(f) == g0.field_binding(f)
}

/// Every cell that was dead in `g0` is still dead in `g1`, and no cell was removed.
pub open spec fn keeps_dead(g0: &Graph, g1: &Graph) -> bool {
    &&& g0.cell_count() <= g1.cell_count()
    &&& forall|c: usize| c < g0.cell_count() && #[trigger] g1.cell_alive(c) ==> g0.cell_alive(c)
}

/// `g1` is `g0` after each live handler registered on cell `c` fired once.
pub open spec fn fired_listeners(g0: &Graph, g1: &Graph, c: usize) -> bool {
    &&& g1.handler_count() == g0.handler_count()
    &&& forall|h: usize| #[trigger] g1.handler_alive(h) == g0.handler_alive(h)
    &&& forall|h: usize|
        g0.handler_alive(h) ==> #[trigger] g1.handler(h) == if g0.live_listeners(c).contains(h) {
            bumped(g0.handler(h))
        } else {
            g0.handler(h)
        }
}

proof fn lemma_fire_keeps_listening(g0: &Graph, g1: &Graph, c: usize)
    requires
        changed_and_fired(g0, g1, c),
        g0.cells_wf(),
    ensures
        forall|h: usize| #[trigger] g1.handler_alive(h) == g0.handler_alive(h),
        forall|x: usize, h: usize|
            x < g0.cell_count() && g0.handler_alive(h) && g1.handler_alive(h) && #[trigger] g0.listeners(x).contains(h)
                ==> #[trigger] g1.listeners(x).contains(h),
{
    lemma_fired_listeners(g0, g1, c);
    assert forall|x: usize, h: usize|
        x < g0.cell_count() && g0.handler_alive(h) && g1.handler_alive(h) && #[trigger] g0.listeners(x).contains(h)
            implies #[trigger] g1.listeners(x).contains(h) by {
        if x == c {
            lemma_live_ids_keeps(g0.listeners(c), g0.handlers@, h);
        } else {
            assert(g1.cells@[x as int] == g0.cells@[x as int]);
        }
    }
}

proof fn lemma_fired_listeners(g0: &Graph, g1: &Graph, c: usize)
    requires
        changed_and_fired(g0, g1, c),
        g0.cells_wf(),
    ensures
        fired_listeners(g0, g1, c),
        keeps_dead(g0, g1),
        forall|x: usize| #![trigger g1.cell_alive(x)] #![trigger g1.cell_value(x)] x != c ==> g1.cell_val(x) == g0.cell_val(x),
{
    lemma_live_ids_alive(g0.listeners(c), g0.handlers@);
    assert forall|h: usize| #[trigger] g1.handler_alive(h) == g0.handler_alive(h) by {
        if h < g0.handlers@.len() {
            if g0.live_listeners(c).contains(h) {
                let k = choose|k: int| 0 <= k < g0.live_listeners(c).len() && g0.live_listeners(c)[k] == h;
                assert(slot_alive(g0.handlers@, g0.live_listeners(c)[k]));
            }
        }
    }
    assert forall|x: usize| #![trigger g1.cell_alive(x)] #![trigger g1.cell_value(x)] x != c implies g1.cell_val(x) == g0.cell_val(x) by {
        if x < g0.cells@.len() {
            assert(g1.cells@[x as int] == g0.cells@[x as int]);
        }
    }
    assert forall|x: usize| x < g0.cell_count() && #[trigger] g1.cell_alive(x) implies g0.cell_alive(x) by {
        if x != c {
            assert(g1.cells@[x as int] == g0.cells@[x as int]);
        }
    }
}

impl Graph {
    fn push_cell(&mut self, value: Value, in_field: bool) -> (c: usize)
        requires
            old(self).wf(),
        ensures
            final(self).wf(),
            c == old(self).cells@.len(),
            final(self).cells@.len() == old(self).cells@.len() + 1,
            forall|x: usize| x < old(self).cells@.len() ==> #[trigger] final(self).cells@[x as int] == old(self).cells@[x as int],
            final(self).cells@[c as int].value@ == value@,
            final(self).cells@[c as int].alive,
            final(self).cells@[c as int].in_field == in_field,
            final(self).cells@[c as int].borrow_counts.is_free(),
            final(self).listeners(c).len() == 0,
            final(self).handlers@ == old(self).handlers@,
            final(self).nodes@ == old(self).nodes@,
            final(self).fields@ == old(self).fields@,
    {
        let c = self.cells.len();
        self.cells.push(
            CellData {
                value,
                alive: true,
                borrow_counts: BorrowCounts::new(),
                on_invalidated: WeakList::new(),
                in_field,
            },
        );
        proof {
            assert forall|x: usize| x < old(self).cells@.len() implies #[trigger] self.cells@[x as int] == old(self).cells@[x as int] by {}
            assert forall|x: usize| x < self.cells@.len() implies {
                &&& (#[trigger] self.listeners(x)).no_duplicates()
                &&& forall|k: int| 0 <= k < self.listeners(x).len() ==> self.listeners(x)[k] < self.handlers@.len()
                &&& self.cell_borrows(x).wf()
            } by {
                if x < old(self).cells@.len() {
                    assert(old(self).listeners(x).no_duplicates());
                }
            }
            assert(self.cells_wf());
            lemma_preserve(old(self), self);
        }
        c
    }

    /// Add a cell holding `value`, with no listeners.
    pub fn add_cell(&mut self, value: Value) -> (c: usize)
        requires
            old(self).wf(),
        ensures
            final(self).wf(),
            kept(old(self), final(self)),
            borrows_kept(old(self), final(self)),
            c == old(self).cell_count(),
            final(self).cell_count() == old(self).cell_count() + 1,
            final(self).cell_alive(c),
            final(self).cell_value(c) == value@,
            final(self).cell_borrows(c).is_free(),
            final(self).listeners(c).len() == 0,
            !final(self).cell_in_field(c),
            forall|x: usize| #![trigger final(self).cell_alive(x)] #![trigger final(self).cell_value(x)] x < old(self).cell_count() ==> final(self).cell_val(x) == old(self).cell_val(x),
            forall|x: usize| x < old(self).cell_count() ==> #[trigger] final(self).cell_in_field(x) == old(self).cell_in_field(x),
            keeps_dead(old(self), final(self)),
            handlers_unchanged(old(self), final(self)),
            final(self).node_count() == old(self).node_count(),
            final(self).field_count() == old(self).field_count(),
    {
        self.push_cell(value, false)
    }

    /// The value of a live cell.
    pub fn cell_get(&self, c: usize) -> (r: &Value)
        requires
            self.cell_alive(c),
        ensures
            r@ == self.cell_value(c),
    {
        &self.cells[c].value
    }

    /// Whether cell `c` is still alive.
    pub fn is_cell_alive(&self, c: usize) -> (r: bool)
        ensures
            r == self.cell_alive(c),
    {
        c < self.cells.len() && self.cells[c].alive
    }

    /// Set the value of a live cell. When the value differs from the current one,
    /// every live handler registered on the cell fires once; otherwise nothing
    /// changes.
    pub fn set_cell(&mut self, c: usize, value: Value)
        requires
            old(self).wf(),
            old(self).cell_alive(c),
        ensures
            final(self).wf(),
            kept(old(self), final(self)),
            borrows_kept(old(self), final(self)),
            final(self).cell_alive(c),
            final(self).cell_value(c) == value@,
            old(self).cell_value(c) == value@ ==> *final(self) == *old(self),
            old(self).cell_value(c) != value@ ==> fired_listeners(old(self), final(self), c),
            forall|x: usize| #![trigger final(self).cell_alive(x)] #![trigger final(self).cell_value(x)] x != c ==> final(self).cell_val(x) == old(self).cell_val(x),
            keeps_dead(old(self), final(self)),
            final(self).cell_count() == old(self).cell_count(),
            final(self).node_count() == old(self).node_count(),
            nodes_unchanged(old(self), final(self)),
            fields_unchanged(old(self), final(self)),
            forall|x: usize| #[trigger] final(self).cell_in_field(x) == old(self).cell_in_field(x),
    {
        let changed = !self.cells[c].value.same_as(&value);
        if changed {
            self.cells[c].value = value;
            proof {
                assert forall|x: usize| x < self.cells@.len() implies {
                    &&& (#[trigger] self.listeners(x)).no_duplicates()
                    &&& forall|k: int| 0 <= k < self.listeners(x).len() ==> self.listeners(x)[k] < self.handlers@.len()
                    &&& self.cell_borrows(x).wf()
                } by {
                    assert(old(self).listeners(x).no_duplicates());
                }
            }
            self.fire(c);
            proof {
                assert forall|x: usize| x < old(self).cells@.len() && x != c implies #[trigger] self.cells@[x as int] == old(self).cells@[x as int] by {}
                assert(changed_and_fired(old(self), self, c));
                lemma_change_and_fire(old(self), self, c);
                lemma_fired_listeners(old(self), self, c);
                lemma_fire_keeps_listening(old(self), self, c);
                assert forall|x: usize| #[trigger] self.cell_in_field(x) == old(self).cell_in_field(x) by {
                    if x != c && x < self.cells@.len() {
                        assert(self.cells@[x as int] == old(self).cells@[x as int]);
                    }
                }
            }
        }
    }
}

impl Graph {
    /// Replace the value of a live cell and fire every live handler registered on
    /// it once, whether or not the value differs.
    pub fn replace_cell(&mut self, c: usize, value: Value)
        requires
            old(self).wf(),
            old(self).cell_alive(c),
        ensures
            final(self).wf(),
            kept(old(self), final(self)),
            borrows_kept(old(self), final(self)),
            final(self).cell_alive(c),
            final(self).cell_value(c) == value@,
            fired_listeners(old(self), final(self), c),
            forall|x: usize| #![trigger final(self).cell_alive(x)] #![trigger final(self).cell_value(x)] x != c ==> final(self).cell_val(x) == old(self).cell_val(x),
            forall|x: usize| x < old(self).cell_count() ==> #[trigger] final(self).cell_borrows(x) == old(self).cell_borrows(x),
            keeps_dead(old(self), final(self)),
            final(self).cell_count() == old(self).cell_count(),
            final(self).node_count() == old(self).node_count(),
            nodes_unchanged(old(self), final(self)),
            fields_unchanged(old(self), final(self)),
    {
        self.cells[c].value = value;
        proof {
            assert forall|x: usize| x < self.cells@.len() implies {
                &&& (#[trigger] self.listeners(x)).no_duplicates()
                &&& forall|k: int| 0 <= k < self.listeners(x).len() ==> self.listeners(x)[k] < self.handlers@.len()
                &&& self.cell_borrows(x).wf()
            } by {
                assert(old(self).listeners(x).no_duplicates());
            }
        }
        self.fire(c);
        proof {
            assert forall|x: usize| x < old(self).cells@.len() && x != c implies #[trigger] self.cells@[x as int] == old(self).cells@[x as int] by {}
            assert(changed_and_fired(old(self), self, c));
            lemma_change_and_fire(old(self), self, c);
            lemma_fired_listeners(old(self), self, c);
                lemma_fire_keeps_listening(old(self), self, c);
        }
    }

    /// Destroy a cell. A live cell that belongs to no field dies, and every live
    /// handler registered on it fires once, so that what depends on it learns
    /// that it is gone; otherwise nothing changes.
    pub fn destroy_cell(&mut self, c: usize)
        requires
            old(self).wf(),
        ensures
            final(self).wf(),
            kept(old(self), final(self)),
            borrows_kept(old(self), final(self)),
            !final(self).cell_alive(c) || old(self).cell_alive(c),
            old(self).cell_alive(c) && !old(self).cell_in_field(c) ==> !final(self).cell_alive(c)
                && fired_listeners(old(self), final(self), c),
            !(old(self).cell_alive(c) && !old(self).cell_in_field(c)) ==> *final(self) == *old(self),
            forall|x: usize| #![trigger final(self).cell_alive(x)] #![trigger final(self).cell_value(x)] x != c ==> final(self).cell_val(x) == old(self).cell_val(x),
            keeps_dead(old(self), final(self)),
            final(self).cell_count() == old(self).cell_count(),
            final(self).node_count() == old(self).node_count(),
            nodes_unchanged(old(self), final(self)),
            fields_unchanged(old(self), final(self)),
            forall|x: usize| #[trigger] final(self).cell_in_field(x) == old(self).cell_in_field(x),
    {
        if c < self.cells.len() && self.cells[c].alive && !self.cells[c].in_field {
            self.cells[c].alive = false;
            proof {
                assert forall|x: usize| x < self.cells@.len() implies {
                    &&& (#[trigger] self.listeners(x)).no_duplicates()
                    &&& forall|k: int| 0 <= k < self.listeners(x).len() ==> self.listeners(x)[k] < self.handlers@.len()
                    &&& self.cell_borrows(x).wf()
                } by {
                    assert(old(self).listeners(x).no_duplicates());
                }
            }
            self.fire(c);
            proof {
                assert forall|x: usize| x < old(self).cells@.len() && x != c implies #[trigger] self.cells@[x as int] == old(self).cells@[x as int] by {}
                assert(changed_and_fired(old(self), self, c));
                lemma_change_and_fire(old(self), self, c);
                lemma_fired_listeners(old(self), self, c);
                lemma_fire_keeps_listening(old(self), self, c);
                assert forall|x: usize| #[trigger] self.cell_in_field(x) == old(self).cell_in_field(x) by {
                    if x != c && x < self.cells@.len() {
                        assert(self.cells@[x as int] == old(self).cells@[x as int]);
                    }
                }
            }
        }
    }

    /// Whether cell `c` belongs to a field.
    pub closed spec fn cell_in_field(&self, c: usize) -> bool {
        c < self.cells@.len() && self.cells@[c as int].in_field
    }

    fn add_handler(&mut self, owner: Owner, pending: bool) -> (h: usize)
        requires
            old(self).wf(),
        ensures
            final(self).wf(),
            h == old(self).handler_count(),
            final(self).handlers@ == old(self).handlers@.push(Some(Handler { pending, count: 0, owner })),
            final(self).cells@ == old(self).cells@,
            final(self).nodes@ == old(self).nodes@,
            final(self).fields@ == old(self).fields@,
    {
        let r = RcRef::new(&mut self.handlers, Handler { pending, count: 0, owner });
        proof {
            assert forall|x: usize| x < self.cells@.len() implies {
                &&& (#[trigger] self.listeners(x)).no_duplicates()
                &&& forall|k: int| 0 <= k < self.listeners(x).len() ==> self.listeners(x)[k] < self.handlers@.len()
                &&& self.cell_borrows(x).wf()
            } by {
                assert(old(self).listeners(x).no_duplicates());
            }
            assert forall|h: usize| old(self).handler_alive(h) && old(self).handler(h).owner != Owner::User
                implies #[trigger] self.handler_alive(h) && self.handler(h) == old(self).handler(h) by {
                assert(self.handlers@[h as int] == old(self).handlers@[h as int]);
            }
            lemma_preserve(old(self), self);
        }
        r.id
    }

    /// Add a handler owned by the caller: it has not fired yet.
    pub fn add_user_handler(&mut self) -> (h: usize)
        requires
            old(self).wf(),
        ensures
            final(self).wf(),
            kept(old(self), final(self)),
            borrows_kept(old(self), final(self)),
            h == old(self).handler_count(),
            final(self).handler_count() == old(self).handler_count() + 1,
            final(self).handler_alive(h),
            final(self).handler(h) == (Handler { pending: false, count: 0, owner: Owner::User }),
            forall|x: usize| x < old(self).handler_count() ==> #[trigger] final(self).handler_alive(x)
                == old(self).handler_alive(x) && final(self).handler(x) == old(self).handler(x),
            forall|x: usize| #![trigger final(self).cell_alive(x)] #![trigger final(self).cell_value(x)] final(self).cell_val(x) == old(self).cell_val(x),
            keeps_dead(old(self), final(self)),
            final(self).cell_count() == old(self).cell_count(),
            final(self).node_count() == old(self).node_count(),
            nodes_unchanged(old(self), final(self)),
            fields_unchanged(old(self), final(self)),
    {
        self.add_handler(Owner::User, false)
    }

    /// Drop a handler owned by a user: it never fires again. Handlers that
    /// belong to nodes or fields are left alone.
    pub fn release_handler(&mut self, h: usize)
        requires
            old(self).wf(),
        ensures
            final(self).wf(),
            kept(old(self), final(self)),
            borrows_kept(old(self), final(self)),
            old(self).handler_alive(h) && old(self).handler(h).owner == Owner::User
                ==> !final(self).handler_alive(h),
            !(old(self).handler_alive(h) && old(self).handler(h).owner == Owner::User) ==> *final(self)
                == *old(self),
            final(self).handler_count() == old(self).handler_count(),
            forall|x: usize| x != h ==> #[trigger] final(self).handler_alive(x) == old(self).handler_alive(x),
            forall|x: usize| x != h && old(self).handler_alive(x) ==> #[trigger] final(self).handler(x) == old(self).handler(x),
            forall|x: usize| #![trigger final(self).cell_alive(x)] #![trigger final(self).cell_value(x)] final(self).cell_val(x) == old(self).cell_val(x),
            keeps_dead(old(self), final(self)),
            final(self).cell_count() == old(self).cell_count(),
            final(self).node_count() == old(self).node_count(),
            fields_unchanged(old(self), final(self)),
    {
        let user = match self.handlers.get(h) {
            Some(st) => st.owner == Owner::User,
            None => false,
        };
        if user {
            RcRef { id: h }.release(&mut self.handlers);
            proof {
                assert forall|x: usize| x < self.cells@.len() implies {
                    &&& (#[trigger] self.listeners(x)).no_duplicates()
                    &&& forall|k: int| 0 <= k < self.listeners(x).len() ==> self.listeners(x)[k] < self.handlers@.len()
                    &&& self.cell_borrows(x).wf()
                } by {
                    assert(old(self).listeners(x).no_duplicates());
                }
                assert forall|x: usize| old(self).handler_alive(x) && old(self).handler(x).owner != Owner::User
                    implies #[trigger] self.handler_alive(x) && self.handler(x) == old(self).handler(x) by {
                    assert(x != h);
                    assert(self.handlers@[x as int] == old(self).handlers@[x as int]);
                }
                lemma_preserve(old(self), self);
            }
        }
    }

    /// Register handler `h` on cell `c`, unless it is registered there already.
    pub fn subscribe(&mut self, c: usize, h: usize)
        requires
            old(self).wf(),
            c < old(self).cell_count(),
            h < old(self).handler_count(),
        ensures
            final(self).wf(),
            kept(old(self), final(self)),
            borrows_kept(old(self), final(self)),
            final(self).listeners(c).contains(h),
            forall|x: usize, k: usize| #[trigger] old(self).listeners(x).contains(k) && x < old(self).cell_count()
                ==> #[trigger] final(self).listeners(x).contains(k),
            handlers_unchanged(old(self), final(self)),
            forall|x: usize| #![trigger final(self).cell_alive(x)] #![trigger final(self).cell_value(x)] final(self).cell_val(x) == old(self).cell_val(x),
            keeps_dead(old(self), final(self)),
            final(self).cell_count() == old(self).cell_count(),
            final(self).node_count() == old(self).node_count(),
            nodes_unchanged(old(self), final(self)),
            fields_unchanged(old(self), final(self)),
            forall|x: usize| #[trigger] final(self).cell_in_field(x) == old(self).cell_in_field(x),
    {
        if !self.cells[c].on_invalidated.contains(h) {
            self.cells[c].on_invalidated.push(&RcRef { id: h });
            proof {
                assert(old(self).listeners(c).no_duplicates());
                assert forall|x: usize| x < self.cells@.len() implies {
                    &&& (#[trigger] self.listeners(x)).no_duplicates()
                    &&& forall|k: int| 0 <= k < self.listeners(x).len() ==> self.listeners(x)[k] < self.handlers@.len()
                    &&& self.cell_borrows(x).wf()
                } by {
                    assert(old(self).listeners(x).no_duplicates());
                    if x == c {
                        assert forall|i: int, j: int| 0 <= i < self.listeners(x).len() && 0 <= j < self.listeners(x).len() && i != j
                            implies self.listeners(x)[i] != self.listeners(x)[j] by {
                            let l0 = old(self).listeners(c);
                            if i < l0.len() && j < l0.len() {
                            } else if i < l0.len() {
                                assert(l0.contains(l0[i]));
                            } else {
                                assert(l0.contains(l0[j]));
                            }
                        }
                    } else {
                        assert(self.cells@[x as int] == old(self).cells@[x as int]);
                    }
                }
                assert forall|x: usize, k: usize| #[trigger] old(self).listeners(x).contains(k) && x < old(self).cell_count()
                    implies #[trigger] self.listeners(x).contains(k) by {
                    if x == c {
                        let i = choose|i: int| 0 <= i < old(self).listeners(c).len() && old(self).listeners(c)[i] == k;
                        assert(self.listeners(c)[i] == k);
                    } else {
                        assert(self.cells@[x as int] == old(self).cells@[x as int]);
                    }
                }
                assert forall|x: usize| #![trigger self.cell_alive(x)] #![trigger self.cell_value(x)] x < old(self).cells@.len() implies self.cell_val(x) == old(self).cell_val(x) by {
                    assert(x != c ==> self.cells@[x as int] == old(self).cells@[x as int]);
                }
                assert forall|x: usize| #[trigger] self.cell_in_field(x) == old(self).cell_in_field(x) by {
                    if x != c && x < self.cells@.len() {
                        assert(self.cells@[x as int] == old(self).cells@[x as int]);
                    }
                }
                lemma_preserve(old(self), self);
                assert(self.listeners(c).last() == h);
            }
        }
    }

    /// Whether handler `h` is alive.
    pub fn is_handler_alive(&self, h: usize) -> (r: bool)
        ensures
            r == self.handler_alive(h),
    {
        self.handlers.is_alive(h)
    }

    /// How many times the live handler `h` has fired.
    pub fn fired_count(&self, h: usize) -> (r: u64)
        requires
            self.handler_alive(h),
        ensures
            r == self.handler(h).count,
    {
        self.handlers.get(h).unwrap().count
    }
}

/// `g1` is `g0` after some nodes recomputed: nothing changed but the caches of
/// nodes and the dirty flags of their handlers.
pub closed spec fn refreshed(g0: &Graph, g1: &Graph) -> bool {
    &&& g1.cells@ == g0.cells@
    &&& g1.fields@ == g0.fields@
    &&& g1.nodes@.len() == g0.nodes@.len()
    &&& same_nodes(g0, g1)
    &&& forall|m: int| 0 <= m < g0.nodes@.len() ==> (#[trigger] g1.nodes@[m]).handler == g0.nodes@[m].handler
    &&& g1.handlers@.len() == g0.handlers@.len()
    &&& forall|h: usize| #[trigger] g1.handler_alive(h) == g0.handler_alive(h)
    &&& forall|h: usize|
        g0.handler_alive(h) ==> #[trigger] g1.handler(h) == g0.handler(h) || (g0.handler(h).owner is Node
            && g1.handler(h) == Handler { pending: false, ..g0.handler(h) })
}

proof fn lemma_refreshed_current(g0: &Graph, g1: &Graph)
    requires
        g0.wf(),
        refreshed(g0, g1),
    ensures
        forall|m: int| #[trigger] g1.current(m) == g0.current(m),
        forall|o: Operand| #[trigger] g1.source_val(o) == g0.source_val(o),
{
    assert forall|m: int| #[trigger] g1.current(m) == g0.current(m) by {
        if 0 <= m < g0.nodes@.len() {
            lemma_current_frame(g0, g1, m);
        }
    }
    assert forall|o: Operand| #[trigger] g1.source_val(o) == g0.source_val(o) by {
        match o {
            Operand::Cell(_) => {},
            Operand::Node(m) => {
                assert(g1.current(m as int) == g0.current(m as int));
            },
        }
    }
}

/// The values of the operands of node `n`, in order: a cell's value while it
/// is alive (nothing once it is gone), a node's current value.
pub closed spec fn operand_vals(g: &Graph, n: int) -> Seq<Option<ValueModel>> {
    g.nodes@[n].operands@.map_values(|o: Operand| g.operand_val(n, o))
}

/// A node's value is its combining function applied to its operands' values.
proof fn lemma_current_is_eval(g: &Graph, n: int)
    requires
        0 <= n < g.nodes@.len(),
        g.node_shape(n),
    ensures
        g.current(n) == eval(g.nodes@[n].op, operand_vals(g, n)),
{
    let ops = g.nodes@[n].operands@;
    let args = operand_vals(g, n);
    match g.nodes@[n].op {
        Op::Unary(_) => {},
        Op::Binary(_) => {},
        _ => {
            assert forall|k: int| 0 <= k < ops.len() implies #[trigger] args[k] == g.cell_args(ops)[k] by {
                assert(ops[k] is Cell);
            }
            assert(args =~= g.cell_args(ops));
        },
    }
}

proof fn lemma_refreshed_wf(g0: &Graph, g1: &Graph)
    requires
        g0.wf(),
        refreshed(g0, g1),
        forall|m: int|
            0 <= m < g0.nodes@.len() ==> (#[trigger] g1.nodes@[m]).cached == g0.nodes@[m].cached || (
            !g1.handler(g1.nodes@[m].handler).pending ==> opt_view(g1.nodes@[m].cached) == g0.current(m)),
        forall|m: int|
            0 <= m < g0.nodes@.len() ==> #[trigger] g1.handler(g1.nodes@[m].handler) == g0.handler(
                g0.nodes@[m].handler,
            ) || opt_view(g1.nodes@[m].cached) == g0.current(m),
    ensures
        g1.wf(),
{
    lemma_refreshed_current(g0, g1);
    assert forall|x: usize| x < g1.cells@.len() implies {
        &&& (#[trigger] g1.listeners(x)).no_duplicates()
        &&& forall|k: int| 0 <= k < g1.listeners(x).len() ==> g1.listeners(x)[k] < g1.handlers@.len()
        &&& g1.cell_borrows(x).wf()
    } by {
        assert(g0.listeners(x).no_duplicates());
    }
    assert forall|n: int| 0 <= n < g1.nodes@.len() implies #[trigger] g1.node_shape(n) by {
        assert(g0.node_shape(n));
        assert(g1.handler_alive(g0.nodes@[n].handler));
    }
    assert forall|n: int| 0 <= n < g1.nodes@.len() implies #[trigger] g1.node_sync(n) by {
        assert(g0.node_sync(n));
        assert(g0.node_shape(n));
        let h = g0.nodes@[n].handler;
        assert(g1.handler_alive(h));
        if !g1.handler(h).pending {
            if g1.handler(h) == g0.handler(h) {
            } else {
                assert(opt_view(g1.nodes@[n].cached) == g0.current(n));
            }
        }
    }
    assert forall|f: int| 0 <= f < g1.fields@.len() implies #[trigger] g1.field_wf(f) by {
        assert(g0.field_wf(f));
        let fd = g0.fields@[f];
        match fd.binding {
            None => {},
            Some(b) => {
                assert(g1.handler_alive(b.handler));
                assert(g1.handler(b.handler) == g0.handler(b.handler));
                assert(g1.source_leaves(b.source) == g0.source_leaves(b.source));
                assert(g1.source_val(b.source) == g0.source_val(b.source));
            },
        }
    }
}

impl Graph {
    /// The value of node `n`: its cached value while clean; otherwise it is
    /// recomputed from its operands (recomputing the nodes among them first),
    /// cached, and the node becomes clean.
    pub fn node_get(&mut self, n: usize) -> (r: Option<Value>)
        requires
            old(self).wf(),
            n < old(self).node_count(),
        ensures
            final(self).wf(),
            opt_view(r) == old(self).current(n as int),
            !final(self).node_dirty(n as int),
            !old(self).node_dirty(n as int) ==> *final(self) == *old(self),
            refreshed(old(self), final(self)),
        decreases n,
    {
        let h = self.nodes[n].handler;
        proof {
            assert(old(self).node_shape(n as int));
            assert(old(self).node_sync(n as int));
        }
        let st = *self.handlers.get(h).unwrap();
        if st.pending {
            let ghost args_m = operand_vals(old(self), n as int);
            let len = self.nodes[n].operands.len();
            let mut args: Vec<Option<Value>> = Vec::new();
            let mut k: usize = 0;
            while k < len
                invariant
                    k <= len,
                    len == old(self).nodes@[n as int].operands@.len(),
                    old(self).wf(),
                    old(self).node_shape(n as int),
                    n < old(self).nodes@.len(),
                    self.wf(),
                    refreshed(old(self), self),
                    args_m == operand_vals(old(self), n as int),
                    opts_view(args@) == args_m.take(k as int),
                decreases len - k,
            {
                let o = self.nodes[n].operands[k];
                proof {
                    assert(o == old(self).nodes@[n as int].operands@[k as int]);
                }
                let a = match o {
                    Operand::Cell(c) => {
                        if self.is_cell_alive(c) {
                            Some(self.cells[c].value.duplicate())
                        } else {
                            None
                        }
                    },
                    Operand::Node(m) => {
                        let ghost mid = *self;
                        let r = self.node_get(m);
                        proof {
                            lemma_refreshed_current(old(self), &mid);
                            lemma_refreshed_trans(old(self), &mid, self);
                        }
                        r
                    },
                };
                proof {
                    assert(opt_view(a) == args_m[k as int]);
                }
                let ghost prev = args@;
                args.push(a);
                proof {
                    assert(args@ == prev.push(a));
                    assert(args_m.take(k + 1) =~= args_m.take(k as int).push(args_m[k as int]));
                    assert forall|j: int| 0 <= j < k + 1 implies #[trigger] opts_view(args@)[j] == args_m.take(k + 1)[j] by {
                        if j < k {
                            assert(opts_view(prev)[j] == args_m.take(k as int)[j]);
                        }
                    }
                    assert(opts_view(args@) =~= args_m.take(k + 1));
                }
                k = k + 1;
            }
            proof {
                assert(args_m.take(len as int) =~= args_m);
                lemma_current_is_eval(old(self), n as int);
            }
            let op = self.nodes[n].op;
            let v = apply(op, &args);
            let ghost before = *self;
            proof {
                assert(self.nodes@[n as int].handler == h);
                assert(self.handler_alive(h));
                assert(old(self).handler(h) == st);
            }
            self.nodes[n].cached = v;
            self.handlers.replace(h, Handler { pending: false, count: st.count, owner: st.owner });
            let nlen = self.nodes.len();
            proof {
                assert(before.nodes@.len() == nlen);
                lemma_refreshed_current(old(self), &before);
                assert(before.node_shape(n as int));
                assert(before.handler(h).owner == Owner::Node(n));
                assert(self.handler(h) == Handler { pending: false, ..before.handler(h) });
                assert forall|x: usize| #[trigger] self.handler_alive(x) == before.handler_alive(x) by {}
                assert forall|x: usize| before.handler_alive(x) implies #[trigger] self.handler(x) == before.handler(x) || (before.handler(x).owner is Node
                    && self.handler(x) == Handler { pending: false, ..before.handler(x) }) by {
                }
                assert forall|m: int| 0 <= m < before.nodes@.len() implies (#[trigger] self.nodes@[m]).handler == before.nodes@[m].handler by {}
                assert(same_nodes(&before, self)) by {
                    assert forall|m: int| 0 <= m < before.nodes@.len() implies {
                        &&& (#[trigger] self.nodes@[m]).op == before.nodes@[m].op
                        &&& self.nodes@[m].operands@ == before.nodes@[m].operands@
                        &&& self.nodes@[m].leaves@ == before.nodes@[m].leaves@
                    } by {}
                }
                assert(refreshed(&before, self));
                assert forall|m: int| 0 <= m < before.nodes@.len() implies #[trigger] self.handler(self.nodes@[m].handler) == before.handler(
                    before.nodes@[m].handler,
                ) || opt_view(self.nodes@[m].cached) == before.current(m) by {
                    if m != n as int {
                        assert(before.node_shape(m));
                        assert(before.handler(before.nodes@[m].handler).owner == Owner::Node(m as usize));
                        assert(before.nodes@[m].handler != h);
                    }
                }
                lemma_refreshed_wf(&before, self);
                lemma_refreshed_trans(old(self), &before, self);
            }
        }
        match &self.nodes[n].cached {
            Some(v) => Some(v.duplicate()),
            None => None,
        }
    }
}

proof fn lemma_refreshed_trans(g0: &Graph, g1: &Graph, g2: &Graph)
    requires
        refreshed(g0, g1),
        refreshed(g1, g2),
    ensures
        refreshed(g0, g2),
{
    assert forall|h: usize| g0.handler_alive(h) implies #[trigger] g2.handler(h) == g0.handler(h) || (g0.handler(h).owner is Node
        && g2.handler(h) == Handler { pending: false, ..g0.handler(h) }) by {
        assert(g1.handler_alive(h));
    }
}

/// No node was added or changed, cached values included.
pub closed spec fn nodes_unchanged(g0: &Graph, g1: &Graph) -> bool {
    g1.nodes@ == g0.nodes@
}

/// Whether `ops` can be the operands of a new node combining them by `op`:
/// each names an existing cell or node, n-ary functions and `ToText` take cells
/// only, and each function gets as many operands as it takes.
pub open spec fn operands_ok(g: &Graph, op: Op, ops: Seq<Operand>) -> bool {
    &&& match op {
        Op::Unary(_) => ops.len() == 1,
        Op::Binary(_) => ops.len() == 2,
        Op::ToText => ops.len() == 1 && ops[0] is Cell,
        _ => forall|k: int| 0 <= k < ops.len() ==> (#[trigger] ops[k]) is Cell,
    }
    &&& forall|k: int| 0 <= k < ops.len() ==> operand_valid(g, #[trigger] ops[k])
}

/// Whether `o` names one of the graph's cells or nodes.
pub open spec fn operand_valid(g: &Graph, o: Operand) -> bool {
    match o {
        Operand::Cell(c) => c < g.cell_count(),
        Operand::Node(m) => m < g.node_count(),
    }
}

proof fn lemma_push_node(g0: &Graph, g1: &Graph)
    requires
        g0.wf(),
        g1.cells@ == g0.cells@,
        g1.handlers@ == g0.handlers@,
        g1.fields@ == g0.fields@,
        g1.nodes@.len() == g0.nodes@.len() + 1,
        forall|m: int| 0 <= m < g0.nodes@.len() ==> #[trigger] g1.nodes@[m] == g0.nodes@[m],
        g1.node_shape(g0.nodes@.len() as int),
        g1.node_sync(g0.nodes@.len() as int),
    ensures
        g1.wf(),
{
    assert(same_nodes(g0, g1));
    assert forall|x: usize| x < g1.cells@.len() implies {
        &&& (#[trigger] g1.listeners(x)).no_duplicates()
        &&& forall|k: int| 0 <= k < g1.listeners(x).len() ==> g1.listeners(x)[k] < g1.handlers@.len()
        &&& g1.cell_borrows(x).wf()
    } by {
        assert(g0.listeners(x).no_duplicates());
    }
    assert forall|n: int| 0 <= n < g1.nodes@.len() implies #[trigger] g1.node_shape(n) by {
        if n < g0.nodes@.len() {
            assert(g0.node_shape(n));
        }
    }
    assert forall|n: int| 0 <= n < g1.nodes@.len() implies #[trigger] g1.node_sync(n) by {
        if n < g0.nodes@.len() {
            assert(g0.node_sync(n));
            lemma_current_frame(g0, g1, n);
        }
    }
    assert forall|f: int| 0 <= f < g1.fields@.len() implies #[trigger] g1.field_wf(f) by {
        assert(g0.field_wf(f));
        let fd = g0.fields@[f];
        match fd.binding {
            None => {},
            Some(b) => {
                assert(g1.source_leaves(b.source) == g0.source_leaves(b.source));
                match b.source {
                    Operand::Cell(_) => {},
                    Operand::Node(m) => {
                        lemma_current_frame(g0, g1, m as int);
                    },
                }
                assert(g0.source_val(b.source) == g1.source_val(b.source));
                assert(g1.handler(b.handler) == g0.handler(b.handler));
                assert(g1.operand_ok(g1.nodes@.len() as int, b.source));
                assert(g1.cell_alive(fd.cell));
                assert(g1.listeners(fd.cell).contains(b.handler));
                assert forall|x: usize| #[trigger] g1.source_leaves(b.source).contains(x) && g1.cell_alive(x)
                    implies g1.listeners(x).contains(b.handler) by {
                    assert(g0.source_leaves(b.source).contains(x));
                }
            },
        }
    }
}

impl Graph {
    /// Add a node that combines `operands` by `op`. It registers its handler on
    /// every cell it depends on, directly or through other nodes, and computes
    /// its first value at once, so it starts clean.
    pub fn add_node(&mut self, op: Op, operands: Vec<Operand>) -> (n: usize)
        requires
            old(self).wf(),
            operands_ok(old(self), op, operands@),
        ensures
            final(self).wf(),
            kept(old(self), final(self)),
            borrows_kept(old(self), final(self)),
            n == old(self).node_count(),
            final(self).node_count() == old(self).node_count() + 1,
            final(self).node_op(n as int) == op,
            final(self).node_operands(n as int) == operands@,
            !final(self).node_dirty(n as int),
            final(self).node_cached(n as int) == final(self).current(n as int),
            forall|x: usize| #[trigger] final(self).node_leaves(n as int).contains(x) ==> x < old(self).cell_count(),
            forall|x: usize|
                #[trigger] final(self).node_leaves(n as int).contains(x) <==> exists|k: int|
                    0 <= k < operands@.len() && #[trigger] old(self).source_leaves(operands@[k]).contains(x),
            forall|m: int| 0 <= m < old(self).node_count() ==> #[trigger] final(self).current(m) == old(
                self,
            ).current(m),
            forall|x: usize| #![trigger final(self).cell_alive(x)] #![trigger final(self).cell_value(x)] final(self).cell_val(x) == old(self).cell_val(x),
            keeps_dead(old(self), final(self)),
            final(self).cell_count() == old(self).cell_count(),
            fields_unchanged(old(self), final(self)),
            forall|x: usize| #[trigger] final(self).cell_in_field(x) == old(self).cell_in_field(x),
    {
        let n = self.nodes.len();
        let mut leaves: Vec<usize> = Vec::new();
        let ghost mut origin: Seq<int> = Seq::empty();
        let mut k: usize = 0;
        while k < operands.len()
            invariant
                k <= operands.len(),
                *self == *old(self),
                origin.len() == leaves@.len(),
                forall|q: int|
                    0 <= q < leaves@.len() ==> 0 <= #[trigger] origin[q] < k && self.source_leaves(
                        operands@[origin[q]],
                    ).contains(leaves@[q]),
                self.wf(),
                operands_ok(self, op, operands@),
                n == self.nodes@.len(),
                forall|i: int| 0 <= i < leaves@.len() ==> #[trigger] leaves@[i] < self.cells@.len(),
                forall|j: int|
                    0 <= j < k ==> match #[trigger] operands@[j] {
                        Operand::Cell(c) => leaves@.contains(c),
                        Operand::Node(m) => forall|x: usize|
                            #[trigger] self.nodes@[m as int].leaves@.contains(x) ==> leaves@.contains(x),
                    },
            decreases operands.len() - k,
        {
            let ghost prev = leaves@;
            match operands[k] {
                Operand::Cell(c) => {
                    proof {
                        assert(operand_valid(self, operands@[k as int]));
                    }
                    leaves.push(c);
                    proof {
                        assert(leaves@ == prev.push(c));
                        assert(leaves@[leaves@.len() - 1] == c);
                        let ghost o0 = origin;
                        origin = origin.push(k as int);
                        assert(self.source_leaves(operands@[k as int])[0] == c);
                        assert forall|q: int|
                            0 <= q < leaves@.len() implies 0 <= #[trigger] origin[q] < k + 1 && self.source_leaves(
                                operands@[origin[q]],
                            ).contains(leaves@[q]) by {
                            if q < prev.len() {
                                assert(origin[q] == o0[q]);
                                assert(leaves@[q] == prev[q]);
                            }
                        }
                    }
                },
                Operand::Node(m) => {
                    proof {
                        assert(operand_valid(self, operands@[k as int]));
                        assert(self.node_shape(m as int));
                    }
                    let mut i: usize = 0;
                    while i < self.nodes[m].leaves.len()
                        invariant
                            i <= self.nodes@[m as int].leaves@.len(),
                            m < self.nodes@.len(),
                            self.node_shape(m as int),
                            forall|q: int| 0 <= q < leaves@.len() ==> #[trigger] leaves@[q] < self.cells@.len(),
                            forall|x: usize| #[trigger] prev.contains(x) ==> leaves@.contains(x),
                            leaves@.len() >= prev.len(),
                            forall|q: int| 0 <= q < prev.len() ==> #[trigger] leaves@[q] == prev[q],
                            forall|q: int| 0 <= q < i ==> leaves@.contains(#[trigger] self.nodes@[m as int].leaves@[q]),
                            *self == *old(self),
                            operands@[k as int] == Operand::Node(m),
                            origin.len() == leaves@.len(),
                            forall|q: int|
                                0 <= q < leaves@.len() ==> 0 <= #[trigger] origin[q] < k + 1 && self.source_leaves(
                                    operands@[origin[q]],
                                ).contains(leaves@[q]),
                        decreases self.nodes@[m as int].leaves@.len() - i,
                    {
                        let x = self.nodes[m].leaves[i];
                        let ghost before_push = leaves@;
                        leaves.push(x);
                        proof {
                            assert(leaves@ == before_push.push(x));
                            assert(leaves@[leaves@.len() - 1] == x);
                            let ghost o0 = origin;
                            origin = origin.push(k as int);
                            assert(self.source_leaves(operands@[k as int])[i as int] == x);
                            assert forall|q: int|
                                0 <= q < leaves@.len() implies 0 <= #[trigger] origin[q] < k + 1 && self.source_leaves(
                                    operands@[origin[q]],
                                ).contains(leaves@[q]) by {
                                if q < before_push.len() {
                                    assert(origin[q] == o0[q]);
                                    assert(leaves@[q] == before_push[q]);
                                }
                            }
                            assert forall|y: usize| #[trigger] prev.contains(y) implies leaves@.contains(y) by {
                                assert(before_push.contains(y));
                                let q = choose|q: int| 0 <= q < before_push.len() && before_push[q] == y;
                                assert(leaves@[q] == y);
                            }
                            assert forall|q: int| 0 <= q < i + 1 implies leaves@.contains(#[trigger] self.nodes@[m as int].leaves@[q]) by {
                                if q < i {
                                    let y = self.nodes@[m as int].leaves@[q];
                                    assert(before_push.contains(y));
                                    let r = choose|r: int| 0 <= r < before_push.len() && before_push[r] == y;
                                    assert(leaves@[r] == y);
                                }
                            }
                        }
                        i = i + 1;
                    }
                    proof {
                        assert forall|x: usize| #[trigger] self.nodes@[m as int].leaves@.contains(x) implies leaves@.contains(x) by {
                            let q = choose|q: int| 0 <= q < self.nodes@[m as int].leaves@.len() && self.nodes@[m as int].leaves@[q] == x;
                            assert(leaves@.contains(self.nodes@[m as int].leaves@[q]));
                        }
                    }
                },
            }
            proof {
                assert forall|j: int| 0 <= j < k implies match #[trigger] operands@[j] {
                    Operand::Cell(c) => leaves@.contains(c),
                    Operand::Node(m) => forall|x: usize|
                        #[trigger] self.nodes@[m as int].leaves@.contains(x) ==> leaves@.contains(x),
                } by {
                    match operands@[j] {
                        Operand::Cell(c) => {
                            assert(prev.contains(c));
                            let q = choose|q: int| 0 <= q < prev.len() && prev[q] == c;
                            assert(leaves@[q] == c);
                        },
                        Operand::Node(m) => {
                            assert forall|x: usize| #[trigger] self.nodes@[m as int].leaves@.contains(x) implies leaves@.contains(x) by {
                                assert(prev.contains(x));
                                let q = choose|q: int| 0 <= q < prev.len() && prev[q] == x;
                                assert(leaves@[q] == x);
                            }
                        },
                    }
                }
            }
            k = k + 1;
        }
        let h = self.add_handler(Owner::Node(n), true);
        let ghost g_h = *self;
        let mut i: usize = 0;
        while i < leaves.len()
            invariant
                i <= leaves.len(),
                self.wf(),
                h < self.handlers@.len(),
                handlers_unchanged(&g_h, self),
                self.handler(h) == (Handler { pending: true, count: 0, owner: Owner::Node(n) }),
                self.handler_alive(h),
                self.nodes@ == g_h.nodes@,
                fields_unchanged(&g_h, self),
                self.cells@.len() == g_h.cells@.len(),
                forall|x: usize| #![trigger self.cell_alive(x)] #![trigger self.cell_value(x)] self.cell_val(x) == g_h.cell_val(x),
                forall|x: usize| #[trigger] self.cell_in_field(x) == g_h.cell_in_field(x),
                borrows_kept(&g_h, self),
                kept(&g_h, self),
                forall|q: int| 0 <= q < leaves@.len() ==> #[trigger] leaves@[q] < self.cells@.len(),
                forall|q: int| 0 <= q < i ==> self.listeners(#[trigger] leaves@[q]).contains(h),
            decreases leaves.len() - i,
        {
            let ghost before = *self;
            self.subscribe(leaves[i], h);
            proof {
                assert forall|x: usize| #[trigger] self.cell_in_field(x) == g_h.cell_in_field(x) by {
                    assert(before.cell_in_field(x) == g_h.cell_in_field(x));
                }
                lemma_borrows_kept_trans(&g_h, &before, self);
                lemma_kept_trans(&g_h, &before, self);
                assert forall|f: int| 0 <= f < g_h.field_count() implies #[trigger] self.field_cell(f) == g_h.field_cell(f) && self.field_binding(f)
                    == g_h.field_binding(f) by {
                    assert(before.field_cell(f) == g_h.field_cell(f));
                    assert(before.field_binding(f) == g_h.field_binding(f));
                    assert(self.field_cell(f) == before.field_cell(f));
                    assert(self.field_binding(f) == before.field_binding(f));
                }
                assert forall|x: usize| #[trigger] self.handler_alive(x) == g_h.handler_alive(x) by {
                    assert(before.handler_alive(x) == g_h.handler_alive(x));
                }
                assert forall|x: usize| g_h.handler_alive(x) implies #[trigger] self.handler(x) == g_h.handler(x) by {
                    assert(before.handler_alive(x));
                }
                assert forall|x: usize| #![trigger self.cell_alive(x)] #![trigger self.cell_value(x)] self.cell_val(x) == g_h.cell_val(x) by {
                    assert(before.cell_val(x) == g_h.cell_val(x));
                }
                assert forall|q: int| 0 <= q < i + 1 implies self.listeners(#[trigger] leaves@[q]).contains(h) by {
                    if q < i {
                        assert(before.listeners(leaves@[q]).contains(h));
                    }
                }
            }
            i = i + 1;
        }
        let ghost g_s = *self;
        let ghost ops = operands@;
        let ghost lv = leaves@;
        self.nodes.push(Node { op, operands, leaves, handler: h, cached: None });
        proof {
            assert(self.nodes@[n as int].operands@ == ops);
            assert(self.nodes@[n as int].leaves@ == lv);
            assert forall|m: int| 0 <= m < g_s.nodes@.len() implies #[trigger] self.nodes@[m] == g_s.nodes@[m] by {}
            assert forall|x: usize| #[trigger] lv.contains(x) && self.cell_alive(x) implies self.listeners(x).contains(h) by {
                let q = choose|q: int| 0 <= q < lv.len() && lv[q] == x;
                assert(g_s.listeners(lv[q]).contains(h));
            }
            assert(self.node_sync(n as int));
            assert forall|j: int| 0 <= j < ops.len() implies match #[trigger] ops[j] {
                Operand::Cell(c) => c < self.cells@.len() && lv.contains(c),
                Operand::Node(m) => 0 <= m < n && forall|x: usize|
                    #[trigger] self.nodes@[m as int].leaves@.contains(x) ==> lv.contains(x),
            } by {
                assert(operand_valid(old(self), ops[j]));
                match ops[j] {
                    Operand::Cell(c) => {},
                    Operand::Node(m) => {
                        assert(self.nodes@[m as int] == g_s.nodes@[m as int]);
                    },
                }
            }
            assert(self.node_shape(n as int));
            lemma_push_node(&g_s, self);
            assert forall|m: int| 0 <= m < old(self).nodes@.len() implies #[trigger] self.current(m) == old(self).current(m) by {
                assert(same_nodes(old(self), self));
                assert forall|x: usize| #[trigger] old(self).nodes@[m].leaves@.contains(x) implies old(self).cell_val(x) == self.cell_val(x) by {
                    assert(g_h.cells@ == old(self).cells@);
                    assert(g_h.cell_val(x) == old(self).cell_val(x));
                    assert(g_s.cell_val(x) == g_h.cell_val(x));
                    assert(self.cells@ == g_s.cells@);
                }
                lemma_current_frame(old(self), self, m);
            }
        }
        let ghost g_p = *self;
        self.node_get(n);
        proof {
            lemma_refreshed_current(&g_p, self);
            assert(self.cells@ == g_p.cells@);
            assert(self.node_sync(n as int));
            assert(self.node_shape(n as int));
            assert forall|x: usize|
                #[trigger] self.node_leaves(n as int).contains(x) <==> exists|k: int|
                    0 <= k < ops.len() && #[trigger] old(self).source_leaves(ops[k]).contains(x) by {
                assert(self.node_leaves(n as int) == lv);
                if lv.contains(x) {
                    let q = choose|q: int| 0 <= q < lv.len() && lv[q] == x;
                    assert(old(self).source_leaves(ops[origin[q]]).contains(x));
                }
                if exists|k: int| 0 <= k < ops.len() && #[trigger] old(self).source_leaves(ops[k]).contains(x) {
                    let k = choose|k: int| 0 <= k < ops.len() && #[trigger] old(self).source_leaves(ops[k]).contains(x);
                    match ops[k] {
                        Operand::Cell(c) => {
                            assert(old(self).source_leaves(ops[k])[0] == c);
                            let q = choose|q: int| 0 <= q < old(self).source_leaves(ops[k]).len() && old(self).source_leaves(ops[k])[q] == x;
                            assert(x == c);
                        },
                        Operand::Node(m) => {},
                    }
                }
            }
            assert forall|x: usize| #[trigger] self.node_leaves(n as int).contains(x) implies x < old(self).cell_count() by {
                let q = choose|q: int| 0 <= q < self.node_leaves(n as int).len() && self.node_leaves(n as int)[q] == x;
                assert(self.nodes@[n as int].leaves@[q] < self.cells@.len());
            }
            assert forall|x: usize| #![trigger self.cell_alive(x)] #![trigger self.cell_value(x)] self.cell_val(x) == old(self).cell_val(x) by {
                assert(g_p.cells@ == g_s.cells@);
                assert(g_s.cell_val(x) == g_h.cell_val(x));
                assert(g_h.cells@ == old(self).cells@);
            }
            assert(self.cells@.len() == old(self).cells@.len());
            assert forall|x: usize| #[trigger] self.cell_alive(x) == old(self).cell_alive(x) by {
                assert(self.cell_val(x) == old(self).cell_val(x));
            }
            assert(self.fields@ == g_p.fields@);
            assert(g_p.fields@ == g_s.fields@);
            assert(g_h.fields@ == old(self).fields@);
            assert(g_s.field_count() == g_h.field_count());
            assert forall|f: int| 0 <= f < old(self).field_count() implies #[trigger] self.field_cell(f) == old(self).field_cell(f) && self.field_binding(f)
                == old(self).field_binding(f) by {
                assert(g_s.field_cell(f) == g_h.field_cell(f));
                assert(g_s.field_binding(f) == g_h.field_binding(f));
            }
            assert(self.field_count() == old(self).field_count());
            assert(fields_unchanged(old(self), self));
            lemma_kept_intro(old(self), &g_h);
            lemma_kept_intro(&g_s, &g_p);
            lemma_kept_intro(&g_p, self);
            lemma_kept_trans(old(self), &g_h, &g_s);
            lemma_kept_trans(old(self), &g_s, &g_p);
            lemma_kept_trans(old(self), &g_p, self);
            assert forall|x: usize| #[trigger] self.cell_in_field(x) == old(self).cell_in_field(x) by {
                assert(g_s.cell_in_field(x) == g_h.cell_in_field(x));
            }
            assert(self.cells@ == g_s.cells@);
            assert(g_h.cells@ == old(self).cells@);
            assert forall|x: usize| x < old(self).cell_count() implies #[trigger] self.cell_borrows(x) == old(self).cell_borrows(x) by {
                assert(g_s.cell_borrows(x) == g_h.cell_borrows(x));
            }
        }
        n
    }
}

proof fn lemma_fields_eq(g0: &Graph, g1: &Graph)
    requires
        fields_unchanged(g0, g1),
    ensures
        g1.fields@ == g0.fields@,
{
    assert forall|f: int| 0 <= f < g0.fields@.len() implies #[trigger] g1.fields@[f] == g0.fields@[f] by {
        assert(g1.field_cell(f) == g0.field_cell(f));
    }
    assert(g1.fields@ =~= g0.fields@);
}

/// What field `f` reads: the value of its source when it is bound and the
/// source is there, else the value its cell holds.
pub open spec fn field_target(g: &Graph, f: int) -> ValueModel {
    match g.field_binding(f) {
        Some(b) => match g.source_val(b.source) {
            Some(v) => v,
            None => g.cell_value(g.field_cell(f)),
        },
        None => g.cell_value(g.field_cell(f)),
    }
}

/// Clearing the dirty flag of a field's binding keeps the rules once its cell
/// holds the source's value.
proof fn lemma_clear_field(g0: &Graph, g1: &Graph, f: int)
    requires
        g0.wf(),
        0 <= f < g0.fields@.len(),
        g0.fields@.len() <= usize::MAX,
        g0.fields@[f].binding matches Some(b) && {
            &&& g1.handlers@ == g0.handlers@.update(b.handler as int, Some(Handler { pending: false, ..g0.handler(b.handler) }))
            &&& (g0.source_val(b.source) matches Some(v) ==> g0.cell_value(g0.fields@[f].cell) == v)
        },
        g1.cells@ == g0.cells@,
        g1.nodes@ == g0.nodes@,
        g1.fields@ == g0.fields@,
    ensures
        g1.wf(),
{
    let b = g0.fields@[f].binding.unwrap();
    let h = b.handler;
    assert(g0.field_wf(f));
    assert forall|x: usize| #[trigger] g1.handler_alive(x) == g0.handler_alive(x) by {}
    assert forall|x: usize| x != h && x < g0.handlers@.len() implies #[trigger] g1.handlers@[x as int] == g0.handlers@[x as int] by {}
    assert(same_nodes(g0, g1));
    assert forall|m: int| #[trigger] g1.current(m) == g0.current(m) by {
        if 0 <= m < g0.nodes@.len() {
            lemma_current_frame(g0, g1, m);
        }
    }
    assert forall|x: usize| x < g1.cells@.len() implies {
        &&& (#[trigger] g1.listeners(x)).no_duplicates()
        &&& forall|k: int| 0 <= k < g1.listeners(x).len() ==> g1.listeners(x)[k] < g1.handlers@.len()
        &&& g1.cell_borrows(x).wf()
    } by {
        assert(g0.listeners(x).no_duplicates());
    }
    assert forall|n: int| 0 <= n < g1.nodes@.len() implies #[trigger] g1.node_shape(n) by {
        assert(g0.node_shape(n));
    }
    assert forall|n: int| 0 <= n < g1.nodes@.len() implies #[trigger] g1.node_sync(n) by {
        assert(g0.node_shape(n));
        assert(g0.node_sync(n));
        assert(g0.nodes@[n].handler != h);
    }
    assert forall|f2: int| 0 <= f2 < g1.fields@.len() implies #[trigger] g1.field_wf(f2) by {
        assert(g0.field_wf(f2));
        match g0.fields@[f2].binding {
            None => {},
            Some(b2) => {
                match b2.source {
                    Operand::Node(m) => {
                        assert(g1.current(m as int) == g0.current(m as int));
                    },
                    Operand::Cell(_) => {},
                }
                assert(g1.source_val(b2.source) == g0.source_val(b2.source));
                if f2 != f {
                    assert(g0.handler(b2.handler).owner == Owner::Field(f2 as usize));
                    assert(g0.handler(h).owner == Owner::Field(f as usize));
                    assert(b2.handler != h);
                }
            },
        }
    }
}

impl Graph {
    /// Add a field whose own cell holds `value`; it is not bound.
    pub fn add_field(&mut self, value: Value) -> (f: usize)
        requires
            old(self).wf(),
        ensures
            final(self).wf(),
            kept(old(self), final(self)),
            borrows_kept(old(self), final(self)),
            f == old(self).field_count(),
            final(self).field_count() == old(self).field_count() + 1,
            final(self).field_binding(f as int) is None,
            final(self).field_cell(f as int) == old(self).cell_count(),
            final(self).cell_value(final(self).field_cell(f as int)) == value@,
            final(self).cell_borrows(final(self).field_cell(f as int)).is_free(),
            final(self).cell_count() == old(self).cell_count() + 1,
            forall|x: usize| #![trigger final(self).cell_alive(x)] #![trigger final(self).cell_value(x)] x < old(self).cell_count() ==> final(self).cell_val(x) == old(self).cell_val(x),
            keeps_dead(old(self), final(self)),
            handlers_unchanged(old(self), final(self)),
            nodes_unchanged(old(self), final(self)),
            final(self).node_count() == old(self).node_count(),
            forall|g: int| 0 <= g < old(self).field_count() ==> #[trigger] final(self).field_cell(g) == old(self).field_cell(g)
                && final(self).field_binding(g) == old(self).field_binding(g),
    {
        let c = self.push_cell(value, true);
        proof {
            assert forall|x: usize| #![trigger self.cell_alive(x)] #![trigger self.cell_value(x)] x < old(self).cells@.len() implies self.cell_val(x) == old(self).cell_val(x) by {
                assert(self.cells@[x as int] == old(self).cells@[x as int]);
            }
        }
        let ghost mid = *self;
        let f = self.fields.len();
        self.fields.push(Field { cell: c, binding: None });
        proof {
            assert forall|x: usize| x < self.cells@.len() implies {
                &&& (#[trigger] self.listeners(x)).no_duplicates()
                &&& forall|k: int| 0 <= k < self.listeners(x).len() ==> self.listeners(x)[k] < self.handlers@.len()
                &&& self.cell_borrows(x).wf()
            } by {
                assert(mid.listeners(x).no_duplicates());
            }
            assert forall|n: int| 0 <= n < self.nodes@.len() implies #[trigger] self.node_shape(n) by {
                assert(mid.node_shape(n));
            }
            assert(same_nodes(&mid, self));
            assert forall|m: int| #[trigger] self.current(m) == mid.current(m) by {
                if 0 <= m < mid.nodes@.len() {
                    lemma_current_frame(&mid, self, m);
                }
            }
            assert forall|n: int| 0 <= n < self.nodes@.len() implies #[trigger] self.node_sync(n) by {
                assert(mid.node_sync(n));
            }
            assert forall|g: int| 0 <= g < self.fields@.len() implies #[trigger] self.field_wf(g) by {
                if g < f {
                    assert(mid.field_wf(g));
                    assert(self.fields@[g] == mid.fields@[g]);
                    match self.fields@[g].binding {
                        Some(b) => {
                            match b.source {
                                Operand::Node(m) => {
                                    assert(self.current(m as int) == mid.current(m as int));
                                },
                                Operand::Cell(_) => {},
                            }
                            assert(self.source_val(b.source) == mid.source_val(b.source));
                        },
                        None => {},
                    }
                } else {
                    assert(self.fields@[g].cell == c);
                    assert(self.cell_alive(c));
                }
            }
            assert forall|x: usize| #[trigger] self.cell_alive(x) && x < old(self).cell_count() implies old(self).cell_alive(x) by {
                assert(self.cell_val(x) == old(self).cell_val(x));
            }
        }
        f
    }

    /// Read field `f`. A bound field whose binding is dirty first pulls its
    /// source's value into its cell (firing the cell's listeners when the value
    /// changes); a source that is gone leaves the cell as it is.
    pub fn field_get(&mut self, f: usize) -> (r: Value)
        requires
            old(self).wf(),
            f < old(self).field_count(),
        ensures
            final(self).wf(),
            kept(old(self), final(self)),
            borrows_kept(old(self), final(self)),
            r@ == field_target(old(self), f as int),
            final(self).cell_value(final(self).field_cell(f as int)) == r@,
            (old(self).field_binding(f as int) matches Some(b) && old(self).handler(b.handler).pending) || *final(self)
                == *old(self),
            keeps_dead(old(self), final(self)),
            forall|x: usize| #![trigger final(self).cell_alive(x)] #![trigger final(self).cell_value(x)] x != old(self).field_cell(f as int) ==> final(self).cell_val(x) == old(self).cell_val(x),
            final(self).cell_count() == old(self).cell_count(),
            final(self).node_count() == old(self).node_count(),
            fields_unchanged(old(self), final(self)),
    {
        proof {
            assert(old(self).field_wf(f as int));
        }
        let cell = self.fields[f].cell;
        let ghost mut pulled = false;
        match self.fields[f].binding {
            None => {},
            Some(b) => {
                let st = *self.handlers.get(b.handler).unwrap();
                if st.pending {
                    proof {
                        pulled = true;
                    }
                    let v = match b.source {
                        Operand::Cell(c) => {
                            if self.is_cell_alive(c) {
                                Some(self.cells[c].value.duplicate())
                            } else {
                                None
                            }
                        },
                        Operand::Node(m) => {
                            let ghost g0 = *self;
                            let r = self.node_get(m);
                            proof {
                                lemma_refreshed_current(&g0, self);
                            }
                            r
                        },
                    };
                    let ghost g1 = *self;
                    proof {
                        assert(g1.cells@ == old(self).cells@);
                        assert(g1.fields@ == old(self).fields@);
                        assert(opt_view(v) == g1.source_val(b.source));
                        assert(g1.field_wf(f as int));
                    }
                    match v {
                        Some(v) => {
                            self.set_cell(cell, v);
                            proof {
                                lemma_fields_eq(&g1, self);
                                assert(self.fields@ == g1.fields@);
                                match b.source {
                                    Operand::Cell(_) => {},
                                    Operand::Node(m) => {
                                        assert(same_nodes(&g1, self));
                                        assert(g1.node_shape(m as int));
                                        assert forall|x: usize| #[trigger] g1.nodes@[m as int].leaves@.contains(x) implies g1.cell_val(x) == self.cell_val(x) by {
                                            assert(x != cell);
                                        }
                                        lemma_current_frame(&g1, self, m as int);
                                    },
                                }
                                assert(self.source_val(b.source) == g1.source_val(b.source));
                                assert(kept(&g1, self));
                                assert(borrows_kept(&g1, self));
                            }
                        },
                        None => {
                            proof {
                                lemma_kept_intro(&g1, self);
                            }
                        },
                    }
                    let ghost g2 = *self;
                    proof {
                        assert(g2.fields@ == g1.fields@);
                        assert(g2.field_wf(f as int));
                    }
                    let st2 = *self.handlers.get(b.handler).unwrap();
                    self.handlers.replace(b.handler, Handler { pending: false, count: st2.count, owner: st2.owner });
                    let flen = self.fields.len();
                    proof {
                        assert(g2.fields@.len() == flen);
                        lemma_clear_field(&g2, self, f as int);
                        lemma_kept_intro(old(self), &g1);
                        lemma_kept_intro(&g2, self);
                        lemma_kept_trans(old(self), &g1, &g2);
                        lemma_kept_trans(old(self), &g2, self);
                        lemma_borrows_kept_trans(old(self), &g1, &g2);
                        lemma_borrows_kept_trans(old(self), &g2, self);
                        assert(self.cells@ == g2.cells@);
                        assert forall|x: usize| #![trigger self.cell_alive(x)] #![trigger self.cell_value(x)] x != cell implies self.cell_val(x) == old(self).cell_val(x) by {
                            assert(g2.cell_val(x) == g1.cell_val(x));
                            assert(g1.cells@ == old(self).cells@);
                        }
                    }
                }
            },
        }
        proof {
            if !pulled {
                lemma_kept_intro(old(self), self);
            }
            assert(self.field_wf(f as int));
            assert forall|x: usize| x < old(self).cell_count() && #[trigger] self.cell_alive(x) implies old(self).cell_alive(x) by {
                if x != cell {
                    assert(self.cell_val(x) == old(self).cell_val(x));
                }
            }
        }
        self.cells[cell].value.duplicate()
    }
}

/// Changing only the binding of field `f` keeps the rules when the new
/// binding meets them.
proof fn lemma_set_binding(g0: &Graph, g1: &Graph, f: int)
    requires
        g0.wf(),
        0 <= f < g0.fields@.len(),
        g0.fields@.len() <= usize::MAX,
        g1.cells@ == g0.cells@,
        g1.nodes@ == g0.nodes@,
        g1.fields@.len() == g0.fields@.len(),
        forall|f2: int| 0 <= f2 < g0.fields@.len() && f2 != f ==> #[trigger] g1.fields@[f2] == g0.fields@[f2],
        g1.fields@[f].cell == g0.fields@[f].cell,
        forall|h: usize|
            #[trigger] g1.handler_alive(h) ==> g0.handler_alive(h) && g1.handler(h) == g0.handler(h),
        forall|h: usize|
            g0.handler_alive(h) && g0.handler(h).owner != Owner::Field(f as usize) ==> #[trigger] g1.handler_alive(h),
        g1.handlers@.len() == g0.handlers@.len(),
        g1.field_wf(f),
    ensures
        g1.wf(),
{
    assert(same_nodes(g0, g1));
    assert forall|m: int| #[trigger] g1.current(m) == g0.current(m) by {
        if 0 <= m < g0.nodes@.len() {
            lemma_current_frame(g0, g1, m);
        }
    }
    assert forall|x: usize| x < g1.cells@.len() implies {
        &&& (#[trigger] g1.listeners(x)).no_duplicates()
        &&& forall|k: int| 0 <= k < g1.listeners(x).len() ==> g1.listeners(x)[k] < g1.handlers@.len()
        &&& g1.cell_borrows(x).wf()
    } by {
        assert(g0.listeners(x).no_duplicates());
    }
    assert forall|n: int| 0 <= n < g1.nodes@.len() implies #[trigger] g1.node_shape(n) by {
        assert(g0.node_shape(n));
        assert(g1.handler_alive(g0.nodes@[n].handler));
    }
    assert forall|n: int| 0 <= n < g1.nodes@.len() implies #[trigger] g1.node_sync(n) by {
        assert(g0.node_shape(n));
        assert(g0.node_sync(n));
        assert(g1.handler_alive(g0.nodes@[n].handler));
    }
    assert forall|f2: int| 0 <= f2 < g1.fields@.len() implies #[trigger] g1.field_wf(f2) by {
        if f2 != f {
            assert(g0.field_wf(f2));
            match g0.fields@[f2].binding {
                Some(b) => {
                    assert(g0.handler(b.handler).owner == Owner::Field(f2 as usize));
                    assert(g1.handler_alive(b.handler));
                    match b.source {
                        Operand::Node(m) => {
                            assert(g1.current(m as int) == g0.current(m as int));
                        },
                        Operand::Cell(_) => {},
                    }
                    assert(g1.source_val(b.source) == g0.source_val(b.source));
                },
                None => {},
            }
        }
    }
}

impl Graph {
    /// Remove the binding of field `f`; its cell keeps its value. A no-op when
    /// the field is not bound.
    pub fn field_unbind(&mut self, f: usize)
        requires
            old(self).wf(),
            f < old(self).field_count(),
        ensures
            final(self).wf(),
            kept(old(self), final(self)),
            borrows_kept(old(self), final(self)),
            final(self).field_binding(f as int) is None,
            final(self).field_count() == old(self).field_count(),
            forall|g: int| 0 <= g < old(self).field_count() ==> #[trigger] final(self).field_cell(g) == old(self).field_cell(g),
            forall|g: int| 0 <= g < old(self).field_count() && g != f ==> #[trigger] final(self).field_binding(g) == old(self).field_binding(g),
            forall|x: usize| #![trigger final(self).cell_alive(x)] #![trigger final(self).cell_value(x)] final(self).cell_val(x) == old(self).cell_val(x),
            forall|x: usize| #[trigger] final(self).cell_value(x) == old(self).cell_value(x),
            forall|x: usize| #[trigger] final(self).cell_in_field(x) == old(self).cell_in_field(x),
            keeps_dead(old(self), final(self)),
            final(self).cell_count() == old(self).cell_count(),
            nodes_unchanged(old(self), final(self)),
            final(self).handler_count() == old(self).handler_count(),
            forall|h: usize| #[trigger] final(self).handler_alive(h) ==> old(self).handler_alive(h) && final(self).handler(h) == old(self).handler(h),
            forall|h: usize| old(self).handler_alive(h) && old(self).handler(h).owner != Owner::Field(f) ==> #[trigger] final(self).handler_alive(h),
    {
        proof {
            assert(old(self).field_wf(f as int));
        }
        match self.fields[f].binding {
            None => {},
            Some(b) => {
                RcRef { id: b.handler }.release(&mut self.handlers);
                self.fields[f].binding = None;
                let flen = self.fields.len();
                proof {
                    assert(old(self).fields@.len() == flen);
                    assert forall|h: usize| #[trigger] self.handler_alive(h) implies old(self).handler_alive(h) && self.handler(h) == old(self).handler(h) by {
                        assert(h != b.handler);
                    }
                    assert forall|h: usize| old(self).handler_alive(h) && old(self).handler(h).owner != Owner::Field(f) implies #[trigger] self.handler_alive(h) by {
                        assert(h != b.handler);
                    }
                    assert(self.field_wf(f as int));
                    lemma_set_binding(old(self), self, f as int);
                }
            },
        }
    }

    /// The cells that source `o` depends on.
    pub fn leaves_of(&self, o: Operand) -> (r: Vec<usize>)
        requires
            operand_valid(self, o),
        ensures
            r@ == self.source_leaves(o),
    {
        match o {
            Operand::Cell(c) => {
                let mut v: Vec<usize> = Vec::new();
                v.push(c);
                proof {
                    assert(v@ =~= seq![c]);
                }
                v
            },
            Operand::Node(m) => {
                let mut v: Vec<usize> = Vec::new();
                let mut i: usize = 0;
                while i < self.nodes[m].leaves.len()
                    invariant
                        m < self.nodes@.len(),
                        i <= self.nodes@[m as int].leaves@.len(),
                        v@ == self.nodes@[m as int].leaves@.take(i as int),
                    decreases self.nodes@[m as int].leaves@.len() - i,
                {
                    v.push(self.nodes[m].leaves[i]);
                    proof {
                        assert(v@ =~= self.nodes@[m as int].leaves@.take(i + 1));
                    }
                    i = i + 1;
                }
                proof {
                    assert(v@ =~= self.nodes@[m as int].leaves@);
                }
                v
            },
        }
    }

    /// Bind field `f` to `source`, replacing any binding it had. The field reads
    /// its source's value from its next read on. A source that depends on the
    /// field's own cell would make the field depend on itself: then nothing
    /// changes and the result is false.
    pub fn field_bind(&mut self, f: usize, source: Operand) -> (r: bool)
        requires
            old(self).wf(),
            f < old(self).field_count(),
            operand_valid(old(self), source),
        ensures
            final(self).wf(),
            kept(old(self), final(self)),
            borrows_kept(old(self), final(self)),
            r == !old(self).source_leaves(source).contains(old(self).field_cell(f as int)),
            !r ==> *final(self) == *old(self),
            r ==> (final(self).field_binding(f as int) matches Some(b) && b.source == source
                && final(self).handler(b.handler).pending),
            final(self).field_count() == old(self).field_count(),
            forall|g: int| 0 <= g < old(self).field_count() ==> #[trigger] final(self).field_cell(g) == old(self).field_cell(g),
            forall|g: int| 0 <= g < old(self).field_count() && g != f ==> #[trigger] final(self).field_binding(g) == old(self).field_binding(g),
            forall|x: usize| #![trigger final(self).cell_alive(x)] #![trigger final(self).cell_value(x)] final(self).cell_val(x) == old(self).cell_val(x),
            keeps_dead(old(self), final(self)),
            final(self).cell_count() == old(self).cell_count(),
            final(self).node_count() == old(self).node_count(),
    {
        let cell = self.fields[f].cell;
        let leaves = self.leaves_of(source);
        let mut i: usize = 0;
        while i < leaves.len()
            invariant
                i <= leaves.len(),
                *self == *old(self),
                old(self).wf(),
                cell == old(self).field_cell(f as int),
                leaves@ == old(self).source_leaves(source),
                forall|k: int| 0 <= k < i ==> leaves@[k] != cell,
            decreases leaves.len() - i,
        {
            if leaves[i] == cell {
                proof {
                    assert(leaves@.contains(cell));
                    lemma_kept_intro(old(self), self);
                }
                return false;
            }
            i = i + 1;
        }
        proof {
            assert(!leaves@.contains(cell));
            assert(old(self).field_wf(f as int));
            assert(old(self).node_count() == self.nodes@.len());
            match source {
                Operand::Node(m) => {
                    assert(old(self).node_shape(m as int));
                },
                Operand::Cell(c) => {
                    assert(leaves@[0] == c);
                },
            }
            assert(forall|q: int| 0 <= q < leaves@.len() ==> #[trigger] leaves@[q] < self.cells@.len());
        }
        self.field_unbind(f);
        let ghost g_u = *self;
        let h = self.add_handler(Owner::Field(f), true);
        let ghost g_h = *self;
        proof {
            assert(g_u.cell_val(cell) == old(self).cell_val(cell));
            assert(g_h.cells@ == g_u.cells@);
            assert(g_h.cell_alive(cell));
        }
        self.subscribe(cell, h);
        let mut i: usize = 0;
        while i < leaves.len()
            invariant
                i <= leaves.len(),
                self.wf(),
                leaves@ == old(self).source_leaves(source),
                h == g_h.handlers@.len() - 1,
                handlers_unchanged(&g_h, self),
                g_h.handler_alive(h),
                g_h.handler(h) == (Handler { pending: true, count: 0, owner: Owner::Field(f) }),
                nodes_unchanged(&g_h, self),
                fields_unchanged(&g_h, self),
                self.cells@.len() == g_h.cells@.len(),
                forall|x: usize| #[trigger] self.cell_in_field(x) == g_h.cell_in_field(x),
                forall|x: usize| #![trigger self.cell_alive(x)] #![trigger self.cell_value(x)] self.cell_val(x) == g_h.cell_val(x),
                forall|q: int| 0 <= q < leaves@.len() ==> #[trigger] leaves@[q] < self.cells@.len(),
                cell < self.cells@.len(),
                kept(&g_h, self),
                borrows_kept(&g_h, self),
                self.listeners(cell).contains(h),
                forall|q: int| 0 <= q < i ==> self.listeners(#[trigger] leaves@[q]).contains(h),
            decreases leaves.len() - i,
        {
            let ghost before = *self;
            self.subscribe(leaves[i], h);
            proof {
                lemma_kept_trans(&g_h, &before, self);
                lemma_borrows_kept_trans(&g_h, &before, self);
                assert(before.listeners(cell).contains(h));
                assert(self.listeners(cell).contains(h));
                assert forall|x: usize| #![trigger self.cell_alive(x)] #![trigger self.cell_value(x)] self.cell_val(x) == g_h.cell_val(x) by {
                    assert(before.cell_val(x) == g_h.cell_val(x));
                }
                assert forall|x: usize| #[trigger] self.cell_in_field(x) == g_h.cell_in_field(x) by {
                    assert(before.cell_in_field(x) == g_h.cell_in_field(x));
                }
                assert forall|q: int| 0 <= q < i + 1 implies self.listeners(#[trigger] leaves@[q]).contains(h) by {
                    if q < i {
                        assert(before.listeners(leaves@[q]).contains(h));
                    }
                }
                assert forall|x: usize| #[trigger] self.handler_alive(x) == g_h.handler_alive(x) by {
                    assert(before.handler_alive(x) == g_h.handler_alive(x));
                }
                assert forall|x: usize| g_h.handler_alive(x) implies #[trigger] self.handler(x) == g_h.handler(x) by {
                    assert(before.handler_alive(x));
                }
                assert forall|g: int| 0 <= g < g_h.field_count() implies #[trigger] self.field_cell(g) == g_h.field_cell(g) && self.field_binding(g)
                    == g_h.field_binding(g) by {
                    assert(before.field_cell(g) == g_h.field_cell(g));
                    assert(before.field_binding(g) == g_h.field_binding(g));
                }
            }
            i = i + 1;
        }
        let ghost g_s = *self;
        self.fields[f].binding = Some(FieldBinding { source, handler: h });
        let flen = self.fields.len();
        proof {
            lemma_fields_eq(&g_h, &g_s);
            assert(g_s.nodes@ == old(self).nodes@);
            assert(self.source_leaves(source) == old(self).source_leaves(source));
            assert forall|x: usize| #[trigger] self.source_leaves(source).contains(x) && self.cell_alive(x) implies self.listeners(x).contains(h) by {
                let q = choose|q: int| 0 <= q < leaves@.len() && leaves@[q] == x;
                assert(g_s.listeners(leaves@[q]).contains(h));
            }
            assert(self.cell_alive(cell)) by {
                assert(g_s.cell_val(cell) == g_h.cell_val(cell));
                assert(g_h.cells@ == g_u.cells@);
                assert(g_u.field_wf(f as int));
            }
            assert(self.cells@[cell as int].in_field) by {
                assert(old(self).cell_in_field(cell));
                assert(g_u.cell_in_field(cell));
                assert(g_h.cell_in_field(cell));
                assert(g_s.cell_in_field(cell) == g_h.cell_in_field(cell));
            }
            assert(g_u.field_cell(f as int) == old(self).field_cell(f as int));
            assert(g_h.fields@ == g_u.fields@);
            assert(g_s.fields@[f as int] == g_h.fields@[f as int]);
            assert(self.fields@[f as int].cell == cell);
            assert(g_s.handler_alive(h) == g_h.handler_alive(h));
            assert(self.handlers@ == g_s.handlers@);
            assert(self.handler_alive(h));
            assert(g_s.handler(h) == g_h.handler(h));
            assert(self.handler(h) == g_h.handler(h));
            assert(self.handler(h).owner == Owner::Field(f));
            assert(self.operand_ok(self.nodes@.len() as int, source));
            assert(!self.source_leaves(source).contains(cell));
            assert(self.listeners(cell).contains(h));
            assert(self.field_wf(f as int));
            assert(g_s.fields@.len() == flen);
            lemma_set_binding(&g_s, self, f as int);
            lemma_kept_intro(&g_u, &g_h);
            lemma_kept_intro(&g_s, self);
            lemma_kept_trans(old(self), &g_u, &g_h);
            lemma_kept_trans(old(self), &g_h, &g_s);
            lemma_kept_trans(old(self), &g_s, self);
            lemma_borrows_kept_trans(old(self), &g_u, &g_h);
            lemma_borrows_kept_trans(old(self), &g_h, &g_s);
            lemma_borrows_kept_trans(old(self), &g_s, self);
            assert forall|g: int| 0 <= g < old(self).field_count() implies #[trigger] self.field_cell(g) == old(self).field_cell(g) by {
                assert(g_u.field_cell(g) == old(self).field_cell(g));
                assert(g_s.fields@[g] == g_u.fields@[g]);
            }
            assert forall|g: int| 0 <= g < old(self).field_count() && g != f implies #[trigger] self.field_binding(g) == old(self).field_binding(g) by {
                assert(g_u.field_binding(g) == old(self).field_binding(g));
                assert(g_s.fields@[g] == g_u.fields@[g]);
            }
            assert forall|x: usize| #![trigger self.cell_alive(x)] #![trigger self.cell_value(x)] self.cell_val(x) == old(self).cell_val(x) by {
                assert(g_u.cell_val(x) == old(self).cell_val(x));
                assert(g_h.cells@ == g_u.cells@);
                assert(g_s.cell_val(x) == g_h.cell_val(x));
            }
            assert forall|x: usize| #[trigger] self.cell_alive(x) == old(self).cell_alive(x) by {
                assert(self.cell_val(x) == old(self).cell_val(x));
            }
        }
        true
    }
}

impl Graph {
    fn set_borrows(&mut self, c: usize, b: BorrowCounts)
        requires
            old(self).wf(),
            c < old(self).cells@.len(),
            b.wf(),
        ensures
            final(self).wf(),
            final(self).cell_borrows(c) == b,
            forall|x: usize| x != c && x < old(self).cell_count() ==> #[trigger] final(self).cell_borrows(x) == old(self).cell_borrows(x),
            forall|x: usize| #![trigger final(self).cell_alive(x)] #![trigger final(self).cell_value(x)] final(self).cell_val(x) == old(self).cell_val(x),
            forall|x: usize| x < old(self).cell_count() ==> #[trigger] final(self).listeners(x) == old(self).listeners(x),
            forall|x: usize| #[trigger] final(self).cell_in_field(x) == old(self).cell_in_field(x),
            keeps_dead(old(self), final(self)),
            final(self).cells@.len() == old(self).cells@.len(),
            final(self).handlers@ == old(self).handlers@,
            final(self).nodes@ == old(self).nodes@,
            final(self).fields@ == old(self).fields@,
    {
        self.cells[c].borrow_counts = b;
        proof {
            assert forall|x: usize| x < old(self).cells@.len() && x != c implies #[trigger] self.cells@[x as int] == old(self).cells@[x as int] by {}
            assert forall|x: usize| x < self.cells@.len() implies {
                &&& (#[trigger] self.listeners(x)).no_duplicates()
                &&& forall|k: int| 0 <= k < self.listeners(x).len() ==> self.listeners(x)[k] < self.handlers@.len()
                &&& self.cell_borrows(x).wf()
            } by {
                assert(old(self).listeners(x).no_duplicates());
            }
            assert forall|x: usize| #![trigger self.cell_alive(x)] #![trigger self.cell_value(x)] self.cell_val(x) == old(self).cell_val(x) by {}
            assert(self.cells_wf());
            assert forall|x: usize| x < old(self).cells@.len() implies #[trigger] self.listeners(x) == old(self).listeners(x) by {}
            assert forall|x: usize| #[trigger] self.cell_in_field(x) == old(self).cell_in_field(x) by {
                if x < old(self).cells@.len() && x != c {
                    assert(self.cells@[x as int] == old(self).cells@[x as int]);
                }
            }
            lemma_preserve(old(self), self);
        }
    }

    /// Take a shared access to a live cell.
    pub fn borrow_shared(&mut self, c: usize)
        requires
            old(self).wf(),
            old(self).cell_alive(c),
            !old(self).cell_borrows(c).mutable,
            old(self).cell_borrows(c).immutable < usize::MAX,
        ensures
            final(self).wf(),
            kept(old(self), final(self)),
            forall|x: usize| x < old(self).cell_count() ==> #[trigger] final(self).cell_in_field(x) == old(self).cell_in_field(x),
            final(self).cell_borrows(c).immutable == old(self).cell_borrows(c).immutable + 1,
            !final(self).cell_borrows(c).mutable,
            forall|x: usize| x != c && x < old(self).cell_count() ==> #[trigger] final(self).cell_borrows(x) == old(self).cell_borrows(x),
            forall|x: usize| #![trigger final(self).cell_alive(x)] #![trigger final(self).cell_value(x)] final(self).cell_val(x) == old(self).cell_val(x),
            keeps_dead(old(self), final(self)),
            handlers_unchanged(old(self), final(self)),
            nodes_unchanged(old(self), final(self)),
            fields_unchanged(old(self), final(self)),
    {
        let mut b = self.cells[c].borrow_counts;
        proof {
            assert(old(self).listeners(c).no_duplicates());
        }
        b.count_borrow();
        self.set_borrows(c, b);
    }

    /// Release a shared access.
    pub fn release_shared(&mut self, c: usize)
        requires
            old(self).wf(),
            c < old(self).cell_count(),
            old(self).cell_borrows(c).immutable > 0,
        ensures
            final(self).wf(),
            kept(old(self), final(self)),
            forall|x: usize| x < old(self).cell_count() ==> #[trigger] final(self).cell_in_field(x) == old(self).cell_in_field(x),
            final(self).cell_borrows(c).immutable == old(self).cell_borrows(c).immutable - 1,
            final(self).cell_borrows(c).mutable == old(self).cell_borrows(c).mutable,
            forall|x: usize| x != c && x < old(self).cell_count() ==> #[trigger] final(self).cell_borrows(x) == old(self).cell_borrows(x),
            forall|x: usize| #![trigger final(self).cell_alive(x)] #![trigger final(self).cell_value(x)] final(self).cell_val(x) == old(self).cell_val(x),
            keeps_dead(old(self), final(self)),
            handlers_unchanged(old(self), final(self)),
            nodes_unchanged(old(self), final(self)),
            fields_unchanged(old(self), final(self)),
    {
        let mut b = self.cells[c].borrow_counts;
        proof {
            assert(old(self).listeners(c).no_duplicates());
        }
        b.count_unborrow();
        self.set_borrows(c, b);
    }

    /// Take the exclusive access to a live cell.
    pub fn borrow_exclusive(&mut self, c: usize)
        requires
            old(self).wf(),
            old(self).cell_alive(c),
            old(self).cell_borrows(c).is_free(),
        ensures
            final(self).wf(),
            kept(old(self), final(self)),
            forall|x: usize| x < old(self).cell_count() ==> #[trigger] final(self).cell_in_field(x) == old(self).cell_in_field(x),
            final(self).cell_borrows(c).mutable,
            final(self).cell_borrows(c).immutable == 0,
            forall|x: usize| x != c && x < old(self).cell_count() ==> #[trigger] final(self).cell_borrows(x) == old(self).cell_borrows(x),
            forall|x: usize| #![trigger final(self).cell_alive(x)] #![trigger final(self).cell_value(x)] final(self).cell_val(x) == old(self).cell_val(x),
            keeps_dead(old(self), final(self)),
            handlers_unchanged(old(self), final(self)),
            nodes_unchanged(old(self), final(self)),
            fields_unchanged(old(self), final(self)),
    {
        let mut b = self.cells[c].borrow_counts;
        b.count_borrow_mut();
        self.set_borrows(c, b);
    }

    /// Release the exclusive access.
    pub fn release_exclusive(&mut self, c: usize)
        requires
            old(self).wf(),
            c < old(self).cell_count(),
            old(self).cell_borrows(c).mutable,
        ensures
            final(self).wf(),
            kept(old(self), final(self)),
            forall|x: usize| x < old(self).cell_count() ==> #[trigger] final(self).cell_in_field(x) == old(self).cell_in_field(x),
            final(self).cell_borrows(c).is_free(),
            forall|x: usize| x != c && x < old(self).cell_count() ==> #[trigger] final(self).cell_borrows(x) == old(self).cell_borrows(x),
            forall|x: usize| #![trigger final(self).cell_alive(x)] #![trigger final(self).cell_value(x)] final(self).cell_val(x) == old(self).cell_val(x),
            keeps_dead(old(self), final(self)),
            handlers_unchanged(old(self), final(self)),
            nodes_unchanged(old(self), final(self)),
            fields_unchanged(old(self), final(self)),
    {
        let mut b = self.cells[c].borrow_counts;
        proof {
            assert(old(self).listeners(c).no_duplicates());
        }
        b.count_unborrow_mut();
        self.set_borrows(c, b);
    }

    /// The access accounting of cell `c`.
    pub fn borrows_of(&self, c: usize) -> (r: BorrowCounts)
        requires
            c < self.cell_count(),
        ensures
            r == self.cell_borrows(c),
    {
        self.cells[c].borrow_counts
    }
}

/// A live cell is one of the graph's cells.
pub proof fn lemma_alive_in_range(g: &Graph, c: usize)
    requires
        g.cell_alive(c),
    ensures
        c < g.cell_count(),
{
}

/// A cell that is alive in both graphs with the same value reads the same.
pub proof fn lemma_cell_val_eq(g0: &Graph, g1: &Graph, c: usize)
    requires
        g0.cell_alive(c) == g1.cell_alive(c),
        g0.cell_alive(c) ==> g0.cell_value(c) == g1.cell_value(c),
    ensures
        g0.cell_val(c) == g1.cell_val(c),
{
}

/// What a weak handle reads determines whether the cell is alive, and its value
/// while it is.
pub proof fn lemma_cell_val(g0: &Graph, g1: &Graph, c: usize)
    requires
        g0.cell_val(c) == g1.cell_val(c),
    ensures
        g0.cell_alive(c) == g1.cell_alive(c),
        g0.cell_alive(c) ==> g0.cell_value(c) == g1.cell_value(c),
{
}

impl Graph {
    /// The value of node `n`, recomputed first when it is dirty.
    pub fn get_node(&mut self, n: usize) -> (r: Option<Value>)
        requires
            old(self).wf(),
            n < old(self).node_count(),
        ensures
            final(self).wf(),
            kept(old(self), final(self)),
            borrows_kept(old(self), final(self)),
            opt_view(r) == old(self).current(n as int),
            !final(self).node_dirty(n as int),
            !old(self).node_dirty(n as int) ==> *final(self) == *old(self),
            forall|m: int| #[trigger] final(self).current(m) == old(self).current(m),
            forall|x: usize| #![trigger final(self).cell_alive(x)] #![trigger final(self).cell_value(x)] final(self).cell_val(x) == old(self).cell_val(x),
            keeps_dead(old(self), final(self)),
            fields_unchanged(old(self), final(self)),
            final(self).node_count() == old(self).node_count(),
            final(self).cell_count() == old(self).cell_count(),
            final(self).handler_count() == old(self).handler_count(),
            forall|o: Operand| operand_valid(old(self), o) ==> #[trigger] final(self).source_leaves(o) == old(self).source_leaves(o),
            forall|x: usize| #[trigger] final(self).cell_in_field(x) == old(self).cell_in_field(x),
            forall|m: int| 0 <= m < old(self).node_count() ==> #[trigger] final(self).node_op(m) == old(self).node_op(m)
                && final(self).node_operands(m) == old(self).node_operands(m),
    {
        let r = self.node_get(n);
        proof {
            assert forall|o: Operand| operand_valid(old(self), o) implies #[trigger] self.source_leaves(o) == old(self).source_leaves(o) by {
                match o {
                    Operand::Node(m) => {
                        assert(self.nodes@[m as int].leaves@ == old(self).nodes@[m as int].leaves@);
                    },
                    Operand::Cell(_) => {},
                }
            }
            lemma_refreshed_current(old(self), self);
            assert(self.cells@ == old(self).cells@);
            assert(self.fields@ == old(self).fields@);
        }
        r
    }
}

impl Graph {
    /// The value of source `o` as a bound field would read it: a cell's value
    /// while it is alive, a node's value (recomputed when dirty).
    pub fn read_source(&mut self, o: Operand) -> (r: Option<Value>)
        requires
            old(self).wf(),
            operand_valid(old(self), o),
        ensures
            final(self).wf(),
            kept(old(self), final(self)),
            borrows_kept(old(self), final(self)),
            opt_view(r) == old(self).source_val(o),
            forall|m: int| #[trigger] final(self).current(m) == old(self).current(m),
            forall|x: usize| #![trigger final(self).cell_alive(x)] #![trigger final(self).cell_value(x)] final(self).cell_val(x) == old(self).cell_val(x),
            keeps_dead(old(self), final(self)),
            fields_unchanged(old(self), final(self)),
            final(self).node_count() == old(self).node_count(),
            final(self).cell_count() == old(self).cell_count(),
            final(self).handler_count() == old(self).handler_count(),
            forall|p: Operand| operand_valid(old(self), p) ==> #[trigger] final(self).source_leaves(p) == old(self).source_leaves(p),
    {
        match o {
            Operand::Cell(c) => {
                if self.is_cell_alive(c) {
                    Some(self.cells[c].value.duplicate())
                } else {
                    None
                }
            },
            Operand::Node(m) => self.get_node(m),
        }
    }

    /// Whether node `n` must recompute before its next read.
    pub fn node_is_dirty(&self, n: usize) -> (r: bool)
        requires
            self.wf(),
            n < self.node_count(),
        ensures
            r == self.node_dirty(n as int),
    {
        proof {
            assert(self.node_shape(n as int));
        }
        self.handlers.get(self.nodes[n].handler).unwrap().pending
    }

    /// Whether source `o` depends on cell `c`, so that a field whose cell is `c`
    /// cannot be bound to it.
    pub fn depends_on(&self, o: Operand, c: usize) -> (r: bool)
        requires
            operand_valid(self, o),
        ensures
            r == self.source_leaves(o).contains(c),
    {
        let leaves = self.leaves_of(o);
        let mut i: usize = 0;
        while i < leaves.len()
            invariant
                i <= leaves@.len(),
                leaves@ == self.source_leaves(o),
                forall|q: int| 0 <= q < i ==> leaves@[q] != c,
            decreases leaves@.len() - i,
        {
            if leaves[i] == c {
                proof {
                    assert(leaves@[i as int] == c);
                }
                return true;
            }
            i = i + 1;
        }
        false
    }

    /// Whether field `f` is bound.
    pub fn field_is_bound(&self, f: usize) -> (r: bool)
        requires
            f < self.field_count(),
        ensures
            r == self.field_binding(f as int) is Some,
    {
        self.fields[f].binding.is_some()
    }

    /// The cell of field `f`.
    pub fn cell_of_field(&self, f: usize) -> (r: usize)
        requires
            f < self.field_count(),
        ensures
            r == self.field_cell(f as int),
    {
        self.fields[f].cell
    }
}

/// The cell of a field is alive and belongs to the field.
pub proof fn lemma_field_cell(g: &Graph, f: int)
    requires
        g.wf(),
        0 <= f < g.field_count(),
    ensures
        g.cell_alive(g.field_cell(f)),
        g.cell_in_field(g.field_cell(f)),
        g.field_cell(f) < g.cell_count(),
{
    assert(g.field_wf(f));
}

/// Every cell a valid source depends on is one of the graph's cells.
pub proof fn lemma_leaves_below(g: &Graph, o: Operand)
    requires
        g.wf(),
        operand_valid(g, o),
    ensures
        forall|x: usize| #[trigger] g.source_leaves(o).contains(x) ==> x < g.cell_count(),
{
    match o {
        Operand::Cell(c) => {
            assert forall|x: usize| #[trigger] g.source_leaves(o).contains(x) implies x < g.cell_count() by {
                assert(g.source_leaves(o)[0] == c);
            }
        },
        Operand::Node(m) => {
            assert(g.node_shape(m as int));
            assert forall|x: usize| #[trigger] g.source_leaves(o).contains(x) implies x < g.cell_count() by {
                let k = choose|k: int| 0 <= k < g.source_leaves(o).len() && g.source_leaves(o)[k] == x;
                assert(g.nodes@[m as int].leaves@[k] < g.cells@.len());
            }
        },
    }
}

/// The cells a source depends on are fixed by the nodes.
pub proof fn lemma_source_leaves_same(g0: &Graph, g1: &Graph, o: Operand)
    requires
        nodes_unchanged(g0, g1),
    ensures
        g1.source_leaves(o) == g0.source_leaves(o),
{
}

/// A node's value is its combining function applied to the values its operands
/// have now: a cell reads its value while alive and nothing once gone, a node
/// reads its own current value.
pub proof fn lemma_node_value(g: &Graph, n: int)
    requires
        g.wf(),
        0 <= n < g.node_count(),
    ensures
        g.current(n) == eval(g.node_op(n), operand_vals(g, n)),
        operand_vals(g, n).len() == g.node_operands(n).len(),
        forall|k: int|
            0 <= k < g.node_operands(n).len() ==> #[trigger] operand_vals(g, n)[k] == match g.node_operands(n)[k] {
                Operand::Cell(c) => g.cell_val(c),
                Operand::Node(m) => g.current(m as int),
            },
        forall|k: int|
            0 <= k < g.node_operands(n).len() ==> (#[trigger] g.node_operands(n)[k] matches Operand::Node(m) ==> m < n),
{
    assert(g.node_shape(n));
    lemma_current_is_eval(g, n);
}

/// Death is forever: a cell that was dead before a sequence of operations that
/// each keep the dead dead is still dead after it.
pub proof fn lemma_keeps_dead_trans(g0: &Graph, g1: &Graph, g2: &Graph)
    requires
        keeps_dead(g0, g1),
        keeps_dead(g1, g2),
    ensures
        keeps_dead(g0, g2),
{
}

/// Changing one cell that a source does not depend on leaves the source's value as it was.
pub proof fn lemma_source_val_after_set(g0: &Graph, g1: &Graph, o: Operand, c: usize)
    requires
        g0.wf(),
        operand_valid(g0, o),
        nodes_unchanged(g0, g1),
        forall|x: usize| #![trigger g1.cell_alive(x)] #![trigger g1.cell_value(x)] x != c ==> g1.cell_val(x) == g0.cell_val(x),
        !g0.source_leaves(o).contains(c),
    ensures
        g1.source_val(o) == g0.source_val(o),
{
    match o {
        Operand::Cell(x) => {
            assert(g0.source_leaves(o)[0] == x);
        },
        Operand::Node(m) => {
            assert(same_nodes(g0, g1));
            assert forall|x: usize| #[trigger] g0.nodes@[m as int].leaves@.contains(x) implies g0.cell_val(x) == g1.cell_val(x) by {}
            lemma_current_frame(g0, g1, m as int);
        },
    }
}

/// Recomputing nodes changes no source's value.
pub proof fn lemma_source_val_same(g0: &Graph, g1: &Graph, o: Operand)
    requires
        forall|m: int| #[trigger] g1.current(m) == g0.current(m),
        forall|x: usize| #![trigger g1.cell_alive(x)] #![trigger g1.cell_value(x)] g1.cell_val(x) == g0.cell_val(x),
        g1.node_count() == g0.node_count(),
    ensures
        g1.source_val(o) == g0.source_val(o),
{
    match o {
        Operand::Cell(x) => {
            assert(g1.cell_val(x) == g0.cell_val(x));
        },
        Operand::Node(m) => {
            assert(g1.current(m as int) == g0.current(m as int));
        },
    }
}

impl Graph {
    /// Give back the exclusive access to a live cell and store `value` in it,
    /// firing each live handler registered on the cell once, whether or not
    /// the value differs.
    pub fn commit_exclusive(&mut self, c: usize, value: Value)
        requires
            old(self).wf(),
            old(self).cell_alive(c),
            old(self).cell_borrows(c).mutable,
        ensures
            final(self).wf(),
            kept(old(self), final(self)),
            final(self).cell_alive(c),
            final(self).cell_value(c) == value@,
            final(self).cell_borrows(c).is_free(),
            forall|x: usize| x != c && x < old(self).cell_count() ==> #[trigger] final(self).cell_borrows(x) == old(self).cell_borrows(x),
            fired_listeners(old(self), final(self), c),
            forall|x: usize| #![trigger final(self).cell_alive(x)] #![trigger final(self).cell_value(x)] x != c ==> final(self).cell_val(x) == old(self).cell_val(x),
            fields_unchanged(old(self), final(self)),
    {
        let ghost g0 = *self;
        let mut b = self.cells[c].borrow_counts;
        proof {
            assert(g0.listeners(c).no_duplicates());
        }
        b.count_unborrow_mut();
        self.set_borrows(c, b);
        let ghost g1 = *self;
        proof {
            assert(g1.listeners(c) == g0.listeners(c));
            assert(g1.handlers@ == g0.handlers@);
            assert(g1.live_listeners(c) == g0.live_listeners(c));
            assert(g1.cell_val(c) == g0.cell_val(c));
        }
        self.replace_cell(c, value);
        proof {
            lemma_kept_trans(&g0, &g1, self);
            assert forall|x: usize| #![trigger self.cell_alive(x)] #![trigger self.cell_value(x)] x != c implies self.cell_val(x) == g0.cell_val(x) by {
                assert(g1.cell_val(x) == g0.cell_val(x));
            }
            assert forall|x: usize| x != c && x < g0.cell_count() implies #[trigger] self.cell_borrows(x) == g0.cell_borrows(x) by {
                assert(g1.cell_borrows(x) == g0.cell_borrows(x));
            }
            assert forall|f: int| 0 <= f < g0.field_count() implies #[trigger] self.field_cell(f) == g0.field_cell(f) && self.field_binding(f)
                == g0.field_binding(f) by {
                assert(g1.field_cell(f) == g0.field_cell(f));
                assert(g1.field_binding(f) == g0.field_binding(f));
            }
        }
    }
}

/// A source's value depends only on the nodes' shape and on the cells it depends on.
pub proof fn lemma_source_val_frame(g0: &Graph, g1: &Graph, o: Operand)
    requires
        g0.wf(),
        operand_valid(g0, o),
        kept(g0, g1),
        forall|x: usize| #[trigger] g0.source_leaves(o).contains(x) ==> g1.cell_val(x) == g0.cell_val(x),
    ensures
        g1.source_val(o) == g0.source_val(o),
{
    match o {
        Operand::Cell(c) => {
            assert(g0.source_leaves(o)[0] == c);
            assert(g0.source_leaves(o).contains(c));
            assert(g1.cell_val(c) == g0.cell_val(c));
        },
        Operand::Node(m) => {
            assert(same_nodes(g0, g1)) by {
                assert forall|k: int| 0 <= k < g0.nodes@.len() implies {
                    &&& (#[trigger] g1.nodes@[k]).op == g0.nodes@[k].op
                    &&& g1.nodes@[k].operands@ == g0.nodes@[k].operands@
                    &&& g1.nodes@[k].leaves@ == g0.nodes@[k].leaves@
                } by {
                    assert(g1.node_op(k) == g0.node_op(k));
                    assert(g1.node_operands(k) == g0.node_operands(k));
                    assert(g1.node_leaves(k) == g0.node_leaves(k));
                }
            }
            assert forall|x: usize| #[trigger] g0.nodes@[m as int].leaves@.contains(x) implies g0.cell_val(x) == g1.cell_val(x) by {
                assert(g0.source_leaves(o).contains(x));
            }
            lemma_current_frame(g0, g1, m as int);
        },
    }
}

} // verus!
