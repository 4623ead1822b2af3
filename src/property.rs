//! Fields: user-facing cells that can mirror a derived value.
use vstd::prelude::*;
use crate::graph::{lemma_source_val_frame, lemma_source_val_same, handlers_unchanged, borrows_kept, fired_listeners, kept, lemma_kept_trans, lemma_borrows_kept_trans, field_target, fields_unchanged, keeps_dead, lemma_cell_val, lemma_field_cell, lemma_leaves_below, lemma_source_leaves_same, nodes_unchanged, operand_valid, Graph, Operand};
use crate::obsv::{default_of, frame, framed, ModifyInnerRef, Observable};
use crate::ops::{text_of, value_text};
use crate::value::{Value, ValueModel};

verus! {

/// A handle to a field of a graph: a cell of its own that can be bound to a
/// source (a cell or a derived node) and then mirrors the source's value.
///
/// A bound field pulls the source's value into its cell when it is read after
/// the source changed. A value set directly on a bound field is overwritten at
/// the next read, as long as the binding lasts.
#[derive(Clone, Copy, Debug)]
pub struct Property {
    pub field: usize,
    pub cell: usize,
}

impl Property {
    /// The handle refers to a field of `g`, and knows that field's cell.
    pub open spec fn inv(&self, g: &Graph) -> bool {
        &&& self.field < g.field_count()
        &&& g.field_cell(self.field as int) == self.cell
    }

    /// A new, unbound field holding `value`.
    pub fn new(g: &mut Graph, value: Value) -> (r: Property)
        requires
            old(g).wf(),
        ensures
            final(g).wf(),
            kept(old(g), final(g)),
            borrows_kept(old(g), final(g)),
            final(g).cell_borrows(r.cell).is_free(),
            final(g).cell_alive(r.cell),
            r.inv(final(g)),
            r.field == old(g).field_count(),
            r.cell == old(g).cell_count(),
            final(g).cell_count() == old(g).cell_count() + 1,
            nodes_unchanged(old(g), final(g)),
            final(g).node_count() == old(g).node_count(),
            final(g).handler_count() == old(g).handler_count(),
            final(g).field_binding(r.field as int) is None,
            final(g).cell_value(r.cell) == value@,
            forall|x: usize| #![trigger final(g).cell_alive(x)] #![trigger final(g).cell_value(x)] x < old(g).cell_count() ==> final(g).cell_val(x) == old(g).cell_val(x),
            keeps_dead(old(g), final(g)),
            forall|f: int| 0 <= f < old(g).field_count() ==> #[trigger] final(g).field_cell(f) == old(g).field_cell(f)
                && final(g).field_binding(f) == old(g).field_binding(f),
    {
        let f = g.add_field(value);
        let c = g.cell_of_field(f);
        proof {
            lemma_field_cell(g, f as int);
        }
        Property { field: f, cell: c }
    }

    /// A new field bound to `source`, holding the source's value (empty text
    /// when the source is already gone).
    pub fn bound_to(g: &mut Graph, source: Operand) -> (r: Property)
        requires
            old(g).wf(),
            operand_valid(old(g), source),
        ensures
            final(g).wf(),
            forall|x: usize| #![trigger final(g).cell_alive(x)] #![trigger final(g).cell_value(x)] x < old(g).cell_count()
                ==> final(g).cell_val(x) == old(g).cell_val(x),
            final(g).source_val(source) == old(g).source_val(source),
            final(g).handler(final(g).field_binding(r.field as int).unwrap().handler).pending,
            kept(old(g), final(g)),
            borrows_kept(old(g), final(g)),
            r.inv(final(g)),
            final(g).field_binding(r.field as int) matches Some(b) && b.source == source,
            old(g).source_val(source) matches Some(v) ==> final(g).cell_value(r.cell) == v,
            keeps_dead(old(g), final(g)),
    {
        let v = g.read_source(source);
        let init = match v {
            Some(v) => v,
            None => Value::Text(String::new()),
        };
        let ghost g1 = *g;
        let p = Property::new(g, init);
        proof {
            lemma_field_cell(g, p.field as int);
            lemma_leaves_below(&g1, source);
            lemma_source_leaves_same(&g1, g, source);
            assert(!g.source_leaves(source).contains(p.cell));
        }
        let ghost g2 = *g;
        g.field_bind(p.field, source);
        proof {
            lemma_cell_val(&g2, g, p.cell);
            lemma_kept_trans(old(g), &g1, &g2);
            lemma_kept_trans(old(g), &g2, g);
            lemma_borrows_kept_trans(old(g), &g1, &g2);
            lemma_borrows_kept_trans(old(g), &g2, g);
            lemma_source_val_same(old(g), &g1, source);
            assert forall|x: usize| #[trigger] g1.source_leaves(source).contains(x) implies g2.cell_val(x) == g1.cell_val(x) by {
                assert(x < g1.cell_count());
            }
            lemma_source_val_frame(&g1, &g2, source);
            lemma_source_val_frame(&g2, g, source);
            assert forall|x: usize| x < old(g).cell_count() implies #[trigger] g.cell_val(x) == old(g).cell_val(x) by {
                assert(g1.cell_val(x) == old(g).cell_val(x));
                assert(g2.cell_val(x) == g1.cell_val(x));
            }
        }
        p
    }

    /// The value of this field; a bound field first pulls its source's value
    /// when the source changed since the last read.
    pub fn get(&self, g: &mut Graph) -> (r: Value)
        requires
            old(g).wf(),
            self.inv(old(g)),
        ensures
            final(g).wf(),
            kept(old(g), final(g)),
            borrows_kept(old(g), final(g)),
            (old(g).field_binding(self.field as int) matches Some(b) && old(g).handler(b.handler).pending) || *final(g)
                == *old(g),
            self.inv(final(g)),
            r@ == field_target(old(g), self.field as int),
            final(g).cell_alive(self.cell),
            final(g).cell_value(self.cell) == r@,
            forall|x: usize| #![trigger final(g).cell_alive(x)] #![trigger final(g).cell_value(x)] x != self.cell ==> final(g).cell_val(x) == old(g).cell_val(x),
            keeps_dead(old(g), final(g)),
            fields_unchanged(old(g), final(g)),
    {
        let r = g.field_get(self.field);
        proof {
            lemma_field_cell(g, self.field as int);
        }
        r
    }

    /// Set the value of this field's cell directly.
    pub fn set(&self, g: &mut Graph, value: Value)
        requires
            old(g).wf(),
            self.inv(old(g)),
        ensures
            final(g).wf(),
            kept(old(g), final(g)),
            borrows_kept(old(g), final(g)),
            final(g).cell_alive(self.cell),
            old(g).cell_value(self.cell) == value@ ==> *final(g) == *old(g),
            old(g).cell_value(self.cell) != value@ ==> fired_listeners(old(g), final(g), self.cell),
            self.inv(final(g)),
            final(g).cell_value(self.cell) == value@,
            forall|x: usize| #![trigger final(g).cell_alive(x)] #![trigger final(g).cell_value(x)] x != self.cell ==> final(g).cell_val(x) == old(g).cell_val(x),
            keeps_dead(old(g), final(g)),
            fields_unchanged(old(g), final(g)),
    {
        proof {
            lemma_field_cell(old(g), self.field as int);
        }
        g.set_cell(self.cell, value)
    }

    /// Reset this field to the default of its kind (0, false or empty text).
    pub fn clear(&self, g: &mut Graph)
        requires
            old(g).wf(),
            self.inv(old(g)),
        ensures
            final(g).wf(),
            kept(old(g), final(g)),
            borrows_kept(old(g), final(g)),
            final(g).cell_alive(self.cell),
            old(g).cell_value(self.cell) == default_of(old(g).cell_value(self.cell)) ==> *final(g) == *old(g),
            old(g).cell_value(self.cell) != default_of(old(g).cell_value(self.cell)) ==> fired_listeners(
                old(g),
                final(g),
                self.cell,
            ),
            self.inv(final(g)),
            final(g).cell_value(self.cell) == default_of(old(g).cell_value(self.cell)),
            keeps_dead(old(g), final(g)),
            fields_unchanged(old(g), final(g)),
    {
        proof {
            lemma_field_cell(old(g), self.field as int);
        }
        let o = Observable { cell: self.cell };
        o.clear(g);
    }

    /// Reset this field to the default of its kind.
    pub fn reset(&self, g: &mut Graph)
        requires
            old(g).wf(),
            self.inv(old(g)),
        ensures
            final(g).wf(),
            kept(old(g), final(g)),
            borrows_kept(old(g), final(g)),
            final(g).cell_alive(self.cell),
            old(g).cell_value(self.cell) == default_of(old(g).cell_value(self.cell)) ==> *final(g) == *old(g),
            old(g).cell_value(self.cell) != default_of(old(g).cell_value(self.cell)) ==> fired_listeners(
                old(g),
                final(g),
                self.cell,
            ),
            self.inv(final(g)),
            final(g).cell_value(self.cell) == default_of(old(g).cell_value(self.cell)),
            keeps_dead(old(g), final(g)),
            fields_unchanged(old(g), final(g)),
    {
        self.clear(g)
    }

    /// Flip a field that holds a truth value; a field of another kind keeps its value.
    pub fn invert(&self, g: &mut Graph)
        requires
            old(g).wf(),
            self.inv(old(g)),
        ensures
            final(g).wf(),
            kept(old(g), final(g)),
            borrows_kept(old(g), final(g)),
            final(g).cell_alive(self.cell),
            old(g).field_binding(self.field as int) is None && old(g).cell_value(self.cell) is Bool ==> fired_listeners(
                old(g),
                final(g),
                self.cell,
            ),
            self.inv(final(g)),
            final(g).cell_value(self.cell) == match field_target(old(g), self.field as int) {
                ValueModel::Bool(b) => ValueModel::Bool(!b),
                v => v,
            },
            keeps_dead(old(g), final(g)),
            fields_unchanged(old(g), final(g)),
    {
        let v = self.get(g);
        let ghost g1 = *g;
        let flipped = match v {
            Value::Bool(b) => Value::Bool(!b),
            other => other,
        };
        self.set(g, flipped);
        proof {
            lemma_kept_trans(old(g), &g1, g);
            lemma_borrows_kept_trans(old(g), &g1, g);
        }
    }

    /// Take exclusive access to this field's cell to change it in place.
    pub fn modify_inner(&self, g: &mut Graph) -> (r: ModifyInnerRef)
        requires
            old(g).wf(),
            self.inv(old(g)),
            old(g).cell_borrows(self.cell).is_free(),
        ensures
            final(g).wf(),
            fields_unchanged(old(g), final(g)),
            handlers_unchanged(old(g), final(g)),
            kept(old(g), final(g)),
            r.staged() == old(g).cell_value(self.cell),
            final(g).cell_borrows(self.cell).mutable,
            forall|x: usize| x != self.cell && x < old(g).cell_count() ==> #[trigger] final(g).cell_borrows(x) == old(g).cell_borrows(x),
            forall|x: usize| #![trigger final(g).cell_alive(x)] #![trigger final(g).cell_value(x)] final(g).cell_val(x) == old(g).cell_val(x),
            self.inv(final(g)),
            r.cell == self.cell,
            keeps_dead(old(g), final(g)),
    {
        proof {
            lemma_field_cell(old(g), self.field as int);
        }
        let o = Observable { cell: self.cell };
        o.modify_inner(g)
    }

    /// Bind this field to `source`, replacing any binding. The binding starts
    /// dirty, so the next read pulls the source's value.
    ///
    /// A source that depends on this field's own cell would make the field feed
    /// itself, a reentrant update that this library does not give a meaning to:
    /// such a binding is refused, nothing changes and the result is false.
    /// `Graph::depends_on` tells beforehand whether a source is refused.
    pub fn bind(&self, g: &mut Graph, source: Operand) -> (r: bool)
        requires
            old(g).wf(),
            self.inv(old(g)),
            operand_valid(old(g), source),
        ensures
            final(g).wf(),
            kept(old(g), final(g)),
            borrows_kept(old(g), final(g)),
            self.inv(final(g)),
            r == !old(g).source_leaves(source).contains(self.cell),
            r ==> (final(g).field_binding(self.field as int) matches Some(b) && b.source == source
                && final(g).handler(b.handler).pending),
            !r ==> *final(g) == *old(g),
            forall|x: usize| #![trigger final(g).cell_alive(x)] #![trigger final(g).cell_value(x)] final(g).cell_val(x) == old(g).cell_val(x),
            keeps_dead(old(g), final(g)),
    {
        g.field_bind(self.field, source)
    }

    /// Remove the binding; the field keeps its last value.
    pub fn unbind(&self, g: &mut Graph)
        requires
            old(g).wf(),
            self.inv(old(g)),
        ensures
            final(g).wf(),
            kept(old(g), final(g)),
            borrows_kept(old(g), final(g)),
            self.inv(final(g)),
            final(g).field_binding(self.field as int) is None,
            final(g).cell_value(self.cell) == old(g).cell_value(self.cell),
            forall|x: usize| #![trigger final(g).cell_alive(x)] #![trigger final(g).cell_value(x)] final(g).cell_val(x) == old(g).cell_val(x),
            keeps_dead(old(g), final(g)),
    {
        g.field_unbind(self.field)
    }

    /// Whether this field is bound.
    pub fn is_bound(&self, g: &Graph) -> (r: bool)
        requires
            self.inv(g),
        ensures
            r == g.field_binding(self.field as int) is Some,
    {
        g.field_is_bound(self.field)
    }

    /// A description of this field and its value, read as `get` reads it:
    /// `Property { 42 }`.
    pub fn debug_text(&self, g: &mut Graph) -> (r: String)
        requires
            old(g).wf(),
            self.inv(old(g)),
        ensures
            final(g).wf(),
            kept(old(g), final(g)),
            borrows_kept(old(g), final(g)),
            self.inv(final(g)),
            r@ == framed("Property { "@, text_of(field_target(old(g), self.field as int))),
            keeps_dead(old(g), final(g)),
            fields_unchanged(old(g), final(g)),
    {
        let v = self.get(g);
        let t = value_text(&v);
        frame("Property { ", t.as_str())
    }

    /// What an expression reads when it takes this field as an operand.
    pub fn operand(&self) -> (r: Operand)
        ensures
            r == Operand::Cell(self.cell),
    {
        Operand::Cell(self.cell)
    }
}

/// An expression that reads the value of a cell: it lets one field bind to another.
#[derive(Clone, Copy, Debug)]
pub struct PropertyExpression {
    pub cell: usize,
}

impl PropertyExpression {
    /// An expression reading `src`.
    pub fn new(src: &Observable) -> (r: PropertyExpression)
        ensures
            r.cell == src.cell,
    {
        PropertyExpression { cell: src.cell }
    }

    /// The operand this expression stands for.
    pub fn operand(&self) -> (r: Operand)
        ensures
            r == Operand::Cell(self.cell),
    {
        Operand::Cell(self.cell)
    }
}

} // verus!
