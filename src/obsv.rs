//! Observable cells, the handlers that listen to them, and weak pointers that
//! can tell whether their cell is still alive.
use vstd::prelude::*;
use crate::graph::{borrows_kept, kept, lemma_alive_in_range, lemma_cell_val, lemma_cell_val_eq, fired_listeners, fields_unchanged, handlers_unchanged, keeps_dead, nodes_unchanged, Graph, Handler, Operand, Owner};
use crate::ops::{text_of, value_text};
use crate::value::{Value, ValueModel};

verus! {

/// The value a cell of the same kind is reset to: 0, false or empty text.
pub open spec fn default_of(v: ValueModel) -> ValueModel {
    match v {
        ValueModel::Int(_) => ValueModel::Int(0),
        ValueModel::Bool(_) => ValueModel::Bool(false),
        ValueModel::Text(_) => ValueModel::Text(Seq::empty()),
    }
}

/// `prefix`, then `body`, then ` }`.
pub open spec fn framed(prefix: Seq<char>, body: Seq<char>) -> Seq<char> {
    prefix + body + seq![' ', '}']
}

/// `prefix`, then `body`, then ` }`.
pub fn frame(prefix: &str, body: &str) -> (r: String)
    ensures
        r@ == framed(prefix@, body@),
{
    let mut s = String::new();
    s.append(prefix);
    s.append(body);
    proof {
        reveal_strlit(" }");
    }
    s.append(" }");
    proof {
        assert(s@ =~= framed(prefix@, body@));
    }
    s
}

fn default_like(v: &Value) -> (r: Value)
    ensures
        r@ == default_of(v@),
{
    match v {
        Value::Int(_) => Value::Int(0),
        Value::Bool(_) => Value::Bool(false),
        Value::Text(_) => Value::Text(String::new()),
    }
}

/// A handler to register on cells: it counts how many times a change fired it.
#[derive(Debug)]
pub struct InvalidationHandler {
    pub id: usize,
}

impl InvalidationHandler {
    /// A fresh handler, owned by the caller, that has not fired yet.
    pub fn new(g: &mut Graph) -> (r: InvalidationHandler)
        requires
            old(g).wf(),
        ensures
            final(g).wf(),
            kept(old(g), final(g)),
            borrows_kept(old(g), final(g)),
            r.id == old(g).handler_count(),
            final(g).handler_alive(r.id),
            final(g).handler(r.id) == (Handler { pending: false, count: 0, owner: Owner::User }),
            forall|x: usize| x < old(g).handler_count() ==> #[trigger] final(g).handler_alive(x)
                == old(g).handler_alive(x) && final(g).handler(x) == old(g).handler(x),
            forall|x: usize| #![trigger final(g).cell_alive(x)] #![trigger final(g).cell_value(x)] final(g).cell_val(x) == old(g).cell_val(x),
            keeps_dead(old(g), final(g)),
            final(g).cell_count() == old(g).cell_count(),
            final(g).node_count() == old(g).node_count(),
            final(g).handler_count() == old(g).handler_count() + 1,
            nodes_unchanged(old(g), final(g)),
            fields_unchanged(old(g), final(g)),
    {
        let ghost g0 = *g;
        let id = g.add_user_handler();
        proof {
            assert forall|x: usize| x < g0.handler_count() implies #[trigger] g.handler_alive(x)
                == g0.handler_alive(x) && g.handler(x) == g0.handler(x) by {
                assert(g.handler_alive(x) == g0.handler_alive(x) && g.handler(x) == g0.handler(x));
            }
        }
        InvalidationHandler { id }
    }

    /// How many times this handler has fired.
    pub fn fired_count(&self, g: &Graph) -> (r: u64)
        requires
            g.handler_alive(self.id),
        ensures
            r == g.handler(self.id).count,
    {
        g.fired_count(self.id)
    }

    /// Drop this handler: it never fires again.
    pub fn release(self, g: &mut Graph)
        requires
            old(g).wf(),
        ensures
            final(g).wf(),
            kept(old(g), final(g)),
            borrows_kept(old(g), final(g)),
            old(g).handler_alive(self.id) && old(g).handler(self.id).owner == Owner::User
                ==> !final(g).handler_alive(self.id),
            forall|x: usize| x != self.id ==> #[trigger] final(g).handler_alive(x) == old(g).handler_alive(x),
            forall|x: usize| #![trigger final(g).cell_alive(x)] #![trigger final(g).cell_value(x)] final(g).cell_val(x) == old(g).cell_val(x),
            keeps_dead(old(g), final(g)),
            fields_unchanged(old(g), final(g)),
    {
        g.release_handler(self.id)
    }
}

/// The owner of a cell in a graph.
#[derive(Debug)]
pub struct Observable {
    pub cell: usize,
}

impl Observable {
    /// A new cell holding `value`, with no listeners.
    pub fn new(g: &mut Graph, value: Value) -> (r: Observable)
        requires
            old(g).wf(),
        ensures
            final(g).wf(),
            kept(old(g), final(g)),
            borrows_kept(old(g), final(g)),
            final(g).cell_count() == old(g).cell_count() + 1,
            final(g).cell_borrows(r.cell).is_free(),
            !final(g).cell_in_field(r.cell),
            r.cell == old(g).cell_count(),
            final(g).cell_alive(r.cell),
            final(g).cell_value(r.cell) == value@,
            final(g).listeners(r.cell).len() == 0,
            forall|x: usize| #![trigger final(g).cell_alive(x)] #![trigger final(g).cell_value(x)] x < old(g).cell_count() ==> final(g).cell_val(x) == old(g).cell_val(x),
            keeps_dead(old(g), final(g)),
            handlers_unchanged(old(g), final(g)),
    {
        Observable { cell: g.add_cell(value) }
    }

    /// The value of this cell.
    pub fn get<'a>(&self, g: &'a Graph) -> (r: &'a Value)
        requires
            g.cell_alive(self.cell),
        ensures
            r@ == g.cell_value(self.cell),
    {
        g.cell_get(self.cell)
    }

    /// Set the value of this cell. When it differs from the current value every
    /// live listener fires once; when it is equal nothing happens.
    pub fn set(&self, g: &mut Graph, value: Value)
        requires
            old(g).wf(),
            old(g).cell_alive(self.cell),
        ensures
            final(g).wf(),
            kept(old(g), final(g)),
            borrows_kept(old(g), final(g)),
            final(g).cell_alive(self.cell),
            final(g).cell_value(self.cell) == value@,
            old(g).cell_value(self.cell) == value@ ==> *final(g) == *old(g),
            old(g).cell_value(self.cell) != value@ ==> fired_listeners(old(g), final(g), self.cell),
            forall|x: usize| #![trigger final(g).cell_alive(x)] #![trigger final(g).cell_value(x)] x != self.cell ==> final(g).cell_val(x) == old(g).cell_val(x),
            keeps_dead(old(g), final(g)),
            nodes_unchanged(old(g), final(g)),
            fields_unchanged(old(g), final(g)),
    {
        g.set_cell(self.cell, value)
    }

    /// Reset this cell to the default of its kind (0, false or empty text).
    pub fn clear(&self, g: &mut Graph)
        requires
            old(g).wf(),
            old(g).cell_alive(self.cell),
        ensures
            final(g).wf(),
            kept(old(g), final(g)),
            borrows_kept(old(g), final(g)),
            final(g).cell_alive(self.cell),
            old(g).cell_value(self.cell) == default_of(old(g).cell_value(self.cell)) ==> *final(g) == *old(g),
            old(g).cell_value(self.cell) != default_of(old(g).cell_value(self.cell)) ==> fired_listeners(old(g), final(g), self.cell),
            final(g).cell_value(self.cell) == default_of(old(g).cell_value(self.cell)),
            forall|x: usize| #![trigger final(g).cell_alive(x)] #![trigger final(g).cell_value(x)] x != self.cell ==> final(g).cell_val(x) == old(g).cell_val(x),
            keeps_dead(old(g), final(g)),
            nodes_unchanged(old(g), final(g)),
            fields_unchanged(old(g), final(g)),
    {
        let d = default_like(g.cell_get(self.cell));
        g.set_cell(self.cell, d)
    }

    /// Take exclusive access to this cell to change it in place; every change
    /// made through the guard fires the cell's listeners.
    pub fn modify_inner(&self, g: &mut Graph) -> (r: ModifyInnerRef)
        requires
            old(g).wf(),
            old(g).cell_alive(self.cell),
            old(g).cell_borrows(self.cell).is_free(),
        ensures
            final(g).wf(),
            handlers_unchanged(old(g), final(g)),
            kept(old(g), final(g)),
            forall|x: usize| x != self.cell && x < old(g).cell_count() ==> #[trigger] final(g).cell_borrows(x) == old(g).cell_borrows(x),
            r.cell == self.cell,
            r.staged() == old(g).cell_value(self.cell),
            final(g).cell_borrows(self.cell).mutable,
            forall|x: usize| #![trigger final(g).cell_alive(x)] #![trigger final(g).cell_value(x)] final(g).cell_val(x) == old(g).cell_val(x),
            keeps_dead(old(g), final(g)),
            fields_unchanged(old(g), final(g)),
    {
        ModifyInnerRef::new(g, self.cell)
    }

    /// Register `handler` on this cell (once; registering again changes nothing).
    pub fn add_invalidation_handler(&self, g: &mut Graph, handler: &InvalidationHandler)
        requires
            old(g).wf(),
            self.cell < old(g).cell_count(),
            handler.id < old(g).handler_count(),
        ensures
            final(g).wf(),
            kept(old(g), final(g)),
            borrows_kept(old(g), final(g)),
            final(g).listeners(self.cell).contains(handler.id),
            handlers_unchanged(old(g), final(g)),
            forall|x: usize| #![trigger final(g).cell_alive(x)] #![trigger final(g).cell_value(x)] final(g).cell_val(x) == old(g).cell_val(x),
            keeps_dead(old(g), final(g)),
            fields_unchanged(old(g), final(g)),
    {
        g.subscribe(self.cell, handler.id)
    }

    /// Destroy this cell. Its live listeners fire once; weak pointers to it are
    /// dead from now on.
    pub fn destroy(self, g: &mut Graph)
        requires
            old(g).wf(),
            old(g).cell_alive(self.cell),
            !old(g).cell_in_field(self.cell),
        ensures
            final(g).wf(),
            kept(old(g), final(g)),
            borrows_kept(old(g), final(g)),
            !final(g).cell_alive(self.cell),
            fired_listeners(old(g), final(g), self.cell),
            forall|x: usize| #![trigger final(g).cell_alive(x)] #![trigger final(g).cell_value(x)] x != self.cell ==> final(g).cell_val(x) == old(g).cell_val(x),
            keeps_dead(old(g), final(g)),
    {
        g.destroy_cell(self.cell)
    }

    /// What an expression reads when it takes this cell as an operand.
    pub fn operand(&self) -> (r: Operand)
        ensures
            r == Operand::Cell(self.cell),
    {
        Operand::Cell(self.cell)
    }

    /// A description of this cell and its value: `Observable { 42 }`.
    pub fn debug_text(&self, g: &Graph) -> (r: String)
        requires
            g.cell_alive(self.cell),
        ensures
            r@ == framed("Observable { "@, text_of(g.cell_value(self.cell))),
    {
        let t = value_text(g.cell_get(self.cell));
        frame("Observable { ", t.as_str())
    }
}

/// A weak pointer to a cell: it never keeps the cell alive, and every access
/// first checks that the cell still is.
#[derive(Clone, Copy, Debug)]
pub struct ObservablePtr {
    pub cell: usize,
}

impl ObservablePtr {
    /// A pointer to `target`.
    pub fn new(target: &Observable) -> (r: ObservablePtr)
        ensures
            r.cell == target.cell,
    {
        ObservablePtr { cell: target.cell }
    }

    /// Whether the target cell is still alive.
    pub fn can_deref(&self, g: &Graph) -> (r: bool)
        ensures
            r == g.cell_alive(self.cell),
    {
        g.is_cell_alive(self.cell)
    }

    /// A shared guard on the target, or `None` when the target is gone.
    pub fn try_deref(&self, g: &mut Graph) -> (r: Option<ObservableRef>)
        requires
            old(g).wf(),
            old(g).cell_alive(self.cell) ==> !old(g).cell_borrows(self.cell).mutable
                && old(g).cell_borrows(self.cell).immutable < usize::MAX,
        ensures
            final(g).wf(),
            final(g).cell_borrows(self.cell).mutable == old(g).cell_borrows(self.cell).mutable,
            kept(old(g), final(g)),
            forall|x: usize| x != self.cell && x < old(g).cell_count() ==> #[trigger] final(g).cell_borrows(x) == old(g).cell_borrows(x),
            r is Some <==> old(g).cell_alive(self.cell),
            r matches Some(p) ==> p.cell == self.cell,
            old(g).cell_alive(self.cell) ==> final(g).cell_borrows(self.cell).immutable
                == old(g).cell_borrows(self.cell).immutable + 1,
            !old(g).cell_alive(self.cell) ==> *final(g) == *old(g),
            forall|x: usize| #![trigger final(g).cell_alive(x)] #![trigger final(g).cell_value(x)] final(g).cell_val(x) == old(g).cell_val(x),
            keeps_dead(old(g), final(g)),
            handlers_unchanged(old(g), final(g)),
    {
        if g.is_cell_alive(self.cell) {
            g.borrow_shared(self.cell);
            Some(ObservableRef { cell: self.cell })
        } else {
            None
        }
    }

    /// An exclusive guard on the target, or `None` when the target is gone.
    pub fn try_deref_mut(&self, g: &mut Graph) -> (r: Option<ObservableMutRef>)
        requires
            old(g).wf(),
            old(g).cell_alive(self.cell) ==> old(g).cell_borrows(self.cell).is_free(),
        ensures
            final(g).wf(),
            kept(old(g), final(g)),
            forall|x: usize| x != self.cell && x < old(g).cell_count() ==> #[trigger] final(g).cell_borrows(x) == old(g).cell_borrows(x),
            r is Some <==> old(g).cell_alive(self.cell),
            r matches Some(p) ==> p.cell == self.cell,
            old(g).cell_alive(self.cell) ==> final(g).cell_borrows(self.cell).mutable,
            !old(g).cell_alive(self.cell) ==> *final(g) == *old(g),
            forall|x: usize| #![trigger final(g).cell_alive(x)] #![trigger final(g).cell_value(x)] final(g).cell_val(x) == old(g).cell_val(x),
            keeps_dead(old(g), final(g)),
            handlers_unchanged(old(g), final(g)),
    {
        if g.is_cell_alive(self.cell) {
            g.borrow_exclusive(self.cell);
            Some(ObservableMutRef { cell: self.cell })
        } else {
            None
        }
    }

    /// A shared guard on a target that is known to be alive.
    pub fn deref(&self, g: &mut Graph) -> (r: ObservableRef)
        requires
            old(g).wf(),
            old(g).cell_alive(self.cell),
            !old(g).cell_borrows(self.cell).mutable,
            old(g).cell_borrows(self.cell).immutable < usize::MAX,
        ensures
            final(g).wf(),
            !final(g).cell_borrows(self.cell).mutable,
            handlers_unchanged(old(g), final(g)),
            kept(old(g), final(g)),
            forall|x: usize| x != self.cell && x < old(g).cell_count() ==> #[trigger] final(g).cell_borrows(x) == old(g).cell_borrows(x),
            r.cell == self.cell,
            final(g).cell_borrows(self.cell).immutable == old(g).cell_borrows(self.cell).immutable + 1,
            forall|x: usize| #![trigger final(g).cell_alive(x)] #![trigger final(g).cell_value(x)] final(g).cell_val(x) == old(g).cell_val(x),
            keeps_dead(old(g), final(g)),
    {
        self.try_deref(g).unwrap()
    }

    /// An exclusive guard on a target that is known to be alive.
    pub fn deref_mut(&self, g: &mut Graph) -> (r: ObservableMutRef)
        requires
            old(g).wf(),
            old(g).cell_alive(self.cell),
            old(g).cell_borrows(self.cell).is_free(),
        ensures
            final(g).wf(),
            handlers_unchanged(old(g), final(g)),
            kept(old(g), final(g)),
            forall|x: usize| x != self.cell && x < old(g).cell_count() ==> #[trigger] final(g).cell_borrows(x) == old(g).cell_borrows(x),
            r.cell == self.cell,
            final(g).cell_borrows(self.cell).mutable,
            forall|x: usize| #![trigger final(g).cell_alive(x)] #![trigger final(g).cell_value(x)] final(g).cell_val(x) == old(g).cell_val(x),
            keeps_dead(old(g), final(g)),
    {
        self.try_deref_mut(g).unwrap()
    }

    /// What an expression reads when it takes the target as an operand.
    pub fn operand(&self) -> (r: Operand)
        ensures
            r == Operand::Cell(self.cell),
    {
        Operand::Cell(self.cell)
    }

    /// A description of the target: `*Observable { 42 }`, or
    /// `*Observable { null }` once the target is gone.
    pub fn debug_text(&self, g: &Graph) -> (r: String)
        ensures
            g.cell_alive(self.cell) ==> r@ == framed("*Observable { "@, text_of(g.cell_value(self.cell))),
            !g.cell_alive(self.cell) ==> r@ == framed("*Observable { "@, "null"@),
    {
        if g.is_cell_alive(self.cell) {
            let t = value_text(g.cell_get(self.cell));
            frame("*Observable { ", t.as_str())
        } else {
            frame("*Observable { ", "null")
        }
    }
}

/// A shared access to a live cell, taken through a pointer.
#[derive(Debug)]
pub struct ObservableRef {
    pub cell: usize,
}

impl ObservableRef {
    /// The value of the cell.
    pub fn get<'a>(&self, g: &'a Graph) -> (r: &'a Value)
        requires
            g.cell_alive(self.cell),
        ensures
            r@ == g.cell_value(self.cell),
    {
        g.cell_get(self.cell)
    }

    /// Register `handler` on the cell.
    pub fn add_invalidation_handler(&self, g: &mut Graph, handler: &InvalidationHandler)
        requires
            old(g).wf(),
            self.cell < old(g).cell_count(),
            handler.id < old(g).handler_count(),
        ensures
            final(g).wf(),
            kept(old(g), final(g)),
            borrows_kept(old(g), final(g)),
            final(g).listeners(self.cell).contains(handler.id),
            forall|x: usize| #![trigger final(g).cell_alive(x)] #![trigger final(g).cell_value(x)] final(g).cell_val(x) == old(g).cell_val(x),
    {
        g.subscribe(self.cell, handler.id)
    }

    /// A description of the cell: `&Observable { 42 }`.
    pub fn debug_text(&self, g: &Graph) -> (r: String)
        requires
            g.cell_alive(self.cell),
        ensures
            r@ == framed("&Observable { "@, text_of(g.cell_value(self.cell))),
    {
        let t = value_text(g.cell_get(self.cell));
        frame("&Observable { ", t.as_str())
    }

    /// Give the access back.
    pub fn release(self, g: &mut Graph)
        requires
            old(g).wf(),
            self.cell < old(g).cell_count(),
            old(g).cell_borrows(self.cell).immutable > 0,
        ensures
            final(g).wf(),
            final(g).cell_borrows(self.cell).mutable == old(g).cell_borrows(self.cell).mutable,
            handlers_unchanged(old(g), final(g)),
            kept(old(g), final(g)),
            forall|x: usize| x != self.cell && x < old(g).cell_count() ==> #[trigger] final(g).cell_borrows(x) == old(g).cell_borrows(x),
            final(g).cell_borrows(self.cell).immutable == old(g).cell_borrows(self.cell).immutable - 1,
            forall|x: usize| #![trigger final(g).cell_alive(x)] #![trigger final(g).cell_value(x)] final(g).cell_val(x) == old(g).cell_val(x),
            keeps_dead(old(g), final(g)),
    {
        g.release_shared(self.cell)
    }
}

/// The exclusive access to a live cell, taken through a pointer.
#[derive(Debug)]
pub struct ObservableMutRef {
    pub cell: usize,
}

impl ObservableMutRef {
    /// The value of the cell.
    pub fn get<'a>(&self, g: &'a Graph) -> (r: &'a Value)
        requires
            g.cell_alive(self.cell),
        ensures
            r@ == g.cell_value(self.cell),
    {
        g.cell_get(self.cell)
    }

    /// Set the value of the cell, firing its live listeners when it changes.
    pub fn set(&self, g: &mut Graph, value: Value)
        requires
            old(g).wf(),
            old(g).cell_alive(self.cell),
        ensures
            final(g).wf(),
            kept(old(g), final(g)),
            borrows_kept(old(g), final(g)),
            final(g).cell_alive(self.cell),
            final(g).cell_value(self.cell) == value@,
            old(g).cell_value(self.cell) == value@ ==> *final(g) == *old(g),
            old(g).cell_value(self.cell) != value@ ==> fired_listeners(old(g), final(g), self.cell),
            forall|x: usize| #![trigger final(g).cell_alive(x)] #![trigger final(g).cell_value(x)] x != self.cell ==> final(g).cell_val(x) == old(g).cell_val(x),
            keeps_dead(old(g), final(g)),
    {
        g.set_cell(self.cell, value)
    }

    /// Register `handler` on the cell.
    pub fn add_invalidation_handler(&self, g: &mut Graph, handler: &InvalidationHandler)
        requires
            old(g).wf(),
            self.cell < old(g).cell_count(),
            handler.id < old(g).handler_count(),
        ensures
            final(g).wf(),
            kept(old(g), final(g)),
            borrows_kept(old(g), final(g)),
            final(g).listeners(self.cell).contains(handler.id),
            forall|x: usize| #![trigger final(g).cell_alive(x)] #![trigger final(g).cell_value(x)] final(g).cell_val(x) == old(g).cell_val(x),
    {
        g.subscribe(self.cell, handler.id)
    }

    /// A description of the cell: `&mut Observable { 42 }`.
    pub fn debug_text(&self, g: &Graph) -> (r: String)
        requires
            g.cell_alive(self.cell),
        ensures
            r@ == framed("&mut Observable { "@, text_of(g.cell_value(self.cell))),
    {
        let t = value_text(g.cell_get(self.cell));
        frame("&mut Observable { ", t.as_str())
    }

    /// Give the access back.
    pub fn release(self, g: &mut Graph)
        requires
            old(g).wf(),
            self.cell < old(g).cell_count(),
            old(g).cell_borrows(self.cell).mutable,
        ensures
            final(g).wf(),
            handlers_unchanged(old(g), final(g)),
            kept(old(g), final(g)),
            forall|x: usize| x != self.cell && x < old(g).cell_count() ==> #[trigger] final(g).cell_borrows(x) == old(g).cell_borrows(x),
            final(g).cell_borrows(self.cell).is_free(),
            forall|x: usize| #![trigger final(g).cell_alive(x)] #![trigger final(g).cell_value(x)] final(g).cell_val(x) == old(g).cell_val(x),
            keeps_dead(old(g), final(g)),
    {
        g.release_exclusive(self.cell)
    }
}

/// Exclusive access to a cell for changing its value in place. Changes are
/// made to a copy held by the guard; `release` stores it in the cell and fires
/// each live listener of the cell once, whether or not the value changed.
#[derive(Debug)]
pub struct ModifyInnerRef {
    pub cell: usize,
    pub value: Value,
}

impl ModifyInnerRef {
    /// The value as changed so far through this guard.
    pub open spec fn staged(&self) -> ValueModel {
        self.value@
    }

    fn new(g: &mut Graph, cell: usize) -> (r: ModifyInnerRef)
        requires
            old(g).wf(),
            old(g).cell_alive(cell),
            old(g).cell_borrows(cell).is_free(),
        ensures
            final(g).wf(),
            handlers_unchanged(old(g), final(g)),
            kept(old(g), final(g)),
            forall|x: usize| x != cell && x < old(g).cell_count() ==> #[trigger] final(g).cell_borrows(x) == old(g).cell_borrows(x),
            r.cell == cell,
            r.staged() == old(g).cell_value(cell),
            final(g).cell_borrows(cell).mutable,
            forall|x: usize| #![trigger final(g).cell_alive(x)] #![trigger final(g).cell_value(x)] final(g).cell_val(x) == old(g).cell_val(x),
            keeps_dead(old(g), final(g)),
            fields_unchanged(old(g), final(g)),
    {
        let value = g.cell_get(cell).duplicate();
        g.borrow_exclusive(cell);
        ModifyInnerRef { cell, value }
    }

    /// The value as changed so far through this guard.
    pub fn get(&self) -> (r: &Value)
        ensures
            r@ == self.staged(),
    {
        &self.value
    }

    /// Append `s` to a text value; a value of another kind stays as it is.
    pub fn push_str(&mut self, s: &str)
        ensures
            final(self).cell == old(self).cell,
            final(self).staged() == match old(self).staged() {
                ValueModel::Text(t) => ValueModel::Text(t + s@),
                v => v,
            },
    {
        match &mut self.value {
            Value::Text(t) => t.append(s),
            _ => {},
        }
    }

    /// Store the changed value in the cell, give the access back, and fire
    /// each live listener of the cell once.
    pub fn release(self, g: &mut Graph)
        requires
            old(g).wf(),
            old(g).cell_alive(self.cell),
            old(g).cell_borrows(self.cell).mutable,
        ensures
            final(g).wf(),
            kept(old(g), final(g)),
            final(g).cell_alive(self.cell),
            final(g).cell_value(self.cell) == self.staged(),
            final(g).cell_borrows(self.cell).is_free(),
            forall|x: usize| x != self.cell && x < old(g).cell_count() ==> #[trigger] final(g).cell_borrows(x) == old(g).cell_borrows(x),
            fired_listeners(old(g), final(g), self.cell),
            forall|x: usize| #![trigger final(g).cell_alive(x)] #![trigger final(g).cell_value(x)] x != self.cell ==> final(g).cell_val(x) == old(g).cell_val(x),
            fields_unchanged(old(g), final(g)),
    {
        let c = self.cell;
        g.commit_exclusive(c, self.value);
    }
}

} // verus!
