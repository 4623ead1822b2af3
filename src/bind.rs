//! A pull-based alternative to bound fields: a set of mirrors, each copying a
//! source's value into a destination field whenever the caller asks.
use vstd::prelude::*;
use crate::graph::{
    borrows_kept, kept, lemma_borrows_kept_trans, lemma_kept_trans, fields_unchanged, keeps_dead, lemma_cell_val, lemma_keeps_dead_trans, lemma_field_cell, lemma_source_val_after_set,
    lemma_source_val_same, lemma_source_leaves_same, operand_valid, Graph, Operand,
};
use crate::property::Property;
use crate::value::ValueModel;

verus! {

/// One mirror: `dest` copies the value of `source`.
#[derive(Clone, Copy, Debug)]
pub struct Mirror {
    pub dest: Property,
    pub source: Operand,
}

/// The value mirror `m` gives its destination in `g`: the source's value, or
/// the destination's own when the source is gone.
pub open spec fn pulled(g: &Graph, m: Mirror) -> ValueModel {
    match g.source_val(m.source) {
        Some(v) => v,
        None => g.cell_value(m.dest.cell),
    }
}

/// `g1` is `g0` after pulling mirror `m` once: its destination holds what `m`
/// gives in `g0`, and every other cell reads as before.
pub open spec fn pulled_once(g0: &Graph, g1: &Graph, m: Mirror) -> bool {
    &&& g1.cell_value(m.dest.cell) == pulled(g0, m)
    &&& g1.cell_alive(m.dest.cell)
    &&& forall|x: usize|
        #![trigger g1.cell_alive(x)]
        #![trigger g1.cell_value(x)]
        x != m.dest.cell ==> g1.cell_val(x) == g0.cell_val(x)
    &&& kept(g0, g1)
    &&& borrows_kept(g0, g1)
}

/// `gs` runs from `g0` to `g1` through one pull of each mirror of `ms`, in order.
pub open spec fn pulled_in_order(g0: &Graph, g1: &Graph, ms: Seq<Mirror>, gs: Seq<Graph>) -> bool {
    &&& gs.len() == ms.len() + 1
    &&& gs[0] == *g0
    &&& gs[ms.len() as int] == *g1
    &&& forall|i: int| 0 <= i < ms.len() ==> pulled_once(&gs[i], &gs[i + 1], #[trigger] ms[i])
}

/// A registry of mirrors, at most one per destination cell.
pub struct Bindings {
    mirrors: Vec<Mirror>,
}

impl View for Bindings {
    type V = Seq<Mirror>;

    closed spec fn view(&self) -> Seq<Mirror> {
        self.mirrors@
    }
}

impl Bindings {
    /// Each destination cell has one mirror at most.
    pub open spec fn wf(&self) -> bool {
        forall|i: int, j: int|
            0 <= i < self@.len() && 0 <= j < self@.len() && i != j ==> #[trigger] self@[i].dest.cell
                != #[trigger] self@[j].dest.cell
    }

    /// Every mirror is valid in `g`.
    pub open spec fn inv(&self, g: &Graph) -> bool {
        forall|i: int|
            0 <= i < self@.len() ==> (#[trigger] self@[i]).dest.inv(g) && operand_valid(g, self@[i].source)
    }

    /// No mirror's destination is a cell that some mirror's source depends on,
    /// so the order in which mirrors are pulled does not matter.
    pub open spec fn independent(&self, g: &Graph) -> bool {
        forall|i: int, j: int|
            0 <= i < self@.len() && 0 <= j < self@.len() ==> !g.source_leaves(#[trigger] self@[j].source).contains(
                #[trigger] self@[i].dest.cell,
            )
    }

    /// An empty registry.
    pub fn new() -> (r: Bindings)
        ensures
            r@ == Seq::<Mirror>::empty(),
            r.wf(),
    {
        Bindings { mirrors: Vec::new() }
    }

    fn pull(g: &mut Graph, m: Mirror) -> (r: bool)
        requires
            old(g).wf(),
            m.dest.inv(old(g)),
            operand_valid(old(g), m.source),
        ensures
            final(g).wf(),
            kept(old(g), final(g)),
            borrows_kept(old(g), final(g)),
            m.dest.inv(final(g)),
            final(g).cell_alive(m.dest.cell),
            final(g).cell_value(m.dest.cell) == pulled(old(g), m),
            forall|x: usize| #![trigger final(g).cell_alive(x)] #![trigger final(g).cell_value(x)] x != m.dest.cell ==> final(g).cell_val(x) == old(g).cell_val(x),
            forall|o: Operand| operand_valid(old(g), o) && !old(g).source_leaves(o).contains(m.dest.cell)
                ==> #[trigger] final(g).source_val(o) == old(g).source_val(o),
            forall|o: Operand| operand_valid(old(g), o) ==> #[trigger] final(g).source_leaves(o) == old(g).source_leaves(o),
            keeps_dead(old(g), final(g)),
            fields_unchanged(old(g), final(g)),
            final(g).node_count() == old(g).node_count(),
            final(g).cell_count() == old(g).cell_count(),
            final(g).handler_count() == old(g).handler_count(),
    {
        proof {
            lemma_field_cell(old(g), m.dest.field as int);
        }
        let ghost g0 = *g;
        let v = g.read_source(m.source);
        let ghost g1 = *g;
        proof {
            lemma_cell_val(&g0, &g1, m.dest.cell);
            assert forall|o: Operand| #[trigger] g1.source_val(o) == g0.source_val(o) by {
                lemma_source_val_same(&g0, &g1, o);
            }
            lemma_field_cell(&g1, m.dest.field as int);
        }
        match v {
            Some(v) => {
                g.set_cell(m.dest.cell, v);
                proof {
                    assert forall|o: Operand| operand_valid(old(g), o) implies #[trigger] g.source_leaves(o) == old(g).source_leaves(o) by {
                        lemma_source_leaves_same(&g1, g, o);
                    }
                    lemma_kept_trans(&g0, &g1, g);
                    lemma_borrows_kept_trans(&g0, &g1, g);
                    assert forall|o: Operand| operand_valid(old(g), o) && !old(g).source_leaves(o).contains(m.dest.cell)
                        implies #[trigger] g.source_val(o) == old(g).source_val(o) by {
                        lemma_source_val_after_set(&g1, g, o, m.dest.cell);
                    }
                }
                true
            },
            None => false,
        }
    }

    /// Register a mirror from `src` to `dest`, replacing any mirror that `dest`
    /// had, and pull it once.
    pub fn bind(&mut self, g: &mut Graph, dest: &Property, src: Operand)
        requires
            old(self).wf(),
            old(self).inv(old(g)),
            old(g).wf(),
            dest.inv(old(g)),
            operand_valid(old(g), src),
        ensures
            final(self).wf(),
            final(self).inv(final(g)),
            final(g).wf(),
            final(self)@.last() == (Mirror { dest: *dest, source: src }),
            1 <= final(self)@.len() <= old(self)@.len() + 1,
            forall|i: int| 0 <= i < final(self)@.len() - 1 ==> #[trigger] final(self)@[i].dest.cell != dest.cell,
            forall|i: int| 0 <= i < old(self)@.len() && old(self)@[i].dest.cell != dest.cell
                ==> final(self)@.contains(#[trigger] old(self)@[i]),
            final(g).cell_value(dest.cell) == pulled(old(g), Mirror { dest: *dest, source: src }),
            forall|x: usize| #![trigger final(g).cell_alive(x)] #![trigger final(g).cell_value(x)] x != dest.cell ==> final(g).cell_val(x) == old(g).cell_val(x),
            kept(old(g), final(g)),
            borrows_kept(old(g), final(g)),
            keeps_dead(old(g), final(g)),
            fields_unchanged(old(g), final(g)),
    {
        self.unbind(dest);
        let ghost kept = self@;
        self.mirrors.push(Mirror { dest: *dest, source: src });
        proof {
            assert(self@ == kept.push(Mirror { dest: *dest, source: src }));
            assert forall|i: int| 0 <= i < old(self)@.len() && old(self)@[i].dest.cell != dest.cell
                implies self@.contains(#[trigger] old(self)@[i]) by {
                assert(kept.contains(old(self)@[i]));
                let k = choose|k: int| 0 <= k < kept.len() && kept[k] == old(self)@[i];
                assert(self@[k] == old(self)@[i]);
            }
        }
        let ghost g0 = *g;
        Bindings::pull(g, Mirror { dest: *dest, source: src });
        proof {
            let s = self@;
            assert forall|i: int, j: int| 0 <= i < s.len() && 0 <= j < s.len() && i != j implies #[trigger] s[i].dest.cell
                != #[trigger] s[j].dest.cell by {
            }
            assert forall|i: int| 0 <= i < s.len() implies (#[trigger] s[i]).dest.inv(g) && operand_valid(g, s[i].source) by {
                assert(s[i].dest.inv(&g0));
                assert(g.field_cell(s[i].dest.field as int) == g0.field_cell(s[i].dest.field as int));
            }
        }
    }

    /// Pull every mirror once, in order: each destination takes the value its
    /// source has at that moment (keeping its own when the source is gone).
    /// When no destination feeds a source, each destination ends up with its
    /// source's value as it was before the call.
    pub fn update(&self, g: &mut Graph)
        requires
            self.wf(),
            self.inv(old(g)),
            old(g).wf(),
        ensures
            final(g).wf(),
            self.inv(final(g)),
            exists|gs: Seq<Graph>| pulled_in_order(old(g), final(g), self@, gs),
            self.independent(old(g)) ==> forall|i: int|
                0 <= i < self@.len() ==> final(g).cell_value(#[trigger] self@[i].dest.cell) == pulled(old(g), self@[i]),
            forall|x: usize| #![trigger final(g).cell_alive(x)] #![trigger final(g).cell_value(x)]
                (forall|i: int| 0 <= i < self@.len() ==> #[trigger] self@[i].dest.cell != x) ==> final(g).cell_val(x)
                    == old(g).cell_val(x),
            kept(old(g), final(g)),
            borrows_kept(old(g), final(g)),
            keeps_dead(old(g), final(g)),
            fields_unchanged(old(g), final(g)),
    {
        let ghost mut gs: Seq<Graph> = seq![*g];
        let mut i: usize = 0;
        while i < self.mirrors.len()
            invariant
                i <= self@.len(),
                gs.len() == i + 1,
                gs[0] == *old(g),
                gs[i as int] == *g,
                forall|j: int| 0 <= j < i ==> pulled_once(&gs[j], &gs[j + 1], #[trigger] self@[j]),
                self.wf(),
                g.wf(),
                self.inv(g),
                keeps_dead(old(g), g),
                kept(old(g), g),
                borrows_kept(old(g), g),
                forall|x: usize| #![trigger g.cell_alive(x)] #![trigger g.cell_value(x)]
                    (forall|j: int| 0 <= j < self@.len() ==> #[trigger] self@[j].dest.cell != x) ==> g.cell_val(x)
                        == old(g).cell_val(x),
                fields_unchanged(old(g), g),
                g.node_count() == old(g).node_count(),
                g.cell_count() == old(g).cell_count(),
                forall|o: Operand| operand_valid(old(g), o) ==> #[trigger] g.source_leaves(o) == old(g).source_leaves(o),
                self.inv(old(g)),
                self.independent(old(g)) ==> {
                    &&& forall|k: int| 0 <= k < i ==> g.cell_value(#[trigger] self@[k].dest.cell) == pulled(old(g), self@[k])
                    &&& forall|k: int| i <= k < self@.len() ==> g.cell_value(#[trigger] self@[k].dest.cell) == old(g).cell_value(self@[k].dest.cell)
                    &&& forall|k: int| 0 <= k < self@.len() ==> g.source_val(#[trigger] self@[k].source) == old(g).source_val(self@[k].source)
                },
            decreases self@.len() - i,
        {
            let m = self.mirrors[i];
            let ghost g0 = *g;
            proof {
                assert(self@[i as int] == m);
                assert(self.inv(g));
                assert(m.dest.inv(&g0));
            }
            Bindings::pull(g, m);
            proof {
                let ghost gs0 = gs;
                gs = gs.push(*g);
                assert(pulled_once(&g0, g, m));
                assert forall|j: int| 0 <= j < i + 1 implies pulled_once(&gs[j], &gs[j + 1], #[trigger] self@[j]) by {
                    if j < i {
                        assert(gs[j] == gs0[j] && gs[j + 1] == gs0[j + 1]);
                    } else {
                        assert(gs[j] == g0);
                    }
                }
                lemma_keeps_dead_trans(old(g), &g0, g);
                lemma_kept_trans(old(g), &g0, g);
                lemma_borrows_kept_trans(old(g), &g0, g);
                assert forall|x: usize| #![trigger g.cell_alive(x)] #![trigger g.cell_value(x)]
                    (forall|j: int| 0 <= j < self@.len() ==> #[trigger] self@[j].dest.cell != x) implies g.cell_val(x)
                        == old(g).cell_val(x) by {
                    assert(self@[i as int].dest.cell != x);
                    assert(g0.cell_val(x) == old(g).cell_val(x));
                }
                assert(g0.field_count() == old(g).field_count());
                assert forall|f: int| 0 <= f < old(g).field_count() implies #[trigger] g.field_cell(f) == old(g).field_cell(f) && g.field_binding(f)
                    == old(g).field_binding(f) by {
                    assert(g0.field_cell(f) == old(g).field_cell(f));
                    assert(g0.field_binding(f) == old(g).field_binding(f));
                    assert(g.field_cell(f) == g0.field_cell(f));
                    assert(g.field_binding(f) == g0.field_binding(f));
                }
                assert forall|k: int| 0 <= k < self@.len() implies (#[trigger] self@[k]).dest.inv(g) && operand_valid(g, self@[k].source) by {
                    assert(self@[k].dest.inv(&g0));
                    assert(g.field_cell(self@[k].dest.field as int) == g0.field_cell(self@[k].dest.field as int));
                }
                assert forall|o: Operand| operand_valid(old(g), o) implies #[trigger] g.source_leaves(o) == old(g).source_leaves(o) by {
                    assert(g0.source_leaves(o) == old(g).source_leaves(o));
                }
                if self.independent(old(g)) {
                    assert forall|k: int| 0 <= k < self@.len() implies g.source_val(#[trigger] self@[k].source) == old(g).source_val(self@[k].source) by {
                        assert(!old(g).source_leaves(self@[k].source).contains(self@[i as int].dest.cell));
                        assert(g0.source_val(self@[k].source) == old(g).source_val(self@[k].source));
                    }
                    assert forall|k: int| 0 <= k < i + 1 implies g.cell_value(#[trigger] self@[k].dest.cell) == pulled(old(g), self@[k]) by {
                        if k < i {
                            assert(self@[k].dest.cell != m.dest.cell);
                            lemma_field_cell(&g0, self@[k].dest.field as int);
                            lemma_cell_val(&g0, g, self@[k].dest.cell);
                        } else {
                            assert(g0.cell_value(m.dest.cell) == old(g).cell_value(m.dest.cell));
                        }
                    }
                    assert forall|k: int| i + 1 <= k < self@.len() implies g.cell_value(#[trigger] self@[k].dest.cell) == old(g).cell_value(self@[k].dest.cell) by {
                        assert(self@[k].dest.cell != m.dest.cell);
                        lemma_field_cell(&g0, self@[k].dest.field as int);
                        lemma_cell_val(&g0, g, self@[k].dest.cell);
                    }
                }
            }
            i = i + 1;
        }
        proof {
            assert(pulled_in_order(old(g), g, self@, gs));
        }
    }

    /// Remove the mirror of `dest`, if there is one.
    pub fn unbind(&mut self, dest: &Property)
        requires
            old(self).wf(),
        ensures
            final(self).wf(),
            forall|i: int| 0 <= i < final(self)@.len() ==> #[trigger] final(self)@[i].dest.cell != dest.cell,
            forall|i: int| 0 <= i < final(self)@.len() ==> old(self)@.contains(#[trigger] final(self)@[i]),
            forall|i: int| 0 <= i < old(self)@.len() && old(self)@[i].dest.cell != dest.cell
                ==> final(self)@.contains(#[trigger] old(self)@[i]),
            final(self)@.len() <= old(self)@.len(),
    {
        let mut kept: Vec<Mirror> = Vec::new();
        let mut i: usize = 0;
        while i < self.mirrors.len()
            invariant
                i <= self@.len(),
                kept@.len() <= i,
                old(self)@ == self@,
                old(self).wf(),
                forall|k: int| 0 <= k < kept@.len() ==> #[trigger] kept@[k].dest.cell != dest.cell,
                forall|k: int| 0 <= k < kept@.len() ==> exists|j: int| 0 <= j < i && #[trigger] kept@[k] == self@[j],
                forall|j: int| 0 <= j < i && self@[j].dest.cell != dest.cell ==> kept@.contains(#[trigger] self@[j]),
                forall|k: int, l: int| 0 <= k < kept@.len() && 0 <= l < kept@.len() && k != l ==> #[trigger] kept@[k].dest.cell != #[trigger] kept@[l].dest.cell,
            decreases self@.len() - i,
        {
            let m = self.mirrors[i];
            if m.dest.cell != dest.cell {
                let ghost prev = kept@;
                kept.push(m);
                proof {
                    assert(kept@ == prev.push(m));
                    assert forall|k: int| 0 <= k < kept@.len() implies exists|j: int| 0 <= j < i + 1 && #[trigger] kept@[k] == self@[j] by {
                        if k < prev.len() {
                            let j = choose|j: int| 0 <= j < i && prev[k] == self@[j];
                            assert(kept@[k] == self@[j]);
                        } else {
                            assert(kept@[k] == self@[i as int]);
                        }
                    }
                    assert forall|j: int| 0 <= j < i + 1 && self@[j].dest.cell != dest.cell implies kept@.contains(#[trigger] self@[j]) by {
                        if j < i {
                            let k = choose|k: int| 0 <= k < prev.len() && prev[k] == self@[j];
                            assert(kept@[k] == self@[j]);
                        } else {
                            assert(kept@[prev.len() as int] == self@[j]);
                        }
                    }
                    assert forall|k: int, l: int| 0 <= k < kept@.len() && 0 <= l < kept@.len() && k != l implies #[trigger] kept@[k].dest.cell != #[trigger] kept@[l].dest.cell by {
                        if k < prev.len() && l < prev.len() {
                        } else if k < prev.len() {
                            let j = choose|j: int| 0 <= j < i && prev[k] == self@[j];
                            assert(self@[j].dest.cell != self@[i as int].dest.cell);
                        } else if l < prev.len() {
                            let j = choose|j: int| 0 <= j < i && prev[l] == self@[j];
                            assert(self@[j].dest.cell != self@[i as int].dest.cell);
                        }
                    }
                }
            }
            i = i + 1;
        }
        proof {
            assert forall|k: int| 0 <= k < kept@.len() implies old(self)@.contains(#[trigger] kept@[k]) by {
                let j = choose|j: int| 0 <= j < self@.len() && kept@[k] == self@[j];
            }
        }
        self.mirrors = kept;
    }

    /// Remove every mirror.
    pub fn clear(&mut self)
        ensures
            final(self)@ == Seq::<Mirror>::empty(),
            final(self).wf(),
    {
        self.mirrors = Vec::new();
    }
}

} // verus!
