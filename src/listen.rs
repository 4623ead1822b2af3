//! Handlers that listen to several sources at once, and release together.
use vstd::prelude::*;
use crate::graph::{borrows_kept, kept, lemma_borrows_kept_trans, lemma_kept_trans, keeps_dead, lemma_leaves_below, operand_valid, Graph, Handler, Operand, Owner};
use crate::obsv::InvalidationHandler;

verus! {

/// A set of handlers created through `ListenChain::with`, released together.
pub struct Listeners {
    handlers: Vec<usize>,
}

/// The sources a handler is about to listen to.
pub struct ListenChain {
    targets: Vec<Operand>,
}

impl View for Listeners {
    type V = Seq<usize>;

    closed spec fn view(&self) -> Seq<usize> {
        self.handlers@
    }
}

impl View for ListenChain {
    type V = Seq<Operand>;

    closed spec fn view(&self) -> Seq<Operand> {
        self.targets@
    }
}

impl Listeners {
    /// An empty set.
    pub fn new() -> (r: Listeners)
        ensures
            r@ == Seq::<usize>::empty(),
    {
        Listeners { handlers: Vec::new() }
    }

    /// Start a chain of sources with `target`.
    pub fn listen_to(&mut self, target: Operand) -> (r: ListenChain)
        ensures
            r@ == seq![target],
            final(self)@ == old(self)@,
    {
        let mut v: Vec<Operand> = Vec::new();
        v.push(target);
        proof {
            assert(v@ =~= seq![target]);
        }
        ListenChain { targets: v }
    }

    /// Release every handler of this set: none of them fires again.
    pub fn release_all(&mut self, g: &mut Graph)
        requires
            old(g).wf(),
        ensures
            final(g).wf(),
            kept(old(g), final(g)),
            borrows_kept(old(g), final(g)),
            final(self)@ == Seq::<usize>::empty(),
            forall|k: int|
                0 <= k < old(self)@.len() && old(g).handler_alive(#[trigger] old(self)@[k]) && old(g).handler(old(self)@[k]).owner
                    == Owner::User ==> !final(g).handler_alive(old(self)@[k]),
            forall|x: usize| #![trigger final(g).cell_alive(x)] #![trigger final(g).cell_value(x)] final(g).cell_val(x) == old(g).cell_val(x),
            keeps_dead(old(g), final(g)),
    {
        let mut i: usize = 0;
        while i < self.handlers.len()
            invariant
                i <= self.handlers@.len(),
                self@ == old(self)@,
                g.wf(),
                keeps_dead(old(g), g),
                kept(old(g), g),
                borrows_kept(old(g), g),
                forall|x: usize| #![trigger g.cell_alive(x)] #![trigger g.cell_value(x)] g.cell_val(x) == old(g).cell_val(x),
                forall|x: usize| #[trigger] g.handler_alive(x) ==> old(g).handler_alive(x) && g.handler(x) == old(g).handler(x),
                forall|k: int|
                    0 <= k < i && old(g).handler_alive(#[trigger] old(self)@[k]) && old(g).handler(old(self)@[k]).owner
                        == Owner::User ==> !g.handler_alive(old(self)@[k]),
            decreases self.handlers@.len() - i,
        {
            let h = self.handlers[i];
            let ghost g0 = *g;
            g.release_handler(h);
            proof {
                lemma_kept_trans(old(g), &g0, g);
                lemma_borrows_kept_trans(old(g), &g0, g);
                assert forall|x: usize| #![trigger g.cell_alive(x)] #![trigger g.cell_value(x)] g.cell_val(x) == old(g).cell_val(x) by {
                    assert(g0.cell_val(x) == old(g).cell_val(x));
                }
                assert forall|x: usize| #[trigger] g.handler_alive(x) implies old(g).handler_alive(x) && g.handler(x) == old(g).handler(x) by {
                    if x != h {
                        assert(g0.handler_alive(x));
                    }
                }
                assert forall|k: int|
                    0 <= k < i + 1 && old(g).handler_alive(#[trigger] old(self)@[k]) && old(g).handler(old(self)@[k]).owner
                        == Owner::User implies !g.handler_alive(old(self)@[k]) by {
                    if k < i {
                        if old(self)@[k] != h {
                            assert(!g0.handler_alive(old(self)@[k]));
                        }
                    } else {
                        if g0.handler_alive(h) {
                            assert(g0.handler(h) == old(g).handler(h));
                        }
                    }
                }
            }
            i = i + 1;
        }
        self.handlers = Vec::new();
    }
}

impl ListenChain {
    /// Add `target` to the sources of this chain.
    pub fn and(self, target: Operand) -> (r: ListenChain)
        ensures
            r@ == self@.push(target),
    {
        let mut v = self.targets;
        v.push(target);
        ListenChain { targets: v }
    }

    /// Create a handler that listens to every cell that the sources of this
    /// chain depend on, and add it to `owner`. It fires once for each change of
    /// any of those cells.
    pub fn with(self, g: &mut Graph, owner: &mut Listeners) -> (r: InvalidationHandler)
        requires
            old(g).wf(),
            forall|k: int| 0 <= k < self@.len() ==> operand_valid(old(g), #[trigger] self@[k]),
        ensures
            final(g).wf(),
            kept(old(g), final(g)),
            borrows_kept(old(g), final(g)),
            final(g).handler_alive(r.id),
            final(g).handler(r.id) == (Handler { pending: false, count: 0, owner: Owner::User }),
            forall|k: int, x: usize|
                0 <= k < self@.len() && #[trigger] old(g).source_leaves(self@[k]).contains(x)
                    ==> #[trigger] final(g).listeners(x).contains(r.id),
            final(owner)@ == old(owner)@.push(r.id),
            forall|x: usize| #![trigger final(g).cell_alive(x)] #![trigger final(g).cell_value(x)] final(g).cell_val(x) == old(g).cell_val(x),
            keeps_dead(old(g), final(g)),
    {
        let handler = InvalidationHandler::new(g);
        let h = handler.id;
        let ghost g_h = *g;
        proof {
            assert forall|o: Operand| operand_valid(old(g), o) implies #[trigger] g.source_leaves(o) == old(g).source_leaves(o) by {
                crate::graph::lemma_source_leaves_same(old(g), g, o);
            }
        }
        let mut k: usize = 0;
        while k < self.targets.len()
            invariant
                k <= self@.len(),
                old(g).wf(),
                g.wf(),
                kept(old(g), g),
                borrows_kept(old(g), g),
                forall|j: int| 0 <= j < self@.len() ==> operand_valid(old(g), #[trigger] self@[j]),
                g.cell_count() == old(g).cell_count(),
                g.node_count() == old(g).node_count(),
                g.handler_count() == g_h.handler_count(),
                h < g.handler_count(),
                g.handler_alive(h),
                g.handler(h) == (Handler { pending: false, count: 0, owner: Owner::User }),
                forall|x: usize| #![trigger g.cell_alive(x)] #![trigger g.cell_value(x)] g.cell_val(x) == old(g).cell_val(x),
                keeps_dead(old(g), g),
                forall|o: Operand| operand_valid(old(g), o) ==> #[trigger] g.source_leaves(o) == old(g).source_leaves(o),
                forall|j: int, x: usize|
                    0 <= j < k && #[trigger] old(g).source_leaves(self@[j]).contains(x) ==> #[trigger] g.listeners(x).contains(h),
            decreases self@.len() - k,
        {
            let t = self.targets[k];
            proof {
                assert(operand_valid(old(g), self@[k as int]));
                lemma_leaves_below(old(g), t);
            }
            let leaves = g.leaves_of(t);
            let mut i: usize = 0;
            while i < leaves.len()
                invariant
                    i <= leaves@.len(),
                    leaves@ == old(g).source_leaves(t),
                    k < self@.len(),
                    t == self@[k as int],
                    old(g).wf(),
                    kept(old(g), g),
                    borrows_kept(old(g), g),
                    forall|x: usize| #[trigger] old(g).source_leaves(t).contains(x) ==> x < old(g).cell_count(),
                    g.wf(),
                    forall|j: int| 0 <= j < self@.len() ==> operand_valid(old(g), #[trigger] self@[j]),
                    g.cell_count() == old(g).cell_count(),
                    g.node_count() == old(g).node_count(),
                    g.handler_count() == g_h.handler_count(),
                    h < g.handler_count(),
                    g.handler_alive(h),
                    g.handler(h) == (Handler { pending: false, count: 0, owner: Owner::User }),
                    forall|x: usize| #![trigger g.cell_alive(x)] #![trigger g.cell_value(x)] g.cell_val(x) == old(g).cell_val(x),
                    keeps_dead(old(g), g),
                    forall|o: Operand| operand_valid(old(g), o) ==> #[trigger] g.source_leaves(o) == old(g).source_leaves(o),
                    forall|j: int, x: usize|
                        0 <= j < k && #[trigger] old(g).source_leaves(self@[j]).contains(x) ==> #[trigger] g.listeners(x).contains(h),
                    forall|q: int| 0 <= q < i ==> #[trigger] g.listeners(leaves@[q]).contains(h),
                decreases leaves@.len() - i,
            {
                let x = leaves[i];
                proof {
                    assert(old(g).source_leaves(t).contains(leaves@[i as int]));
                }
                let ghost g0 = *g;
                g.subscribe(x, h);
                proof {
                    lemma_kept_trans(old(g), &g0, g);
                    lemma_borrows_kept_trans(old(g), &g0, g);
                    assert forall|y: usize| #![trigger g.cell_alive(y)] #![trigger g.cell_value(y)] g.cell_val(y) == old(g).cell_val(y) by {
                        assert(g0.cell_val(y) == old(g).cell_val(y));
                    }
                    assert(g.handler(h) == g0.handler(h));
                    assert forall|o: Operand| operand_valid(old(g), o) implies #[trigger] g.source_leaves(o) == old(g).source_leaves(o) by {
                        assert(g0.source_leaves(o) == old(g).source_leaves(o));
                        crate::graph::lemma_source_leaves_same(&g0, g, o);
                    }
                    assert forall|j: int, y: usize|
                        0 <= j < k && #[trigger] old(g).source_leaves(self@[j]).contains(y) implies #[trigger] g.listeners(y).contains(h) by {
                        lemma_leaves_below(old(g), self@[j]);
                        assert(g0.listeners(y).contains(h));
                    }
                    assert forall|q: int| 0 <= q < i + 1 implies #[trigger] g.listeners(leaves@[q]).contains(h) by {
                        if q < i {
                            assert(old(g).source_leaves(t).contains(leaves@[q]));
                            assert(g0.listeners(leaves@[q]).contains(h));
                        }
                    }
                    assert forall|y: usize| y < old(g).cell_count() && #[trigger] g.cell_alive(y) implies old(g).cell_alive(y) by {
                        crate::graph::lemma_cell_val(&g0, g, y);
                    }
                }
                i = i + 1;
            }
            proof {
                assert forall|j: int, x: usize|
                    0 <= j < k + 1 && #[trigger] old(g).source_leaves(self@[j]).contains(x) implies #[trigger] g.listeners(x).contains(h) by {
                    if j == k {
                        let q = choose|q: int| 0 <= q < leaves@.len() && leaves@[q] == x;
                        assert(g.listeners(leaves@[q]).contains(h));
                    }
                }
            }
            k = k + 1;
        }
        owner.handlers.push(h);
        handler
    }
}

} // verus!
