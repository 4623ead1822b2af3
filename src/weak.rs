//! A list of weak handles that forgets the entries whose values were dropped.
use vstd::prelude::*;
use crate::rcref::{slot_alive, Heap, RcRef};

verus! {

/// The entries of `ids` whose value is alive in `s`, in their order.
pub open spec fn live_ids<T>(ids: Seq<usize>, s: Seq<Option<T>>) -> Seq<usize>
    decreases ids.len(),
{
    if ids.len() == 0 {
        Seq::empty()
    } else {
        let rest = live_ids(ids.drop_last(), s);
        if slot_alive(s, ids.last()) {
            rest.push(ids.last())
        } else {
            rest
        }
    }
}

/// The handle ids of a sequence of owners.
pub open spec fn ids_of(v: Seq<RcRef>) -> Seq<usize> {
    v.map_values(|r: RcRef| r.id)
}

/// Every entry that `live_ids` keeps is alive and comes from `ids`.
pub proof fn lemma_live_ids_alive<T>(ids: Seq<usize>, s: Seq<Option<T>>)
    ensures
        live_ids(ids, s).len() <= ids.len(),
        forall|k: int|
            0 <= k < live_ids(ids, s).len() ==> slot_alive(s, #[trigger] live_ids(ids, s)[k])
                && ids.contains(live_ids(ids, s)[k]),
    decreases ids.len(),
{
    if ids.len() > 0 {
        lemma_live_ids_alive(ids.drop_last(), s);
        let rest = live_ids(ids.drop_last(), s);
        assert forall|k: int| 0 <= k < rest.len() implies ids.contains(#[trigger] rest[k]) by {
            let j = choose|j: int| 0 <= j < ids.drop_last().len() && ids.drop_last()[j] == rest[k];
            assert(ids[j] == rest[k]);
        }
        assert(ids[ids.len() - 1] == ids.last());
    }
}

/// `live_ids` keeps every entry whose value is alive.
pub proof fn lemma_live_ids_keeps<T>(ids: Seq<usize>, s: Seq<Option<T>>, x: usize)
    requires
        ids.contains(x),
        slot_alive(s, x),
    ensures
        live_ids(ids, s).contains(x),
    decreases ids.len(),
{
    if ids.last() == x {
        assert(live_ids(ids, s).last() == x);
    } else {
        let j = choose|j: int| 0 <= j < ids.len() && ids[j] == x;
        assert(ids.drop_last()[j] == x);
        lemma_live_ids_keeps(ids.drop_last(), s, x);
        let rest = live_ids(ids.drop_last(), s);
        let k = choose|k: int| 0 <= k < rest.len() && rest[k] == x;
        if slot_alive(s, ids.last()) {
            assert(rest.push(ids.last())[k] == x);
        }
    }
}

/// `live_ids` of a list without repeated entries has no repeated entries.
pub proof fn lemma_live_ids_no_dup<T>(ids: Seq<usize>, s: Seq<Option<T>>)
    requires
        ids.no_duplicates(),
    ensures
        live_ids(ids, s).no_duplicates(),
    decreases ids.len(),
{
    if ids.len() > 0 {
        let init = ids.drop_last();
        assert(init.no_duplicates()) by {
            assert forall|i: int, j: int| 0 <= i < init.len() && 0 <= j < init.len() && i != j
                implies init[i] != init[j] by {
                assert(init[i] == ids[i] && init[j] == ids[j]);
            }
        }
        lemma_live_ids_no_dup(init, s);
        lemma_live_ids_alive(init, s);
        let rest = live_ids(init, s);
        if slot_alive(s, ids.last()) {
            assert(!rest.contains(ids.last())) by {
                if rest.contains(ids.last()) {
                    let k = choose|k: int| 0 <= k < rest.len() && rest[k] == ids.last();
                    assert(init.contains(rest[k]));
                    let j = choose|j: int| 0 <= j < init.len() && init[j] == rest[k];
                    assert(ids[j] == ids[ids.len() - 1]);
                }
            }
            let r = rest.push(ids.last());
            assert forall|i: int, j: int| 0 <= i < r.len() && 0 <= j < r.len() && i != j
                implies r[i] != r[j] by {
                if i < rest.len() && j < rest.len() {
                } else if i < rest.len() {
                    assert(rest.contains(rest[i]));
                } else {
                    assert(rest.contains(rest[j]));
                }
            }
        }
    }
}

/// A vector of weak handles. Entries whose value has been dropped are invisible
/// to readers, and are removed at the latest by the next full traversal.
pub struct WeakList {
    items: Vec<usize>,
}

impl View for WeakList {
    type V = Seq<usize>;

    closed spec fn view(&self) -> Seq<usize> {
        self.items@
    }
}

impl WeakList {
    /// Construct a new, empty list.
    pub fn new() -> (r: WeakList)
        ensures
            r@ == Seq::<usize>::empty(),
    {
        WeakList::with_capacity(0)
    }

    /// Construct a new, empty list with room for `capacity` entries.
    pub fn with_capacity(capacity: usize) -> (r: WeakList)
        ensures
            r@ == Seq::<usize>::empty(),
    {
        WeakList { items: Vec::with_capacity(capacity) }
    }

    /// Construct a list with a weak entry for each of `items`, in order.
    pub fn of(items: &Vec<RcRef>) -> (r: WeakList)
        ensures
            r@ == ids_of(items@),
    {
        let mut v: Vec<usize> = Vec::with_capacity(items.len());
        let mut i: usize = 0;
        while i < items.len()
            invariant
                i <= items.len(),
                v@ == ids_of(items@.take(i as int)),
            decreases items.len() - i,
        {
            v.push(items[i].id);
            proof {
                assert(items@.take(i + 1) =~= items@.take(i as int).push(items@[i as int]));
                assert(ids_of(items@.take(i + 1)) =~= ids_of(items@.take(i as int)).push(items@[i as int].id));
            }
            i = i + 1;
        }
        proof {
            assert(items@.take(items@.len() as int) =~= items@);
        }
        WeakList { items: v }
    }

    /// Add a weak entry for `item` at the end of this list.
    pub fn push(&mut self, item: &RcRef)
        ensures
            final(self)@ == old(self)@.push(item.id),
    {
        self.items.push(item.id);
    }

    /// Remove the entries whose value has been dropped.
    pub fn clean<T>(&mut self, heap: &Heap<T>)
        ensures
            final(self)@ == live_ids(old(self)@, heap@),
    {
        let mut kept: Vec<usize> = Vec::with_capacity(self.items.len());
        let mut i: usize = 0;
        while i < self.items.len()
            invariant
                i <= self.items.len(),
                kept@ == live_ids(self.items@.take(i as int), heap@),
            decreases self.items.len() - i,
        {
            let id = self.items[i];
            proof {
                assert(self.items@.take(i + 1).drop_last() =~= self.items@.take(i as int));
                assert(self.items@.take(i + 1).last() == id);
            }
            if heap.is_alive(id) {
                kept.push(id);
            }
            i = i + 1;
        }
        proof {
            assert(self.items@.take(self.items@.len() as int) =~= self.items@);
        }
        self.items = kept;
    }

    /// Remove the entries whose value has been dropped, and return an owner for
    /// each entry that is left, in order.
    pub fn upgrade<T>(&mut self, heap: &Heap<T>) -> (r: Vec<RcRef>)
        ensures
            final(self)@ == live_ids(old(self)@, heap@),
            ids_of(r@) == final(self)@,
    {
        self.clean(heap);
        let mut v: Vec<RcRef> = Vec::with_capacity(self.items.len());
        let mut i: usize = 0;
        while i < self.items.len()
            invariant
                i <= self.items.len(),
                ids_of(v@) == self.items@.take(i as int),
            decreases self.items.len() - i,
        {
            let ghost prev = v@;
            v.push(RcRef { id: self.items[i] });
            proof {
                assert(ids_of(v@) =~= ids_of(prev).push(self.items@[i as int]));
                assert(self.items@.take(i + 1) =~= self.items@.take(i as int).push(self.items@[i as int]));
            }
            i = i + 1;
        }
        proof {
            assert(self.items@.take(self.items@.len() as int) =~= self.items@);
        }
        v
    }

    /// Consume this list, returning an owner for each entry whose value is alive.
    pub fn upgrade_owned<T>(self, heap: &Heap<T>) -> (r: Vec<RcRef>)
        ensures
            ids_of(r@) == live_ids(self@, heap@),
    {
        let mut list = self;
        list.upgrade(heap)
    }

    /// The number of entries whose value is alive; dead entries are removed first.
    pub fn len<T>(&mut self, heap: &Heap<T>) -> (r: usize)
        ensures
            final(self)@ == live_ids(old(self)@, heap@),
            r == final(self)@.len(),
    {
        self.clean(heap);
        self.len_no_clean()
    }

    /// Whether some entry, alive or not, refers to `id`.
    pub fn contains(&self, id: usize) -> (r: bool)
        ensures
            r == self@.contains(id),
    {
        let mut i: usize = 0;
        while i < self.items.len()
            invariant
                i <= self.items.len(),
                forall|k: int| 0 <= k < i ==> self.items@[k] != id,
            decreases self.items.len() - i,
        {
            if self.items[i] == id {
                return true;
            }
            i = i + 1;
        }
        false
    }

    /// The number of entries held now, dead ones included.
    pub fn len_no_clean(&self) -> (r: usize)
        ensures
            r == self@.len(),
    {
        self.items.len()
    }

    /// The number of entries this list can hold without allocating.
    pub fn capacity(&self) -> (r: usize)
        ensures
            r >= self@.len(),
    {
        vec_capacity(&self.items)
    }
}

/// Relies on `Vec::capacity`: never less than the length.
#[verifier::external_body]
fn vec_capacity(v: &Vec<usize>) -> (r: usize)
    ensures
        r >= v@.len(),
{
    v.capacity()
}

} // verus!
