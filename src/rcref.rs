use vstd::prelude::*;

verus! {

/// Storage for values that are reached through `RcRef` and `WeakRef` handles.
///
/// A slot is filled once, when its value is created, and emptied once, when
/// its owner releases it. A slot is never filled again, so a weak handle to a
/// released value stays dead.
pub struct Heap<T> {
    slots: Vec<Option<T>>,
}

/// Whether the value behind `id` is still alive in the slots `s`.
pub open spec fn slot_alive<T>(s: Seq<Option<T>>, id: usize) -> bool {
    id < s.len() && s[id as int] is Some
}

impl<T> View for Heap<T> {
    type V = Seq<Option<T>>;

    closed spec fn view(&self) -> Seq<Option<T>> {
        self.slots@
    }
}

impl<T> Heap<T> {
    pub open spec fn alive(&self, id: usize) -> bool {
        slot_alive(self@, id)
    }

    pub fn new() -> (r: Heap<T>)
        ensures
            r@ == Seq::<Option<T>>::empty(),
    {
        Heap { slots: Vec::new() }
    }

    /// Whether the value behind `id` is still alive.
    pub fn is_alive(&self, id: usize) -> (r: bool)
        ensures
            r == self.alive(id),
    {
        id < self.slots.len() && self.slots[id].is_some()
    }

    /// The value behind `id`, if it is still alive.
    pub fn get(&self, id: usize) -> (r: Option<&T>)
        ensures
            r is Some <==> self.alive(id),
            self.alive(id) ==> r == Some(&self@[id as int].unwrap()),
    {
        if id < self.slots.len() {
            match &self.slots[id] {
                Some(v) => Some(v),
                None => None,
            }
        } else {
            None
        }
    }

    /// Replace the value behind a live `id`.
    pub fn replace(&mut self, id: usize, value: T)
        requires
            old(self).alive(id),
        ensures
            final(self)@ == old(self)@.update(id as int, Some(value)),
    {
        self.slots.set(id, Some(value));
    }

    fn add(&mut self, value: T) -> (id: usize)
        ensures
            id == old(self)@.len(),
            final(self)@ == old(self)@.push(Some(value)),
    {
        let id = self.slots.len();
        self.slots.push(Some(value));
        id
    }

    fn remove(&mut self, id: usize)
        requires
            id < old(self)@.len(),
        ensures
            final(self)@ == old(self)@.update(id as int, None),
    {
        self.slots.set(id, None);
    }

    pub fn len(&self) -> (r: usize)
        ensures
            r == self@.len(),
    {
        self.slots.len()
    }
}

/// A strong handle of a value in a `Heap`. Handles are plain copies of one
/// slot number: `release` through any of them ends the value for all of them,
/// and every weak handle to it is dead from then on.
#[derive(Clone, Copy, Debug, PartialEq, Eq, Structural)]
pub struct RcRef {
    pub id: usize,
}

/// A non-owning handle of a value in a `Heap`: it can tell whether its value is
/// still alive, and never keeps it alive.
#[derive(Clone, Copy, Debug, PartialEq, Eq, Structural)]
pub struct WeakRef {
    pub id: usize,
}

impl RcRef {
    /// Store `value` in a fresh slot of `heap`, and return its owner.
    pub fn new<T>(heap: &mut Heap<T>, value: T) -> (r: RcRef)
        ensures
            r.id == old(heap)@.len(),
            final(heap)@ == old(heap)@.push(Some(value)),
    {
        RcRef { id: heap.add(value) }
    }

    /// A weak handle to the same value.
    pub fn downgrade(&self) -> (r: WeakRef)
        ensures
            r.id == self.id,
    {
        WeakRef { id: self.id }
    }

    /// The value this owner holds.
    pub fn peek<'a, T>(&self, heap: &'a Heap<T>) -> (r: &'a T)
        requires
            heap.alive(self.id),
        ensures
            *r == heap@[self.id as int].unwrap(),
    {
        heap.get(self.id).unwrap()
    }

    /// Drop the value for every handle to it: from now on every weak handle to
    /// it is dead.
    pub fn release<T>(self, heap: &mut Heap<T>)
        requires
            self.id < old(heap)@.len(),
        ensures
            final(heap)@ == old(heap)@.update(self.id as int, None),
    {
        heap.remove(self.id);
    }
}

impl WeakRef {
    /// The owning handle, if the value is still alive.
    pub fn upgrade<T>(&self, heap: &Heap<T>) -> (r: Option<RcRef>)
        ensures
            r is Some <==> heap.alive(self.id),
            r matches Some(s) ==> s.id == self.id,
    {
        if heap.is_alive(self.id) {
            Some(RcRef { id: self.id })
        } else {
            None
        }
    }

    /// The value, if it is still alive.
    pub fn peek<'a, T>(&self, heap: &'a Heap<T>) -> (r: Option<&'a T>)
        ensures
            r is Some <==> heap.alive(self.id),
            heap.alive(self.id) ==> r == Some(&heap@[self.id as int].unwrap()),
    {
        heap.get(self.id)
    }
}

} // verus!
