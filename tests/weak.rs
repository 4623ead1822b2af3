use pebl::rcref::{Heap, RcRef};
use pebl::weak::WeakList;

trait DynamicallySized {}

struct NoInt;

#[allow(dead_code)]
struct OneInt {
    a: i32,
}

#[allow(dead_code)]
struct TwoInts {
    a: i32,
    b: i32,
}

impl DynamicallySized for NoInt {}
impl DynamicallySized for OneInt {}
impl DynamicallySized for TwoInts {}

struct Pt {
    x: i32,
    y: i32,
}

#[test]
fn weak_list_is_cleaned_after_upgrade() {
    let mut heap: Heap<i32> = Heap::new();
    let mut list = WeakList::new();
    let int1 = RcRef::new(&mut heap, 10);
    list.push(&int1);
    let int2 = RcRef::new(&mut heap, 20);
    list.push(&int2);
    assert_eq!(list.len_no_clean(), 2);

    int2.release(&mut heap);
    assert_eq!(list.len_no_clean(), 2);

    list.upgrade(&heap);
    assert_eq!(list.len_no_clean(), 1);
}

#[test]
fn weak_list_is_cleaned_after_len_is_called() {
    let mut heap: Heap<i32> = Heap::new();
    let mut list = WeakList::new();
    let int1 = RcRef::new(&mut heap, 10);
    list.push(&int1);
    let int2 = RcRef::new(&mut heap, 20);
    list.push(&int2);
    int2.release(&mut heap);

    assert_eq!(list.len_no_clean(), 2);
    assert_eq!(list.len(&heap), 1);
}

#[test]
fn weak_list_works_with_unsized_types() {
    let mut heap: Heap<Box<dyn DynamicallySized>> = Heap::new();
    let mut list = WeakList::new();
    let item1 = RcRef::new(&mut heap, Box::new(NoInt {}) as Box<dyn DynamicallySized>);
    let item2 = RcRef::new(&mut heap, Box::new(OneInt { a: 1 }) as Box<dyn DynamicallySized>);
    let item3 = RcRef::new(&mut heap, Box::new(TwoInts { a: 2, b: 3 }) as Box<dyn DynamicallySized>);
    list.push(&item1);
    list.push(&item2);
    list.push(&item3);

    assert_eq!(list.len_no_clean(), 3);
}

#[test]
fn weak_list_converted_to_strong_using_upgrade() {
    let mut heap: Heap<i32> = Heap::new();
    let mut list = WeakList::new();
    let int1 = RcRef::new(&mut heap, 10);
    list.push(&int1);
    let int2 = RcRef::new(&mut heap, 20);
    list.push(&int2);

    let u = list.upgrade(&heap);
    assert_eq!(u.len(), 2);
    assert_eq!(u[0], int1);
    assert_eq!(u[1], int2);

    int2.release(&mut heap);
    assert_eq!(list.upgrade(&heap).len(), 1);
}

#[test]
fn can_iter_weak_list() {
    let mut heap: Heap<i32> = Heap::new();
    let mut list = WeakList::new();
    let int1 = RcRef::new(&mut heap, 10);
    let int2 = RcRef::new(&mut heap, 20);
    let int3 = RcRef::new(&mut heap, 30);
    list.push(&int1);
    list.push(&int2);
    list.push(&int3);

    let int4 = RcRef::new(&mut heap, 40);
    list.push(&int4);

    let mut sum = 0;
    for i in list.upgrade(&heap) {
        sum += *i.peek(&heap);
    }
    assert_eq!(sum, 100);

    int4.release(&mut heap);

    let mut sum = 0;
    for i in list.upgrade(&heap) {
        sum += *i.peek(&heap);
    }
    assert_eq!(sum, 60);
}

#[test]
fn can_create_weak_list_with_struct() {
    let mut heap: Heap<Pt> = Heap::new();
    let mut list = WeakList::new();
    let pt1 = RcRef::new(&mut heap, Pt { x: 1, y: 10 });
    let pt2 = RcRef::new(&mut heap, Pt { x: 2, y: 20 });
    let pt3 = RcRef::new(&mut heap, Pt { x: 3, y: 30 });
    list.push(&pt1);
    list.push(&pt2);
    list.push(&pt3);

    let pt_sum = list.upgrade(&heap).iter().fold(Pt { x: 0, y: 0 }, |acc, r| {
        let p = r.peek(&heap);
        Pt { x: acc.x + p.x, y: acc.y + p.y }
    });

    assert_eq!(pt_sum.x, 6);
    assert_eq!(pt_sum.y, 60);
}

#[test]
fn compaction_happens_during_traversal() {
    let mut heap: Heap<i32> = Heap::new();
    let mut list = WeakList::new();
    let a = RcRef::new(&mut heap, 1);
    let b = RcRef::new(&mut heap, 2);
    let c = RcRef::new(&mut heap, 3);
    list.push(&a);
    list.push(&b);
    list.push(&c);

    b.release(&mut heap);
    let live = list.upgrade(&heap);
    assert_eq!(live.len(), 2);
    assert_eq!(live[0], a);
    assert_eq!(live[1], c);
    assert_eq!(list.len_no_clean(), 2);
}

#[test]
fn weak_list_of_and_contains() {
    let mut heap: Heap<i32> = Heap::new();
    let a = RcRef::new(&mut heap, 1);
    let b = RcRef::new(&mut heap, 2);
    let list = WeakList::of(&vec![a, b]);
    assert_eq!(list.len_no_clean(), 2);
    assert!(list.contains(a.id));
    assert!(!list.contains(7));
    a.release(&mut heap);
    let owned = list.upgrade_owned(&heap);
    assert_eq!(owned, vec![b]);
}

#[test]
fn weak_list_capacity_covers_its_entries() {
    let mut heap: Heap<i32> = Heap::new();
    let mut list = WeakList::with_capacity(4);
    assert!(list.capacity() >= 4);
    for i in 0..10 {
        let r = RcRef::new(&mut heap, i);
        list.push(&r);
    }
    assert!(list.capacity() >= 10);
}
