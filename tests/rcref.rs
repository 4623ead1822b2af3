use pebl::rcref::{Heap, RcRef};

#[test]
fn rcref_can_produce_weak_refs() {
    let mut heap: Heap<i32> = Heap::new();
    let src = RcRef::new(&mut heap, 10);
    let dest1 = src.downgrade();
    let dest2 = src.downgrade();

    assert_eq!(*src.peek(&heap), 10);

    assert_eq!(dest1.peek(&heap), Some(&10));
    assert_eq!(dest2.peek(&heap), Some(&10));

    heap.replace(src.id, 20);

    assert_eq!(dest1.peek(&heap), Some(&20));
    assert_eq!(dest2.peek(&heap), Some(&20));
}

#[test]
fn weak_refs_become_none_when_source_drops() {
    let mut heap: Heap<i32> = Heap::new();
    let src = RcRef::new(&mut heap, 10);

    let dest = src.downgrade();
    assert!(dest.upgrade(&heap).is_some());

    src.release(&mut heap);
    assert!(dest.upgrade(&heap).is_none());
    assert!(dest.peek(&heap).is_none());
}

fn assert_ten(val: &i32) {
    assert_eq!(*val, 10);
}

#[test]
fn can_reuse_the_same_method_multiple_times() {
    let mut heap: Heap<i32> = Heap::new();
    let src = RcRef::new(&mut heap, 10);
    let dest = src.downgrade();

    assert_ten(src.peek(&heap));
    let result = dest.peek(&heap);
    assert!(result.is_some());
    assert_ten(result.unwrap());
}

#[test]
fn upgrade_of_a_live_value_names_it() {
    let mut heap: Heap<i32> = Heap::new();
    let a = RcRef::new(&mut heap, 1);
    let b = RcRef::new(&mut heap, 2);
    assert_eq!(b.downgrade().upgrade(&heap), Some(b));
    assert_eq!(*b.peek(&heap), 2);
    a.release(&mut heap);
    assert!(!heap.is_alive(a.id));
    assert!(heap.is_alive(b.id));
    assert_eq!(heap.len(), 2);
}
