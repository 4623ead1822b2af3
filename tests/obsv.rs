use pebl::graph::Graph;
use pebl::obsv::{InvalidationHandler, Observable, ObservablePtr};
use pebl::value::Value;

#[test]
fn value_simple_get() {
    let mut g = Graph::new();
    let p = Observable::new(&mut g, Value::Int(10));
    assert_eq!(*p.get(&g), Value::Int(10));
    assert_eq!(*p.get(&g), Value::Int(10));
}

#[test]
fn value_simple_set() {
    let mut g = Graph::new();
    let p = Observable::new(&mut g, Value::Int(10));
    p.set(&mut g, Value::Int(20));
    assert_eq!(*p.get(&g), Value::Int(20));
}

#[test]
fn value_clear() {
    let mut g = Graph::new();
    let p = Observable::new(&mut g, Value::Int(10));
    p.clear(&mut g);
    assert_eq!(*p.get(&g), Value::Int(0));

    let p = Observable::new(&mut g, Value::text("Hello"));
    p.clear(&mut g);
    assert_eq!(*p.get(&g), Value::text(""));
}

#[test]
fn value_can_be_observed_for_changes() {
    let mut g = Graph::new();
    let o = Observable::new(&mut g, Value::Int(10));
    let handler = InvalidationHandler::new(&mut g);
    o.add_invalidation_handler(&mut g, &handler);

    assert_eq!(handler.fired_count(&g), 0);

    o.set(&mut g, Value::Int(20));
    assert_eq!(handler.fired_count(&g), 1);

    o.set(&mut g, Value::Int(30));
    assert_eq!(handler.fired_count(&g), 2);

    o.set(&mut g, Value::Int(30));
    assert_eq!(handler.fired_count(&g), 2);
}

#[test]
fn invalidation_handler_not_called_after_dropping() {
    let mut g = Graph::new();
    let o = Observable::new(&mut g, Value::Int(10));
    let handler = InvalidationHandler::new(&mut g);
    let other = InvalidationHandler::new(&mut g);
    o.add_invalidation_handler(&mut g, &handler);
    o.add_invalidation_handler(&mut g, &other);

    o.set(&mut g, Value::Int(20));
    assert_eq!(handler.fired_count(&g), 1);

    let id = handler.id;
    handler.release(&mut g);

    o.set(&mut g, Value::Int(30));
    assert!(!g.is_handler_alive(id));
    assert_eq!(other.fired_count(&g), 2);
}

#[test]
fn value_ptr_wraps_target_value() {
    let mut g = Graph::new();
    let p = Observable::new(&mut g, Value::text("Hello"));
    let p_ptr = ObservablePtr::new(&p);
    {
        let p_ref = p_ptr.deref(&mut g);
        assert_eq!(*p_ref.get(&g), Value::text("Hello"));
        p_ref.release(&mut g);
    }

    {
        let p_ref = p_ptr.deref_mut(&mut g);
        p_ref.set(&mut g, Value::text("World"));
        assert_eq!(*p_ref.get(&g), Value::text("World"));
        p_ref.release(&mut g);
    }

    assert_eq!(*p.get(&g), Value::text("World"));

    p.destroy(&mut g);
    assert!(p_ptr.try_deref(&mut g).is_none());
    assert!(p_ptr.try_deref_mut(&mut g).is_none());
}

#[test]
fn set_fires_each_live_listener_once_and_equal_value_fires_none() {
    let mut g = Graph::new();
    let o = Observable::new(&mut g, Value::Int(1));
    let other = Observable::new(&mut g, Value::Int(5));
    let h1 = InvalidationHandler::new(&mut g);
    let h2 = InvalidationHandler::new(&mut g);
    let h3 = InvalidationHandler::new(&mut g);
    o.add_invalidation_handler(&mut g, &h1);
    o.add_invalidation_handler(&mut g, &h1);
    o.add_invalidation_handler(&mut g, &h2);
    other.add_invalidation_handler(&mut g, &h3);

    o.set(&mut g, Value::Int(2));
    assert_eq!(*o.get(&g), Value::Int(2));
    assert_eq!(h1.fired_count(&g), 1);
    assert_eq!(h2.fired_count(&g), 1);
    assert_eq!(h3.fired_count(&g), 0);

    o.set(&mut g, Value::Int(2));
    assert_eq!(h1.fired_count(&g), 1);
    assert_eq!(h2.fired_count(&g), 1);
}

#[test]
fn destroyed_cell_fires_and_its_pointer_stays_dead() {
    let mut g = Graph::new();
    let o = Observable::new(&mut g, Value::Int(1));
    let keep = Observable::new(&mut g, Value::Int(2));
    let h = InvalidationHandler::new(&mut g);
    o.add_invalidation_handler(&mut g, &h);
    let p = ObservablePtr::new(&o);
    assert!(p.can_deref(&g));

    o.destroy(&mut g);
    assert_eq!(h.fired_count(&g), 1);
    assert!(!p.can_deref(&g));
    assert!(p.try_deref(&mut g).is_none());

    keep.set(&mut g, Value::Int(3));
    let later = Observable::new(&mut g, Value::Int(4));
    later.set(&mut g, Value::Int(5));
    assert!(p.try_deref(&mut g).is_none());
    assert!(p.try_deref(&mut g).is_none());
    assert!(p.try_deref_mut(&mut g).is_none());
}

#[test]
fn shared_accesses_are_counted() {
    let mut g = Graph::new();
    let o = Observable::new(&mut g, Value::Int(7));
    let p1 = ObservablePtr::new(&o);
    let p2 = ObservablePtr::new(&o);
    let r1 = p1.deref(&mut g);
    let r2 = p2.deref(&mut g);
    assert_eq!(g.borrows_of(o.cell).immutable, 2);
    r1.release(&mut g);
    r2.release(&mut g);
    assert_eq!(g.borrows_of(o.cell).immutable, 0);
    let m = p1.deref_mut(&mut g);
    assert!(g.borrows_of(o.cell).mutable);
    m.release(&mut g);
    assert!(!g.borrows_of(o.cell).mutable);
}

#[test]
fn value_classes_implement_debug() {
    let mut g = Graph::new();
    let p = Observable::new(&mut g, Value::Int(42));

    let p_string = p.debug_text(&g);
    assert_eq!(p_string.as_str(), "Observable { 42 }");

    let p_ptr = ObservablePtr::new(&p);
    let p_string = p_ptr.debug_text(&g);
    assert_eq!(p_string.as_str(), "*Observable { 42 }");

    {
        let p_ref = p_ptr.deref(&mut g);
        let p_string = p_ref.debug_text(&g);
        assert_eq!(p_string.as_str(), "&Observable { 42 }");
        p_ref.release(&mut g);
    }

    {
        let p_ref_mut = p_ptr.deref_mut(&mut g);
        let p_string = p_ref_mut.debug_text(&g);
        assert_eq!(p_string.as_str(), "&mut Observable { 42 }");
        p_ref_mut.release(&mut g);
    }

    p.destroy(&mut g);
    let p_string = p_ptr.debug_text(&g);
    assert_eq!(p_string.as_str(), "*Observable { null }");
}

#[test]
fn modify_inner_fires_once_on_release() {
    let mut g = Graph::new();
    let o = Observable::new(&mut g, Value::text("a"));
    let h = InvalidationHandler::new(&mut g);
    o.add_invalidation_handler(&mut g, &h);
    let mut m = o.modify_inner(&mut g);
    m.push_str("b");
    m.push_str("c");
    assert_eq!(*m.get(), Value::text("abc"));
    assert_eq!(h.fired_count(&g), 0);
    m.release(&mut g);
    assert_eq!(h.fired_count(&g), 1);
    assert_eq!(*o.get(&g), Value::text("abc"));

    let m = o.modify_inner(&mut g);
    m.release(&mut g);
    assert_eq!(h.fired_count(&g), 2);
}
