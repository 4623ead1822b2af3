use pebl::expr::math::plus;
use pebl::graph::Graph;
use pebl::property::{Property, PropertyExpression};
use pebl::obsv::Observable;
use pebl::value::Value;

#[test]
fn property_simple_get() {
    let mut g = Graph::new();
    let p = Property::new(&mut g, Value::Int(10));
    assert_eq!(p.get(&mut g), Value::Int(10));
    assert_eq!(p.get(&mut g), Value::Int(10));
}

#[test]
fn property_simple_set() {
    let mut g = Graph::new();
    let p = Property::new(&mut g, Value::Int(10));
    p.set(&mut g, Value::Int(20));
    assert_eq!(p.get(&mut g), Value::Int(20));
}

#[test]
fn property_modify_inner() {
    let mut g = Graph::new();
    let p = Property::new(&mut g, Value::text("Hello"));
    let mut m = p.modify_inner(&mut g);
    m.push_str(", World");
    m.release(&mut g);

    assert_eq!(p.get(&mut g), Value::text("Hello, World"));
}

#[test]
fn property_clear() {
    let mut g = Graph::new();
    let p = Property::new(&mut g, Value::Int(10));
    p.clear(&mut g);
    assert_eq!(p.get(&mut g), Value::Int(0));

    let p = Property::new(&mut g, Value::text("Hello"));
    p.clear(&mut g);
    assert_eq!(p.get(&mut g), Value::text(""));
}

#[test]
fn property_can_bind_to_other_property() {
    let mut g = Graph::new();
    let p_src = Property::new(&mut g, Value::Int(42));
    let p_dest = Property::new(&mut g, Value::Int(0));

    assert!(!p_dest.is_bound(&g));
    assert!(p_dest.bind(&mut g, p_src.operand()));
    assert!(p_dest.is_bound(&g));
    assert_eq!(p_dest.get(&mut g), Value::Int(42));

    p_src.set(&mut g, Value::Int(9000));
    assert_eq!(p_dest.get(&mut g), Value::Int(9000));

    assert!(p_dest.is_bound(&g));
    p_dest.unbind(&mut g);
    assert!(!p_dest.is_bound(&g));
    p_src.set(&mut g, Value::Int(123));
    assert_eq!(p_dest.get(&mut g), Value::Int(9000));
}

#[test]
fn property_can_bind_to_expression() {
    let mut g = Graph::new();
    let p1 = Property::new(&mut g, Value::Int(100));
    let p2 = Property::new(&mut g, Value::Int(10));
    let p3 = Property::new(&mut g, Value::Int(1));
    let s12 = plus(&mut g, p1.operand(), p2.operand());
    let sum = plus(&mut g, s12.operand(), p3.operand());

    let p_dest = Property::new(&mut g, Value::Int(0));

    assert!(p_dest.bind(&mut g, sum.operand()));
    assert_eq!(p_dest.get(&mut g), Value::Int(111));

    p1.set(&mut g, Value::Int(0));
    assert_eq!(p_dest.get(&mut g), Value::Int(11));

    p3.set(&mut g, Value::Int(0));
    assert_eq!(p_dest.get(&mut g), Value::Int(10));

    p2.set(&mut g, Value::Int(0));
    assert_eq!(p_dest.get(&mut g), Value::Int(0));
}

#[test]
fn bool_property_can_invert() {
    let mut g = Graph::new();
    let p = Property::new(&mut g, Value::Bool(true));

    p.invert(&mut g);
    assert_eq!(p.get(&mut g), Value::Bool(false));

    p.invert(&mut g);
    assert_eq!(p.get(&mut g), Value::Bool(true));
}

#[test]
fn property_reset_and_bound_to() {
    let mut g = Graph::new();
    let src = Observable::new(&mut g, Value::Int(5));
    let e = PropertyExpression::new(&src);
    let p = Property::bound_to(&mut g, e.operand());
    assert!(p.is_bound(&g));
    assert_eq!(p.get(&mut g), Value::Int(5));
    src.set(&mut g, Value::Int(6));
    assert_eq!(p.get(&mut g), Value::Int(6));
    p.unbind(&mut g);
    p.reset(&mut g);
    assert_eq!(p.get(&mut g), Value::Int(0));
}

#[test]
fn bound_field_direct_set_is_overwritten_at_next_read() {
    let mut g = Graph::new();
    let src = Property::new(&mut g, Value::Int(1));
    let dest = Property::bound_to(&mut g, src.operand());
    assert_eq!(dest.get(&mut g), Value::Int(1));
    dest.set(&mut g, Value::Int(50));
    assert_eq!(dest.get(&mut g), Value::Int(1));
}

#[test]
fn binding_to_itself_is_refused() {
    let mut g = Graph::new();
    let p = Property::new(&mut g, Value::Int(1));
    let q = Property::new(&mut g, Value::Int(2));
    let e = plus(&mut g, p.operand(), q.operand());
    assert!(!p.bind(&mut g, e.operand()));
    assert!(!p.is_bound(&g));
    assert!(!p.bind(&mut g, p.operand()));
}

#[test]
fn bound_field_mirror_freezes_after_unbind() {
    let mut g = Graph::new();
    let a = Property::new(&mut g, Value::Bool(true));
    let b = Property::new(&mut g, Value::Bool(false));
    let both = pebl::expr::logic::and(&mut g, a.operand(), b.operand());
    let f = Property::new(&mut g, Value::Bool(false));
    assert!(f.bind(&mut g, both.operand()));
    assert_eq!(f.get(&mut g), Value::Bool(false));

    b.set(&mut g, Value::Bool(true));
    assert_eq!(f.get(&mut g), Value::Bool(true));

    f.unbind(&mut g);
    a.set(&mut g, Value::Bool(false));
    assert_eq!(f.get(&mut g), Value::Bool(true));
}

#[test]
fn property_class_implements_debug() {
    let mut g = Graph::new();
    let p = Property::new(&mut g, Value::Int(42));

    let p_string = p.debug_text(&mut g);
    assert_eq!(p_string.as_str(), "Property { 42 }");
}

#[test]
fn property_set_fires_listeners_once() {
    let mut g = Graph::new();
    let p = Property::new(&mut g, Value::Int(1));
    let h = pebl::obsv::InvalidationHandler::new(&mut g);
    Observable { cell: p.cell }.add_invalidation_handler(&mut g, &h);
    p.set(&mut g, Value::Int(2));
    assert_eq!(h.fired_count(&g), 1);
    p.set(&mut g, Value::Int(2));
    assert_eq!(h.fired_count(&g), 1);
    p.clear(&mut g);
    assert_eq!(h.fired_count(&g), 2);
}

#[test]
fn field_made_before_its_expression_binds_and_follows() {
    let mut g = Graph::new();
    let a = Property::new(&mut g, Value::Bool(true));
    let b = Property::new(&mut g, Value::Bool(false));
    let f = Property::new(&mut g, Value::Bool(false));
    let e = pebl::expr::logic::and(&mut g, a.operand(), b.operand());
    assert!(!g.depends_on(e.operand(), f.cell));
    assert!(g.depends_on(e.operand(), a.cell));
    assert!(f.bind(&mut g, e.operand()));
    assert_eq!(f.get(&mut g), Value::Bool(false));
    b.set(&mut g, Value::Bool(true));
    assert_eq!(f.get(&mut g), Value::Bool(true));
}
