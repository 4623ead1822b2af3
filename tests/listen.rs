use pebl::graph::Graph;
use pebl::listen::Listeners;
use pebl::property::Property;
use pebl::value::Value;

#[test]
fn listener_with_multiple_types_works() {
    let mut g = Graph::new();
    let mut l = Listeners::new();
    let p_int = Property::new(&mut g, Value::Int(0));
    let p_str = Property::new(&mut g, Value::text(""));
    let p_bool = Property::new(&mut g, Value::Bool(false));
    let chain = l.listen_to(p_int.operand()).and(p_str.operand()).and(p_bool.operand());
    let handler = chain.with(&mut g, &mut l);
    let id = handler.id;

    assert_eq!(handler.fired_count(&g), 0);
    p_int.set(&mut g, Value::Int(10));
    assert_eq!(handler.fired_count(&g), 1);
    p_str.set(&mut g, Value::text("Ten"));
    assert_eq!(handler.fired_count(&g), 2);
    p_bool.set(&mut g, Value::Bool(true));
    assert_eq!(handler.fired_count(&g), 3);

    l.release_all(&mut g);
    assert!(!g.is_handler_alive(id));

    p_int.set(&mut g, Value::Int(99));
    p_str.set(&mut g, Value::text(":("));
    p_bool.set(&mut g, Value::Bool(false));
    assert!(!g.is_handler_alive(id));
}
