use pebl::bind::Bindings;
use pebl::expr;
use pebl::graph::Graph;
use pebl::obsv::ObservablePtr;
use pebl::property::Property;
use pebl::value::Value;

#[test]
fn bind_property_to_another() {
    let mut g = Graph::new();
    let p_dest = Property::new(&mut g, Value::Int(10));
    let p_src = Property::new(&mut g, Value::Int(20));
    let mut b = Bindings::new();

    assert_eq!(p_dest.get(&mut g), Value::Int(10));

    b.bind(&mut g, &p_dest, p_src.operand());
    assert_eq!(p_dest.get(&mut g), Value::Int(20));

    p_src.set(&mut g, Value::Int(30));
    assert_eq!(p_dest.get(&mut g), Value::Int(20));

    b.update(&mut g);
    assert_eq!(p_dest.get(&mut g), Value::Int(30));
}

#[test]
fn bind_property_to_expression() {
    let mut g = Graph::new();
    let p_dest = Property::new(&mut g, Value::Int(10));
    let p1 = Property::new(&mut g, Value::Int(100));
    let p2 = Property::new(&mut g, Value::Int(200));
    let targets = vec![ObservablePtr { cell: p1.cell }, ObservablePtr { cell: p2.cell }];
    let sum = expr::sum(&mut g, &targets);

    let mut b = Bindings::new();

    assert_eq!(p_dest.get(&mut g), Value::Int(10));

    b.bind(&mut g, &p_dest, sum.operand());
    assert_eq!(p_dest.get(&mut g), Value::Int(300));

    p1.set(&mut g, Value::Int(30));
    p2.set(&mut g, Value::Int(50));
    assert_eq!(sum.get(&mut g), Some(Value::Int(80)));
    assert_eq!(p_dest.get(&mut g), Value::Int(300));
    b.update(&mut g);
    assert_eq!(p_dest.get(&mut g), Value::Int(80));
}

#[test]
fn release_binding_works() {
    let mut g = Graph::new();
    let mut b = Bindings::new();
    let p_dest = Property::new(&mut g, Value::Int(0));
    let p_src = Property::new(&mut g, Value::Int(20));

    b.bind(&mut g, &p_dest, p_src.operand());
    b.unbind(&p_dest);

    p_src.set(&mut g, Value::Int(30));
    b.update(&mut g);
    assert_ne!(p_dest.get(&mut g), Value::Int(30));
}

#[test]
fn release_all_bindings_works() {
    let mut g = Graph::new();
    let mut b = Bindings::new();
    let p_dest = Property::new(&mut g, Value::Int(0));
    let p_src = Property::new(&mut g, Value::Int(20));

    b.bind(&mut g, &p_dest, p_src.operand());
    b.clear();

    p_src.set(&mut g, Value::Int(30));
    b.update(&mut g);
    assert_ne!(p_dest.get(&mut g), Value::Int(30));
}

#[test]
fn rebinding_a_destination_replaces_its_mirror() {
    let mut g = Graph::new();
    let mut b = Bindings::new();
    let dest = Property::new(&mut g, Value::Int(0));
    let s1 = Property::new(&mut g, Value::Int(1));
    let s2 = Property::new(&mut g, Value::Int(2));
    b.bind(&mut g, &dest, s1.operand());
    assert_eq!(dest.get(&mut g), Value::Int(1));
    b.bind(&mut g, &dest, s2.operand());
    assert_eq!(dest.get(&mut g), Value::Int(2));
    s1.set(&mut g, Value::Int(7));
    b.update(&mut g);
    assert_eq!(dest.get(&mut g), Value::Int(2));
}

#[test]
fn update_leaves_cells_that_are_no_destination() {
    let mut g = Graph::new();
    let mut b = Bindings::new();
    let src = Property::new(&mut g, Value::Int(1));
    let d1 = Property::new(&mut g, Value::Int(0));
    let d2 = Property::new(&mut g, Value::Int(0));
    b.bind(&mut g, &d1, src.operand());
    b.bind(&mut g, &d2, src.operand());
    b.unbind(&d1);
    src.set(&mut g, Value::Int(5));
    b.update(&mut g);
    assert_eq!(d1.get(&mut g), Value::Int(1));
    assert_eq!(d2.get(&mut g), Value::Int(5));
}
