use pebl::expr::{self, binary, cmp, logic, math, text, unary, Expression};
use pebl::graph::Graph;
use pebl::obsv::{Observable, ObservablePtr};
use pebl::ops::{BinOp, UnOp};
use pebl::property::Property;
use pebl::value::Value;

fn val(e: &Expression, g: &mut Graph) -> Value {
    e.get(g).unwrap()
}

#[test]
fn expressions_are_nestable() {
    let mut g = Graph::new();
    let p1 = Property::new(&mut g, Value::Int(1));
    let p2 = Property::new(&mut g, Value::Int(10));
    let p3 = Property::new(&mut g, Value::Int(100));

    let inner = math::plus(&mut g, p2.operand(), p3.operand());
    let sum = math::plus(&mut g, p1.operand(), inner.operand());

    assert_eq!(val(&sum, &mut g), Value::Int(111));

    p3.set(&mut g, Value::Int(300));
    assert_eq!(val(&sum, &mut g), Value::Int(311));

    p1.set(&mut g, Value::Int(3));
    assert_eq!(val(&sum, &mut g), Value::Int(313));

    p2.set(&mut g, Value::Int(30));
    assert_eq!(val(&sum, &mut g), Value::Int(333));
}

#[test]
fn core_expressions_available_for_expressions_and_properties() {
    let mut g = Graph::new();
    let p1 = Property::new(&mut g, Value::Int(1));
    let p2 = Property::new(&mut g, Value::Int(10));
    let p3 = Property::new(&mut g, Value::Int(100));

    let sum = math::plus(&mut g, p1.operand(), p2.operand());
    let sum2 = math::plus(&mut g, sum.operand(), p3.operand());
    assert_eq!(val(&sum2, &mut g), Value::Int(111));

    let s = text::to_string(&mut g, p3.operand());
    assert_eq!(val(&s, &mut g), Value::text("100"));

    let b1 = Property::new(&mut g, Value::Bool(true));
    let b2 = Property::new(&mut g, Value::Bool(false));

    let both = logic::and(&mut g, b1.operand(), b2.operand());
    assert_eq!(val(&both, &mut g), Value::Bool(false));
}

#[test]
fn can_chain_different_expression_outputs() {
    let mut g = Graph::new();
    let p_src = Property::new(&mut g, Value::text(""));
    let p_dest = Property::new(&mut g, Value::Bool(false));

    let len = text::len(&mut g, p_src.operand());
    let is_five = cmp::eq_val(&mut g, len.operand(), 5);
    assert!(p_dest.bind(&mut g, is_five.operand()));
    assert_eq!(p_dest.get(&mut g), Value::Bool(false));

    p_src.set(&mut g, Value::text("Hello"));
    assert_eq!(p_dest.get(&mut g), Value::Bool(true));
}

#[test]
fn modify_inner_triggers_expression_update() {
    let mut g = Graph::new();
    let p = Property::new(&mut g, Value::text("   Hello"));
    let e = text::trim(&mut g, p.operand());
    assert_eq!(val(&e, &mut g), Value::text("Hello"));

    let mut m = p.modify_inner(&mut g);
    m.push_str(", World     ");
    m.release(&mut g);
    assert_eq!(val(&e, &mut g), Value::text("Hello, World"));
}

#[test]
fn unary_expression_works() {
    let mut g = Graph::new();
    let p = Property::new(&mut g, Value::text("Hello, World"));
    let e = unary(&mut g, p.operand(), UnOp::Lowercase);
    assert_eq!(val(&e, &mut g), Value::text("hello, world"));

    p.set(&mut g, Value::text("Goodbye!"));
    assert_eq!(val(&e, &mut g), Value::text("goodbye!"));
}

#[test]
fn binary_expression_works() {
    let mut g = Graph::new();
    let p1 = Property::new(&mut g, Value::text("Hello"));
    let p2 = Property::new(&mut g, Value::text("World"));
    let sep = Property::new(&mut g, Value::text(", "));
    let head = binary(&mut g, p1.operand(), sep.operand(), BinOp::Concat);
    let e = binary(&mut g, head.operand(), p2.operand(), BinOp::Concat);
    assert_eq!(val(&e, &mut g), Value::text("Hello, World"));

    p1.set(&mut g, Value::text("Goodbye"));
    assert_eq!(val(&e, &mut g), Value::text("Goodbye, World"));
}

#[test]
fn can_clone_expr() {
    let mut g = Graph::new();
    let p1 = Property::new(&mut g, Value::Int(1));
    let p2 = Property::new(&mut g, Value::Int(2));
    let p3 = Property::new(&mut g, Value::Int(3));

    let inner = math::plus(&mut g, p2.operand(), p3.operand());
    let sum = math::plus(&mut g, p1.operand(), inner.operand());
    let copy = sum.clone();
    let p4 = Property::bound_to(&mut g, copy.operand());
    let p5 = Property::bound_to(&mut g, sum.operand());

    assert_eq!(p4.get(&mut g), Value::Int(6));
    assert_eq!(p5.get(&mut g), Value::Int(6));

    p1.set(&mut g, Value::Int(10));
    p2.set(&mut g, Value::Int(100));
    p3.set(&mut g, Value::Int(1000));
    assert_eq!(p4.get(&mut g), Value::Int(1110));
    assert_eq!(p5.get(&mut g), Value::Int(1110));
}

#[test]
fn and_expr_works() {
    let mut g = Graph::new();
    let p1 = Property::new(&mut g, Value::Bool(true));
    let p2 = Property::new(&mut g, Value::Bool(true));
    let e = logic::and(&mut g, p1.operand(), p2.operand());

    assert_eq!(val(&e, &mut g), Value::Bool(true));

    p1.set(&mut g, Value::Bool(false));
    assert_eq!(val(&e, &mut g), Value::Bool(false));

    p2.set(&mut g, Value::Bool(false));
    assert_eq!(val(&e, &mut g), Value::Bool(false));

    p1.set(&mut g, Value::Bool(true));
    assert_eq!(val(&e, &mut g), Value::Bool(false));
}

#[test]
fn or_expr_works() {
    let mut g = Graph::new();
    let p1 = Property::new(&mut g, Value::Bool(true));
    let p2 = Property::new(&mut g, Value::Bool(true));
    let e = logic::or(&mut g, p1.operand(), p2.operand());

    assert_eq!(val(&e, &mut g), Value::Bool(true));

    p1.set(&mut g, Value::Bool(false));
    assert_eq!(val(&e, &mut g), Value::Bool(true));

    p2.set(&mut g, Value::Bool(false));
    assert_eq!(val(&e, &mut g), Value::Bool(false));

    p1.set(&mut g, Value::Bool(true));
    assert_eq!(val(&e, &mut g), Value::Bool(true));
}

#[test]
fn not_expr_works() {
    let mut g = Graph::new();
    let p = Property::new(&mut g, Value::Bool(true));
    let e = logic::not(&mut g, p.operand());

    assert_eq!(val(&e, &mut g), Value::Bool(false));

    p.set(&mut g, Value::Bool(false));
    assert_eq!(val(&e, &mut g), Value::Bool(true));
}

#[test]
fn sum_expr_works_with_int() {
    let mut g = Graph::new();
    let p1 = Property::new(&mut g, Value::Int(10));
    let p2 = Property::new(&mut g, Value::Int(20));

    let sum = math::plus(&mut g, p1.operand(), p2.operand());
    assert_eq!(val(&sum, &mut g), Value::Int(30));

    p2.set(&mut g, Value::Int(100));
    assert_eq!(val(&sum, &mut g), Value::Int(110));
}

#[test]
fn abs_expr_works() {
    let mut g = Graph::new();
    let p = Property::new(&mut g, Value::Int(0));
    let e = math::abs(&mut g, p.operand());

    assert_eq!(val(&e, &mut g), Value::Int(0));

    p.set(&mut g, Value::Int(1234));
    assert_eq!(val(&e, &mut g), Value::Int(1234));

    p.set(&mut g, Value::Int(-4321));
    assert_eq!(val(&e, &mut g), Value::Int(4321));
}

#[test]
fn neg_expr_works() {
    let mut g = Graph::new();
    let p = Property::new(&mut g, Value::Int(0));
    let e = math::neg(&mut g, p.operand());

    assert_eq!(val(&e, &mut g), Value::Int(0));

    p.set(&mut g, Value::Int(1234));
    assert_eq!(val(&e, &mut g), Value::Int(-1234));

    p.set(&mut g, Value::Int(-4321));
    assert_eq!(val(&e, &mut g), Value::Int(4321));
}

#[test]
fn plus_expr_works() {
    let mut g = Graph::new();
    let p1 = Property::new(&mut g, Value::Int(10));
    let p2 = Property::new(&mut g, Value::Int(1));

    let e = math::plus(&mut g, p1.operand(), p2.operand());

    assert_eq!(val(&e, &mut g), Value::Int(11));

    p2.set(&mut g, Value::Int(0));
    assert_eq!(val(&e, &mut g), Value::Int(10));

    p1.set(&mut g, Value::Int(9000));
    assert_eq!(val(&e, &mut g), Value::Int(9000));
}

#[test]
fn times_expr_works() {
    let mut g = Graph::new();
    let p1 = Property::new(&mut g, Value::Int(10));
    let p2 = Property::new(&mut g, Value::Int(1));

    let e = math::times(&mut g, p1.operand(), p2.operand());

    assert_eq!(val(&e, &mut g), Value::Int(10));

    p2.set(&mut g, Value::Int(432));
    assert_eq!(val(&e, &mut g), Value::Int(4320));

    p1.set(&mut g, Value::Int(0));
    assert_eq!(val(&e, &mut g), Value::Int(0));
}

fn check_binary_cmp(
    make: fn(&mut Graph, pebl::graph::Operand, pebl::graph::Operand) -> Expression,
    expected: [bool; 4],
) {
    let mut g = Graph::new();
    let p1 = Property::new(&mut g, Value::Int(1));
    let p2 = Property::new(&mut g, Value::Int(1));
    let e = make(&mut g, p1.operand(), p2.operand());

    assert_eq!(val(&e, &mut g), Value::Bool(expected[0]));

    p2.set(&mut g, Value::Int(2));
    assert_eq!(val(&e, &mut g), Value::Bool(expected[1]));

    p1.set(&mut g, Value::Int(3));
    assert_eq!(val(&e, &mut g), Value::Bool(expected[2]));

    p2.set(&mut g, Value::Int(3));
    assert_eq!(val(&e, &mut g), Value::Bool(expected[3]));
}

fn check_val_cmp(make: fn(&mut Graph, pebl::graph::Operand, i64) -> Expression, expected: [bool; 3]) {
    let mut g = Graph::new();
    let p = Property::new(&mut g, Value::Int(1));
    let e = make(&mut g, p.operand(), 2);

    assert_eq!(val(&e, &mut g), Value::Bool(expected[0]));

    p.set(&mut g, Value::Int(3));
    assert_eq!(val(&e, &mut g), Value::Bool(expected[1]));

    p.set(&mut g, Value::Int(2));
    assert_eq!(val(&e, &mut g), Value::Bool(expected[2]));
}

#[test]
fn eq_expr_works() {
    check_binary_cmp(cmp::eq, [true, false, false, true]);
}

#[test]
fn eq_val_expr_works() {
    check_val_cmp(cmp::eq_val, [false, false, true]);
}

#[test]
fn ne_expr_works() {
    check_binary_cmp(cmp::ne, [false, true, true, false]);
}

#[test]
fn ne_val_expr_works() {
    check_val_cmp(cmp::ne_val, [true, true, false]);
}

#[test]
fn gt_expr_works() {
    check_binary_cmp(cmp::gt, [false, false, true, false]);
}

#[test]
fn gt_val_expr_works() {
    check_val_cmp(cmp::gt_val, [false, true, false]);
}

#[test]
fn lt_expr_works() {
    check_binary_cmp(cmp::lt, [false, true, false, false]);
}

#[test]
fn lt_val_expr_works() {
    check_val_cmp(cmp::lt_val, [true, false, false]);
}

#[test]
fn gte_expr_works() {
    check_binary_cmp(cmp::gte, [true, false, true, true]);
}

#[test]
fn gte_val_expr_works() {
    check_val_cmp(cmp::gte_val, [false, true, true]);
}

#[test]
fn lte_expr_works() {
    check_binary_cmp(cmp::lte, [true, true, false, true]);
}

#[test]
fn lte_val_expr_works() {
    check_val_cmp(cmp::lte_val, [true, false, true]);
}

#[test]
fn is_empty_works() {
    let mut g = Graph::new();
    let p = Property::new(&mut g, Value::text(""));

    let e = text::is_empty(&mut g, p.operand());
    assert_eq!(val(&e, &mut g), Value::Bool(true));

    p.set(&mut g, Value::text("Hello"));
    assert_eq!(val(&e, &mut g), Value::Bool(false));

    p.clear(&mut g);
    assert_eq!(val(&e, &mut g), Value::Bool(true));
}

#[test]
fn len_expr_works() {
    let mut g = Graph::new();
    let p = Property::new(&mut g, Value::text(""));

    let e = text::len(&mut g, p.operand());
    assert_eq!(val(&e, &mut g), Value::Int(0));

    p.set(&mut g, Value::text("Hello"));
    assert_eq!(val(&e, &mut g), Value::Int(5));
}

#[test]
fn to_string_expr_works() {
    let mut g = Graph::new();
    let p_int = Property::new(&mut g, Value::Int(10));

    let e = text::to_string(&mut g, p_int.operand());
    assert_eq!(val(&e, &mut g), Value::text("10"));

    p_int.set(&mut g, Value::Int(-123));
    assert_eq!(val(&e, &mut g), Value::text("-123"));

    let p_bool = Property::new(&mut g, Value::Bool(true));

    let e = text::to_string(&mut g, p_bool.operand());
    assert_eq!(val(&e, &mut g), Value::text("true"));

    p_bool.set(&mut g, Value::Bool(false));
    assert_eq!(val(&e, &mut g), Value::text("false"));
}

#[test]
fn trim_expr_works() {
    let mut g = Graph::new();
    let p = Property::new(&mut g, Value::text("Hello"));

    let e = text::trim(&mut g, p.operand());
    assert_eq!(val(&e, &mut g), Value::text("Hello"));

    p.set(&mut g, Value::text("   Hello"));
    assert_eq!(val(&e, &mut g), Value::text("Hello"));

    p.set(&mut g, Value::text("Hello   "));
    assert_eq!(val(&e, &mut g), Value::text("Hello"));

    p.set(&mut g, Value::text("   Hello   "));
    assert_eq!(val(&e, &mut g), Value::text("Hello"));
}

#[test]
fn sum_treats_a_vanished_addend_as_zero() {
    let mut g = Graph::new();
    let a = Observable::new(&mut g, Value::Int(10));
    let b = Observable::new(&mut g, Value::Int(20));
    let c = Observable::new(&mut g, Value::Int(30));
    let targets = vec![ObservablePtr::new(&a), ObservablePtr::new(&b), ObservablePtr::new(&c)];
    let sum = expr::sum(&mut g, &targets);
    assert_eq!(val(&sum, &mut g), Value::Int(60));

    b.destroy(&mut g);
    assert_eq!(val(&sum, &mut g), Value::Int(40));
}

#[test]
fn sum_follows_its_cells_end_to_end() {
    let mut g = Graph::new();
    let a = Observable::new(&mut g, Value::Int(1));
    let b = Observable::new(&mut g, Value::Int(10));
    let c = Observable::new(&mut g, Value::Int(100));
    let targets = vec![ObservablePtr::new(&a), ObservablePtr::new(&b), ObservablePtr::new(&c)];
    let sum = expr::sum(&mut g, &targets);
    assert_eq!(val(&sum, &mut g), Value::Int(111));

    a.set(&mut g, Value::Int(3));
    assert_eq!(val(&sum, &mut g), Value::Int(113));

    b.set(&mut g, Value::Int(30));
    assert_eq!(val(&sum, &mut g), Value::Int(133));
}

#[test]
fn reading_twice_gives_the_same_value_without_recomputing() {
    let mut g = Graph::new();
    let a = Observable::new(&mut g, Value::Int(4));
    let e = math::neg(&mut g, a.operand());
    a.set(&mut g, Value::Int(5));
    assert!(g.node_is_dirty(e.node));
    let first = val(&e, &mut g);
    assert!(!g.node_is_dirty(e.node));
    let second = val(&e, &mut g);
    assert_eq!(first, Value::Int(-5));
    assert_eq!(first, second);
    assert!(!g.node_is_dirty(e.node));
}

#[test]
fn skipped_reads_do_not_matter() {
    let mut g = Graph::new();
    let a = Observable::new(&mut g, Value::Int(1));
    let b = Observable::new(&mut g, Value::Int(2));
    let e = math::times(&mut g, a.operand(), b.operand());
    a.set(&mut g, Value::Int(3));
    a.set(&mut g, Value::Int(4));
    b.set(&mut g, Value::Int(5));
    assert_eq!(val(&e, &mut g), Value::Int(20));
}

#[test]
fn all_and_to_text_resolve_vanished_operands() {
    let mut g = Graph::new();
    let a = Observable::new(&mut g, Value::Bool(true));
    let b = Observable::new(&mut g, Value::Bool(false));
    let all = expr::and(&mut g, &vec![ObservablePtr::new(&a), ObservablePtr::new(&b)]);
    let shown = expr::to_string(&mut g, &ObservablePtr::new(&a));
    assert_eq!(val(&all, &mut g), Value::Bool(false));
    assert_eq!(val(&shown, &mut g), Value::text("true"));

    b.destroy(&mut g);
    assert_eq!(val(&all, &mut g), Value::Bool(true));

    a.destroy(&mut g);
    assert_eq!(val(&all, &mut g), Value::Bool(false));
    assert_eq!(val(&shown, &mut g), Value::text(""));
}

#[test]
fn binary_with_a_vanished_operand_uses_its_neutral_element() {
    let mut g = Graph::new();
    let a = Observable::new(&mut g, Value::Int(1));
    let b = Observable::new(&mut g, Value::Int(2));
    let e = math::plus(&mut g, a.operand(), b.operand());
    let t = math::times(&mut g, a.operand(), b.operand());
    let c = cmp::lt(&mut g, a.operand(), b.operand());
    let x = Observable::new(&mut g, Value::Bool(false));
    let y = Observable::new(&mut g, Value::Bool(true));
    let both = logic::and(&mut g, x.operand(), y.operand());
    let either = logic::or(&mut g, x.operand(), y.operand());
    assert_eq!(e.get(&mut g), Some(Value::Int(3)));
    a.destroy(&mut g);
    assert_eq!(e.get(&mut g), Some(Value::Int(2)));
    assert_eq!(t.get(&mut g), Some(Value::Int(2)));
    assert_eq!(c.get(&mut g), None);
    b.destroy(&mut g);
    assert_eq!(e.get(&mut g), Some(Value::Int(0)));
    assert_eq!(t.get(&mut g), Some(Value::Int(1)));
    assert_eq!(both.get(&mut g), Some(Value::Bool(false)));
    x.destroy(&mut g);
    assert_eq!(both.get(&mut g), Some(Value::Bool(true)));
    assert_eq!(either.get(&mut g), Some(Value::Bool(true)));
    y.destroy(&mut g);
    assert_eq!(both.get(&mut g), Some(Value::Bool(false)));
    assert_eq!(either.get(&mut g), Some(Value::Bool(false)));
}

#[test]
fn new_unary_and_wrapping_arithmetic() {
    let mut g = Graph::new();
    let a = Observable::new(&mut g, Value::Int(i64::MAX));
    let one = Observable::new(&mut g, Value::Int(1));
    let e = Expression::new_unary(&mut g, a.operand(), UnOp::Identity);
    assert_eq!(val(&e, &mut g), Value::Int(i64::MAX));
    let s = math::plus(&mut g, a.operand(), one.operand());
    assert_eq!(val(&s, &mut g), Value::Int(i64::MIN));
    a.set(&mut g, Value::Int(i64::MIN));
    let m = math::abs(&mut g, a.operand());
    assert_eq!(val(&m, &mut g), Value::Int(i64::MIN));
}

#[test]
fn empty_sum_and_empty_all() {
    let mut g = Graph::new();
    let none: Vec<ObservablePtr> = Vec::new();
    let s = expr::sum(&mut g, &none);
    let a = expr::and(&mut g, &none);
    assert_eq!(val(&s, &mut g), Value::Int(0));
    assert_eq!(val(&a, &mut g), Value::Bool(false));
}

#[test]
fn mismatched_kinds_give_no_value() {
    let mut g = Graph::new();
    let t = Observable::new(&mut g, Value::text("x"));
    let n = Observable::new(&mut g, Value::Int(1));
    let e = math::plus(&mut g, t.operand(), n.operand());
    assert_eq!(e.get(&mut g), None);
    let eq = cmp::eq(&mut g, t.operand(), n.operand());
    assert_eq!(eq.get(&mut g), Some(Value::Bool(false)));
    let len = text::len(&mut g, n.operand());
    assert_eq!(len.get(&mut g), None);
}

#[test]
fn text_length_counts_utf8_bytes() {
    let mut g = Graph::new();
    let t = Observable::new(&mut g, Value::text("héllo"));
    let e = text::len(&mut g, t.operand());
    assert_eq!(val(&e, &mut g), Value::Int(6));
    let c = text::concat(&mut g, t.operand(), t.operand());
    assert_eq!(val(&c, &mut g), Value::text("héllohéllo"));
}
