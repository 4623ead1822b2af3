//! The combining functions of derived expressions, and how each one treats an
//! operand whose source has vanished.
use vstd::prelude::*;
use vstd::utf8::encode_utf8;
use crate::value::{bool_text, decimal_of, int_to_text, trim_of, trim_text, Value, ValueModel};

verus! {

/// A comparison between two integers.
#[derive(Clone, Copy, Debug, PartialEq, Eq, Structural)]
pub enum Cmp {
    Eq,
    Ne,
    Gt,
    Lt,
    Gte,
    Lte,
}

/// A function of one operand. An absent operand gives an absent result, and so
/// does an operand of the wrong kind.
#[derive(Clone, Copy, Debug, PartialEq, Eq, Structural)]
pub enum UnOp {
    Not,
    Abs,
    Neg,
    Len,
    IsEmpty,
    Trim,
    Format,
    Lowercase,
    Identity,
    CmpVal(Cmp, i64),
}

/// A function of two operands. Each resolves a vanished operand by a rule of
/// its own, by treating it as its neutral element:
/// - `Plus` counts a vanished addend as 0, `Times` a vanished factor as 1;
/// - `And` leaves a vanished operand out, `Or` counts it as false, and with
///   both operands gone each gives false;
/// - `Concat` reads a vanished text as empty;
/// - `Compare` has nothing to compare with, and gives no value.
///
/// Operands of the wrong kind give no value.
#[derive(Clone, Copy, Debug, PartialEq, Eq, Structural)]
pub enum BinOp {
    And,
    Or,
    Plus,
    Times,
    Concat,
    Compare(Cmp),
}

/// How a derived expression combines its operands.
///
/// `Sum`, `All` and `ToText` range over cells, and each resolves a vanished
/// operand by a rule of its own: `Sum` counts it as 0, `All` leaves it out
/// (with nothing left it gives false), and `ToText` renders it as empty text.
#[derive(Clone, Copy, Debug, PartialEq, Eq, Structural)]
pub enum Op {
    Sum,
    All,
    ToText,
    Unary(UnOp),
    Binary(BinOp),
}

pub open spec fn cmp_holds(c: Cmp, a: int, b: int) -> bool {
    match c {
        Cmp::Eq => a == b,
        Cmp::Ne => a != b,
        Cmp::Gt => a > b,
        Cmp::Lt => a < b,
        Cmp::Gte => a >= b,
        Cmp::Lte => a <= b,
    }
}

/// What `str::to_lowercase` gives for a text.
pub uninterp spec fn lower_of(s: Seq<char>) -> Seq<char>;

/// The text that `Display` writes for a value.
pub open spec fn text_of(v: ValueModel) -> Seq<char> {
    match v {
        ValueModel::Int(i) => decimal_of(i as int),
        ValueModel::Bool(b) => bool_text(b),
        ValueModel::Text(s) => s,
    }
}

pub open spec fn eval_unary(u: UnOp, a: Option<ValueModel>) -> Option<ValueModel> {
    match a {
        None => None,
        Some(v) => match (u, v) {
            (UnOp::Not, ValueModel::Bool(b)) => Some(ValueModel::Bool(!b)),
            (UnOp::Abs, ValueModel::Int(i)) => Some(
                ValueModel::Int(
                    if i >= 0 {
                        i
                    } else {
                        0i64.wrapping_sub(i)
                    },
                ),
            ),
            (UnOp::Neg, ValueModel::Int(i)) => Some(ValueModel::Int(0i64.wrapping_sub(i))),
            (UnOp::Len, ValueModel::Text(s)) => Some(ValueModel::Int(#[verifier::truncate] ((encode_utf8(s).len() as usize) as i64))),
            (UnOp::IsEmpty, ValueModel::Text(s)) => Some(ValueModel::Bool(s.len() == 0)),
            (UnOp::Trim, ValueModel::Text(s)) => Some(ValueModel::Text(trim_of(s))),
            (UnOp::Format, v) => Some(ValueModel::Text(text_of(v))),
            (UnOp::Lowercase, ValueModel::Text(s)) => Some(ValueModel::Text(lower_of(s))),
            (UnOp::Identity, v) => Some(v),
            (UnOp::CmpVal(c, k), ValueModel::Int(i)) => Some(
                ValueModel::Bool(cmp_holds(c, i as int, k as int)),
            ),
            _ => None,
        },
    }
}

/// What a binary function gives when only one of its operands, `v`, is there.
pub open spec fn eval_binary_one(b: BinOp, v: ValueModel) -> Option<ValueModel> {
    match (b, v) {
        (BinOp::And, ValueModel::Bool(p)) => Some(ValueModel::Bool(p)),
        (BinOp::Or, ValueModel::Bool(p)) => Some(ValueModel::Bool(p)),
        (BinOp::Plus, ValueModel::Int(i)) => Some(ValueModel::Int(i)),
        (BinOp::Times, ValueModel::Int(i)) => Some(ValueModel::Int(i)),
        (BinOp::Concat, ValueModel::Text(s)) => Some(ValueModel::Text(s)),
        _ => None,
    }
}

/// What a binary function gives when both of its operands are gone.
pub open spec fn eval_binary_none(b: BinOp) -> Option<ValueModel> {
    match b {
        BinOp::And => Some(ValueModel::Bool(false)),
        BinOp::Or => Some(ValueModel::Bool(false)),
        BinOp::Plus => Some(ValueModel::Int(0)),
        BinOp::Times => Some(ValueModel::Int(1)),
        BinOp::Concat => Some(ValueModel::Text(Seq::empty())),
        BinOp::Compare(_) => None,
    }
}

pub open spec fn eval_binary(b: BinOp, x: Option<ValueModel>, y: Option<ValueModel>) -> Option<
    ValueModel,
> {
    match (x, y) {
        (Some(l), Some(r)) => match (b, l, r) {
            (BinOp::And, ValueModel::Bool(p), ValueModel::Bool(q)) => Some(ValueModel::Bool(p && q)),
            (BinOp::Or, ValueModel::Bool(p), ValueModel::Bool(q)) => Some(ValueModel::Bool(p || q)),
            (BinOp::Plus, ValueModel::Int(i), ValueModel::Int(j)) => Some(
                ValueModel::Int(i.wrapping_add(j)),
            ),
            (BinOp::Times, ValueModel::Int(i), ValueModel::Int(j)) => Some(
                ValueModel::Int(i.wrapping_mul(j)),
            ),
            (BinOp::Concat, ValueModel::Text(s), ValueModel::Text(t)) => Some(
                ValueModel::Text(s + t),
            ),
            (BinOp::Compare(Cmp::Eq), l, r) => Some(ValueModel::Bool(l == r)),
            (BinOp::Compare(Cmp::Ne), l, r) => Some(ValueModel::Bool(l != r)),
            (BinOp::Compare(c), ValueModel::Int(i), ValueModel::Int(j)) => Some(
                ValueModel::Bool(cmp_holds(c, i as int, j as int)),
            ),
            _ => None,
        },
        (Some(l), None) => eval_binary_one(b, l),
        (None, Some(r)) => eval_binary_one(b, r),
        (None, None) => eval_binary_none(b),
    }
}

/// The integer an operand adds to a sum: a vanished operand, or one that holds
/// no integer, adds 0.
pub open spec fn addend(a: Option<ValueModel>) -> i64 {
    match a {
        Some(ValueModel::Int(i)) => i,
        _ => 0,
    }
}

/// The wrapping sum of the operands, in order.
pub open spec fn sum_of(args: Seq<Option<ValueModel>>) -> i64
    decreases args.len(),
{
    if args.len() == 0 {
        0
    } else {
        sum_of(args.drop_last()).wrapping_add(addend(args.last()))
    }
}

/// Whether some operand is still there.
pub open spec fn any_present(args: Seq<Option<ValueModel>>) -> bool {
    exists|k: int| 0 <= k < args.len() && args[k] is Some
}

/// Whether every operand that is still there holds `true`.
pub open spec fn all_present_true(args: Seq<Option<ValueModel>>) -> bool {
    forall|k: int| 0 <= k < args.len() && args[k] is Some ==> args[k] == Some(ValueModel::Bool(true))
}

/// The result of combining the operand values `args` by `op`.
pub open spec fn eval(op: Op, args: Seq<Option<ValueModel>>) -> Option<ValueModel> {
    match op {
        Op::Sum => Some(ValueModel::Int(sum_of(args))),
        Op::All => Some(ValueModel::Bool(any_present(args) && all_present_true(args))),
        Op::ToText => Some(
            ValueModel::Text(
                if args.len() > 0 && args[0] is Some {
                    text_of(args[0].unwrap())
                } else {
                    Seq::empty()
                },
            ),
        ),
        Op::Unary(u) => eval_unary(u, if args.len() > 0 { args[0] } else { None }),
        Op::Binary(b) => eval_binary(
            b,
            if args.len() > 0 { args[0] } else { None },
            if args.len() > 1 { args[1] } else { None },
        ),
    }
}

/// The view of an optional value.
pub open spec fn opt_view(a: Option<Value>) -> Option<ValueModel> {
    match a {
        Some(v) => Some(v@),
        None => None,
    }
}

/// The views of a sequence of optional values.
pub open spec fn opts_view(s: Seq<Option<Value>>) -> Seq<Option<ValueModel>> {
    s.map_values(|a: Option<Value>| opt_view(a))
}

/// Relies on `str::to_lowercase`: the lowercase form of a text.
#[verifier::external_body]
fn lowercase_text(s: &String) -> (r: String)
    ensures
        r@ == lower_of(s@),
{
    s.to_lowercase()
}

/// The text that a value displays as.
pub fn value_text(v: &Value) -> (r: String)
    ensures
        r@ == text_of(v@),
{
    match v {
        Value::Int(i) => int_to_text(*i),
        Value::Bool(b) => {
            if *b {
                proof {
                    reveal_strlit("true");
                }
                String::from_str("true")
            } else {
                proof {
                    reveal_strlit("false");
                }
                String::from_str("false")
            }
        },
        Value::Text(s) => s.clone(),
    }
}

fn cmp_ints(c: Cmp, a: i64, b: i64) -> (r: bool)
    ensures
        r == cmp_holds(c, a as int, b as int),
{
    match c {
        Cmp::Eq => a == b,
        Cmp::Ne => a != b,
        Cmp::Gt => a > b,
        Cmp::Lt => a < b,
        Cmp::Gte => a >= b,
        Cmp::Lte => a <= b,
    }
}

/// Apply a function of one operand.
pub fn apply_unary(u: UnOp, a: Option<&Value>) -> (r: Option<Value>)
    ensures
        opt_view(r) == eval_unary(
            u,
            match a {
                Some(v) => Some(v@),
                None => None,
            },
        ),
{
    match a {
        None => None,
        Some(v) => match (u, v) {
            (UnOp::Not, Value::Bool(b)) => Some(Value::Bool(!*b)),
            (UnOp::Abs, Value::Int(i)) => Some(
                Value::Int(
                    if *i >= 0 {
                        *i
                    } else {
                        0i64.wrapping_sub(*i)
                    },
                ),
            ),
            (UnOp::Neg, Value::Int(i)) => Some(Value::Int(0i64.wrapping_sub(*i))),
            (UnOp::Len, Value::Text(s)) => Some(Value::Int(#[verifier::truncate] (s.as_str().len() as i64))),
            (UnOp::IsEmpty, Value::Text(s)) => Some(Value::Bool(s.as_str().is_empty())),
            (UnOp::Trim, Value::Text(s)) => Some(Value::Text(trim_text(s))),
            (UnOp::Format, v) => Some(Value::Text(value_text(v))),
            (UnOp::Lowercase, Value::Text(s)) => Some(Value::Text(lowercase_text(s))),
            (UnOp::Identity, v) => Some(v.duplicate()),
            (UnOp::CmpVal(c, k), Value::Int(i)) => Some(Value::Bool(cmp_ints(c, *i, k))),
            _ => None,
        },
    }
}

/// Apply a function of two operands.
pub fn apply_binary(b: BinOp, x: Option<&Value>, y: Option<&Value>) -> (r: Option<Value>)
    ensures
        opt_view(r) == eval_binary(
            b,
            match x {
                Some(v) => Some(v@),
                None => None,
            },
            match y {
                Some(v) => Some(v@),
                None => None,
            },
        ),
{
    match (x, y) {
        (Some(l), Some(r)) => match (b, l, r) {
            (BinOp::And, Value::Bool(p), Value::Bool(q)) => Some(Value::Bool(*p && *q)),
            (BinOp::Or, Value::Bool(p), Value::Bool(q)) => Some(Value::Bool(*p || *q)),
            (BinOp::Plus, Value::Int(i), Value::Int(j)) => Some(Value::Int(i.wrapping_add(*j))),
            (BinOp::Times, Value::Int(i), Value::Int(j)) => Some(Value::Int(i.wrapping_mul(*j))),
            (BinOp::Concat, Value::Text(s), Value::Text(t)) => {
                let mut joined = s.clone();
                joined.append(t.as_str());
                Some(Value::Text(joined))
            },
            (BinOp::Compare(Cmp::Eq), l, r) => Some(Value::Bool(l.same_as(r))),
            (BinOp::Compare(Cmp::Ne), l, r) => Some(Value::Bool(!l.same_as(r))),
            (BinOp::Compare(c), Value::Int(i), Value::Int(j)) => Some(Value::Bool(cmp_ints(c, *i, *j))),
            _ => None,
        },
        (Some(v), None) => apply_binary_one(b, v),
        (None, Some(v)) => apply_binary_one(b, v),
        (None, None) => match b {
            BinOp::And => Some(Value::Bool(false)),
            BinOp::Or => Some(Value::Bool(false)),
            BinOp::Plus => Some(Value::Int(0)),
            BinOp::Times => Some(Value::Int(1)),
            BinOp::Concat => Some(Value::Text(String::new())),
            BinOp::Compare(_) => None,
        },
    }
}

fn apply_binary_one(b: BinOp, v: &Value) -> (r: Option<Value>)
    ensures
        opt_view(r) == eval_binary_one(b, v@),
{
    match (b, v) {
        (BinOp::And, Value::Bool(p)) => Some(Value::Bool(*p)),
        (BinOp::Or, Value::Bool(p)) => Some(Value::Bool(*p)),
        (BinOp::Plus, Value::Int(i)) => Some(Value::Int(*i)),
        (BinOp::Times, Value::Int(i)) => Some(Value::Int(*i)),
        (BinOp::Concat, Value::Text(s)) => Some(Value::Text(s.clone())),
        _ => None,
    }
}

fn opt_ref(a: &Option<Value>) -> (r: Option<&Value>)
    ensures
        match r {
            Some(v) => Some(v@),
            None => None::<ValueModel>,
        } == opt_view(*a),
{
    match a {
        Some(v) => Some(v),
        None => None,
    }
}

/// Combine the operand values `args` by `op`.
pub fn apply(op: Op, args: &Vec<Option<Value>>) -> (r: Option<Value>)
    ensures
        opt_view(r) == eval(op, opts_view(args@)),
{
    let ghost m = opts_view(args@);
    match op {
        Op::Sum => {
            let mut total: i64 = 0;
            let mut i: usize = 0;
            while i < args.len()
                invariant
                    i <= args.len(),
                    m == opts_view(args@),
                    total == sum_of(m.take(i as int)),
                decreases args.len() - i,
            {
                let add: i64 = match &args[i] {
                    Some(Value::Int(v)) => *v,
                    _ => 0,
                };
                proof {
                    assert(m.take(i + 1).drop_last() =~= m.take(i as int));
                    assert(m.take(i + 1).last() == m[i as int]);
                }
                total = total.wrapping_add(add);
                i = i + 1;
            }
            proof {
                assert(m.take(m.len() as int) =~= m);
            }
            Some(Value::Int(total))
        },
        Op::All => {
            let mut present = false;
            let mut all_true = true;
            let mut i: usize = 0;
            while i < args.len()
                invariant
                    i <= args.len(),
                    m == opts_view(args@),
                    present == any_present(m.take(i as int)),
                    all_true == all_present_true(m.take(i as int)),
                decreases args.len() - i,
            {
                proof {
                    assert(m.take(i + 1) =~= m.take(i as int).push(m[i as int]));
                }
                match &args[i] {
                    Some(v) => {
                        present = true;
                        match v {
                            Value::Bool(true) => {},
                            _ => {
                                all_true = false;
                            },
                        }
                        proof {
                            assert(m.take(i + 1)[i as int] is Some);
                        }
                    },
                    None => {},
                }
                proof {
                    if !all_true {
                        assert(!all_present_true(m.take(i + 1)));
                    }
                    if present {
                        assert(any_present(m.take(i + 1)) == true) by {
                            if args@[i as int] is Some {
                                assert(m.take(i + 1)[i as int] is Some);
                            } else {
                                let k = choose|k: int| 0 <= k < i && m.take(i as int)[k] is Some;
                                assert(m.take(i + 1)[k] is Some);
                            }
                        }
                    }
                }
                i = i + 1;
            }
            proof {
                assert(m.take(m.len() as int) =~= m);
            }
            Some(Value::Bool(present && all_true))
        },
        Op::ToText => {
            if args.len() > 0 {
                match &args[0] {
                    Some(v) => Some(Value::Text(value_text(v))),
                    None => Some(Value::Text(String::new())),
                }
            } else {
                Some(Value::Text(String::new()))
            }
        },
        Op::Unary(u) => {
            if args.len() > 0 {
                apply_unary(u, opt_ref(&args[0]))
            } else {
                apply_unary(u, None)
            }
        },
        Op::Binary(b) => {
            let x = if args.len() > 0 {
                opt_ref(&args[0])
            } else {
                None
            };
            let y = if args.len() > 1 {
                opt_ref(&args[1])
            } else {
                None
            };
            apply_binary(b, x, y)
        },
    }
}

} // verus!
