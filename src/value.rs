use vstd::prelude::*;

verus! {

/// What a cell holds: an integer, a truth value or a piece of text.
#[derive(Debug)]
pub enum Value {
    Int(i64),
    Bool(bool),
    Text(String),
}

/// The mathematical content of a `Value`.
pub enum ValueModel {
    Int(i64),
    Bool(bool),
    Text(Seq<char>),
}

impl View for Value {
    type V = ValueModel;

    open spec fn view(&self) -> ValueModel {
        match self {
            Value::Int(i) => ValueModel::Int(*i),
            Value::Bool(b) => ValueModel::Bool(*b),
            Value::Text(s) => ValueModel::Text(s@),
        }
    }
}

/// The ten decimal digits, in order.
pub open spec fn digit_chars() -> Seq<char> {
    seq!['0', '1', '2', '3', '4', '5', '6', '7', '8', '9']
}

/// The decimal digits of a natural number, most significant first.
pub open spec fn digits_of(n: nat) -> Seq<char>
    decreases n,
{
    if n < 10 {
        seq![digit_chars()[n as int]]
    } else {
        digits_of(n / 10).push(digit_chars()[(n % 10) as int])
    }
}

/// The usual decimal rendering of an integer, with a leading `-` when negative.
pub open spec fn decimal_of(i: int) -> Seq<char> {
    if i < 0 {
        seq!['-'] + digits_of((-i) as nat)
    } else {
        digits_of(i as nat)
    }
}

/// The text of a truth value.
pub open spec fn bool_text(b: bool) -> Seq<char> {
    if b {
        seq!['t', 'r', 'u', 'e']
    } else {
        seq!['f', 'a', 'l', 's', 'e']
    }
}

/// What `str::trim` leaves of a text: it removes leading and trailing white space.
pub uninterp spec fn trim_of(s: Seq<char>) -> Seq<char>;

/// Relies on `i64::to_string` (through `Display`): the decimal rendering of the integer.
#[verifier::external_body]
pub(crate) fn int_to_text(i: i64) -> (r: String)
    ensures
        r@ == decimal_of(i as int),
{
    i.to_string()
}

/// Relies on `str::trim`: the text without its leading and trailing white space.
#[verifier::external_body]
pub(crate) fn trim_text(s: &String) -> (r: String)
    ensures
        r@ == trim_of(s@),
{
    String::from(s.trim())
}

impl Value {
    /// A copy of this value, with the same content.
    pub fn duplicate(&self) -> (r: Value)
        ensures
            r@ == self@,
    {
        match self {
            Value::Int(i) => Value::Int(*i),
            Value::Bool(b) => Value::Bool(*b),
            Value::Text(s) => Value::Text(s.clone()),
        }
    }

    /// Whether two values have the same content.
    pub fn same_as(&self, other: &Value) -> (r: bool)
        ensures
            r == (self@ == other@),
    {
        match (self, other) {
            (Value::Int(a), Value::Int(b)) => *a == *b,
            (Value::Bool(a), Value::Bool(b)) => *a == *b,
            (Value::Text(a), Value::Text(b)) => {
                let r = *a == *b;
                r
            },
            _ => false,
        }
    }

    /// Build a text value from a string slice.
    pub fn text(s: &str) -> (r: Value)
        ensures
            r@ == ValueModel::Text(s@),
    {
        Value::Text(s.to_owned())
    }
}

impl PartialEq for Value {
    fn eq(&self, other: &Value) -> (r: bool) {
        self.same_as(other)
    }
}

impl vstd::std_specs::cmp::PartialEqSpecImpl for Value {
    open spec fn obeys_eq_spec() -> bool {
        true
    }

    open spec fn eq_spec(&self, other: &Value) -> bool {
        self@ == other@
    }
}

} // verus!
