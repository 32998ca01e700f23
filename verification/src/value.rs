//! Front matter values: what JSON can say.

use vstd::prelude::*;

verus! {

/// A value of front matter.
#[derive(Debug, PartialEq, Eq)]
pub enum Value {
    Null,
    Bool(bool),
    Int(i64),
    /// A number with a point or an exponent, as JSON prints it.
    Decimal(String),
    Text(String),
    List(Vec<Value>),
    /// Members sorted by key, no key twice.
    Object(Vec<(String, Value)>),
}

/// A value as a mathematical value.
#[verifier::ext_equal]
pub enum Data {
    Null,
    Bool(bool),
    Int(int),
    Decimal(Seq<char>),
    Text(Seq<char>),
    List(Seq<Data>),
    Object(Seq<(Seq<char>, Data)>),
}

/// The values `v` hold the data `d`.
pub open spec fn holds(v: Value, d: Data) -> bool
    decreases v,
{
    match (v, d) {
        (Value::Null, Data::Null) => true,
        (Value::Bool(a), Data::Bool(b)) => a == b,
        (Value::Int(a), Data::Int(b)) => a == b,
        (Value::Decimal(a), Data::Decimal(b)) => a@ == b,
        (Value::Text(a), Data::Text(b)) => a@ == b,
        (Value::List(a), Data::List(b)) => {
            &&& a@.len() == b.len()
            &&& forall|i: int| #![trigger a@[i]] 0 <= i < a@.len() ==> holds(a@[i], b[i])
        },
        (Value::Object(a), Data::Object(b)) => {
            &&& a@.len() == b.len()
            &&& forall|i: int| #![trigger a@[i]] 0 <= i < a@.len() ==> a@[i].0@ == b[i].0 && holds(a@[i].1, b[i].1)
        },
        _ => false,
    }
}


/// Every value holds some data, so what is said of the data a value holds is said of every value.
pub proof fn law_value_holds_data(v: Value)
    ensures
        exists|d: Data| holds(v, d),
    decreases v,
{
    match v {
        Value::Null => {
            assert(holds(v, Data::Null));
        },
        Value::Bool(b) => {
            assert(holds(v, Data::Bool(b)));
        },
        Value::Int(n) => {
            assert(holds(v, Data::Int(n as int)));
        },
        Value::Decimal(s) => {
            assert(holds(v, Data::Decimal(s@)));
        },
        Value::Text(s) => {
            assert(holds(v, Data::Text(s@)));
        },
        Value::List(a) => {
            assert forall|i: int| 0 <= i < a@.len() implies exists|d: Data| holds(#[trigger] a@[i], d) by {
                assert(decreases_to!(a => a@[i]));
                law_value_holds_data(a@[i]);
            }
            let s = Seq::new(a@.len(), |i: int| choose|d: Data| holds(a@[i], d));
            assert(holds(v, Data::List(s)));
        },
        Value::Object(m) => {
            assert forall|i: int| 0 <= i < m@.len() implies exists|d: Data| holds((#[trigger] m@[i]).1, d) by {
                assert(decreases_to!(m => m@[i]));
                assert(decreases_to!(m@[i] => m@[i].1));
                law_value_holds_data(m@[i].1);
            }
            let s = Seq::new(m@.len(), |i: int| (m@[i].0@, choose|d: Data| holds(m@[i].1, d)));
            assert(holds(v, Data::Object(s)));
        },
    }
}

} // verus!
