//! The typed values that a record holds.

use crate::float::{compare_floats, compare_integer_float, float_key, integer_key};
use crate::order::{
    bytes_order,
    compare_bytes,
    lemma_bytes_order_equal,
    lemma_bytes_order_reversed,
    lemma_bytes_order_transitive,
    order_of,
    Order,
};
use vstd::prelude::*;
use vstd::utf8::encode_utf8;

verus! {

/// One value of a record.
#[derive(Debug, Clone, PartialEq)]
pub enum Data {
    Null,
    Integer(i64),
    /// A 64-bit IEEE 754 number, held as its bit pattern.
    Float(u64),
    Text(String),
    Blob(Vec<u8>),
}

/// What a [`Data`] stands for: the same value over mathematical sequences.
pub enum Value {
    Null,
    Integer(i64),
    Float(u64),
    Text(Seq<char>),
    Blob(Seq<u8>),
}

impl DeepView for Data {
    type V = Value;

    open spec fn deep_view(&self) -> Value {
        match self {
            Data::Null => Value::Null,
            Data::Integer(x) => Value::Integer(*x),
            Data::Float(bits) => Value::Float(*bits),
            Data::Text(s) => Value::Text(s@),
            Data::Blob(b) => Value::Blob(b@),
        }
    }
}

impl View for Data {
    type V = Value;

    open spec fn view(&self) -> Value {
        self.deep_view()
    }
}

impl Data {
    /// A copy of the value.
    pub fn duplicate(&self) -> (r: Data)
        ensures
            r@ == self@,
    {
        match self {
            Data::Null => Data::Null,
            Data::Integer(x) => Data::Integer(*x),
            Data::Float(bits) => Data::Float(*bits),
            Data::Text(s) => Data::Text(s.clone()),
            Data::Blob(b) => Data::Blob(b.clone()),
        }
    }
}

/// A copy of a list of values.
pub fn duplicate_all(values: &Vec<Data>) -> (r: Vec<Data>)
    ensures
        r.deep_view() == values.deep_view(),
{
    let mut out: Vec<Data> = Vec::new();
    let mut i: usize = 0;
    while i < values.len()
        invariant
            i <= values.len(),
            out.len() == i,
            forall|j: int| 0 <= j < i ==> out[j]@ == values[j]@,
        decreases values.len() - i,
    {
        out.push(values[i].duplicate());
        i += 1;
    }
    assert(out.deep_view() =~= values.deep_view());
    out
}

/// The rank of the class of a value: null, then numbers, then text, then
/// blobs.
pub open spec fn class_rank(v: Value) -> int {
    match v {
        Value::Null => 0,
        Value::Integer(_) => 1,
        Value::Float(_) => 1,
        Value::Text(_) => 2,
        Value::Blob(_) => 3,
    }
}

/// The key by which a number is ordered: its value times 2^1074.
pub open spec fn numeric_key(v: Value) -> int {
    match v {
        Value::Integer(x) => integer_key(x),
        Value::Float(bits) => float_key(bits),
        _ => 0,
    }
}

/// How `a` stands to `b` in the order of typed values: by class first;
/// within a class, numbers by value, text by the bytes of its UTF-8
/// encoding, and blobs by their bytes.
pub open spec fn value_order(a: Value, b: Value) -> Order {
    if class_rank(a) != class_rank(b) {
        order_of(class_rank(a), class_rank(b))
    } else {
        match (a, b) {
            (Value::Text(s), Value::Text(t)) => bytes_order(encode_utf8(s), encode_utf8(t)),
            (Value::Blob(x), Value::Blob(y)) => bytes_order(x, y),
            _ => order_of(numeric_key(a), numeric_key(b)),
        }
    }
}

impl Data {
    /// The rank of the class of the value.
    fn rank(&self) -> (r: u8)
        ensures
            r == class_rank(self@),
    {
        match self {
            Data::Null => 0,
            Data::Integer(_) => 1,
            Data::Float(_) => 1,
            Data::Text(_) => 2,
            Data::Blob(_) => 3,
        }
    }

    /// Compares two values in the order of typed values.
    pub fn compare(&self, other: &Data) -> (r: Order)
        ensures
            r == value_order(self@, other@),
    {
        let mine = self.rank();
        let theirs = other.rank();
        if mine < theirs {
            return Order::Less;
        }
        if mine > theirs {
            return Order::Greater;
        }
        match (self, other) {
            (Data::Text(s), Data::Text(t)) => compare_bytes(
                s.as_str().as_bytes(),
                t.as_str().as_bytes(),
            ),
            (Data::Blob(x), Data::Blob(y)) => compare_bytes(x.as_slice(), y.as_slice()),
            (Data::Integer(x), Data::Integer(y)) => {
                proof {
                    vstd::arithmetic::power2::lemma_pow2_pos(1074);
                    crate::float::lemma_scaled_order(
                        *x as int,
                        *y as int,
                        vstd::arithmetic::power2::pow2(1074) as int,
                    );
                }
                if *x < *y {
                    Order::Less
                } else if *x == *y {
                    Order::Equal
                } else {
                    Order::Greater
                }
            },
            (Data::Integer(x), Data::Float(y)) => compare_integer_float(*x, *y),
            (Data::Float(x), Data::Integer(y)) => compare_integer_float(*y, *x).reversed(),
            (Data::Float(x), Data::Float(y)) => compare_floats(*x, *y),
            _ => Order::Equal,
        }
    }

    /// Whether the value is the text `text`.
    pub fn is_text(&self, text: &str) -> (r: bool)
        ensures
            r == (self@ == Value::Text(text@)),
    {
        match self {
            Data::Text(s) => {
                let same = compare_bytes(s.as_str().as_bytes(), text.as_bytes());
                proof {
                    crate::order::lemma_bytes_order_equal(encode_utf8(s@), encode_utf8(text@), 0);
                    vstd::utf8::encode_utf8_decode_utf8(s@);
                    vstd::utf8::encode_utf8_decode_utf8(text@);
                }
                match same {
                    Order::Equal => true,
                    _ => false,
                }
            },
            _ => false,
        }
    }
}

/// Exchanging the two values reverses the outcome of their comparison.
pub proof fn lemma_value_order_reversed(a: Value, b: Value)
    ensures
        value_order(b, a) == value_order(a, b).spec_reversed(),
{
    match (a, b) {
        (Value::Text(s), Value::Text(t)) => {
            lemma_bytes_order_reversed(encode_utf8(s), encode_utf8(t), 0);
        },
        (Value::Blob(x), Value::Blob(y)) => {
            lemma_bytes_order_reversed(x, y, 0);
        },
        _ => {},
    }
}

/// The order of typed values is transitive: from `a` not greater than `b`
/// and `b` not greater than `c` follows `a` not greater than `c`, and `a`
/// less than `c` where one of the two is strict.
pub proof fn lemma_value_order_transitive(a: Value, b: Value, c: Value)
    requires
        value_order(a, b) != Order::Greater,
        value_order(b, c) != Order::Greater,
    ensures
        value_order(a, c) != Order::Greater,
        value_order(a, b) == Order::Less || value_order(b, c) == Order::Less ==> value_order(a, c)
            == Order::Less,
{
    if class_rank(a) == class_rank(b) && class_rank(b) == class_rank(c) {
        match (a, b, c) {
            (Value::Text(s), Value::Text(t), Value::Text(u)) => {
                lemma_bytes_order_transitive(encode_utf8(s), encode_utf8(t), encode_utf8(u), 0);
            },
            (Value::Blob(x), Value::Blob(y), Value::Blob(z)) => {
                lemma_bytes_order_transitive(x, y, z, 0);
            },
            _ => {},
        }
    }
}

/// Equality is structural: a value equals itself in the order, and values
/// that are equal in the order are the same value, unless one of them is a
/// float. A float equals the integer of its value, and the two zeros are
/// equal.
pub proof fn lemma_equal_in_order_is_same(a: Value, b: Value)
    ensures
        a == b ==> value_order(a, b) == Order::Equal,
        value_order(a, b) == Order::Equal && !(a is Float) && !(b is Float) ==> a == b,
{
    match (a, b) {
        (Value::Text(s), Value::Text(t)) => {
            lemma_bytes_order_equal(encode_utf8(s), encode_utf8(t), 0);
            vstd::utf8::encode_utf8_decode_utf8(s);
            vstd::utf8::encode_utf8_decode_utf8(t);
        },
        (Value::Blob(x), Value::Blob(y)) => {
            lemma_bytes_order_equal(x, y, 0);
        },
        (Value::Integer(x), Value::Integer(y)) => {
            vstd::arithmetic::power2::lemma_pow2_pos(1074);
            crate::float::lemma_scaled_order(
                x as int,
                y as int,
                vstd::arithmetic::power2::pow2(1074) as int,
            );
        },
        _ => {},
    }
}

} // verus!
