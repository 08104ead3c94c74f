//! The outcome of a three-way comparison, and the byte-wise order on byte
//! strings.

use vstd::prelude::*;

verus! {

/// How one value stands to another in an order.
#[derive(Debug, Clone, Copy, PartialEq, Eq, Structural)]
pub enum Order {
    Less,
    Equal,
    Greater,
}

impl Order {
    /// The outcome of the comparison with the two sides exchanged.
    pub open spec fn spec_reversed(self) -> Order {
        match self {
            Order::Less => Order::Greater,
            Order::Equal => Order::Equal,
            Order::Greater => Order::Less,
        }
    }

    /// The outcome of the comparison with the two sides exchanged.
    pub fn reversed(self) -> (r: Order)
        ensures
            r == self.spec_reversed(),
    {
        match self {
            Order::Less => Order::Greater,
            Order::Equal => Order::Equal,
            Order::Greater => Order::Less,
        }
    }
}

/// How the number `a` stands to the number `b`.
pub open spec fn order_of(a: int, b: int) -> Order {
    if a < b {
        Order::Less
    } else if a == b {
        Order::Equal
    } else {
        Order::Greater
    }
}

/// How `a` stands to `b` byte by byte from index `i` on, the bytes before
/// being equal: the first difference decides, and a proper prefix is less.
pub open spec fn bytes_order_from(a: Seq<u8>, b: Seq<u8>, i: int) -> Order
    decreases a.len() - i,
{
    if i >= a.len() || i >= b.len() {
        order_of(a.len() as int, b.len() as int)
    } else if a[i] != b[i] {
        order_of(a[i] as int, b[i] as int)
    } else {
        bytes_order_from(a, b, i + 1)
    }
}

/// How `a` stands to `b` in the byte-wise lexicographic order.
pub open spec fn bytes_order(a: Seq<u8>, b: Seq<u8>) -> Order {
    bytes_order_from(a, b, 0)
}

/// Compares two byte strings byte by byte.
pub fn compare_bytes(a: &[u8], b: &[u8]) -> (r: Order)
    ensures
        r == bytes_order(a@, b@),
{
    let mut i: usize = 0;
    while i < a.len() && i < b.len()
        invariant
            i <= a@.len(),
            i <= b@.len(),
            bytes_order(a@, b@) == bytes_order_from(a@, b@, i as int),
        decreases a@.len() - i,
    {
        if a[i] < b[i] {
            return Order::Less;
        }
        if a[i] > b[i] {
            return Order::Greater;
        }
        i += 1;
    }
    if a.len() < b.len() {
        Order::Less
    } else if a.len() == b.len() {
        Order::Equal
    } else {
        Order::Greater
    }
}

/// Byte strings that compare equal from `i` on, and agree before `i`, are
/// the same.
pub proof fn lemma_bytes_order_equal(a: Seq<u8>, b: Seq<u8>, i: int)
    requires
        0 <= i,
        i <= a.len(),
        i <= b.len(),
        forall|j: int| 0 <= j < i ==> a[j] == b[j],
    ensures
        bytes_order_from(a, b, i) == Order::Equal <==> a == b,
    decreases a.len() - i,
{
    if i >= a.len() || i >= b.len() {
        if a.len() == b.len() {
            assert(a =~= b);
        }
    } else if a[i] == b[i] {
        lemma_bytes_order_equal(a, b, i + 1);
    }
}

/// Exchanging the sides reverses the outcome.
pub proof fn lemma_bytes_order_reversed(a: Seq<u8>, b: Seq<u8>, i: int)
    requires
        0 <= i,
    ensures
        bytes_order_from(b, a, i) == bytes_order_from(a, b, i).spec_reversed(),
    decreases a.len() - i,
{
    if i < a.len() && i < b.len() && a[i] == b[i] {
        lemma_bytes_order_reversed(a, b, i + 1);
    }
}

/// The order is transitive: from `a <= b` and `b <= c` follows `a <= c`,
/// strictly where one of the two is strict.
pub proof fn lemma_bytes_order_transitive(a: Seq<u8>, b: Seq<u8>, c: Seq<u8>, i: int)
    requires
        0 <= i,
        bytes_order_from(a, b, i) != Order::Greater,
        bytes_order_from(b, c, i) != Order::Greater,
    ensures
        bytes_order_from(a, c, i) != Order::Greater,
        bytes_order_from(a, b, i) == Order::Less || bytes_order_from(b, c, i) == Order::Less
            ==> bytes_order_from(a, c, i) == Order::Less,
    decreases a.len() - i,
{
    if i < a.len() && i < b.len() && i < c.len() && a[i] == b[i] && b[i] == c[i] {
        lemma_bytes_order_transitive(a, b, c, i + 1);
    }
}

} // verus!
