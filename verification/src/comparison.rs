//! The order of arrays.

use std::cmp::Ordering;
use vstd::prelude::*;

use crate::error::LimboError;
use crate::order::{self, Order};
use crate::record;
use crate::value::{self, Value, ValueModel};

verus! {

/// How two rows of values compare from a place on: as the first two values that
/// are not equal do, and by number where there are none.
pub open spec fn rows_order(s: Seq<ValueModel>, t: Seq<ValueModel>, from: int) -> Order
    decreases s.len() - from,
{
    if from < 0 || from >= s.len() || from >= t.len() {
        order::int_order(s.len() as int, t.len() as int)
    } else if value::value_order(s[from], t[from]) == Order::Equal {
        rows_order(s, t, from + 1)
    } else {
        value::value_order(s[from], t[from])
    }
}

/// How two arrays compare; `None` where either is no record.
pub open spec fn arrays_order(a: Seq<u8>, b: Seq<u8>) -> Option<Order> {
    match (record::record_values(a), record::record_values(b)) {
        (Some(s), Some(t)) => Some(rows_order(s, t, 0)),
        _ => None,
    }
}

/// The order that an `Ordering` is.
pub open spec fn as_order(o: Ordering) -> Order {
    match o {
        Ordering::Less => Order::Less,
        Ordering::Equal => Order::Equal,
        Ordering::Greater => Order::Greater,
    }
}

/// Makes the `Ordering` that an order is.
fn ordering_of(o: Order) -> (r: Ordering)
    ensures
        as_order(r) == o,
{
    match o {
        Order::Less => Ordering::Less,
        Order::Equal => Ordering::Equal,
        Order::Greater => Ordering::Greater,
    }
}

/// How two rows of values compare.
fn order_rows(a: &[Value], b: &[Value]) -> (r: Order)
    ensures
        r == rows_order(value::models(a@), value::models(b@), 0),
{
    let ghost (s, t) = (value::models(a@), value::models(b@));
    let mut i: usize = 0;
    while i < a.len() && i < b.len()
        invariant
            s == value::models(a@),
            t == value::models(b@),
            i <= a@.len(),
            i <= b@.len(),
            rows_order(s, t, 0) == rows_order(s, t, i as int),
        decreases a@.len() - i,
    {
        assert(s[i as int] == a@[i as int]@ && t[i as int] == b@[i as int]@);
        let o = a[i].order(&b[i]);
        if o != Order::Equal {
            return o;
        }
        i = i + 1;
    }
    if a.len() < b.len() {
        Order::Less
    } else if a.len() == b.len() {
        Order::Equal
    } else {
        Order::Greater
    }
}

/// How two arrays compare: element by element, and where one is the start of
/// the other, the shorter is less. Fails where either is no record.
pub fn compare_arrays(a: &[u8], b: &[u8]) -> (r: Result<Ordering, LimboError>)
    ensures
        match r {
            Ok(o) => arrays_order(a@, b@) == Some(as_order(o)),
            Err(e) => arrays_order(a@, b@) is None && e@ is Corrupt,
        },
{
    match (record::array_values_from_blob(a), record::array_values_from_blob(b)) {
        (Ok(x), Ok(y)) => Ok(ordering_of(order_rows(x.as_slice(), y.as_slice()))),
        _ => Err(LimboError::Corrupt),
    }
}

/// How two arrays compare when they are swapped.
pub open spec fn swapped(o: Option<Order>) -> Option<Order> {
    match o {
        Some(o) => Some(order::reversed(o)),
        None => None,
    }
}

proof fn lemma_rows_swapped(s: Seq<ValueModel>, t: Seq<ValueModel>, from: int)
    requires
        0 <= from,
    ensures
        rows_order(t, s, from) == order::reversed(rows_order(s, t, from)),
    decreases s.len() - from,
{
    if from < s.len() && from < t.len() {
        value::law_order_reversed(s[from], t[from]);
        lemma_rows_swapped(s, t, from + 1);
    }
}

/// Swapping two arrays reverses how they compare.
pub proof fn law_swapped(a: Seq<u8>, b: Seq<u8>)
    ensures
        arrays_order(b, a) == swapped(arrays_order(a, b)),
{
    if let (Some(s), Some(t)) = (record::record_values(a), record::record_values(b)) {
        lemma_rows_swapped(s, t, 0);
    }
}

proof fn lemma_rows_equal(s: Seq<ValueModel>, t: Seq<ValueModel>, from: int)
    requires
        0 <= from <= s.len(),
        from <= t.len(),
    ensures
        rows_order(s, t, from) == Order::Equal <==> s.len() == t.len() && forall|i: int|
            from <= i < s.len() ==> value::same_value(#[trigger] s[i], t[i]),
    decreases s.len() - from,
{
    if from < s.len() && from < t.len() {
        lemma_rows_equal(s, t, from + 1);
        value::law_order_equal(s[from], t[from]);
        assert(s.len() == t.len() && (forall|i: int|
            from + 1 <= i < s.len() ==> value::same_value(#[trigger] s[i], t[i]))
            && value::same_value(s[from], t[from]) ==> forall|i: int|
            from <= i < s.len() ==> value::same_value(#[trigger] s[i], t[i]));
    }
}

/// Two arrays are equal just where they have as many elements and each is the
/// same as its counterpart.
pub proof fn law_equal(a: Seq<u8>, b: Seq<u8>, s: Seq<ValueModel>, t: Seq<ValueModel>)
    requires
        record::record_values(a) == Some(s),
        record::record_values(b) == Some(t),
    ensures
        arrays_order(a, b) == Some(Order::Equal) <==> s.len() == t.len() && forall|i: int|
            0 <= i < s.len() ==> value::same_value(#[trigger] s[i], t[i]),
{
    lemma_rows_equal(s, t, 0);
}

/// Whether the first of two arrays does not come after the second.
pub open spec fn not_after(o: Option<Order>) -> bool {
    o == Some(Order::Less) || o == Some(Order::Equal)
}

proof fn lemma_rows_transitive(
    s: Seq<ValueModel>,
    t: Seq<ValueModel>,
    u: Seq<ValueModel>,
    from: int,
)
    requires
        0 <= from <= s.len(),
        from <= t.len(),
        from <= u.len(),
        rows_order(s, t, from) != Order::Greater,
        rows_order(t, u, from) != Order::Greater,
    ensures
        rows_order(s, u, from) != Order::Greater,
        rows_order(s, u, from) == Order::Equal ==> rows_order(s, t, from) == Order::Equal
            && rows_order(t, u, from) == Order::Equal,
    decreases s.len() - from,
{
    if from < s.len() && from < t.len() && from < u.len() {
        value::law_order_transitive(s[from], t[from], u[from]);
        if value::value_order(s[from], u[from]) == Order::Equal {
            lemma_rows_transitive(s, t, u, from + 1);
        }
    }
}

/// Among arrays, not coming after is transitive.
pub proof fn law_transitive(a: Seq<u8>, b: Seq<u8>, c: Seq<u8>)
    requires
        not_after(arrays_order(a, b)),
        not_after(arrays_order(b, c)),
    ensures
        not_after(arrays_order(a, c)),
        arrays_order(a, c) == Some(Order::Equal) ==> arrays_order(a, b) == Some(Order::Equal)
            && arrays_order(b, c) == Some(Order::Equal),
{
    if let (Some(s), Some(t), Some(u)) = (
        record::record_values(a),
        record::record_values(b),
        record::record_values(c),
    ) {
        lemma_rows_transitive(s, t, u, 0);
    }
}

/// Two arrays can be compared just where both are records.
pub proof fn law_records_compare(a: Seq<u8>, b: Seq<u8>)
    ensures
        arrays_order(a, b) is Some <==> record::record_values(a) is Some && record::record_values(
            b,
        ) is Some,
{
}

/// An array that is the start of a longer one is less.
pub proof fn law_start_is_less(a: Seq<u8>, b: Seq<u8>, s: Seq<ValueModel>, t: Seq<ValueModel>)
    requires
        record::record_values(a) == Some(s),
        record::record_values(b) == Some(t),
        s.len() < t.len(),
        s == t.take(s.len() as int),
    ensures
        arrays_order(a, b) == Some(Order::Less),
{
    lemma_start(s, t, 0);
}

proof fn lemma_start(s: Seq<ValueModel>, t: Seq<ValueModel>, from: int)
    requires
        0 <= from <= s.len() < t.len(),
        s == t.take(s.len() as int),
    ensures
        rows_order(s, t, from) == Order::Less,
    decreases s.len() - from,
{
    if from < s.len() {
        assert(s[from] == t.take(s.len() as int)[from]);
        value::law_order_equal(s[from], t[from]);
        lemma_start(s, t, from + 1);
    }
}

/// The three orders are called by their names.
pub proof fn law_order_names()
    ensures
        as_order(Ordering::Less) == Order::Less,
        as_order(Ordering::Equal) == Order::Equal,
        as_order(Ordering::Greater) == Order::Greater,
        order::int_order(0, 1) == Order::Less,
{
}

} // verus!
