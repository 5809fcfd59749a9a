//! Sets of values.

use vstd::prelude::*;

use crate::order::Order;
use crate::value::{self, Value, ValueModel};

verus! {

/// Whether a value is among others.
pub open spec fn is_among(s: Seq<ValueModel>, v: ValueModel) -> bool {
    exists|i: int| 0 <= i < s.len() && value::same_value(#[trigger] s[i], v)
}

/// Whether each value comes before all that stand behind it, so that none
/// occurs twice.
pub open spec fn is_rising(s: Seq<ValueModel>) -> bool {
    forall|i: int, j: int|
        0 <= i < j < s.len() ==> value::value_order(#[trigger] s[i], #[trigger] s[j]) == Order::Less
}

/// A value between those that come before it and those that come behind keeps
/// the order.
proof fn lemma_insert_rises(s: Seq<ValueModel>, at: int, v: ValueModel)
    requires
        is_rising(s),
        0 <= at <= s.len(),
        forall|i: int| 0 <= i < at ==> value::value_order(#[trigger] s[i], v) == Order::Less,
        at < s.len() ==> value::value_order(s[at], v) == Order::Greater,
    ensures
        is_rising(s.insert(at, v)),
{
    let t = s.insert(at, v);
    assert forall|i: int, j: int| 0 <= i < j < t.len() implies value::value_order(
        #[trigger] t[i],
        #[trigger] t[j],
    ) == Order::Less by {
        if i == at {
            value::law_order_reversed(s[at], v);
            if j - 1 > at {
                value::law_order_transitive(v, s[at], s[j - 1]);
            }
        } else if j == at {
            assert(t[i] == s[i]);
        } else {
            let x = if i < at {
                i
            } else {
                i - 1
            };
            let y = if j < at {
                j
            } else {
                j - 1
            };
            assert(t[i] == s[x] && t[j] == s[y]);
        }
    }
}

/// What is among some values and one more is among them or is the one.
proof fn lemma_insert_among(s: Seq<ValueModel>, at: int, v: ValueModel, m: ValueModel)
    requires
        0 <= at <= s.len(),
    ensures
        is_among(s.insert(at, v), m) <==> is_among(s, m) || value::same_value(v, m),
{
    let t = s.insert(at, v);
    if is_among(s, m) {
        let i = choose|i: int| 0 <= i < s.len() && value::same_value(#[trigger] s[i], m);
        let j = if i < at {
            i
        } else {
            i + 1
        };
        assert(t[j] == s[i]);
    }
    if value::same_value(v, m) {
        assert(t[at] == v);
    }
    if is_among(t, m) {
        let j = choose|j: int| 0 <= j < t.len() && value::same_value(#[trigger] t[j], m);
        if j < at {
            assert(t[j] == s[j]);
        } else if j > at {
            assert(t[j] == s[j - 1]);
        }
    }
}

/// A set of values, in their order.
pub struct ValueSet {
    values: Vec<Value>,
}

impl ValueSet {
    #[verifier::type_invariant]
    spec fn well_formed(self) -> bool {
        is_rising(value::models(self.values@))
    }

    /// The values of the set, in their order.
    pub closed spec fn view(&self) -> Seq<ValueModel> {
        value::models(self.values@)
    }

    /// Makes the empty set.
    fn empty() -> (r: Self)
        ensures
            r@.len() == 0,
    {
        ValueSet { values: Vec::new() }
    }

    /// The number of values that come before a value.
    fn count_before(&self, v: &Value) -> (r: usize)
        ensures
            r <= self@.len(),
            forall|i: int|
                0 <= i < r ==> value::value_order(#[trigger] self@[i], v@) == Order::Less,
            forall|i: int|
                r <= i < self@.len() ==> value::value_order(#[trigger] self@[i], v@) != Order::Less,
    {
        proof {
            use_type_invariant(self);
        }
        let mut low: usize = 0;
        let mut high: usize = self.values.len();
        while low < high
            invariant
                low <= high <= self@.len(),
                self@.len() == self.values@.len(),
                is_rising(self@),
                forall|i: int|
                    0 <= i < low ==> value::value_order(#[trigger] self@[i], v@) == Order::Less,
                forall|i: int|
                    high <= i < self@.len() ==> value::value_order(#[trigger] self@[i], v@)
                        != Order::Less,
            decreases high - low,
        {
            let mid: usize = low + (high - low) / 2;
            let ghost pivot = self@[mid as int];
            if self.values[mid].order(v) == Order::Less {
                proof {
                    assert forall|i: int| 0 <= i < mid + 1 implies value::value_order(
                        #[trigger] self@[i],
                        v@,
                    ) == Order::Less by {
                        if i < mid {
                            value::law_order_transitive(self@[i], pivot, v@);
                        }
                    }
                }
                low = mid + 1;
            } else {
                proof {
                    assert forall|i: int| mid <= i < self@.len() implies value::value_order(
                        #[trigger] self@[i],
                        v@,
                    ) != Order::Less by {
                        if i > mid && value::value_order(self@[i], v@) == Order::Less {
                            value::law_order_transitive(pivot, self@[i], v@);
                        }
                    }
                }
                high = mid;
            }
        }
        low
    }

    /// Whether a value is in the set.
    pub fn contains(&self, v: &Value) -> (r: bool)
        ensures
            r == is_among(self@, v@),
    {
        let at = self.count_before(v);
        proof {
            use_type_invariant(self);
            assert forall|i: int|
                0 <= i < self@.len() && value::same_value(#[trigger] self@[i], v@) implies i == at
                && at < self@.len() by {
                value::law_order_equal(self@[i], v@);
                if at < i {
                    value::law_order_transitive(self@[at as int], self@[i], v@);
                }
            }
        }
        at < self.values.len() && self.values[at].same(v)
    }

    /// The set with one value more, if it is not in it.
    fn with(self, v: &Value) -> (r: Self)
        ensures
            forall|m: ValueModel| #[trigger]
                is_among(r@, m) <==> is_among(self@, m) || value::same_value(v@, m),
    {
        proof {
            use_type_invariant(&self);
        }
        let at = self.count_before(v);
        if at < self.values.len() && self.values[at].same(v) {
            proof {
                let s = self@;
                assert forall|m: ValueModel| value::same_value(v@, m) implies #[trigger] is_among(
                    s,
                    m,
                ) by {
                    assert(value::same_value(s[at as int], m));
                }
            }
            return self;
        }
        let ghost before = self@;
        let mut values = self.values;
        values.insert(at, v.clone());
        let ghost after = value::models(values@);
        proof {
            assert(after =~= before.insert(at as int, v@));
            if at < before.len() {
                value::law_order_equal(before[at as int], v@);
            }
            lemma_insert_rises(before, at as int, v@);
            assert forall|m: ValueModel| #[trigger]
                is_among(after, m) <==> is_among(before, m) || value::same_value(v@, m) by {
                lemma_insert_among(before, at as int, v@, m);
            }
        }
        ValueSet { values }
    }

    /// Makes the set of some values.
    pub fn of(values: &[Value]) -> (r: Self)
        ensures
            forall|m: ValueModel| #[trigger]
                is_among(r@, m) <==> is_among(value::models(values@), m),
    {
        let ghost s = value::models(values@);
        let mut r = ValueSet::empty();
        for i in 0..values.len()
            invariant
                s == value::models(values@),
                forall|m: ValueModel| #[trigger]
                    is_among(r@, m) <==> is_among(s.take(i as int), m),
        {
            r = r.with(&values[i]);
            proof {
                let (front, grown) = (s.take(i as int), s.take(i + 1));
                assert(s[i as int] == values@[i as int]@);
                assert(grown =~= front.insert(i as int, s[i as int]));
                assert forall|m: ValueModel| #[trigger] is_among(r@, m) <==> is_among(grown, m) by {
                    lemma_insert_among(front, i as int, s[i as int], m);
                }
            }
        }
        assert(s.take(s.len() as int) =~= s);
        r
    }
}

} // verus!
