//! Looking for values in arrays: at one place, at any, and for all of several.

use vstd::prelude::*;

use crate::array;
use crate::coercion;
use crate::error::{ErrorModel, LimboError};
use crate::floats::{FloatModel, FloatStyle, FloatText};
use crate::ordered::{self, ValueSet};
use crate::record::{self, ValueIterator};
use crate::value::{self, Value, ValueModel};

verus! {

/// Whether a judge gives a verdict on the value that an item is.
pub open spec fn judged<P: Fn(&Value) -> bool>(
    predicate: P,
    item: Option<ValueModel>,
    verdict: bool,
) -> bool {
    exists|v: Value| item == Some(v@) && #[trigger] call_ensures(predicate, (&v,), verdict)
}

/// Whether a judge turns down the first `n` items.
pub open spec fn turned_down<P: Fn(&Value) -> bool>(
    predicate: P,
    s: Seq<Option<ValueModel>>,
    n: int,
) -> bool {
    &&& 0 <= n <= s.len()
    &&& forall|j: int| 0 <= j < n ==> judged(predicate, #[trigger] s[j], false)
}

/// Whether a judge turns down every item, up to the first that is no value.
pub open spec fn all_turned_down<P: Fn(&Value) -> bool>(
    predicate: P,
    s: Seq<Option<ValueModel>>,
) -> bool {
    exists|n: int| #[trigger] turned_down(predicate, s, n) && (n < s.len() ==> s[n] is None)
}

/// Looks for the first value of a record that a judge accepts. `None` where it
/// accepts none before the record ends or has an item that is no value, and
/// where the bytes are no record.
pub fn array_find_streaming<P: Fn(&Value) -> bool>(blob: &[u8], predicate: P) -> (r: Option<usize>)
    requires
        forall|v: &Value| #[trigger] call_requires(predicate, (v,)),
    ensures
        match (record::record_items(blob@), r) {
            (Some(s), Some(i)) => {
                &&& i < s.len() <= usize::MAX
                &&& judged(predicate, s[i as int], true)
                &&& turned_down(predicate, s, i as int)
            },
            (Some(s), None) => all_turned_down(predicate, s),
            (None, r) => r is None,
        },
{
    let mut rest = match ValueIterator::new(blob) {
        Ok(it) => it,
        Err(_) => return None,
    };
    let ghost all = rest@;
    let mut i: usize = 0;
    proof {
        record::lemma_items_fit(&rest);
    }
    loop
        invariant
            forall|v: &Value| #[trigger] call_requires(predicate, (v,)),
            record::record_items(blob@) == Some(all),
            all.len() <= usize::MAX,
            i <= all.len(),
            rest@ =~= all.skip(i as int),
            turned_down(predicate, all, i as int),
        decreases all.len() - i,
    {
        match rest.next() {
            None => return None,
            Some(Err(_)) => return None,
            Some(Ok(v)) => {
                if predicate(&v) {
                    assert(judged(predicate, all[i as int], true));
                    return Some(i);
                }
                assert(judged(predicate, all[i as int], false));
                i = i + 1;
            },
        }
    }
}

/// The place of the first value from `from` on that is the same as a given one.
pub open spec fn place_of(s: Seq<ValueModel>, target: ValueModel, from: int) -> Option<int>
    decreases s.len() - from,
{
    if from < 0 || from >= s.len() {
        None
    } else if value::same_value(s[from], target) {
        Some(from)
    } else {
        place_of(s, target, from + 1)
    }
}

/// The values before the first item that is none.
pub open spec fn readable(s: Seq<Option<ValueModel>>) -> Seq<ValueModel>
    decreases s.len(),
{
    if s.len() == 0 || s[0] is None {
        Seq::empty()
    } else {
        seq![s[0]->0] + readable(s.skip(1))
    }
}

/// The values that a search goes through: those of a record as they stand, and
/// those of a literal in the type of the value that is looked for. `None` where
/// there is no array to search.
pub open spec fn searched(arr: ValueModel, target: ValueModel, model: FloatModel) -> Result<
    Option<Seq<ValueModel>>,
    ErrorModel,
> {
    match arr {
        ValueModel::Null => Ok(None),
        ValueModel::Blob(b) => match record::record_items(b) {
            Some(s) => Ok(Some(readable(s))),
            None => Ok(Some(Seq::empty())),
        },
        _ => match array::elements_of(arr, model) {
            Err(e) => Err(e),
            Ok(None) => Ok(None),
            Ok(Some(s)) => match coercion::elements_for(s, target, model) {
                Err(e) => Err(e),
                Ok(t) => Ok(Some(t)),
            },
        },
    }
}

/// Whether a value is in an array, as one or zero; NULL for NULL and for what
/// is no array.
pub open spec fn contains_answer(arr: ValueModel, target: ValueModel, model: FloatModel) -> Result<
    ValueModel,
    ErrorModel,
> {
    match searched(arr, target, model) {
        Err(e) => Err(e),
        Ok(None) => Ok(ValueModel::Null),
        Ok(Some(s)) => Ok(truth(place_of(s, target, 0) is Some)),
    }
}

/// The place of a value in an array, counted from one; NULL where it is not in
/// the array, for NULL and for what is no array.
pub open spec fn position_answer(arr: ValueModel, target: ValueModel, model: FloatModel) -> Result<
    ValueModel,
    ErrorModel,
> {
    match searched(arr, target, model) {
        Err(e) => Err(e),
        Ok(None) => Ok(ValueModel::Null),
        Ok(Some(s)) => match place_of(s, target, 0) {
            Some(i) => Ok(ValueModel::Integer((i + 1) as i64)),
            None => Ok(ValueModel::Null),
        },
    }
}

/// A truth as a value.
pub open spec fn truth(b: bool) -> ValueModel {
    ValueModel::Integer(
        if b {
            1
        } else {
            0
        },
    )
}

/// Makes the value of a truth.
fn from_bool(b: bool) -> (r: Value)
    ensures
        r@ == truth(b),
{
    Value::from_i64(
        if b {
            1
        } else {
            0
        },
    )
}

/// Where an item is found that none before is the same as, it is the first
/// place.
proof fn lemma_found(s: Seq<Option<ValueModel>>, target: ValueModel, i: int)
    requires
        0 <= i < s.len(),
        forall|j: int| 0 <= j <= i ==> (#[trigger] s[j]) is Some,
        forall|j: int| 0 <= j < i ==> !value::same_value((#[trigger] s[j])->0, target),
        value::same_value(s[i]->0, target),
    ensures
        place_of(readable(s), target, 0) == Some(i),
{
    lemma_readable(s, i + 1);
    lemma_place_skips(readable(s), target, 0, i);
}

/// Where every readable item is another value, there is no place.
proof fn lemma_not_found(s: Seq<Option<ValueModel>>, target: ValueModel, n: int)
    requires
        0 <= n <= s.len(),
        n < s.len() ==> s[n] is None,
        forall|j: int|
            0 <= j < n ==> (#[trigger] s[j]) is Some && !value::same_value(s[j]->0, target),
    ensures
        place_of(readable(s), target, 0) is None,
{
    lemma_readable(s, n);
    lemma_place_skips(readable(s), target, 0, n);
}

/// The readable items start with those that are values.
pub proof fn lemma_readable(s: Seq<Option<ValueModel>>, n: int)
    requires
        0 <= n <= s.len(),
        forall|j: int| 0 <= j < n ==> (#[trigger] s[j]) is Some,
    ensures
        readable(s).len() >= n,
        n == s.len() || s[n] is None ==> readable(s).len() == n,
        forall|j: int| 0 <= j < n ==> #[trigger] readable(s)[j] == s[j]->0,
    decreases n,
{
    if n > 0 {
        assert(s[0] is Some);
        assert forall|j: int| 0 <= j < n - 1 implies (#[trigger] s.skip(1)[j]) is Some by {
            assert(s[j + 1] is Some);
        }
        lemma_readable(s.skip(1), n - 1);
        assert forall|j: int| 0 <= j < n implies #[trigger] readable(s)[j] == s[j]->0 by {
            if j > 0 {
                assert(readable(s)[j] == readable(s.skip(1))[j - 1]);
            }
        }
    }
}

/// The first place is behind what is another value.
proof fn lemma_place_skips(s: Seq<ValueModel>, target: ValueModel, from: int, to: int)
    requires
        0 <= from <= to <= s.len(),
        forall|j: int| from <= j < to ==> !value::same_value(#[trigger] s[j], target),
    ensures
        place_of(s, target, from) == place_of(s, target, to),
    decreases to - from,
{
    if from < to {
        lemma_place_skips(s, target, from + 1, to);
    }
}

/// The place of a value among the items of a record.
fn find_item(blob: &[u8], target: &Value) -> (r: Option<usize>)
    ensures
        match record::record_items(blob@) {
            Some(s) => match r {
                Some(i) => i < usize::MAX && place_of(readable(s), target@, 0) == Some(i as int),
                None => place_of(readable(s), target@, 0) is None,
            },
            None => r is None,
        },
{
    let judge = |v: &Value| -> (b: bool)
        ensures
            b == value::same_value(v@, target@),
        { v.same(target) };
    let r = array_find_streaming(blob, judge);
    proof {
        if let Some(s) = record::record_items(blob@) {
            match r {
                Some(i) => lemma_found(s, target@, i as int),
                None => {
                    let n = choose|n: int| #[trigger]
                        turned_down(judge, s, n) && (n < s.len() ==> s[n] is None);
                    lemma_not_found(s, target@, n);
                },
            }
        }
    }
    r
}

/// The place of a value among others.
fn find_value(values: &[Value], target: &Value) -> (r: Option<usize>)
    ensures
        match r {
            Some(i) => i < values@.len() && place_of(value::models(values@), target@, 0) == Some(
                i as int,
            ),
            None => place_of(value::models(values@), target@, 0) is None,
        },
{
    let ghost s = value::models(values@);
    for i in 0..values.len()
        invariant
            s == value::models(values@),
            place_of(s, target@, 0) == place_of(s, target@, i as int),
    {
        assert(s[i as int] == values@[i as int]@);
        if values[i].same(target) {
            return Some(i);
        }
    }
    None
}

/// The values of a literal that a search goes through.
fn elements_searched<R: Fn(&str) -> Option<u64>, S: Fn(u64, FloatStyle) -> String>(
    arr: &Value,
    target: &Value,
    floats: &FloatText<R, S>,
) -> (r: Result<Option<Vec<Value>>, LimboError>)
    requires
        array::is_defined(arr@, floats@),
        !(arr@ is Null || arr@ is Blob),
    ensures
        crate::literal::row_answer(r) == searched(arr@, target@, floats@),
{
    match array::array_values_from_any(arr, floats) {
        Err(e) => Err(e),
        Ok(None) => Ok(None),
        Ok(Some(elements)) => match coercion::coerce_elements_for_probe(elements, target, floats) {
            Err(e) => Err(e),
            Ok(elements) => Ok(Some(elements)),
        },
    }
}

/// Whether a value is in an array.
pub fn exec_array_contains<R: Fn(&str) -> Option<u64>, S: Fn(u64, FloatStyle) -> String>(
    arr: &Value,
    target: &Value,
    floats: &FloatText<R, S>,
) -> (r: Result<Value, LimboError>)
    requires
        array::is_defined(arr@, floats@),
    ensures
        record::answer(r) == contains_answer(arr@, target@, floats@),
{
    match arr {
        Value::Null => Ok(Value::Null),
        Value::Blob(blob) => Ok(from_bool(find_item(blob.as_slice(), target).is_some())),
        _ => match elements_searched(arr, target, floats) {
            Err(e) => Err(e),
            Ok(None) => Ok(Value::Null),
            Ok(Some(elements)) => Ok(
                from_bool(find_value(elements.as_slice(), target).is_some()),
            ),
        },
    }
}

/// The place of a value in an array. NULL is found as any other value is.
pub fn exec_array_position<R: Fn(&str) -> Option<u64>, S: Fn(u64, FloatStyle) -> String>(
    arr: &Value,
    target: &Value,
    floats: &FloatText<R, S>,
) -> (r: Result<Value, LimboError>)
    requires
        array::is_defined(arr@, floats@),
    ensures
        record::answer(r) == position_answer(arr@, target@, floats@),
{
    let place = match arr {
        Value::Null => None,
        Value::Blob(blob) => find_item(blob.as_slice(), target),
        _ => match elements_searched(arr, target, floats) {
            Err(e) => return Err(e),
            Ok(None) => None,
            Ok(Some(elements)) => find_value(elements.as_slice(), target),
        },
    };
    match place {
        Some(i) => Ok(Value::from_i64((i + 1) as i64)),
        None => Ok(Value::Null),
    }
}

/// Whether a value of one array matches one of another: where NULLs never
/// match, NULL does not.
pub open spec fn matches_in(s: Seq<ValueModel>, v: ValueModel, nulls_never_match: bool) -> bool {
    !(nulls_never_match && v is Null) && ordered::is_among(s, v)
}

/// Whether some value of `b` matches one of `a`.
pub open spec fn some_match(
    a: Seq<ValueModel>,
    b: Seq<ValueModel>,
    nulls_never_match: bool,
) -> bool {
    exists|j: int| 0 <= j < b.len() && matches_in(a, #[trigger] b[j], nulls_never_match)
}

/// Whether every value of `b` matches one of `a`.
pub open spec fn all_match(
    a: Seq<ValueModel>,
    b: Seq<ValueModel>,
    nulls_never_match: bool,
) -> bool {
    forall|j: int| 0 <= j < b.len() ==> matches_in(a, #[trigger] b[j], nulls_never_match)
}

/// The elements of two arrays in types that can be compared; `None` where
/// either is NULL or no array.
pub open spec fn both_sides(a: ValueModel, b: ValueModel, model: FloatModel) -> Result<
    Option<(Seq<ValueModel>, Seq<ValueModel>)>,
    ErrorModel,
> {
    if a is Null || b is Null {
        Ok(None)
    } else {
        match array::elements_of(a, model) {
            Err(e) => Err(e),
            Ok(None) => Ok(None),
            Ok(Some(s)) => match array::elements_of(b, model) {
                Err(e) => Err(e),
                Ok(None) => Ok(None),
                Ok(Some(t)) => match coercion::sides_for(s, t, model) {
                    Err(e) => Err(e),
                    Ok(sides) => Ok(Some(sides)),
                },
            },
        }
    }
}

/// Whether two arrays have a value in common, as one or zero; NULL where
/// either is NULL or no array.
pub open spec fn overlap_answer(
    a: ValueModel,
    b: ValueModel,
    nulls_never_match: bool,
    model: FloatModel,
) -> Result<ValueModel, ErrorModel> {
    match both_sides(a, b, model) {
        Err(e) => Err(e),
        Ok(None) => Ok(ValueModel::Null),
        Ok(Some((s, t))) => Ok(truth(some_match(s, t, nulls_never_match))),
    }
}

/// Whether all values of one array are in another, as one or zero; NULL where
/// either is NULL or no array.
pub open spec fn contains_all_answer(
    a: ValueModel,
    b: ValueModel,
    nulls_never_match: bool,
    model: FloatModel,
) -> Result<ValueModel, ErrorModel> {
    match both_sides(a, b, model) {
        Err(e) => Err(e),
        Ok(None) => Ok(ValueModel::Null),
        Ok(Some((s, t))) => Ok(truth(all_match(s, t, nulls_never_match))),
    }
}

/// Whether a value matches one of a set.
fn matching(set: &ValueSet, v: &Value, nulls_never_match: bool) -> (r: bool)
    ensures
        r == matches_in(set@, v@, nulls_never_match),
{
    !(nulls_never_match && v.is_null()) && set.contains(v)
}

/// Reads two arrays and brings them to types that can be compared.
fn read_sides<R: Fn(&str) -> Option<u64>, S: Fn(u64, FloatStyle) -> String>(
    a: &Value,
    b: &Value,
    floats: &FloatText<R, S>,
) -> (r: Result<Option<(Vec<Value>, Vec<Value>)>, LimboError>)
    requires
        array::both_defined(a@, b@, floats@),
    ensures
        both_sides(a@, b@, floats@) == match r {
            Ok(Some((x, y))) => Ok(Some((value::models(x@), value::models(y@)))),
            Ok(None) => Ok(None),
            Err(e) => Err(e@),
        },
{
    if a.is_null() || b.is_null() {
        return Ok(None);
    }
    let x = match array::array_values_from_any(a, floats) {
        Err(e) => return Err(e),
        Ok(None) => return Ok(None),
        Ok(Some(v)) => v,
    };
    let y = match array::array_values_from_any(b, floats) {
        Err(e) => return Err(e),
        Ok(None) => return Ok(None),
        Ok(Some(v)) => v,
    };
    match coercion::coerce_sides(x, y, floats) {
        Err(e) => Err(e),
        Ok(sides) => Ok(Some(sides)),
    }
}

/// Whether two arrays have a value in common.
pub fn exec_array_overlap<R: Fn(&str) -> Option<u64>, S: Fn(u64, FloatStyle) -> String>(
    a: &Value,
    b: &Value,
    nulls_never_match: bool,
    floats: &FloatText<R, S>,
) -> (r: Result<Value, LimboError>)
    requires
        array::both_defined(a@, b@, floats@),
    ensures
        record::answer(r) == overlap_answer(a@, b@, nulls_never_match, floats@),
{
    let (x, y) = match read_sides(a, b, floats) {
        Err(e) => return Err(e),
        Ok(None) => return Ok(Value::Null),
        Ok(Some(sides)) => sides,
    };
    let ghost (s, t) = (value::models(x@), value::models(y@));
    let set = ValueSet::of(x.as_slice());
    for j in 0..y.len()
        invariant
            forall|m: ValueModel| #[trigger]
                ordered::is_among(set@, m) <==> ordered::is_among(s, m),
            t == value::models(y@),
            forall|k: int| 0 <= k < j ==> !matches_in(s, #[trigger] t[k], nulls_never_match),
            both_sides(a@, b@, floats@) == Ok::<_, ErrorModel>(Some((s, t))),
    {
        assert(t[j as int] == y@[j as int]@);
        if matching(&set, &y[j], nulls_never_match) {
            return Ok(from_bool(true));
        }
    }
    Ok(from_bool(false))
}

/// Whether all values of array `b` are in array `a`.
pub fn exec_array_contains_all<R: Fn(&str) -> Option<u64>, S: Fn(u64, FloatStyle) -> String>(
    a: &Value,
    b: &Value,
    nulls_never_match: bool,
    floats: &FloatText<R, S>,
) -> (r: Result<Value, LimboError>)
    requires
        array::both_defined(a@, b@, floats@),
    ensures
        record::answer(r) == contains_all_answer(a@, b@, nulls_never_match, floats@),
{
    let (x, y) = match read_sides(a, b, floats) {
        Err(e) => return Err(e),
        Ok(None) => return Ok(Value::Null),
        Ok(Some(sides)) => sides,
    };
    let ghost (s, t) = (value::models(x@), value::models(y@));
    let set = ValueSet::of(x.as_slice());
    for j in 0..y.len()
        invariant
            forall|m: ValueModel| #[trigger]
                ordered::is_among(set@, m) <==> ordered::is_among(s, m),
            t == value::models(y@),
            forall|k: int| 0 <= k < j ==> matches_in(s, #[trigger] t[k], nulls_never_match),
            both_sides(a@, b@, floats@) == Ok::<_, ErrorModel>(Some((s, t))),
    {
        assert(t[j as int] == y@[j as int]@);
        if !matching(&set, &y[j], nulls_never_match) {
            return Ok(from_bool(false));
        }
    }
    Ok(from_bool(true))
}

} // verus!
