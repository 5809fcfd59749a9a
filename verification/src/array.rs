//! The elements of arrays, and the functions that build one array from another.
//!
//! An array is a record of its elements, a literal, or NULL for the empty
//! array. Whatever builds an array answers with a record.

use vstd::prelude::*;

use crate::error::{ErrorModel, LimboError};
use crate::floats::{FloatModel, FloatStyle, FloatText};
use crate::literal;
use crate::record::{self, ValueIterator};
use crate::value::{self, Numeric, Value, ValueModel};

verus! {

/// The elements of a value as an array; `None` where it is none.
pub open spec fn elements_of(m: ValueModel, model: FloatModel) -> Result<
    Option<Seq<ValueModel>>,
    ErrorModel,
> {
    match m {
        ValueModel::Blob(b) => Ok(record::record_values(b)),
        ValueModel::Text(s) => literal::literal_answer(literal::literal_of(s, model)),
        ValueModel::Null => Ok(Some(Seq::empty())),
        _ => Ok(None),
    }
}

/// Whether a value is anything as an array, be it none: a literal must be.
pub open spec fn is_defined(m: ValueModel, model: FloatModel) -> bool {
    m matches ValueModel::Text(s) ==> literal::is_defined(s, model)
}

/// The elements of a value as an array: of a record, of a literal, or none at
/// all for NULL. `None` where the value is no array.
pub fn array_values_from_any<R: Fn(&str) -> Option<u64>, S: Fn(u64, FloatStyle) -> String>(
    arr: &Value,
    floats: &FloatText<R, S>,
) -> (r: Result<Option<Vec<Value>>, LimboError>)
    requires
        is_defined(arr@, floats@),
    ensures
        literal::row_answer(r) == elements_of(arr@, floats@),
{
    match arr {
        Value::Blob(blob) => match record::array_values_from_blob(blob.as_slice()) {
            Ok(values) => Ok(Some(values)),
            Err(_) => Ok(None),
        },
        Value::Text(text) => literal::parse_text_array(text.as_str(), floats),
        Value::Null => {
            let none: Vec<Value> = Vec::new();
            assert(value::models(none@) =~= Seq::<ValueModel>::empty());
            Ok(Some(none))
        },
        _ => Ok(None),
    }
}

/// The number of elements of an array that is held as a record: the items that
/// its header announces. `None` for NULL and for whatever else is no such array.
pub open spec fn length_of(m: ValueModel) -> Option<i64> {
    match m {
        ValueModel::Blob(b) => match record::record_items(b) {
            Some(s) => Some(s.len() as i64),
            None => None,
        },
        _ => None,
    }
}

/// The contents of an answer that may be a count.
pub open spec fn count_answer(r: Result<Option<i64>, LimboError>) -> Result<
    Option<i64>,
    ErrorModel,
> {
    match r {
        Ok(n) => Ok(n),
        Err(e) => Err(e@),
    }
}

/// The number of elements of an array that is held as a record; `None` for NULL
/// and for whatever else is no such array.
pub fn compute_array_length(val: &Value) -> (r: Result<Option<i64>, LimboError>)
    ensures
        count_answer(r) == Ok::<Option<i64>, ErrorModel>(length_of(val@)),
{
    match val {
        Value::Blob(b) => match ValueIterator::new(b.as_slice()) {
            Ok(items) => Ok(Some(items.count() as i64)),
            Err(_) => Ok(None),
        },
        _ => Ok(None),
    }
}

/// The number of elements at a depth: that of the array itself at depth one,
/// and that of the first element, one less deep, below it. `None` where there
/// is no such depth.
pub open spec fn length_at(m: ValueModel, dim: int, model: FloatModel) -> Result<
    Option<i64>,
    ErrorModel,
>
    decreases dim,
{
    if dim < 1 {
        Ok(None)
    } else if dim == 1 {
        Ok(length_of(m))
    } else {
        match elements_of(m, model) {
            Err(e) => Err(e),
            Ok(None) => Ok(None),
            Ok(Some(s)) => if s.len() == 0 {
                Ok(None)
            } else {
                length_at(s[0], dim - 1, model)
            },
        }
    }
}

/// Whether every value that is looked into on the way down to a depth is
/// anything as an array.
pub open spec fn is_defined_at(m: ValueModel, dim: int, model: FloatModel) -> bool
    decreases dim,
{
    dim > 1 ==> {
        &&& is_defined(m, model)
        &&& elements_of(m, model) matches Ok(Some(s)) ==> s.len() > 0 ==> is_defined_at(
            s[0],
            dim - 1,
            model,
        )
    }
}

/// The number of elements of an array at a depth.
pub fn compute_array_length_at_dim<
    R: Fn(&str) -> Option<u64>,
    S: Fn(u64, FloatStyle) -> String,
>(val: &Value, dim: i64, floats: &FloatText<R, S>) -> (r: Result<Option<i64>, LimboError>)
    requires
        is_defined_at(val@, dim as int, floats@),
    ensures
        count_answer(r) == length_at(val@, dim as int, floats@),
    decreases dim,
{
    if dim < 1 {
        return Ok(None);
    }
    if dim == 1 {
        return compute_array_length(val);
    }
    match array_values_from_any(val, floats) {
        Err(e) => Err(e),
        Ok(None) => Ok(None),
        Ok(Some(values)) => {
            if values.len() == 0 {
                Ok(None)
            } else {
                assert(value::models(values@)[0] == values@[0]@);
                compute_array_length_at_dim(&values[0], dim - 1, floats)
            }
        },
    }
}

/// What becomes of the elements of a value: NULL where it is no array.
pub open spec fn with_elements(
    m: ValueModel,
    model: FloatModel,
    f: spec_fn(Seq<ValueModel>) -> Result<ValueModel, ErrorModel>,
) -> Result<ValueModel, ErrorModel> {
    match elements_of(m, model) {
        Err(e) => Err(e),
        Ok(None) => Ok(ValueModel::Null),
        Ok(Some(s)) => f(s),
    }
}

/// The array with one more element behind the others; NULL for what is no
/// array.
pub open spec fn append_answer(arr: ValueModel, elem: ValueModel, model: FloatModel) -> Result<
    ValueModel,
    ErrorModel,
> {
    with_elements(arr, model, |s: Seq<ValueModel>| record::packed(s.push(elem)))
}

/// The array with one more element behind the others.
pub fn exec_array_append<R: Fn(&str) -> Option<u64>, S: Fn(u64, FloatStyle) -> String>(
    arr: &Value,
    elem: &Value,
    floats: &FloatText<R, S>,
) -> (r: Result<Value, LimboError>)
    requires
        is_defined(arr@, floats@),
    ensures
        record::answer(r) == append_answer(arr@, elem@, floats@),
{
    let mut elements = match array_values_from_any(arr, floats) {
        Err(e) => return Err(e),
        Ok(None) => return Ok(Value::Null),
        Ok(Some(v)) => v,
    };
    let ghost before = value::models(elements@);
    elements.push(elem.clone());
    assert(value::models(elements@) =~= before.push(elem@));
    record::values_to_record_blob(elements.as_slice())
}

/// The array with one more element before the others; NULL for what is no
/// array.
pub open spec fn prepend_answer(arr: ValueModel, elem: ValueModel, model: FloatModel) -> Result<
    ValueModel,
    ErrorModel,
> {
    with_elements(arr, model, |s: Seq<ValueModel>| record::packed(seq![elem] + s))
}

/// The array with one more element before the others.
pub fn exec_array_prepend<R: Fn(&str) -> Option<u64>, S: Fn(u64, FloatStyle) -> String>(
    arr: &Value,
    elem: &Value,
    floats: &FloatText<R, S>,
) -> (r: Result<Value, LimboError>)
    requires
        is_defined(arr@, floats@),
    ensures
        record::answer(r) == prepend_answer(arr@, elem@, floats@),
{
    let mut elements = match array_values_from_any(arr, floats) {
        Err(e) => return Err(e),
        Ok(None) => return Ok(Value::Null),
        Ok(Some(v)) => v,
    };
    let ghost before = value::models(elements@);
    let mut result: Vec<Value> = Vec::new();
    result.push(elem.clone());
    result.append(&mut elements);
    assert(value::models(result@) =~= seq![elem@] + before);
    record::values_to_record_blob(result.as_slice())
}

/// One array behind the other; NULL where either is NULL or no array.
pub open spec fn cat_answer(a: ValueModel, b: ValueModel, model: FloatModel) -> Result<
    ValueModel,
    ErrorModel,
> {
    if a is Null || b is Null {
        Ok(ValueModel::Null)
    } else {
        with_elements(
            a,
            model,
            |s: Seq<ValueModel>|
                with_elements(b, model, |t: Seq<ValueModel>| record::packed(s + t)),
        )
    }
}

/// Whether, of two values, both are anything as arrays as far as they are
/// looked at: neither is where one of them is NULL, and the second is not
/// where the first is no array.
pub open spec fn both_defined(a: ValueModel, b: ValueModel, model: FloatModel) -> bool {
    a is Null || b is Null || {
        &&& is_defined(a, model)
        &&& elements_of(a, model) matches Ok(Some(_)) ==> is_defined(b, model)
    }
}

/// One array behind the other.
pub fn exec_array_cat<R: Fn(&str) -> Option<u64>, S: Fn(u64, FloatStyle) -> String>(
    a: &Value,
    b: &Value,
    floats: &FloatText<R, S>,
) -> (r: Result<Value, LimboError>)
    requires
        both_defined(a@, b@, floats@),
    ensures
        record::answer(r) == cat_answer(a@, b@, floats@),
{
    if a.is_null() || b.is_null() {
        return Ok(Value::Null);
    }
    let mut first = match array_values_from_any(a, floats) {
        Err(e) => return Err(e),
        Ok(None) => return Ok(Value::Null),
        Ok(Some(v)) => v,
    };
    let mut second = match array_values_from_any(b, floats) {
        Err(e) => return Err(e),
        Ok(None) => return Ok(Value::Null),
        Ok(Some(v)) => v,
    };
    let ghost (s, t) = (value::models(first@), value::models(second@));
    first.append(&mut second);
    assert(value::models(first@) =~= s + t);
    record::values_to_record_blob(first.as_slice())
}

/// The values that are not the same as a given one, in their order.
pub open spec fn without(s: Seq<ValueModel>, target: ValueModel) -> Seq<ValueModel>
    decreases s.len(),
{
    if s.len() == 0 {
        Seq::empty()
    } else if value::same_value(s.last(), target) {
        without(s.drop_last(), target)
    } else {
        without(s.drop_last(), target).push(s.last())
    }
}

/// The array without the elements that are the same as a value; NULL for NULL
/// and for what is no array.
pub open spec fn remove_answer(arr: ValueModel, target: ValueModel, model: FloatModel) -> Result<
    ValueModel,
    ErrorModel,
> {
    if arr is Null {
        Ok(ValueModel::Null)
    } else {
        with_elements(
            arr,
            model,
            |s: Seq<ValueModel>| record::packed(without(s, target)),
        )
    }
}

/// The array without the elements that are the same as a value.
pub fn exec_array_remove<R: Fn(&str) -> Option<u64>, S: Fn(u64, FloatStyle) -> String>(
    arr: &Value,
    target: &Value,
    floats: &FloatText<R, S>,
) -> (r: Result<Value, LimboError>)
    requires
        is_defined(arr@, floats@),
    ensures
        record::answer(r) == remove_answer(arr@, target@, floats@),
{
    if arr.is_null() {
        return Ok(Value::Null);
    }
    let elements = match array_values_from_any(arr, floats) {
        Err(e) => return Err(e),
        Ok(None) => return Ok(Value::Null),
        Ok(Some(v)) => v,
    };
    let ghost s = value::models(elements@);
    let mut result: Vec<Value> = Vec::new();
    assert(value::models(result@) =~= Seq::<ValueModel>::empty());
    assert(s.take(0) =~= Seq::<ValueModel>::empty());
    for i in 0..elements.len()
        invariant
            s == value::models(elements@),
            value::models(result@) == without(s.take(i as int), target@),
    {
        let ghost before = value::models(result@);
        assert(s.take(i + 1).drop_last() =~= s.take(i as int));
        if elements[i] != *target {
            result.push(elements[i].clone());
            assert(value::models(result@) =~= before.push(s[i as int]));
        }
    }
    assert(s.take(s.len() as int) =~= s);
    record::values_to_record_blob(result.as_slice())
}

/// The range of elements, counted from one with both ends in it, that two
/// bounds enclose: how many come before it and how many before its end. A
/// bound that is no positive integer stands for the start of the array.
pub open spec fn slice_range(start: ValueModel, end: ValueModel, len: int) -> (int, int) {
    let stop = match end {
        ValueModel::Integer(i) => if i < 1 {
            0
        } else if i < len {
            i as int
        } else {
            len
        },
        _ => 0,
    };
    let first = match start {
        ValueModel::Integer(i) => if i < 1 {
            0
        } else if i - 1 < stop {
            i - 1
        } else {
            stop
        },
        _ => 0,
    };
    (first, stop)
}

/// The elements of the array between two bounds; NULL for NULL and for what is
/// no array.
pub open spec fn slice_answer(
    arr: ValueModel,
    start: ValueModel,
    end: ValueModel,
    model: FloatModel,
) -> Result<ValueModel, ErrorModel> {
    if arr is Null {
        Ok(ValueModel::Null)
    } else {
        with_elements(
            arr,
            model,
            |s: Seq<ValueModel>|
                {
                    let (first, stop) = slice_range(start, end, s.len() as int);
                    record::packed(s.subrange(first, stop))
                },
        )
    }
}

/// A bound as a count of at most `limit` elements, of which a lower bound
/// leaves out one.
fn bounded(bound: &Value, below: bool, limit: usize) -> (r: usize)
    ensures
        r <= limit,
        r == match bound@ {
            ValueModel::Integer(i) => {
                let n = if below {
                    i - 1
                } else {
                    i as int
                };
                if i < 1 {
                    0
                } else if n < limit {
                    n
                } else {
                    limit as int
                }
            },
            _ => 0,
        },
{
    match bound {
        Value::Numeric(Numeric::Integer(i)) => {
            if *i < 1 {
                return 0;
            }
            let n: u64 = if below {
                (*i - 1) as u64
            } else {
                *i as u64
            };
            if n < limit as u64 {
                n as usize
            } else {
                limit
            }
        },
        _ => 0,
    }
}

/// The elements of the array from one bound to the other, both counted from
/// one and in the range.
pub fn exec_array_slice<R: Fn(&str) -> Option<u64>, S: Fn(u64, FloatStyle) -> String>(
    arr: &Value,
    start: &Value,
    end: &Value,
    floats: &FloatText<R, S>,
) -> (r: Result<Value, LimboError>)
    requires
        is_defined(arr@, floats@),
    ensures
        record::answer(r) == slice_answer(arr@, start@, end@, floats@),
{
    if arr.is_null() {
        return Ok(Value::Null);
    }
    let elements = match array_values_from_any(arr, floats) {
        Err(e) => return Err(e),
        Ok(None) => return Ok(Value::Null),
        Ok(Some(v)) => v,
    };
    let stop = bounded(end, false, elements.len());
    let first = bounded(start, true, stop);
    let part = vstd::slice::slice_subrange(elements.as_slice(), first, stop);
    assert(value::models(part@) =~= value::models(elements@).subrange(
        first as int,
        stop as int,
    ));
    record::values_to_record_blob(part)
}

/// A register of a running statement.
#[derive(Debug)]
pub enum Register {
    Value(Value),
}

/// The value in a register.
pub open spec fn register_value(r: Register) -> ValueModel {
    match r {
        Register::Value(v) => v@,
    }
}

/// The array of the values in `count` registers, from the one at `start_reg` on.
pub fn make_array_from_registers(registers: &[Register], start_reg: usize, count: usize) -> (r:
    Result<Value, LimboError>)
    requires
        start_reg + count <= registers@.len(),
    ensures
        record::answer(r) == record::packed(
            Seq::new(count as nat, |i: int| register_value(registers@[start_reg + i])),
        ),
{
    let mut values: Vec<Value> = Vec::new();
    for i in 0..count
        invariant
            start_reg + count <= registers@.len(),
            value::models(values@) =~= Seq::new(
                i as nat,
                |j: int| register_value(registers@[start_reg + j]),
            ),
    {
        assert(registers.len() <= usize::MAX);
        let ghost before = value::models(values@);
        match &registers[start_reg + i] {
            Register::Value(v) => values.push(v.clone()),
        }
        assert(value::models(values@) =~= before.push(register_value(registers@[start_reg + i])));
    }
    record::values_to_record_blob(values.as_slice())
}

} // verus!
