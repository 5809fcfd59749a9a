//! Texts split into arrays, and arrays joined into texts.

use vstd::prelude::*;

use crate::array;
use crate::error::{ErrorModel, LimboError};
use crate::floats::{FloatModel, FloatStyle, FloatText};
use crate::record;
use crate::text;
use crate::value::{self, Value, ValueModel};

verus! {

/// The text that stands for NULL, if a value is given for it and is not NULL.
pub open spec fn null_text(null_str: Option<ValueModel>, model: FloatModel) -> Option<Seq<char>> {
    match null_str {
        None => None,
        Some(ValueModel::Null) => None,
        Some(m) => Some(value::printed(m, model)),
    }
}

/// The contents of a value that may be given.
pub open spec fn given(v: Option<&Value>) -> Option<ValueModel> {
    match v {
        Some(v) => Some(v@),
        None => None,
    }
}

/// The text that stands for NULL.
fn null_text_of<R: Fn(&str) -> Option<u64>, S: Fn(u64, FloatStyle) -> String>(
    null_str: Option<&Value>,
    floats: &FloatText<R, S>,
) -> (r: Option<String>)
    ensures
        null_text(given(null_str), floats@) == match r {
            Some(s) => Some(s@),
            None => None,
        },
{
    match null_str {
        None => None,
        Some(Value::Null) => None,
        Some(v) => Some(v.print(floats)),
    }
}

/// The parts of a text: each of its characters where the delimiter is NULL, the
/// text as a whole where the delimiter is empty, and else what the delimiter
/// separates.
pub open spec fn parts(s: Seq<char>, delimiter: ValueModel, model: FloatModel) -> Seq<Seq<char>> {
    if delimiter is Null {
        Seq::new(s.len(), |i: int| seq![s[i]])
    } else if value::printed(delimiter, model).len() == 0 {
        seq![s]
    } else {
        text::pieces(s, value::printed(delimiter, model))
    }
}

/// A part of a text as an element: NULL where it is the text for that.
pub open spec fn part_element(part: Seq<char>, null: Option<Seq<char>>) -> ValueModel {
    if null == Some(part) {
        ValueModel::Null
    } else {
        ValueModel::Text(part)
    }
}

/// The parts of a text as elements.
pub open spec fn part_elements(parts: Seq<Seq<char>>, null: Option<Seq<char>>) -> Seq<ValueModel> {
    Seq::new(parts.len(), |i: int| part_element(parts[i], null))
}

/// The array of the parts of a text; NULL for NULL.
pub open spec fn split_answer(
    text: ValueModel,
    delimiter: ValueModel,
    null_str: Option<ValueModel>,
    model: FloatModel,
) -> Result<ValueModel, ErrorModel> {
    if text is Null {
        Ok(ValueModel::Null)
    } else {
        record::packed(
            part_elements(
                parts(value::printed(text, model), delimiter, model),
                null_text(null_str, model),
            ),
        )
    }
}

/// The parts of a text.
fn parts_of<R: Fn(&str) -> Option<u64>, S: Fn(u64, FloatStyle) -> String>(
    s: &[char],
    delimiter: &Value,
    floats: &FloatText<R, S>,
) -> (r: Vec<Vec<char>>)
    ensures
        text::texts(r@) == parts(s@, delimiter@, floats@),
{
    let mut r: Vec<Vec<char>> = Vec::new();
    if delimiter.is_null() {
        for i in 0..s.len()
            invariant
                text::texts(r@) =~= Seq::new(i as nat, |j: int| seq![s@[j]]),
        {
            let ghost before = text::texts(r@);
            let mut part: Vec<char> = Vec::new();
            part.push(s[i]);
            r.push(part);
            assert(part@ =~= seq![s@[i as int]]);
            assert(text::texts(r@) =~= before.push(part@));
        }
        return r;
    }
    let printed = delimiter.print(floats);
    let d = text::chars_of(printed.as_str());
    if d.len() == 0 {
        let whole = vstd::slice::slice_to_vec(s);
        r.push(whole);
        assert(text::texts(r@) =~= seq![s@]);
        r
    } else {
        text::split(s, d.as_slice())
    }
}

/// Splits a text into an array at a delimiter: into its characters where the
/// delimiter is NULL. Where a text for NULL is given, the parts that are that
/// text are NULL.
pub fn exec_string_to_array<R: Fn(&str) -> Option<u64>, S: Fn(u64, FloatStyle) -> String>(
    text: &Value,
    delimiter: &Value,
    null_str: Option<&Value>,
    floats: &FloatText<R, S>,
) -> (r: Result<Value, LimboError>)
    ensures
        record::answer(r) == split_answer(text@, delimiter@, given(null_str), floats@),
{
    if text.is_null() {
        return Ok(Value::Null);
    }
    let printed = text.print(floats);
    let chars = text::chars_of(printed.as_str());
    let null = match null_text_of(null_str, floats) {
        Some(s) => Some(text::chars_of(s.as_str())),
        None => None,
    };
    let ghost n = null_text(given(null_str), floats@);
    let found = parts_of(chars.as_slice(), delimiter, floats);
    let ghost all = text::texts(found@);
    let mut values: Vec<Value> = Vec::new();
    for i in 0..found.len()
        invariant
            all == text::texts(found@),
            n == match null {
                Some(v) => Some(v@),
                None => None::<Seq<char>>,
            },
            value::models(values@) =~= part_elements(all.take(i as int), n),
    {
        let ghost before = value::models(values@);
        let part = found[i].as_slice();
        assert(all[i as int] == part@);
        let is_null = match &null {
            Some(v) => text::same_chars(part, v.as_slice()),
            None => false,
        };
        if is_null {
            values.push(Value::Null);
        } else {
            values.push(Value::Text(text::string_of(part)));
        }
        assert(value::models(values@) =~= before.push(part_element(part@, n)));
    }
    assert(all.take(all.len() as int) =~= all);
    record::values_to_record_blob(values.as_slice())
}

/// The texts of the elements of an array, of which NULLs are left out unless a
/// text is given for them.
pub open spec fn shown(
    s: Seq<ValueModel>,
    null: Option<Seq<char>>,
    model: FloatModel,
) -> Seq<Seq<char>>
    decreases s.len(),
{
    if s.len() == 0 {
        Seq::empty()
    } else {
        let front = shown(s.drop_last(), null, model);
        match (s.last(), null) {
            (ValueModel::Null, None) => front,
            (ValueModel::Null, Some(t)) => front.push(t),
            (m, _) => front.push(value::printed(m, model)),
        }
    }
}

/// The texts of the elements with the delimiter between each two of them; NULL
/// where the array or the delimiter is NULL, and for what is no array.
pub open spec fn join_answer(
    arr: ValueModel,
    delimiter: ValueModel,
    null_str: Option<ValueModel>,
    model: FloatModel,
) -> Result<ValueModel, ErrorModel> {
    if arr is Null || delimiter is Null {
        Ok(ValueModel::Null)
    } else {
        array::with_elements(
            arr,
            model,
            |s: Seq<ValueModel>|
                Ok(
                    ValueModel::Text(
                        text::joined(
                            shown(s, null_text(null_str, model), model),
                            value::printed(delimiter, model),
                        ),
                    ),
                ),
        )
    }
}

/// Joins the elements of an array into a text, with a delimiter between each
/// two of them. NULLs are left out unless a text is given for them.
pub fn exec_array_to_string<R: Fn(&str) -> Option<u64>, S: Fn(u64, FloatStyle) -> String>(
    arr: &Value,
    delimiter: &Value,
    null_str: Option<&Value>,
    floats: &FloatText<R, S>,
) -> (r: Result<Value, LimboError>)
    requires
        delimiter@ is Null || array::is_defined(arr@, floats@),
    ensures
        record::answer(r) == join_answer(arr@, delimiter@, given(null_str), floats@),
{
    if arr.is_null() || delimiter.is_null() {
        return Ok(Value::Null);
    }
    let delim = delimiter.print(floats);
    let replacement = null_text_of(null_str, floats);
    let elements = match array::array_values_from_any(arr, floats) {
        Err(e) => return Err(e),
        Ok(None) => return Ok(Value::Null),
        Ok(Some(v)) => v,
    };
    let ghost s = value::models(elements@);
    let ghost n = null_text(given(null_str), floats@);
    let mut result = String::new();
    let mut first = true;
    assert(s.take(0) =~= Seq::<ValueModel>::empty());
    assert(result@ =~= Seq::<char>::empty());
    for i in 0..elements.len()
        invariant
            s == value::models(elements@),
            n == match replacement {
                Some(t) => Some(t@),
                None => None::<Seq<char>>,
            },
            first == (shown(s.take(i as int), n, floats@).len() == 0),
            result@ == text::joined(shown(s.take(i as int), n, floats@), delim@),
    {
        let ghost before = shown(s.take(i as int), n, floats@);
        assert(s.take(i + 1).drop_last() =~= s.take(i as int));
        assert(s.take(i + 1).last() == elements@[i as int]@);
        let part = match (&elements[i], &replacement) {
            (Value::Null, None) => None,
            (Value::Null, Some(t)) => Some(t.as_str().to_owned()),
            (v, _) => Some(v.print(floats)),
        };
        if let Some(part) = part {
            proof {
                text::lemma_joined_push(before, part@, delim@);
            }
            if !first {
                result.append(delim.as_str());
            }
            result.append(part.as_str());
            first = false;
        }
    }
    assert(s.take(s.len() as int) =~= s);
    Ok(Value::Text(result))
}

} // verus!
