//! Bringing values to a common type before they are compared.

use vstd::prelude::*;

use crate::error::{ErrorModel, LimboError};
use crate::floats::{self, FloatModel, FloatStyle, FloatText};
use crate::numerals;
use crate::text;
use crate::value::{self, Numeric, Value, ValueModel};

verus! {

/// What the text of a coercion's refusal starts with, so that it can be told
/// from other refusals: for `= ANY`, `@>`, `<@`, `&&` and `array_position`.
pub const ARRAY_ANY_COERCION_MARKER: &'static str = "\u{1}array-any-coercion\u{1}";

/// A refusal of a coercion.
pub open spec fn refusal(message: Seq<char>) -> ErrorModel {
    ErrorModel::Constraint(ARRAY_ANY_COERCION_MARKER@ + message)
}

/// The refusal of a text that spells no number.
pub open spec fn no_number(s: Seq<char>) -> ErrorModel {
    refusal("invalid input syntax for type numeric: \""@ + s + "\""@)
}

/// The refusal of an element that cannot be compared with a value.
pub open spec fn element_mismatch() -> ErrorModel {
    refusal(
        "array element type does not match the comparison value's type on this engine build; cast the array to the column's array type"@,
    )
}

/// The refusal of arrays that cannot be compared with each other.
pub open spec fn array_mismatch() -> ErrorModel {
    refusal(
        "array element type does not match the other array's element type on this engine build; cast both arrays to the same array type"@,
    )
}

/// The number that a text spells, with white space around it: an integer or a
/// finite floating-point number.
pub open spec fn text_number(s: Seq<char>, model: FloatModel) -> Result<ValueModel, ErrorModel> {
    let t = text::trimmed(s);
    match numerals::integer_of(t) {
        Some(i) => Ok(ValueModel::Integer(i as i64)),
        None => match (model.reads)(t) {
            Some(bits) => if floats::is_finite_bits(bits) {
                Ok(ValueModel::Float(bits))
            } else {
                Err(no_number(s))
            },
            None => Err(no_number(s)),
        },
    }
}

/// The text of a number.
pub open spec fn number_text(m: ValueModel, model: FloatModel) -> Seq<char> {
    match m {
        ValueModel::Integer(i) => numerals::integer_text(i as int),
        ValueModel::Float(bits) => (model.shows)(bits, FloatStyle::Bare),
        _ => Seq::empty(),
    }
}

/// An element in the type of the value that it is compared with: a text against
/// a number is read as a number, a number against a text is written as a text,
/// and a blob goes only with blobs.
pub open spec fn element_for(m: ValueModel, probe: ValueModel, model: FloatModel) -> Result<
    ValueModel,
    ErrorModel,
> {
    if m is Null || probe is Null || value::class_rank(m) == value::class_rank(probe) {
        Ok(m)
    } else if m is Blob || probe is Blob {
        Err(element_mismatch())
    } else {
        match m {
            ValueModel::Text(s) => text_number(s, model),
            _ => Ok(ValueModel::Text(number_text(m, model))),
        }
    }
}

/// What becomes of all elements, or the first refusal.
pub open spec fn each(
    s: Seq<ValueModel>,
    f: spec_fn(ValueModel) -> Result<ValueModel, ErrorModel>,
) -> Result<Seq<ValueModel>, ErrorModel>
    decreases s.len(),
{
    if s.len() == 0 {
        Ok(Seq::empty())
    } else {
        match each(s.drop_last(), f) {
            Err(e) => Err(e),
            Ok(done) => match f(s.last()) {
                Err(e) => Err(e),
                Ok(m) => Ok(done.push(m)),
            },
        }
    }
}

/// A refusal of the first elements is a refusal of all.
proof fn lemma_each_refused(
    s: Seq<ValueModel>,
    f: spec_fn(ValueModel) -> Result<ValueModel, ErrorModel>,
    n: int,
)
    requires
        0 <= n <= s.len(),
        each(s.take(n), f) is Err,
    ensures
        each(s, f) == each(s.take(n), f),
    decreases s.len(),
{
    if n == s.len() {
        assert(s.take(n) =~= s);
    } else {
        assert(s.drop_last().take(n) =~= s.take(n));
        lemma_each_refused(s.drop_last(), f, n);
    }
}

/// The elements in the type of the value that they are compared with.
pub open spec fn elements_for(s: Seq<ValueModel>, probe: ValueModel, model: FloatModel) -> Result<
    Seq<ValueModel>,
    ErrorModel,
> {
    each(s, |m: ValueModel| element_for(m, probe, model))
}

/// Whether there is a number among the values.
pub open spec fn has_numeric(s: Seq<ValueModel>) -> bool {
    exists|i: int| 0 <= i < s.len() && value::is_numeric(#[trigger] s[i])
}

/// Whether there is a text among the values.
pub open spec fn has_text(s: Seq<ValueModel>) -> bool {
    exists|i: int| 0 <= i < s.len() && (#[trigger] s[i]) is Text
}

/// Whether there is a blob among the values.
pub open spec fn has_blob(s: Seq<ValueModel>) -> bool {
    exists|i: int| 0 <= i < s.len() && (#[trigger] s[i]) is Blob
}

/// The values with their texts read as numbers.
pub open spec fn numbers_for(s: Seq<ValueModel>, model: FloatModel) -> Result<
    Seq<ValueModel>,
    ErrorModel,
> {
    each(
        s,
        |m: ValueModel|
            match m {
                ValueModel::Text(t) => text_number(t, model),
                _ => Ok(m),
            },
    )
}

/// Two arrays in types that can be compared: where one side has numbers and the
/// other texts, all texts are read as numbers. Blobs on one side go only with
/// blobs on the other.
pub open spec fn sides_for(
    a: Seq<ValueModel>,
    b: Seq<ValueModel>,
    model: FloatModel,
) -> Result<(Seq<ValueModel>, Seq<ValueModel>), ErrorModel> {
    if (has_blob(a) && (has_numeric(b) || has_text(b))) || (has_blob(b) && (has_numeric(a)
        || has_text(a))) {
        Err(array_mismatch())
    } else if (has_numeric(a) && has_text(b)) || (has_text(a) && has_numeric(b)) {
        match (numbers_for(a, model), numbers_for(b, model)) {
            (Err(e), _) => Err(e),
            (_, Err(e)) => Err(e),
            (Ok(x), Ok(y)) => Ok((x, y)),
        }
    } else {
        Ok((a, b))
    }
}

/// Makes a refusal of a coercion.
pub fn coercion_refusal(message: &str) -> (r: LimboError)
    ensures
        r@ == refusal(message@),
{
    let mut s = ARRAY_ANY_COERCION_MARKER.to_owned();
    s.append(message);
    LimboError::Constraint(s)
}

/// Reads a text as a number.
pub fn coerce_text_to_numeric<R: Fn(&str) -> Option<u64>, S: Fn(u64, FloatStyle) -> String>(
    text: &str,
    floats: &FloatText<R, S>,
) -> (r: Result<Value, LimboError>)
    ensures
        crate::record::answer(r) == text_number(text@, floats@),
{
    let chars = text::chars_of(text);
    let t = text::trim(chars.as_slice());
    if let Some(i) = numerals::read_integer(t) {
        return Ok(Value::from_i64(i));
    }
    if let Some(bits) = floats.read(text::string_of(t).as_str()) {
        if floats::is_finite(bits) {
            return Ok(Value::from_float_bits(bits));
        }
    }
    let mut message = "invalid input syntax for type numeric: \"".to_owned();
    message.append(text);
    message.append("\"");
    Err(coercion_refusal(message.as_str()))
}

/// Writes a number as a text. A small whole number has no point, also where it
/// is held as a floating-point number.
pub fn numeric_as_text<R: Fn(&str) -> Option<u64>, S: Fn(u64, FloatStyle) -> String>(
    n: &Numeric,
    floats: &FloatText<R, S>,
) -> (r: String)
    ensures
        r@ == number_text(Value::Numeric(*n)@, floats@),
        n matches Numeric::Float(x) ==> floats::is_small_whole(x@) && x@ != floats::SIGN_BIT ==> r@
            == numerals::integer_text(floats::whole_number(x@)),
{
    proof {
        use_type_invariant(floats);
        floats.lemma_reads_what_it_shows();
    }
    match n {
        Numeric::Integer(i) => text::string_of(numerals::write_integer(*i).as_slice()),
        Numeric::Float(x) => floats.show(x.bits(), FloatStyle::Bare),
    }
}

/// Brings an element to the type of the value that it is compared with.
fn coerce_element<R: Fn(&str) -> Option<u64>, S: Fn(u64, FloatStyle) -> String>(
    element: Value,
    probe: &Value,
    floats: &FloatText<R, S>,
) -> (r: Result<Value, LimboError>)
    ensures
        crate::record::answer(r) == element_for(element@, probe@, floats@),
{
    match (&element, probe) {
        (Value::Text(t), Value::Numeric(_)) => coerce_text_to_numeric(t.as_str(), floats),
        (Value::Numeric(n), Value::Text(_)) => Ok(Value::Text(numeric_as_text(n, floats))),
        (Value::Null, _) => Ok(element),
        (_, Value::Null) => Ok(element),
        (Value::Numeric(_), Value::Numeric(_)) => Ok(element),
        (Value::Text(_), Value::Text(_)) => Ok(element),
        (Value::Blob(_), Value::Blob(_)) => Ok(element),
        _ => Err(
            coercion_refusal(
                "array element type does not match the comparison value's type on this engine build; cast the array to the column's array type",
            ),
        ),
    }
}

/// The contents of an answer that is a row of values.
pub open spec fn values_answer(r: Result<Vec<Value>, LimboError>) -> Result<
    Seq<ValueModel>,
    ErrorModel,
> {
    match r {
        Ok(v) => Ok(value::models(v@)),
        Err(e) => Err(e@),
    }
}

/// Brings every element to the type of the value that it is compared with. One
/// element that cannot be brought to it refuses all.
pub fn coerce_elements_for_probe<R: Fn(&str) -> Option<u64>, S: Fn(u64, FloatStyle) -> String>(
    elements: Vec<Value>,
    probe: &Value,
    floats: &FloatText<R, S>,
) -> (r: Result<Vec<Value>, LimboError>)
    ensures
        values_answer(r) == elements_for(value::models(elements@), probe@, floats@),
{
    let ghost s = value::models(elements@);
    let ghost f = |m: ValueModel| element_for(m, probe@, floats@);
    let mut done: Vec<Value> = Vec::new();
    assert(value::models(done@) =~= Seq::<ValueModel>::empty());
    assert(s.take(0) =~= Seq::<ValueModel>::empty());
    for i in 0..elements.len()
        invariant
            s == value::models(elements@),
            f == |m: ValueModel| element_for(m, probe@, floats@),
            each(s.take(i as int), f) == Ok::<Seq<ValueModel>, ErrorModel>(value::models(done@)),
    {
        let ghost before = value::models(done@);
        proof {
            assert(s.take(i + 1).drop_last() =~= s.take(i as int));
            assert(s.take(i + 1).last() == elements@[i as int]@);
        }
        match coerce_element(elements[i].clone(), probe, floats) {
            Ok(v) => {
                done.push(v);
                assert(value::models(done@) =~= before.push(v@));
            },
            Err(e) => {
                proof {
                    lemma_each_refused(s, f, i + 1);
                }
                return Err(e);
            },
        }
    }
    assert(s.take(s.len() as int) =~= s);
    Ok(done)
}

/// Reads the texts among the values as numbers.
fn coerce_texts<R: Fn(&str) -> Option<u64>, S: Fn(u64, FloatStyle) -> String>(
    values: Vec<Value>,
    floats: &FloatText<R, S>,
) -> (r: Result<Vec<Value>, LimboError>)
    ensures
        values_answer(r) == numbers_for(value::models(values@), floats@),
{
    let ghost s = value::models(values@);
    let ghost f = |m: ValueModel|
        match m {
            ValueModel::Text(t) => text_number(t, floats@),
            _ => Ok(m),
        };
    let mut done: Vec<Value> = Vec::new();
    assert(value::models(done@) =~= Seq::<ValueModel>::empty());
    assert(s.take(0) =~= Seq::<ValueModel>::empty());
    for i in 0..values.len()
        invariant
            s == value::models(values@),
            f == |m: ValueModel|
                match m {
                    ValueModel::Text(t) => text_number(t, floats@),
                    _ => Ok(m),
                },
            each(s.take(i as int), f) == Ok::<Seq<ValueModel>, ErrorModel>(value::models(done@)),
    {
        let ghost before = value::models(done@);
        proof {
            assert(s.take(i + 1).drop_last() =~= s.take(i as int));
            assert(s.take(i + 1).last() == values@[i as int]@);
        }
        let next = match &values[i] {
            Value::Text(t) => coerce_text_to_numeric(t.as_str(), floats),
            other => Ok(other.clone()),
        };
        match next {
            Ok(v) => {
                done.push(v);
                assert(value::models(done@) =~= before.push(v@));
            },
            Err(e) => {
                proof {
                    lemma_each_refused(s, f, i + 1);
                }
                return Err(e);
            },
        }
    }
    assert(s.take(s.len() as int) =~= s);
    Ok(done)
}

/// Whether there are numbers, texts and blobs among the values.
fn classes(values: &[Value]) -> (r: (bool, bool, bool))
    ensures
        r.0 == has_numeric(value::models(values@)),
        r.1 == has_text(value::models(values@)),
        r.2 == has_blob(value::models(values@)),
{
    let ghost s = value::models(values@);
    let mut numeric = false;
    let mut text = false;
    let mut blob = false;
    for i in 0..values.len()
        invariant
            s == value::models(values@),
            numeric <==> exists|j: int| 0 <= j < i && value::is_numeric(#[trigger] s[j]),
            text <==> exists|j: int| 0 <= j < i && (#[trigger] s[j]) is Text,
            blob <==> exists|j: int| 0 <= j < i && (#[trigger] s[j]) is Blob,
    {
        assert(s[i as int] == values@[i as int]@);
        match &values[i] {
            Value::Numeric(_) => {
                assert(value::is_numeric(s[i as int]));
                numeric = true;
            },
            Value::Text(_) => {
                assert(s[i as int] is Text);
                text = true;
            },
            Value::Blob(_) => {
                assert(s[i as int] is Blob);
                blob = true;
            },
            Value::Null => {},
        }
    }
    (numeric, text, blob)
}

/// Brings two arrays to types that can be compared.
pub fn coerce_sides<R: Fn(&str) -> Option<u64>, S: Fn(u64, FloatStyle) -> String>(
    a: Vec<Value>,
    b: Vec<Value>,
    floats: &FloatText<R, S>,
) -> (r: Result<(Vec<Value>, Vec<Value>), LimboError>)
    ensures
        match r {
            Ok((x, y)) => sides_for(value::models(a@), value::models(b@), floats@) == Ok::<
                (Seq<ValueModel>, Seq<ValueModel>),
                ErrorModel,
            >((value::models(x@), value::models(y@))),
            Err(e) => sides_for(value::models(a@), value::models(b@), floats@) == Err::<
                (Seq<ValueModel>, Seq<ValueModel>),
                ErrorModel,
            >(e@),
        },
{
    let (a_numeric, a_text, a_blob) = classes(a.as_slice());
    let (b_numeric, b_text, b_blob) = classes(b.as_slice());
    if (a_blob && (b_numeric || b_text)) || (b_blob && (a_numeric || a_text)) {
        return Err(
            coercion_refusal(
                "array element type does not match the other array's element type on this engine build; cast both arrays to the same array type",
            ),
        );
    }
    if !((a_numeric && b_text) || (a_text && b_numeric)) {
        return Ok((a, b));
    }
    match coerce_texts(a, floats) {
        Err(e) => Err(e),
        Ok(x) => match coerce_texts(b, floats) {
            Err(e) => Err(e),
            Ok(y) => Ok((x, y)),
        },
    }
}

/// Each element is brought to its type, or one of them is refused.
proof fn lemma_each(s: Seq<ValueModel>, f: spec_fn(ValueModel) -> Result<ValueModel, ErrorModel>)
    ensures
        match each(s, f) {
            Ok(t) => {
                &&& t.len() == s.len()
                &&& forall|i: int|
                    0 <= i < s.len() ==> #[trigger] f(s[i]) == Ok::<ValueModel, ErrorModel>(t[i])
            },
            Err(e) => exists|i: int|
                0 <= i < s.len() && #[trigger] f(s[i]) == Err::<ValueModel, ErrorModel>(e),
        },
    decreases s.len(),
{
    if s.len() > 0 {
        let front = s.drop_last();
        lemma_each(front, f);
        match each(front, f) {
            Err(e) => {
                let i = choose|i: int|
                    0 <= i < front.len() && #[trigger] f(front[i]) == Err::<ValueModel, ErrorModel>(
                        e,
                    );
                assert(f(s[i]) == Err::<ValueModel, ErrorModel>(e));
            },
            Ok(t) => {
                let last = s.len() - 1;
                match f(s[last]) {
                    Err(e) => {},
                    Ok(m) => {
                        assert forall|i: int| 0 <= i < s.len() implies #[trigger] f(s[i]) == Ok::<
                            ValueModel,
                            ErrorModel,
                        >(t.push(m)[i]) by {
                            if i < last {
                                assert(f(front[i]) == Ok::<ValueModel, ErrorModel>(t[i]));
                            }
                        }
                    },
                }
            },
        }
    }
}

/// Whether an error is a refusal of a coercion, which the marker shows.
pub open spec fn is_marked(e: ErrorModel) -> bool {
    exists|message: Seq<char>| e == #[trigger] refusal(message)
}

/// One element that cannot be compared with a value refuses the whole array,
/// whatever the others are; else each element is brought to its type. Every
/// refusal is marked.
pub proof fn law_one_refuses_all(s: Seq<ValueModel>, probe: ValueModel, model: FloatModel)
    ensures
        elements_for(s, probe, model) is Err <==> exists|i: int|
            0 <= i < s.len() && (#[trigger] element_for(s[i], probe, model)) is Err,
        match elements_for(s, probe, model) {
            Ok(t) => {
                &&& t.len() == s.len()
                &&& forall|i: int|
                    0 <= i < s.len() ==> #[trigger] element_for(s[i], probe, model) == Ok::<
                        ValueModel,
                        ErrorModel,
                    >(t[i])
            },
            Err(e) => is_marked(e),
        },
{
    let f = |m: ValueModel| element_for(m, probe, model);
    lemma_each(s, f);
    match elements_for(s, probe, model) {
        Ok(t) => {
            assert forall|i: int| 0 <= i < s.len() implies #[trigger] element_for(
                s[i],
                probe,
                model,
            ) == Ok::<ValueModel, ErrorModel>(t[i]) by {
                assert(f(s[i]) == Ok::<ValueModel, ErrorModel>(t[i]));
            }
        },
        Err(e) => {
            let i = choose|i: int|
                0 <= i < s.len() && #[trigger] f(s[i]) == Err::<ValueModel, ErrorModel>(e);
            assert(element_for(s[i], probe, model) == Err::<ValueModel, ErrorModel>(e));
        },
    }
}

/// Elements of the type of the value that they are compared with, and NULLs,
/// stay as they are.
pub proof fn law_same_type_stays(s: Seq<ValueModel>, probe: ValueModel, model: FloatModel)
    requires
        forall|i: int|
            0 <= i < s.len() ==> (#[trigger] s[i]) is Null || value::class_rank(s[i])
                == value::class_rank(probe),
    ensures
        elements_for(s, probe, model) == Ok::<Seq<ValueModel>, ErrorModel>(s),
{
    law_one_refuses_all(s, probe, model);
    match elements_for(s, probe, model) {
        Ok(t) => {
            assert forall|i: int| 0 <= i < s.len() implies s[i] == t[i] by {
                assert(s[i] is Null || value::class_rank(s[i]) == value::class_rank(probe));
                assert(element_for(s[i], probe, model) == Ok::<ValueModel, ErrorModel>(t[i]));
            }
            assert(s =~= t);
        },
        Err(_) => {
            let i = choose|i: int|
                0 <= i < s.len() && (#[trigger] element_for(s[i], probe, model)) is Err;
            assert(s[i] is Null || value::class_rank(s[i]) == value::class_rank(probe));
        },
    }
}

/// Two arrays whose elements, but for NULLs, are of one type stay as they are.
/// Every refusal of two arrays is marked, and arrays with blobs on one side and
/// texts or numbers on the other are refused.
pub proof fn law_sides(a: Seq<ValueModel>, b: Seq<ValueModel>, rank: int, model: FloatModel)
    ensures
        (forall|i: int|
            0 <= i < a.len() ==> (#[trigger] a[i]) is Null || value::class_rank(a[i]) == rank) && (
        forall|i: int|
            0 <= i < b.len() ==> (#[trigger] b[i]) is Null || value::class_rank(b[i]) == rank)
            ==> sides_for(a, b, model) == Ok::<(Seq<ValueModel>, Seq<ValueModel>), ErrorModel>(
            (a, b),
        ),
        sides_for(a, b, model) matches Err(e) ==> is_marked(e),
        has_blob(a) && (has_numeric(b) || has_text(b)) ==> sides_for(a, b, model) is Err,
        has_blob(b) && (has_numeric(a) || has_text(a)) ==> sides_for(a, b, model) is Err,
{
    let f = |m: ValueModel|
        match m {
            ValueModel::Text(t) => text_number(t, model),
            _ => Ok(m),
        };
    lemma_each(a, f);
    lemma_each(b, f);
    if let Err(e) = sides_for(a, b, model) {
        if numbers_for(a, model) == Err::<Seq<ValueModel>, ErrorModel>(e) {
            let i = choose|i: int|
                0 <= i < a.len() && #[trigger] f(a[i]) == Err::<ValueModel, ErrorModel>(e);
            assert(is_marked(e));
        } else if numbers_for(b, model) == Err::<Seq<ValueModel>, ErrorModel>(e) {
            let i = choose|i: int|
                0 <= i < b.len() && #[trigger] f(b[i]) == Err::<ValueModel, ErrorModel>(e);
            assert(is_marked(e));
        }
    }
}

} // verus!
