//! What holds of the functions that build, measure and compare arrays.

use vstd::prelude::*;

use crate::array::{self, Register};
use crate::coercion;
use crate::comparison;
use crate::error::{ErrorModel, LimboError};
use crate::floats::FloatModel;
use crate::laws;
use crate::literal::{self, Literal};
use crate::order::Order;
use crate::record;
use crate::unnest::{self, ConstraintInfo, ConstraintOp};
use crate::value::{self, Value, ValueModel};

verus! {

/// What is an array: NULL is the empty one, and numbers are none. A record has
/// the values of its bytes.
pub proof fn law_what_is_an_array(m: ValueModel, model: FloatModel)
    ensures
        m is Null ==> laws::has_elements(m, Seq::empty(), model),
        value::is_numeric(m) ==> array::elements_of(m, model) == Ok::<
            Option<Seq<ValueModel>>,
            ErrorModel,
        >(None),
        m matches ValueModel::Blob(b) ==> array::elements_of(m, model) == Ok::<
            Option<Seq<ValueModel>>,
            ErrorModel,
        >(record::record_values(b)),
{
}

/// What appending and prepending answer: the record of the elements with one
/// more. What is no array gives NULL, and what cannot be read is refused.
pub proof fn law_added(arr: ValueModel, elem: ValueModel, model: FloatModel)
    ensures
        match array::elements_of(arr, model) {
            Ok(Some(s)) => {
                &&& array::append_answer(arr, elem, model) == record::packed(s + seq![elem])
                &&& array::prepend_answer(arr, elem, model) == record::packed(seq![elem] + s)
            },
            Ok(None) => {
                &&& array::append_answer(arr, elem, model) == Ok::<ValueModel, ErrorModel>(
                    ValueModel::Null,
                )
                &&& array::prepend_answer(arr, elem, model) == Ok::<ValueModel, ErrorModel>(
                    ValueModel::Null,
                )
            },
            Err(e) => {
                &&& array::append_answer(arr, elem, model) == Err::<ValueModel, ErrorModel>(e)
                &&& array::prepend_answer(arr, elem, model) == Err::<ValueModel, ErrorModel>(e)
            },
        },
{
    if let Ok(Some(s)) = array::elements_of(arr, model) {
        assert(s.push(elem) =~= s + seq![elem]);
    }
}

/// What putting two arrays in a row answers: NULL where either is NULL; else the
/// record of the elements of both, where both are arrays. The first is looked at
/// first: where it is no array the answer is NULL whatever the second is.
pub proof fn law_in_a_row(a: ValueModel, b: ValueModel, model: FloatModel)
    ensures
        a is Null || b is Null ==> array::cat_answer(a, b, model) == Ok::<ValueModel, ErrorModel>(
            ValueModel::Null,
        ),
        a !is Null && b !is Null ==> array::cat_answer(a, b, model) == match (
            array::elements_of(a, model),
            array::elements_of(b, model),
        ) {
            (Ok(Some(s)), Ok(Some(t))) => record::packed(s + t),
            (Err(e), _) => Err(e),
            (Ok(Some(_)), Err(e)) => Err(e),
            _ => Ok(ValueModel::Null),
        },
{
}

proof fn lemma_filtered(s: Seq<ValueModel>, target: ValueModel)
    ensures
        array::without(s, target) == s.filter(|m: ValueModel| !value::same_value(m, target)),
    decreases s.len(),
{
    reveal(Seq::filter);
    if s.len() > 0 {
        lemma_filtered(s.drop_last(), target);
    } else {
        assert(array::without(s, target) =~= s);
    }
}

/// What removing a value answers: the record of the elements that are not the
/// same, in their order, however often each occurs.
pub proof fn law_removed(arr: ValueModel, target: ValueModel, model: FloatModel)
    ensures
        arr is Null ==> array::remove_answer(arr, target, model) == Ok::<ValueModel, ErrorModel>(
            ValueModel::Null,
        ),
        arr !is Null ==> array::remove_answer(arr, target, model) == match array::elements_of(
            arr,
            model,
        ) {
            Ok(Some(s)) => record::packed(
                s.filter(|m: ValueModel| !value::same_value(m, target)),
            ),
            Ok(None) => Ok(ValueModel::Null),
            Err(e) => Err(e),
        },
{
    if let Ok(Some(s)) = array::elements_of(arr, model) {
        lemma_filtered(s, target);
    }
}

/// The first element of a slice by its lower bound, counted from one.
pub open spec fn lowest(start: ValueModel) -> int {
    match start {
        ValueModel::Integer(i) => if i >= 1 {
            i as int
        } else {
            1
        },
        _ => 1,
    }
}

/// The last element of a slice by its upper bound, counted from one, in an array
/// of so many elements; zero where there is none.
pub open spec fn highest(end: ValueModel, len: int) -> int {
    match end {
        ValueModel::Integer(i) => if i > len {
            len
        } else if i >= 1 {
            i as int
        } else {
            0
        },
        _ => 0,
    }
}

/// What a slice answers: the record of the elements from the one bound to the
/// other, both counted from one and in the slice.
pub proof fn law_sliced(
    arr: ValueModel,
    start: ValueModel,
    end: ValueModel,
    model: FloatModel,
)
    ensures
        arr is Null ==> array::slice_answer(arr, start, end, model) == Ok::<ValueModel, ErrorModel>(
            ValueModel::Null,
        ),
        arr !is Null ==> array::slice_answer(arr, start, end, model) == match array::elements_of(
            arr,
            model,
        ) {
            Ok(Some(s)) => {
                let (low, high) = (lowest(start), highest(end, s.len() as int));
                let n = if low <= high {
                    high - low + 1
                } else {
                    0
                };
                record::packed(Seq::new(n as nat, |i: int| s[low - 1 + i]))
            },
            Ok(None) => Ok(ValueModel::Null),
            Err(e) => Err(e),
        },
{
    if let Ok(Some(s)) = array::elements_of(arr, model) {
        let (low, high) = (lowest(start), highest(end, s.len() as int));
        let n = if low <= high {
            high - low + 1
        } else {
            0
        };
        let (first, stop) = array::slice_range(start, end, s.len() as int);
        assert(s.subrange(first, stop) =~= Seq::new(n as nat, |i: int| s[low - 1 + i]));
    }
}

/// The length at a depth below the first is that of the first element at one
/// depth less; there is none where there is no first element.
pub proof fn law_length_deeper(m: ValueModel, dim: int, model: FloatModel)
    requires
        dim > 1,
    ensures
        array::length_at(m, dim, model) == match array::elements_of(m, model) {
            Ok(Some(s)) => if s.len() > 0 {
                array::length_at(s[0], dim - 1, model)
            } else {
                Ok(None)
            },
            Ok(None) => Ok(None),
            Err(e) => Err(e),
        },
{
}

/// Bytes that are no record have no length, and those that start as one have as
/// many elements as its header announces.
pub proof fn law_length_of_bytes(b: Seq<u8>)
    ensures
        array::length_of(ValueModel::Blob(b)) == match record::record_items(b) {
            Some(s) => Some(s.len() as i64),
            None => None,
        },
{
}

/// Two arrays compare as the first elements do in which they differ.
pub proof fn law_first_difference(
    a: Seq<u8>,
    b: Seq<u8>,
    s: Seq<ValueModel>,
    t: Seq<ValueModel>,
    k: int,
)
    requires
        record::record_values(a) == Some(s),
        record::record_values(b) == Some(t),
        0 <= k < s.len(),
        k < t.len(),
        forall|i: int| 0 <= i < k ==> value::same_value(#[trigger] s[i], t[i]),
        !value::same_value(s[k], t[k]),
    ensures
        comparison::arrays_order(a, b) == Some(value::value_order(s[k], t[k])),
{
    lemma_common_start(s, t, 0, k);
    value::law_order_equal(s[k], t[k]);
}

proof fn lemma_common_start(s: Seq<ValueModel>, t: Seq<ValueModel>, from: int, to: int)
    requires
        0 <= from <= to <= s.len(),
        to <= t.len(),
        forall|i: int| from <= i < to ==> value::same_value(#[trigger] s[i], t[i]),
    ensures
        comparison::rows_order(s, t, from) == comparison::rows_order(s, t, to),
    decreases to - from,
{
    if from < to {
        value::law_order_equal(s[from], t[from]);
        lemma_common_start(s, t, from + 1, to);
    }
}

/// Where no elements differ in the length of the shorter array, arrays compare by
/// their lengths.
pub proof fn law_lengths_decide(
    a: Seq<u8>,
    b: Seq<u8>,
    s: Seq<ValueModel>,
    t: Seq<ValueModel>,
)
    requires
        record::record_values(a) == Some(s),
        record::record_values(b) == Some(t),
        forall|i: int|
            0 <= i < s.len() && i < t.len() ==> value::same_value(#[trigger] s[i], t[i]),
    ensures
        comparison::arrays_order(a, b) == Some(
            if s.len() < t.len() {
                Order::Less
            } else if s.len() == t.len() {
                Order::Equal
            } else {
                Order::Greater
            },
        ),
{
    let n = if s.len() < t.len() {
        s.len()
    } else {
        t.len()
    };
    lemma_common_start(s, t, 0, n as int);
}

/// The rows of the table are the elements of the first argument, where it is an
/// array; else there are none.
pub proof fn law_rows_for(args: Seq<Value>, model: FloatModel)
    ensures
        args.len() == 0 ==> unnest::rows_for(args, model).len() == 0,
        args.len() > 0 ==> match array::elements_of(args[0]@, model) {
            Ok(Some(s)) => unnest::rows_for(args, model) == s,
            _ => unnest::rows_for(args, model).len() == 0,
        },
{
}

/// Whether a constraint gives the array by an equality on the second column,
/// with a value that is known.
pub open spec fn gives_known_array(c: ConstraintInfo) -> bool {
    c.op == ConstraintOp::Eq && c.column_index == 1 && c.usable
}

/// The constraint that gives the array is the last that does and is known. A plan
/// is refused just where some constraint gives the array and none is known.
pub proof fn law_array_is_given(s: Seq<ConstraintInfo>)
    ensures
        match unnest::array_given_at(s) {
            Some(k) => {
                &&& 0 <= k < s.len()
                &&& gives_known_array(s[k])
                &&& forall|i: int| k < i < s.len() ==> !gives_known_array(#[trigger] s[i])
            },
            None => forall|i: int| 0 <= i < s.len() ==> !gives_known_array(#[trigger] s[i]),
        },
        unnest::array_unusable(s) <==> {
            &&& exists|i: int|
                0 <= i < s.len() && (#[trigger] s[i]).op == ConstraintOp::Eq && s[i].column_index
                    == 1
            &&& forall|i: int| 0 <= i < s.len() ==> !gives_known_array(#[trigger] s[i])
        },
    decreases s.len(),
{
    if s.len() > 0 {
        let front = s.drop_last();
        law_array_is_given(front);
        if !gives_known_array(s.last()) {
            match unnest::array_given_at(front) {
                Some(k) => {
                    assert(s[k] == front[k]);
                    assert forall|i: int| k < i < s.len() implies !gives_known_array(
                        #[trigger] s[i],
                    ) by {
                        if i < front.len() {
                            assert(s[i] == front[i]);
                        }
                    }
                },
                None => {
                    assert forall|i: int| 0 <= i < s.len() implies !gives_known_array(
                        #[trigger] s[i],
                    ) by {
                        if i < front.len() {
                            assert(s[i] == front[i]);
                        }
                    }
                },
            }
        }
    }
    if exists|i: int|
        0 <= i < s.len() && (#[trigger] s[i]).op == ConstraintOp::Eq && s[i].column_index == 1 {
        let i = choose|i: int|
            0 <= i < s.len() && (#[trigger] s[i]).op == ConstraintOp::Eq && s[i].column_index == 1;
        assert(unnest::gives_array(s[i]));
    }
    if unnest::array_unusable(s) {
        let i = choose|i: int| 0 <= i < s.len() && unnest::gives_array(#[trigger] s[i]);
        assert(s[i].op == ConstraintOp::Eq && s[i].column_index == 1);
    }
}

/// The constraint that gives the array becomes the first argument and is not
/// tested any more; no other constraint is used.
pub proof fn law_constraints_are_used(n: nat, at: Option<int>, i: int)
    requires
        0 <= i < n,
    ensures
        unnest::usages(n, at).len() == n,
        unnest::usages(n, at)[i].omit == (at == Some(i)),
        unnest::usages(n, at)[i].argv_index == if at == Some(i) {
            Some(1u32)
        } else {
            None
        },
{
}

/// An answer has the contents of what is answered, and a refusal stays one.
pub proof fn law_answers(
    v: Value,
    row: Vec<Value>,
    n: Option<i64>,
    e: LimboError,
    register: Register,
)
    ensures
        record::answer(Ok(v)) == Ok::<ValueModel, ErrorModel>(v@),
        record::answer(Err(e)) == Err::<ValueModel, ErrorModel>(e@),
        literal::row_answer(Ok(Some(row))) == Ok::<Option<Seq<ValueModel>>, ErrorModel>(
            Some(value::models(row@)),
        ),
        literal::row_answer(Ok(None)) == Ok::<Option<Seq<ValueModel>>, ErrorModel>(None),
        literal::row_answer(Err(e)) == Err::<Option<Seq<ValueModel>>, ErrorModel>(e@),
        coercion::values_answer(Ok(row)) == Ok::<Seq<ValueModel>, ErrorModel>(
            value::models(row@),
        ),
        coercion::values_answer(Err(e)) == Err::<Seq<ValueModel>, ErrorModel>(e@),
        array::count_answer(Ok(n)) == Ok::<Option<i64>, ErrorModel>(n),
        array::count_answer(Err(e)) == Err::<Option<i64>, ErrorModel>(e@),
        e matches LimboError::Constraint(s) ==> e@ == ErrorModel::Constraint(s@),
        e is Corrupt <==> e@ is Corrupt,
        e is TooBig <==> e@ is TooBig,
        array::register_value(Register::Value(v)) == v@,
{
}

/// What a text is as an array follows from what it is as a literal. An array of
/// arrays is refused with a text that says so.
pub proof fn law_texts_as_arrays(s: Seq<char>, model: FloatModel)
    ensures
        array::elements_of(ValueModel::Text(s), model) == match literal::literal_of(s, model) {
            Literal::Elements(vs) => Ok(Some(vs)),
            Literal::NotArray => Ok(None),
            Literal::Nested => Err(
                ErrorModel::Constraint(
                    "multidimensional array literals are not supported on this engine build"@,
                ),
            ),
            Literal::Undefined => Ok(None),
        },
{
}

} // verus!
