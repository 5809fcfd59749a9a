//! What holds of looking for values in arrays.

use vstd::prelude::*;

use crate::array;
use crate::coercion;
use crate::error::ErrorModel;
use crate::floats::FloatModel;
use crate::laws;
use crate::membership;
use crate::ordered;
use crate::record;
use crate::value::{self, ValueModel};

verus! {

/// Whether an item of a record is the first that is the same as a value, with
/// nothing but values before it.
pub open spec fn is_first_item(
    items: Seq<Option<ValueModel>>,
    target: ValueModel,
    i: int,
) -> bool {
    &&& 0 <= i < items.len()
    &&& items[i] matches Some(m) && value::same_value(m, target)
    &&& forall|j: int|
        0 <= j < i ==> (#[trigger] items[j] matches Some(m) && !value::same_value(m, target))
}

/// Whether an element is the first that is the same as a value.
pub open spec fn is_first(s: Seq<ValueModel>, target: ValueModel, i: int) -> bool {
    &&& 0 <= i < s.len()
    &&& value::same_value(s[i], target)
    &&& forall|j: int| 0 <= j < i ==> !value::same_value(#[trigger] s[j], target)
}

proof fn lemma_place(s: Seq<ValueModel>, target: ValueModel, i: int)
    requires
        is_first(s, target, i),
    ensures
        membership::place_of(s, target, 0) == Some(i),
{
    lemma_place_from(s, target, 0, i);
}

proof fn lemma_place_from(s: Seq<ValueModel>, target: ValueModel, from: int, to: int)
    requires
        0 <= from <= to <= s.len(),
        forall|j: int| from <= j < to ==> !value::same_value(#[trigger] s[j], target),
    ensures
        membership::place_of(s, target, from) == membership::place_of(s, target, to),
    decreases to - from,
{
    if from < to {
        lemma_place_from(s, target, from + 1, to);
    }
}

proof fn lemma_readable_items(items: Seq<Option<ValueModel>>, j: int)
    requires
        0 <= j < membership::readable(items).len(),
    ensures
        membership::readable(items).len() <= items.len(),
        items[j] == Some(membership::readable(items)[j]),
        forall|k: int| 0 <= k <= j ==> (#[trigger] items[k]) is Some,
    decreases items.len(),
{
    let rest = items.skip(1);
    if j > 0 {
        lemma_readable_items(rest, j - 1);
        assert(membership::readable(items)[j] == membership::readable(rest)[j - 1]);
        assert forall|k: int| 0 <= k <= j implies (#[trigger] items[k]) is Some by {
            if k > 0 {
                assert(items[k] == rest[k - 1]);
            }
        }
    } else {
        lemma_readable_len(items);
    }
}

proof fn lemma_readable_len(items: Seq<Option<ValueModel>>)
    ensures
        membership::readable(items).len() <= items.len(),
    decreases items.len(),
{
    if items.len() > 0 {
        lemma_readable_len(items.skip(1));
    }
}

proof fn lemma_first_item(items: Seq<Option<ValueModel>>, target: ValueModel)
    ensures
        match membership::place_of(membership::readable(items), target, 0) {
            Some(i) => is_first_item(items, target, i),
            None => forall|i: int| !#[trigger] is_first_item(items, target, i),
        },
{
    let s = membership::readable(items);
    lemma_scan(s, target, 0);
    match membership::place_of(s, target, 0) {
        Some(i) => {
            lemma_readable_items(items, i);
            assert forall|j: int| 0 <= j < i implies (#[trigger] items[j] matches Some(m)
                && !value::same_value(m, target)) by {
                lemma_readable_items(items, j);
                assert(!value::same_value(s[j], target));
            }
        },
        None => {
            assert forall|i: int| !#[trigger] is_first_item(items, target, i) by {
                if is_first_item(items, target, i) {
                    assert forall|j: int| 0 <= j < i + 1 implies (#[trigger] items[j]) is Some by {
                        if j < i {
                            assert(items[j] matches Some(m) && !value::same_value(m, target));
                        }
                    }
                    membership::lemma_readable(items, i + 1);
                    assert(s[i] == items[i]->0);
                }
            }
        },
    }
}

proof fn lemma_scan(s: Seq<ValueModel>, target: ValueModel, from: int)
    requires
        0 <= from <= s.len(),
        forall|j: int| 0 <= j < from ==> !value::same_value(#[trigger] s[j], target),
    ensures
        match membership::place_of(s, target, from) {
            Some(i) => is_first(s, target, i),
            None => forall|j: int| 0 <= j < s.len() ==> !value::same_value(#[trigger] s[j], target),
        },
    decreases s.len() - from,
{
    if from < s.len() && !value::same_value(s[from], target) {
        lemma_scan(s, target, from + 1);
    }
}

/// What a search of a record answers: one and the place of the first item that
/// is the same as the value, counted from one; or zero and NULL where there is no
/// such item before one that is no value. Bytes that are no record hold nothing.
pub proof fn law_search_of_records(b: Seq<u8>, target: ValueModel, model: FloatModel)
    ensures
        ({
            let arr = ValueModel::Blob(b);
            let found = membership::contains_answer(arr, target, model);
            let place = membership::position_answer(arr, target, model);
            match record::record_items(b) {
                Some(items) => {
                    &&& forall|i: int| #[trigger]
                        is_first_item(items, target, i) ==> found == Ok::<ValueModel, ErrorModel>(
                            ValueModel::Integer(1),
                        ) && place == Ok::<ValueModel, ErrorModel>(
                            ValueModel::Integer((i + 1) as i64),
                        )
                    &&& (forall|i: int| !#[trigger] is_first_item(items, target, i)) ==> found
                        == Ok::<ValueModel, ErrorModel>(ValueModel::Integer(0)) && place == Ok::<
                        ValueModel,
                        ErrorModel,
                    >(ValueModel::Null)
                },
                None => found == Ok::<ValueModel, ErrorModel>(ValueModel::Integer(0)) && place
                    == Ok::<ValueModel, ErrorModel>(ValueModel::Null),
            }
        }),
{
    if let Some(items) = record::record_items(b) {
        lemma_first_item(items, target);
        if let Some(k) = membership::place_of(membership::readable(items), target, 0) {
            assert forall|i: int| #[trigger] is_first_item(items, target, i) implies i == k by {
                if i < k {
                    assert(items[i] matches Some(m) && !value::same_value(m, target));
                }
                if k < i {
                    assert(items[k] matches Some(m) && !value::same_value(m, target));
                }
            }
        }
    }
}

/// What a search of an array that values were packed into answers.
pub proof fn law_search_of_packed(s: Seq<ValueModel>, target: ValueModel, model: FloatModel)
    requires
        laws::are_values(s),
        record::packed(s) is Ok,
    ensures
        ({
            let arr = record::packed(s)->Ok_0;
            let found = membership::contains_answer(arr, target, model);
            let place = membership::position_answer(arr, target, model);
            &&& forall|i: int| #[trigger]
                is_first(s, target, i) ==> found == Ok::<ValueModel, ErrorModel>(
                    ValueModel::Integer(1),
                ) && place == Ok::<ValueModel, ErrorModel>(ValueModel::Integer((i + 1) as i64))
            &&& (forall|i: int| 0 <= i < s.len() ==> !value::same_value(#[trigger] s[i], target))
                ==> found == Ok::<ValueModel, ErrorModel>(ValueModel::Integer(0)) && place == Ok::<
                ValueModel,
                ErrorModel,
            >(ValueModel::Null)
        }),
{
    record::law_record_reads_back(s);
    let b = record::record_bytes(s);
    let items = record::record_items(b)->0;
    let values = record::record_values(b)->0;
    assert forall|i: int| 0 <= i < s.len() implies (#[trigger] items[i]) == Some(s[i]) by {
        assert(values[i] == s[i]);
    }
    law_search_of_records(b, target, model);
    assert forall|i: int| #[trigger] is_first(s, target, i) implies is_first_item(
        items,
        target,
        i,
    ) by {
        assert forall|j: int| 0 <= j < i implies (#[trigger] items[j] matches Some(m)
            && !value::same_value(m, target)) by {
            assert(!value::same_value(s[j], target));
        }
    }
    if forall|i: int| 0 <= i < s.len() ==> !value::same_value(#[trigger] s[i], target) {
        assert forall|i: int| !#[trigger] is_first_item(items, target, i) by {
            if is_first_item(items, target, i) {
                assert(!value::same_value(s[i], target));
            }
        }
    }
}

/// What a search of anything but a record answers: NULL for NULL and for what is
/// no array. Elements are compared in the type of the value; the first that
/// cannot be refuses the search.
pub proof fn law_search_of_literals(
    arr: ValueModel,
    target: ValueModel,
    t: Seq<ValueModel>,
    model: FloatModel,
)
    requires
        arr !is Blob,
    ensures
        ({
            let found = membership::contains_answer(arr, target, model);
            let place = membership::position_answer(arr, target, model);
            if arr is Null {
                found == Ok::<ValueModel, ErrorModel>(ValueModel::Null) && place == Ok::<
                    ValueModel,
                    ErrorModel,
                >(ValueModel::Null)
            } else {
                match array::elements_of(arr, model) {
                    Err(e) => found == Err::<ValueModel, ErrorModel>(e) && place == Err::<
                        ValueModel,
                        ErrorModel,
                    >(e),
                    Ok(None) => found == Ok::<ValueModel, ErrorModel>(ValueModel::Null) && place
                        == Ok::<ValueModel, ErrorModel>(ValueModel::Null),
                    Ok(Some(s)) => {
                        &&& forall|i: int, e: ErrorModel| #[trigger]
                            is_first_refused(s, target, i, e, model) ==> found == Err::<
                                ValueModel,
                                ErrorModel,
                            >(e) && place == Err::<ValueModel, ErrorModel>(e)
                        &&& are_brought(s, t, target, model) ==> {
                            &&& forall|i: int| #[trigger]
                                is_first(t, target, i) ==> found == Ok::<ValueModel, ErrorModel>(
                                    ValueModel::Integer(1),
                                ) && place == Ok::<ValueModel, ErrorModel>(
                                    ValueModel::Integer((i + 1) as i64),
                                )
                            &&& (forall|i: int|
                                0 <= i < t.len() ==> !value::same_value(#[trigger] t[i], target))
                                ==> found == Ok::<ValueModel, ErrorModel>(ValueModel::Integer(0))
                                && place == Ok::<ValueModel, ErrorModel>(ValueModel::Null)
                        }
                    },
                }
            }
        }),
{
    if arr !is Null {
        if let Ok(Some(s)) = array::elements_of(arr, model) {
            assert forall|i: int, e: ErrorModel| #[trigger]
                is_first_refused(s, target, i, e, model) implies coercion::elements_for(
                s,
                target,
                model,
            ) == Err::<Seq<ValueModel>, ErrorModel>(e) by {
                law_first_refusal(s, target, i, e, model);
            }
            if are_brought(s, t, target, model) {
                law_all_brought(s, t, target, model);
                lemma_scan(t, target, 0);
                assert forall|i: int| #[trigger] is_first(t, target, i) implies membership::place_of(
                    t,
                    target,
                    0,
                ) == Some(i) by {
                    lemma_place(t, target, i);
                }
            }
        }
    }
}

/// Whether each element of one row is what that of another becomes where it is
/// compared with a value.
pub open spec fn are_brought(
    s: Seq<ValueModel>,
    t: Seq<ValueModel>,
    probe: ValueModel,
    model: FloatModel,
) -> bool {
    s.len() == t.len() && forall|i: int|
        0 <= i < s.len() ==> #[trigger] coercion::element_for(s[i], probe, model) == Ok::<
            ValueModel,
            ErrorModel,
        >(t[i])
}

/// Whether an element is the first that cannot be compared with a value.
pub open spec fn is_first_refused(
    s: Seq<ValueModel>,
    probe: ValueModel,
    i: int,
    e: ErrorModel,
    model: FloatModel,
) -> bool {
    &&& 0 <= i < s.len()
    &&& coercion::element_for(s[i], probe, model) == Err::<ValueModel, ErrorModel>(e)
    &&& forall|j: int|
        0 <= j < i ==> (#[trigger] coercion::element_for(s[j], probe, model)) is Ok
}

/// The first element that cannot be compared with a value refuses all.
pub proof fn law_first_refusal(
    s: Seq<ValueModel>,
    probe: ValueModel,
    i: int,
    e: ErrorModel,
    model: FloatModel,
)
    requires
        is_first_refused(s, probe, i, e, model),
    ensures
        coercion::elements_for(s, probe, model) == Err::<Seq<ValueModel>, ErrorModel>(e),
    decreases s.len(),
{
    let front = s.drop_last();
    if i < s.len() - 1 {
        assert forall|j: int| 0 <= j < i implies (#[trigger] coercion::element_for(
            front[j],
            probe,
            model,
        )) is Ok by {
            assert(front[j] == s[j]);
        }
        law_first_refusal(front, probe, i, e, model);
    } else {
        coercion::law_one_refuses_all(front, probe, model);
        if coercion::elements_for(front, probe, model) is Err {
            let k = choose|k: int|
                0 <= k < front.len() && (#[trigger] coercion::element_for(front[k], probe, model)) is Err;
            assert(coercion::element_for(s[k], probe, model) is Ok);
        }
    }
}

/// Where every element can be compared with a value, each is.
pub proof fn law_all_brought(
    s: Seq<ValueModel>,
    t: Seq<ValueModel>,
    probe: ValueModel,
    model: FloatModel,
)
    requires
        are_brought(s, t, probe, model),
    ensures
        coercion::elements_for(s, probe, model) == Ok::<Seq<ValueModel>, ErrorModel>(t),
{
    coercion::law_one_refuses_all(s, probe, model);
    match coercion::elements_for(s, probe, model) {
        Ok(u) => {
            assert forall|i: int| 0 <= i < s.len() implies u[i] == t[i] by {
                assert(coercion::element_for(s[i], probe, model) == Ok::<ValueModel, ErrorModel>(
                    t[i],
                ));
            }
            assert(u =~= t);
        },
        Err(_) => {
            let i = choose|i: int|
                0 <= i < s.len() && (#[trigger] coercion::element_for(s[i], probe, model)) is Err;
            assert(coercion::element_for(s[i], probe, model) is Ok);
        },
    }
}

/// Whether one side has a number where the other has a text.
pub open spec fn are_mixed(s: Seq<ValueModel>, t: Seq<ValueModel>) -> bool {
    exists|i: int, j: int|
        0 <= i < s.len() && 0 <= j < t.len() && ((value::is_numeric(#[trigger] s[i])
            && #[trigger] t[j] is Text) || (s[i] is Text && value::is_numeric(t[j])))
}

/// Whether one side has a blob where the other has a number or a text.
pub open spec fn cannot_compare(s: Seq<ValueModel>, t: Seq<ValueModel>) -> bool {
    exists|i: int, j: int|
        0 <= i < s.len() && 0 <= j < t.len() && ((#[trigger] s[i] is Blob && (value::is_numeric(
            #[trigger] t[j],
        ) || t[j] is Text)) || (t[j] is Blob && (value::is_numeric(s[i]) || s[i] is Text)))
}

/// What an element of one of two arrays is compared as: a text as the number
/// that it spells where the arrays are mixed, and else as it is.
pub open spec fn side_element(m: ValueModel, mixed: bool, model: FloatModel) -> Result<
    ValueModel,
    ErrorModel,
> {
    match m {
        ValueModel::Text(s) => if mixed {
            coercion::text_number(s, model)
        } else {
            Ok(m)
        },
        _ => Ok(m),
    }
}

/// Whether each element of one row is what that of another is compared as.
pub open spec fn are_compared_as(
    s: Seq<ValueModel>,
    x: Seq<ValueModel>,
    mixed: bool,
    model: FloatModel,
) -> bool {
    s.len() == x.len() && forall|i: int|
        0 <= i < s.len() ==> #[trigger] side_element(s[i], mixed, model) == Ok::<
            ValueModel,
            ErrorModel,
        >(x[i])
}

/// Whether some element cannot be read as the number that it should be.
pub open spec fn some_refused(s: Seq<ValueModel>, mixed: bool, model: FloatModel) -> bool {
    exists|i: int| 0 <= i < s.len() && (#[trigger] side_element(s[i], mixed, model)) is Err
}

proof fn lemma_numbers(s: Seq<ValueModel>, x: Seq<ValueModel>, model: FloatModel)
    ensures
        are_compared_as(s, x, true, model) ==> coercion::numbers_for(s, model) == Ok::<
            Seq<ValueModel>,
            ErrorModel,
        >(x),
        some_refused(s, true, model) <==> coercion::numbers_for(s, model) is Err,
    decreases s.len(),
{
    if s.len() > 0 {
        let front = s.drop_last();
        lemma_numbers(front, x.drop_last(), model);
        let f = |m: ValueModel|
            match m {
                ValueModel::Text(t) => coercion::text_number(t, model),
                _ => Ok(m),
            };
        assert(f(s.last()) == side_element(s.last(), true, model));
        if are_compared_as(s, x, true, model) {
            let y = x.drop_last();
            assert forall|i: int| 0 <= i < front.len() implies #[trigger] side_element(
                front[i],
                true,
                model,
            ) == Ok::<ValueModel, ErrorModel>(y[i]) by {
                assert(side_element(s[i], true, model) == Ok::<ValueModel, ErrorModel>(x[i]));
            }
            assert(side_element(s[s.len() - 1], true, model) == Ok::<ValueModel, ErrorModel>(
                x.last(),
            ));
            assert(y.push(x.last()) =~= x);
        }
        if some_refused(front, true, model) {
            let i = choose|i: int|
                0 <= i < front.len() && (#[trigger] side_element(front[i], true, model)) is Err;
            assert(side_element(s[i], true, model) is Err);
        }
        if side_element(s[s.len() - 1], true, model) is Err {
            assert(some_refused(s, true, model));
        }
        if some_refused(s, true, model) {
            let i = choose|i: int|
                0 <= i < s.len() && (#[trigger] side_element(s[i], true, model)) is Err;
            if i < front.len() {
                assert(side_element(front[i], true, model) is Err);
            }
        }
    } else {
        if are_compared_as(s, x, true, model) {
            assert(x =~= Seq::<ValueModel>::empty());
        }
    }
}

proof fn lemma_mixed(s: Seq<ValueModel>, t: Seq<ValueModel>)
    ensures
        are_mixed(s, t) <==> (coercion::has_numeric(s) && coercion::has_text(t)) || (
        coercion::has_text(s) && coercion::has_numeric(t)),
        cannot_compare(s, t) <==> (coercion::has_blob(s) && (coercion::has_numeric(t)
            || coercion::has_text(t))) || (coercion::has_blob(t) && (coercion::has_numeric(s)
            || coercion::has_text(s))),
{
}

/// Two arrays with a blob on one side and a number or a text on the other are
/// refused, as are those in which a text must be read as a number and is none.
pub proof fn law_refused_sides(
    a: ValueModel,
    b: ValueModel,
    s: Seq<ValueModel>,
    t: Seq<ValueModel>,
    nulls_never_match: bool,
    model: FloatModel,
)
    requires
        a !is Null,
        b !is Null,
        laws::has_elements(a, s, model),
        laws::has_elements(b, t, model),
        cannot_compare(s, t) || some_refused(s, are_mixed(s, t), model) || some_refused(
            t,
            are_mixed(s, t),
            model,
        ),
    ensures
        membership::overlap_answer(a, b, nulls_never_match, model) is Err,
        membership::contains_all_answer(a, b, nulls_never_match, model) is Err,
{
    lemma_mixed(s, t);
    lemma_numbers(s, s, model);
    lemma_numbers(t, t, model);
}

/// Whether two arrays have an element in common, and whether all of the second
/// are in the first, as one or zero. Where NULLs never match, a NULL of the second
/// is in none.
pub proof fn law_sides_compare(
    a: ValueModel,
    b: ValueModel,
    s: Seq<ValueModel>,
    t: Seq<ValueModel>,
    x: Seq<ValueModel>,
    y: Seq<ValueModel>,
    nulls_never_match: bool,
    model: FloatModel,
)
    requires
        a !is Null,
        b !is Null,
        laws::has_elements(a, s, model),
        laws::has_elements(b, t, model),
        !cannot_compare(s, t),
        are_compared_as(s, x, are_mixed(s, t), model),
        are_compared_as(t, y, are_mixed(s, t), model),
    ensures
        membership::overlap_answer(a, b, nulls_never_match, model) == Ok::<ValueModel, ErrorModel>(
            ValueModel::Integer(
                if exists|i: int, j: int|
                    0 <= i < x.len() && 0 <= j < y.len() && value::same_value(
                        #[trigger] x[i],
                        #[trigger] y[j],
                    ) && !(nulls_never_match && y[j] is Null) {
                    1
                } else {
                    0
                },
            ),
        ),
        membership::contains_all_answer(a, b, nulls_never_match, model) == Ok::<
            ValueModel,
            ErrorModel,
        >(
            ValueModel::Integer(
                if forall|j: int|
                    0 <= j < y.len() ==> !(nulls_never_match && #[trigger] y[j] is Null)
                        && exists|i: int| 0 <= i < x.len() && value::same_value(#[trigger] x[i], y[j]) {
                    1
                } else {
                    0
                },
            ),
        ),
{
    let mixed = are_mixed(s, t);
    lemma_mixed(s, t);
    if mixed {
        lemma_numbers(s, x, model);
        lemma_numbers(t, y, model);
    } else {
        assert forall|i: int| 0 <= i < s.len() implies s[i] == x[i] by {
            assert(side_element(s[i], false, model) == Ok::<ValueModel, ErrorModel>(x[i]));
        }
        assert forall|i: int| 0 <= i < t.len() implies t[i] == y[i] by {
            assert(side_element(t[i], false, model) == Ok::<ValueModel, ErrorModel>(y[i]));
        }
        assert(s =~= x);
        assert(t =~= y);
    }
    assert(membership::both_sides(a, b, model) == Ok::<
        Option<(Seq<ValueModel>, Seq<ValueModel>)>,
        ErrorModel,
    >(Some((x, y))));
    lemma_overlap(x, y, nulls_never_match);
    lemma_contains_all(x, y, nulls_never_match);
}

proof fn lemma_overlap(x: Seq<ValueModel>, y: Seq<ValueModel>, nulls_never_match: bool)
    ensures
        membership::some_match(x, y, nulls_never_match) <==> exists|i: int, j: int|
            0 <= i < x.len() && 0 <= j < y.len() && value::same_value(
                #[trigger] x[i],
                #[trigger] y[j],
            ) && !(nulls_never_match && y[j] is Null),
{
    if membership::some_match(x, y, nulls_never_match) {
        let j = choose|j: int|
            0 <= j < y.len() && membership::matches_in(x, #[trigger] y[j], nulls_never_match);
        let i = choose|i: int| 0 <= i < x.len() && value::same_value(#[trigger] x[i], y[j]);
        assert(value::same_value(x[i], y[j]));
    }
    if exists|i: int, j: int|
        0 <= i < x.len() && 0 <= j < y.len() && value::same_value(#[trigger] x[i], #[trigger] y[j])
            && !(nulls_never_match && y[j] is Null) {
        let (i, j) = choose|i: int, j: int|
            0 <= i < x.len() && 0 <= j < y.len() && value::same_value(
                #[trigger] x[i],
                #[trigger] y[j],
            ) && !(nulls_never_match && y[j] is Null);
        assert(ordered::is_among(x, y[j]));
        assert(membership::matches_in(x, y[j], nulls_never_match));
    }
}

proof fn lemma_contains_all(x: Seq<ValueModel>, y: Seq<ValueModel>, nulls_never_match: bool)
    ensures
        membership::all_match(x, y, nulls_never_match) <==> forall|j: int|
            0 <= j < y.len() ==> !(nulls_never_match && #[trigger] y[j] is Null) && exists|i: int|
                0 <= i < x.len() && value::same_value(#[trigger] x[i], y[j]),
{
    if membership::all_match(x, y, nulls_never_match) {
        assert forall|j: int| 0 <= j < y.len() implies !(nulls_never_match && #[trigger] y[j] is Null)
            && exists|i: int| 0 <= i < x.len() && value::same_value(#[trigger] x[i], y[j]) by {
            assert(membership::matches_in(x, y[j], nulls_never_match));
        }
    }
}

/// Where one of two values is NULL or no array, there is nothing to compare. The
/// first is looked at first.
pub proof fn law_no_sides(
    a: ValueModel,
    b: ValueModel,
    nulls_never_match: bool,
    model: FloatModel,
)
    ensures
        ({
            let overlap = membership::overlap_answer(a, b, nulls_never_match, model);
            let all = membership::contains_all_answer(a, b, nulls_never_match, model);
            let null = Ok::<ValueModel, ErrorModel>(ValueModel::Null);
            if a is Null || b is Null {
                overlap == null && all == null
            } else {
                match (array::elements_of(a, model), array::elements_of(b, model)) {
                    (Err(e), _) => overlap == Err::<ValueModel, ErrorModel>(e) && all == Err::<
                        ValueModel,
                        ErrorModel,
                    >(e),
                    (Ok(None), _) => overlap == null && all == null,
                    (Ok(Some(_)), Err(e)) => overlap == Err::<ValueModel, ErrorModel>(e) && all
                        == Err::<ValueModel, ErrorModel>(e),
                    (Ok(Some(_)), Ok(None)) => overlap == null && all == null,
                    _ => true,
                }
            }
        }),
{
}

/// What a refusal says: it starts with the marker, names the text that spells no
/// number as it is, or says that the types do not match.
pub proof fn law_refusals(m: ValueModel, probe: ValueModel, model: FloatModel)
    ensures
        coercion::element_for(m, probe, model) matches Err(e) ==> e == ErrorModel::Constraint(
            "\u{1}array-any-coercion\u{1}"@ + match m {
                ValueModel::Text(s) => if value::is_numeric(probe) {
                    "invalid input syntax for type numeric: \""@ + s + "\""@
                } else {
                    "array element type does not match the comparison value's type on this engine build; cast the array to the column's array type"@
                },
                _ => {
                    "array element type does not match the comparison value's type on this engine build; cast the array to the column's array type"@
                },
            },
        ),
{
}

/// The refusal of two arrays: that the types do not match, where one side has a
/// blob and the other a number or a text; else that of the first text that spells
/// no number, those of the first array before those of the second.
pub proof fn law_refusals_of_sides(
    a: ValueModel,
    b: ValueModel,
    s: Seq<ValueModel>,
    t: Seq<ValueModel>,
    i: int,
    nulls_never_match: bool,
    model: FloatModel,
)
    requires
        a !is Null,
        b !is Null,
        laws::has_elements(a, s, model),
        laws::has_elements(b, t, model),
    ensures
        ({
            let overlap = membership::overlap_answer(a, b, nulls_never_match, model);
            let all = membership::contains_all_answer(a, b, nulls_never_match, model);
            let mixed = are_mixed(s, t);
            let mismatch = Err::<ValueModel, ErrorModel>(
                ErrorModel::Constraint(
                    "\u{1}array-any-coercion\u{1}"@
                        + "array element type does not match the other array's element type on this engine build; cast both arrays to the same array type"@,
                ),
            );
            &&& cannot_compare(s, t) ==> overlap == mismatch && all == mismatch
            &&& !cannot_compare(s, t) && is_first_unread(s, mixed, i, model) ==> overlap
                == side_element(s[i], mixed, model) && all == side_element(s[i], mixed, model)
            &&& !cannot_compare(s, t) && !some_refused(s, mixed, model) && is_first_unread(
                t,
                mixed,
                i,
                model,
            ) ==> overlap == side_element(t[i], mixed, model) && all == side_element(
                t[i],
                mixed,
                model,
            )
        }),
{
    let mixed = are_mixed(s, t);
    lemma_mixed(s, t);
    lemma_numbers(s, s, model);
    lemma_numbers(t, t, model);
    if is_first_unread(s, mixed, i, model) {
        lemma_first_unread(s, i, model);
    }
    if is_first_unread(t, mixed, i, model) {
        lemma_first_unread(t, i, model);
    }
}

/// Whether an element is the first that cannot be read as the number that it
/// should be.
pub open spec fn is_first_unread(
    s: Seq<ValueModel>,
    mixed: bool,
    i: int,
    model: FloatModel,
) -> bool {
    &&& 0 <= i < s.len()
    &&& side_element(s[i], mixed, model) is Err
    &&& forall|j: int| 0 <= j < i ==> (#[trigger] side_element(s[j], mixed, model)) is Ok
}

proof fn lemma_first_unread(s: Seq<ValueModel>, i: int, model: FloatModel)
    requires
        is_first_unread(s, true, i, model),
    ensures
        coercion::numbers_for(s, model) matches Err(e) && side_element(s[i], true, model) == Err::<
            ValueModel,
            ErrorModel,
        >(e),
    decreases s.len(),
{
    let front = s.drop_last();
    let f = |m: ValueModel|
        match m {
            ValueModel::Text(t) => coercion::text_number(t, model),
            _ => Ok(m),
        };
    assert(f(s.last()) == side_element(s.last(), true, model));
    if i < s.len() - 1 {
        assert forall|j: int| 0 <= j < i implies (#[trigger] side_element(
            front[j],
            true,
            model,
        )) is Ok by {
            assert(front[j] == s[j]);
        }
        lemma_first_unread(front, i, model);
    } else {
        lemma_numbers(front, front, model);
        if some_refused(front, true, model) {
            let k = choose|k: int|
                0 <= k < front.len() && (#[trigger] side_element(front[k], true, model)) is Err;
            assert(side_element(s[k], true, model) is Ok);
        }
    }
}

} // verus!
