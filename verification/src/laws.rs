//! What holds of the functions on arrays together.

use vstd::prelude::*;

use crate::array;
use crate::error::ErrorModel;
use crate::floats::{self, FloatModel};
use crate::joining;
use crate::literal::{self, ElementRead, Literal, QuotedRead};
use crate::membership;
use crate::ordered;
use crate::record;
use crate::text;
use crate::value::{self, ValueModel};

verus! {

/// Whether each of some models is that of a value.
pub open spec fn are_values(s: Seq<ValueModel>) -> bool {
    forall|i: int| 0 <= i < s.len() ==> value::is_value(#[trigger] s[i])
}

/// Whether a value is an array with given elements.
pub open spec fn has_elements(m: ValueModel, s: Seq<ValueModel>, model: FloatModel) -> bool {
    array::elements_of(m, model) == Ok::<Option<Seq<ValueModel>>, ErrorModel>(Some(s))
}

/// An array that values are packed into has these values as its elements, and
/// as many as there are.
pub proof fn law_packed_reads(s: Seq<ValueModel>, model: FloatModel)
    requires
        are_values(s),
        record::packed(s) is Ok,
    ensures
        has_elements(record::packed(s)->Ok_0, s, model),
        array::length_of(record::packed(s)->Ok_0) == Some(s.len() as i64),
{
    record::law_record_reads_back(s);
}

/// The elements that are read from a literal are values that there are.
proof fn lemma_literal_values(s: Seq<char>, p: int, read: Seq<ValueModel>, model: FloatModel)
    requires
        are_values(read),
        0 <= p <= s.len(),
    ensures
        literal::elements_from(s, p, read, model) matches Literal::Elements(t) ==> are_values(t),
    decreases s.len() - p,
{
    let start = literal::solid_from(s, p);
    literal::lemma_solid_from(s, p);
    if start < s.len() {
        literal::lemma_element_at(s, start, model);
        if let ElementRead::Element(m, end) = literal::element_at(s, start, model) {
            literal::lemma_solid_from(s, end);
            assert(value::is_value(m));
            let comma = literal::solid_from(s, end);
            assert(are_values(read.push(m)));
            if comma < s.len() && s[comma] == ',' && literal::solid_from(s, comma + 1) < s.len() {
                lemma_literal_values(s, comma + 1, read.push(m), model);
            }
        }
    }
}

/// The elements of an array are values that there are.
pub proof fn law_elements_are_values(m: ValueModel, model: FloatModel)
    ensures
        array::elements_of(m, model) matches Ok(Some(s)) ==> are_values(s),
{
    match m {
        ValueModel::Blob(b) => {
            record::lemma_record_holds_values(b);
        },
        ValueModel::Text(s) => {
            let t = text::trimmed(s);
            if literal::in_braces(t) {
                let inner = text::trimmed(t.subrange(1, t.len() - 1));
                if inner.len() > 0 {
                    lemma_literal_values(inner, 0, Seq::empty(), model);
                }
            }
        },
        _ => {},
    }
}

/// The length of an array that is held as a record is the number of its
/// elements.
pub proof fn law_length_counts_elements(b: Seq<u8>, model: FloatModel)
    ensures
        array::elements_of(ValueModel::Blob(b), model) matches Ok(Some(s)) ==> array::length_of(
            ValueModel::Blob(b),
        ) == Some(s.len() as i64),
{
}

/// Only what is held as a record has a length, and the length at depth one is
/// the length. There is none at a depth below one, and none at any depth of NULL
/// and of numbers.
pub proof fn law_length_at_depth(m: ValueModel, dim: int, model: FloatModel)
    ensures
        m !is Blob ==> array::length_of(m) is None,
        array::length_at(m, 1, model) == Ok::<Option<i64>, ErrorModel>(array::length_of(m)),
        dim < 1 || m is Null || value::is_numeric(m) ==> array::length_at(m, dim, model) == Ok::<
            Option<i64>,
            ErrorModel,
        >(None),
{
}

/// Appending puts one element behind those that there were.
pub proof fn law_append(
    arr: ValueModel,
    elem: ValueModel,
    s: Seq<ValueModel>,
    r: ValueModel,
    model: FloatModel,
)
    requires
        value::is_value(elem),
        has_elements(arr, s, model),
        array::append_answer(arr, elem, model) == Ok::<ValueModel, ErrorModel>(r),
    ensures
        has_elements(r, s.push(elem), model),
        array::length_of(r) == Some((s.len() + 1) as i64),
{
    law_elements_are_values(arr, model);
    law_packed_reads(s.push(elem), model);
}

/// Prepending puts one element before those that there were.
pub proof fn law_prepend(
    arr: ValueModel,
    elem: ValueModel,
    s: Seq<ValueModel>,
    r: ValueModel,
    model: FloatModel,
)
    requires
        value::is_value(elem),
        has_elements(arr, s, model),
        array::prepend_answer(arr, elem, model) == Ok::<ValueModel, ErrorModel>(r),
    ensures
        has_elements(r, seq![elem] + s, model),
        array::length_of(r) == Some((s.len() + 1) as i64),
{
    law_elements_are_values(arr, model);
    law_packed_reads(seq![elem] + s, model);
}

/// Two arrays in a row have the elements of the first and then those of the
/// second.
pub proof fn law_cat(
    a: ValueModel,
    b: ValueModel,
    s: Seq<ValueModel>,
    t: Seq<ValueModel>,
    r: ValueModel,
    model: FloatModel,
)
    requires
        a !is Null,
        b !is Null,
        has_elements(a, s, model),
        has_elements(b, t, model),
        array::cat_answer(a, b, model) == Ok::<ValueModel, ErrorModel>(r),
    ensures
        has_elements(r, s + t, model),
        array::length_of(r) == Some((s.len() + t.len()) as i64),
{
    law_elements_are_values(a, model);
    law_elements_are_values(b, model);
    law_packed_reads(s + t, model);
}

/// In which order three arrays are put in a row makes no difference.
pub proof fn law_cat_associative(
    a: ValueModel,
    b: ValueModel,
    c: ValueModel,
    ab: ValueModel,
    bc: ValueModel,
    model: FloatModel,
)
    requires
        array::elements_of(a, model) matches Ok(Some(_)),
        array::elements_of(b, model) matches Ok(Some(_)),
        array::elements_of(c, model) matches Ok(Some(_)),
        array::cat_answer(a, b, model) == Ok::<ValueModel, ErrorModel>(ab),
        array::cat_answer(b, c, model) == Ok::<ValueModel, ErrorModel>(bc),
    ensures
        array::cat_answer(ab, c, model) == array::cat_answer(a, bc, model),
{
    let s = array::elements_of(a, model)->Ok_0->0;
    let t = array::elements_of(b, model)->Ok_0->0;
    let u = array::elements_of(c, model)->Ok_0->0;
    if a !is Null && b !is Null && c !is Null {
        law_cat(a, b, s, t, ab, model);
        law_cat(b, c, t, u, bc, model);
        assert((s + t) + u =~= s + (t + u));
    }
}

/// A slice has the elements in its range.
pub proof fn law_slice(
    arr: ValueModel,
    start: ValueModel,
    end: ValueModel,
    s: Seq<ValueModel>,
    r: ValueModel,
    model: FloatModel,
)
    requires
        arr !is Null,
        has_elements(arr, s, model),
        array::slice_answer(arr, start, end, model) == Ok::<ValueModel, ErrorModel>(r),
    ensures
        ({
            let (first, stop) = array::slice_range(start, end, s.len() as int);
            &&& 0 <= first <= stop <= s.len()
            &&& are_values(s.subrange(first, stop))
            &&& record::packed(s.subrange(first, stop)) == Ok::<ValueModel, ErrorModel>(r)
            &&& has_elements(r, s.subrange(first, stop), model)
        }),
{
    let (first, stop) = array::slice_range(start, end, s.len() as int);
    law_elements_are_values(arr, model);
    law_packed_reads(s.subrange(first, stop), model);
}

/// Two arrays that values are packed into have all the values in a row.
proof fn lemma_packed_cat(s: Seq<ValueModel>, t: Seq<ValueModel>, model: FloatModel)
    requires
        are_values(s),
        are_values(t),
        record::packed(s) is Ok,
        record::packed(t) is Ok,
    ensures
        array::cat_answer(record::packed(s)->Ok_0, record::packed(t)->Ok_0, model)
            == record::packed(s + t),
{
    law_packed_reads(s, model);
    law_packed_reads(t, model);
}

/// The first elements of an array and the others are two slices of it, which in
/// a row are the array.
pub proof fn law_slices_meet(arr: ValueModel, s: Seq<ValueModel>, k: i64, model: FloatModel)
    requires
        arr !is Null,
        has_elements(arr, s, model),
        s.len() < i64::MAX,
        0 <= k <= s.len(),
    ensures
        array::slice_answer(arr, ValueModel::Integer(1), ValueModel::Integer(k), model)
            == record::packed(s.take(k as int)),
        array::slice_answer(
            arr,
            ValueModel::Integer((k + 1) as i64),
            ValueModel::Integer(s.len() as i64),
            model,
        ) == record::packed(s.skip(k as int)),
        match (record::packed(s.take(k as int)), record::packed(s.skip(k as int))) {
            (Ok(front), Ok(back)) => array::cat_answer(front, back, model) == record::packed(s),
            _ => true,
        },
{
    let (x, y) = (s.take(k as int), s.skip(k as int));
    assert(s.subrange(0, k as int) =~= x);
    assert(s.subrange(k as int, s.len() as int) =~= y);
    law_elements_are_values(arr, model);
    if record::packed(x) is Ok && record::packed(y) is Ok {
        lemma_packed_cat(x, y, model);
        assert(x + y =~= s);
    }
}

/// The slice from the first element to the last is the array.
pub proof fn law_whole_slice(arr: ValueModel, s: Seq<ValueModel>, model: FloatModel)
    requires
        arr !is Null,
        has_elements(arr, s, model),
        s.len() <= i64::MAX,
    ensures
        array::slice_answer(
            arr,
            ValueModel::Integer(1),
            ValueModel::Integer(s.len() as i64),
            model,
        ) == record::packed(s),
{
    assert(s.subrange(0, s.len() as int) =~= s);
}

/// Removing takes out every occurrence and nothing else.
proof fn lemma_without(s: Seq<ValueModel>, target: ValueModel)
    ensures
        forall|i: int|
            0 <= i < array::without(s, target).len() ==> !value::same_value(
                #[trigger] array::without(s, target)[i],
                target,
            ) && s.contains(array::without(s, target)[i]),
        forall|i: int|
            0 <= i < s.len() && !value::same_value(#[trigger] s[i], target) ==> array::without(
                s,
                target,
            ).contains(s[i]),
        !ordered::is_among(s, target) ==> array::without(s, target) == s,
    decreases s.len(),
{
    let w = array::without(s, target);
    if s.len() > 0 {
        let front = s.drop_last();
        let kept = array::without(front, target);
        lemma_without(front, target);
        assert forall|i: int| 0 <= i < w.len() implies !value::same_value(#[trigger] w[i], target)
            && s.contains(w[i]) by {
            if i < kept.len() {
                assert(w[i] == kept[i]);
                let j = choose|j: int| 0 <= j < front.len() && front[j] == kept[i];
                assert(s[j] == w[i]);
            } else {
                assert(s[s.len() - 1] == w[i]);
            }
        }
        assert forall|i: int|
            0 <= i < s.len() && !value::same_value(#[trigger] s[i], target) implies w.contains(
            s[i],
        ) by {
            if i < front.len() {
                assert(front[i] == s[i]);
                let j = choose|j: int| 0 <= j < kept.len() && kept[j] == s[i];
                assert(w[j] == s[i]);
            } else {
                assert(w[w.len() - 1] == s[i]);
            }
        }
        if !ordered::is_among(s, target) {
            assert forall|i: int| 0 <= i < front.len() implies !value::same_value(
                #[trigger] front[i],
                target,
            ) by {
                assert(front[i] == s[i]);
            }
            assert(!value::same_value(s[s.len() - 1], target));
            assert(w =~= s);
        }
    } else {
        assert(w =~= s);
    }
}

/// A place is found just where the value is among the others; it is that of the
/// value, and none before it is.
proof fn lemma_place(s: Seq<ValueModel>, target: ValueModel, from: int)
    requires
        0 <= from <= s.len(),
    ensures
        match membership::place_of(s, target, from) {
            Some(i) => {
                &&& from <= i < s.len()
                &&& value::same_value(s[i], target)
                &&& forall|j: int| from <= j < i ==> !value::same_value(#[trigger] s[j], target)
            },
            None => forall|j: int|
                from <= j < s.len() ==> !value::same_value(#[trigger] s[j], target),
        },
    decreases s.len() - from,
{
    if from < s.len() && !value::same_value(s[from], target) {
        lemma_place(s, target, from + 1);
    }
}

/// In a record that values are packed into, all of them are searched.
proof fn lemma_packed_searched(s: Seq<ValueModel>, target: ValueModel, model: FloatModel)
    requires
        are_values(s),
        record::packed(s) is Ok,
    ensures
        membership::searched(record::packed(s)->Ok_0, target, model) == Ok::<
            Option<Seq<ValueModel>>,
            ErrorModel,
        >(Some(s)),
{
    record::law_record_reads_back(s);
    let items = record::record_items(record::record_bytes(s))->0;
    let values = record::record_values(record::record_bytes(s))->0;
    assert forall|i: int| 0 <= i < s.len() implies (#[trigger] items[i]) == Some(s[i]) by {
        assert(values[i] == s[i]);
    }
    membership::lemma_readable(items, s.len() as int);
    assert(membership::readable(items) =~= s);
}

/// What an array is after a value was removed from it: each element that it had
/// and that is not the same as the value, and no other; and the value is not in
/// it. Where the value was not in it, it is as before.
pub proof fn law_remove(
    arr: ValueModel,
    target: ValueModel,
    s: Seq<ValueModel>,
    r: ValueModel,
    model: FloatModel,
)
    requires
        arr !is Null,
        has_elements(arr, s, model),
        array::remove_answer(arr, target, model) == Ok::<ValueModel, ErrorModel>(r),
    ensures
        has_elements(r, array::without(s, target), model),
        forall|m: ValueModel|
            array::without(s, target).contains(m) <==> #[trigger] s.contains(m)
                && !value::same_value(m, target),
        !ordered::is_among(s, target) ==> array::without(s, target) == s,
        membership::contains_answer(r, target, model) == Ok::<ValueModel, ErrorModel>(
            membership::truth(false),
        ),
        membership::position_answer(r, target, model) == Ok::<ValueModel, ErrorModel>(
            ValueModel::Null,
        ),
{
    let w = array::without(s, target);
    law_elements_are_values(arr, model);
    lemma_without(s, target);
    assert forall|i: int| 0 <= i < w.len() implies value::is_value(#[trigger] w[i]) by {
        assert(s.contains(w[i]));
    }
    law_packed_reads(w, model);
    lemma_packed_searched(w, target, model);
    lemma_place(w, target, 0);
    assert forall|m: ValueModel| w.contains(m) <==> #[trigger] s.contains(m)
        && !value::same_value(m, target) by {
        if w.contains(m) {
            let i = choose|i: int| 0 <= i < w.len() && w[i] == m;
            assert(s.contains(w[i]));
        }
        if s.contains(m) && !value::same_value(m, target) {
            let i = choose|i: int| 0 <= i < s.len() && s[i] == m;
            assert(w.contains(s[i]));
        }
    }
}

/// A value is in an array just where it has a position in it. Where one is
/// refused the other is, in the same way.
pub proof fn law_contains_is_position(arr: ValueModel, target: ValueModel, model: FloatModel)
    ensures
        match membership::contains_answer(arr, target, model) {
            Err(e) => membership::position_answer(arr, target, model) == Err::<
                ValueModel,
                ErrorModel,
            >(e),
            Ok(v) => {
                &&& v == membership::truth(true) <==> (membership::position_answer(
                    arr,
                    target,
                    model,
                ) matches Ok(ValueModel::Integer(_)))
                &&& v != membership::truth(true) <==> membership::position_answer(
                    arr,
                    target,
                    model,
                ) == Ok::<ValueModel, ErrorModel>(ValueModel::Null)
            },
        },
{
}

/// The position of a value, counted from one, is that of the first element that
/// is the same; there is none where no element is. NULL is found as any other
/// value is.
pub proof fn law_position_is_first(
    arr: ValueModel,
    target: ValueModel,
    s: Seq<ValueModel>,
    model: FloatModel,
)
    requires
        membership::searched(arr, target, model) == Ok::<Option<Seq<ValueModel>>, ErrorModel>(
            Some(s),
        ),
        s.len() <= i64::MAX,
    ensures
        match membership::position_answer(arr, target, model) {
            Ok(ValueModel::Integer(i)) => {
                &&& 1 <= i <= s.len()
                &&& value::same_value(s[i - 1], target)
                &&& forall|j: int| 0 <= j < i - 1 ==> !value::same_value(#[trigger] s[j], target)
            },
            r => r == Ok::<ValueModel, ErrorModel>(ValueModel::Null) && !ordered::is_among(
                s,
                target,
            ),
        },
        target is Null && s.contains(ValueModel::Null) ==> membership::position_answer(
            arr,
            target,
            model,
        ) matches Ok(ValueModel::Integer(_)),
{
    lemma_place(s, target, 0);
}

/// Where NULLs never match, an array with a NULL is not contained in any, and
/// two arrays do not overlap for a NULL in both.
pub proof fn law_nulls_never_match(
    a: ValueModel,
    b: ValueModel,
    s: Seq<ValueModel>,
    t: Seq<ValueModel>,
    model: FloatModel,
)
    requires
        membership::both_sides(a, b, model) == Ok::<
            Option<(Seq<ValueModel>, Seq<ValueModel>)>,
            ErrorModel,
        >(Some((s, t))),
    ensures
        t.contains(ValueModel::Null) ==> membership::contains_all_answer(a, b, true, model) == Ok::<
            ValueModel,
            ErrorModel,
        >(membership::truth(false)),
        membership::overlap_answer(a, b, true, model) == Ok::<ValueModel, ErrorModel>(
            membership::truth(true),
        ) ==> exists|j: int|
            0 <= j < t.len() && t[j] !is Null && ordered::is_among(s, #[trigger] t[j]),
{
    if membership::some_match(s, t, true) {
        let j = choose|j: int| 0 <= j < t.len() && membership::matches_in(s, #[trigger] t[j], true);
        assert(t[j] !is Null && ordered::is_among(s, t[j]));
    }
}

/// An array whose elements can be compared contains itself, except where NULLs
/// never match and it has one.
pub proof fn law_contains_itself(
    a: ValueModel,
    s: Seq<ValueModel>,
    t: Seq<ValueModel>,
    nulls_never_match: bool,
    model: FloatModel,
)
    requires
        membership::both_sides(a, a, model) == Ok::<
            Option<(Seq<ValueModel>, Seq<ValueModel>)>,
            ErrorModel,
        >(Some((s, t))),
    ensures
        s == t,
        membership::contains_all_answer(a, a, nulls_never_match, model) == Ok::<
            ValueModel,
            ErrorModel,
        >(membership::truth(!(nulls_never_match && s.contains(ValueModel::Null)))),
{
    assert forall|j: int| 0 <= j < s.len() implies ordered::is_among(s, #[trigger] s[j]) by {
        assert(value::same_value(s[j], s[j]));
    }
    if nulls_never_match && s.contains(ValueModel::Null) {
        let j = choose|j: int| 0 <= j < s.len() && s[j] == ValueModel::Null;
        assert(!membership::matches_in(s, s[j], true));
    } else {
        assert forall|j: int| 0 <= j < s.len() implies membership::matches_in(
            s,
            #[trigger] s[j],
            nulls_never_match,
        ) by {}
    }
}

/// Two values that can be read as arrays, or as none, overlap in both directions
/// or in neither.
pub proof fn law_overlap_symmetric(
    a: ValueModel,
    b: ValueModel,
    nulls_never_match: bool,
    model: FloatModel,
)
    requires
        array::elements_of(a, model) is Ok,
        array::elements_of(b, model) is Ok,
    ensures
        membership::overlap_answer(a, b, nulls_never_match, model) is Ok
            <==> membership::overlap_answer(b, a, nulls_never_match, model) is Ok,
        membership::overlap_answer(a, b, nulls_never_match, model) is Ok
            ==> membership::overlap_answer(a, b, nulls_never_match, model)
            == membership::overlap_answer(b, a, nulls_never_match, model),
{
    if let Ok(Some((s, t))) = membership::both_sides(a, b, model) {
        lemma_match_both_ways(s, t, nulls_never_match);
        lemma_match_both_ways(t, s, nulls_never_match);
    }
}

proof fn lemma_match_both_ways(s: Seq<ValueModel>, t: Seq<ValueModel>, nulls_never_match: bool)
    ensures
        membership::some_match(s, t, nulls_never_match) ==> membership::some_match(
            t,
            s,
            nulls_never_match,
        ),
{
    if membership::some_match(s, t, nulls_never_match) {
        let j = choose|j: int|
            0 <= j < t.len() && membership::matches_in(s, #[trigger] t[j], nulls_never_match);
        let i = choose|i: int| 0 <= i < s.len() && value::same_value(#[trigger] s[i], t[j]);
        assert(value::same_value(t[j], s[i]));
        assert(membership::matches_in(t, s[i], nulls_never_match));
    }
}

/// Every array that can be compared with the empty array contains it, and none
/// overlaps it.
pub proof fn law_empty_side(
    a: ValueModel,
    b: ValueModel,
    s: Seq<ValueModel>,
    nulls_never_match: bool,
    model: FloatModel,
)
    requires
        a !is Null,
        b !is Null,
        has_elements(a, s, model),
        has_elements(b, Seq::empty(), model),
    ensures
        membership::contains_all_answer(a, b, nulls_never_match, model) == Ok::<
            ValueModel,
            ErrorModel,
        >(membership::truth(true)),
        membership::overlap_answer(a, b, nulls_never_match, model) == Ok::<ValueModel, ErrorModel>(
            membership::truth(false),
        ),
{
}

/// An array that contains another that is not empty overlaps it. What holds
/// where NULLs never match holds where they do.
pub proof fn law_containing_overlaps(
    a: ValueModel,
    b: ValueModel,
    s: Seq<ValueModel>,
    t: Seq<ValueModel>,
    nulls_never_match: bool,
    model: FloatModel,
)
    requires
        membership::both_sides(a, b, model) == Ok::<
            Option<(Seq<ValueModel>, Seq<ValueModel>)>,
            ErrorModel,
        >(Some((s, t))),
    ensures
        t.len() > 0 && membership::contains_all_answer(a, b, nulls_never_match, model) == Ok::<
            ValueModel,
            ErrorModel,
        >(membership::truth(true)) ==> membership::overlap_answer(a, b, nulls_never_match, model)
            == Ok::<ValueModel, ErrorModel>(membership::truth(true)),
        membership::contains_all_answer(a, b, true, model) == Ok::<ValueModel, ErrorModel>(
            membership::truth(true),
        ) ==> membership::contains_all_answer(a, b, false, model) == Ok::<ValueModel, ErrorModel>(
            membership::truth(true),
        ),
        membership::overlap_answer(a, b, true, model) == Ok::<ValueModel, ErrorModel>(
            membership::truth(true),
        ) ==> membership::overlap_answer(a, b, false, model) == Ok::<ValueModel, ErrorModel>(
            membership::truth(true),
        ),
{
    if t.len() > 0 && membership::all_match(s, t, nulls_never_match) {
        assert(membership::matches_in(s, t[0], nulls_never_match));
    }
    if membership::some_match(s, t, true) {
        let j = choose|j: int| 0 <= j < t.len() && membership::matches_in(s, #[trigger] t[j], true);
        assert(membership::matches_in(s, t[j], false));
    }
    if membership::all_match(s, t, true) {
        assert forall|j: int| 0 <= j < t.len() implies membership::matches_in(
            s,
            #[trigger] t[j],
            false,
        ) by {
            assert(membership::matches_in(s, t[j], true));
        }
    }
}

/// Parts that were made elements are shown as the parts again, when NULL has the
/// same text.
proof fn lemma_parts_shown(parts: Seq<Seq<char>>, null: Option<Seq<char>>, model: FloatModel)
    ensures
        joining::shown(joining::part_elements(parts, null), null, model) == parts,
    decreases parts.len(),
{
    let elements = joining::part_elements(parts, null);
    let shown = joining::shown(elements, null, model);
    if parts.len() > 0 {
        let front = parts.drop_last();
        lemma_parts_shown(front, null, model);
        assert(elements.drop_last() =~= joining::part_elements(front, null));
        assert(elements.last() == joining::part_element(parts.last(), null));
        assert(shown =~= front.push(parts.last()));
    }
    assert(shown =~= parts);
}

/// A text that is split at a delimiter and joined with it again is the text: of
/// any length, with any delimiter but NULL, and whether or not a text stands for
/// NULL, if it is the same for both.
pub proof fn law_split_then_join(
    text: ValueModel,
    delimiter: ValueModel,
    null_str: Option<ValueModel>,
    arr: ValueModel,
    model: FloatModel,
)
    requires
        text !is Null,
        delimiter !is Null,
        joining::split_answer(text, delimiter, null_str, model) == Ok::<ValueModel, ErrorModel>(arr),
    ensures
        joining::join_answer(arr, delimiter, null_str, model) == Ok::<ValueModel, ErrorModel>(
            ValueModel::Text(value::printed(text, model)),
        ),
{
    let t = value::printed(text, model);
    let d = value::printed(delimiter, model);
    let null = joining::null_text(null_str, model);
    let parts = joining::parts(t, delimiter, model);
    let elements = joining::part_elements(parts, null);
    assert(are_values(elements));
    law_packed_reads(elements, model);
    lemma_parts_shown(parts, null, model);
    if d.len() > 0 {
        text::lemma_joined_pieces(t, d);
    }
}

/// Splitting at NULL gives as many elements as the text has characters.
pub proof fn law_split_into_characters(
    text: ValueModel,
    arr: ValueModel,
    model: FloatModel,
)
    requires
        text !is Null,
        joining::split_answer(text, ValueModel::Null, None, model) == Ok::<ValueModel, ErrorModel>(
            arr,
        ),
    ensures
        has_elements(
            arr,
            Seq::new(
                value::printed(text, model).len(),
                |i: int| ValueModel::Text(seq![value::printed(text, model)[i]]),
            ),
            model,
        ),
{
    let t = value::printed(text, model);
    let elements = joining::part_elements(joining::parts(t, ValueModel::Null, model), None);
    assert(elements =~= Seq::new(t.len(), |i: int| ValueModel::Text(seq![t[i]])));
    law_packed_reads(elements, model);
}

/// What stands between the braces of a text, without white space around it.
pub open spec fn between_braces(s: Seq<char>) -> Seq<char> {
    let t = text::trimmed(s);
    text::trimmed(t.subrange(1, t.len() - 1))
}

/// A text that does not stand in braces is no array.
pub proof fn law_braces(s: Seq<char>, model: FloatModel)
    requires
        !literal::in_braces(text::trimmed(s)),
    ensures
        array::elements_of(ValueModel::Text(s), model) == Ok::<Option<Seq<ValueModel>>, ErrorModel>(
            None,
        ),
{
}

/// An array of arrays is refused, unless there is nothing but braces, commas and
/// white space in it: that is the empty array.
pub proof fn law_nesting(s: Seq<char>, model: FloatModel)
    requires
        literal::in_braces(text::trimmed(s)),
        between_braces(s).len() > 0,
        between_braces(s)[0] == '{',
    ensures
        array::elements_of(ValueModel::Text(s), model) == if literal::is_empty_nesting(
            between_braces(s),
        ) {
            Ok::<Option<Seq<ValueModel>>, ErrorModel>(Some(Seq::empty()))
        } else {
            Err(literal::nested_refusal())
        },
{
}

/// A quoted text ends with a quote.
proof fn lemma_quoted_ends(s: Seq<char>, p: int, read: Seq<char>)
    requires
        0 <= p <= s.len(),
    ensures
        literal::quoted_from(s, p, read) matches QuotedRead::Closed(_, end) ==> p < end <= s.len()
            && s[end - 1] == '"',
    decreases s.len() - p,
{
    if p < s.len() && s[p] != '"' {
        if s[p] != '\\' {
            lemma_quoted_ends(s, p + 1, read.push(s[p]));
        } else if p + 1 < s.len() {
            lemma_quoted_ends(s, p + 2, read.push(literal::unescaped(s[p + 1])));
        }
    }
}

/// A token does not end behind a comma.
proof fn lemma_token_stops(s: Seq<char>, p: int)
    requires
        0 <= p < s.len(),
        s.last() == ',',
    ensures
        literal::token_end(s, p) < s.len(),
    decreases s.len() - p,
{
    if p + 1 < s.len() {
        lemma_token_stops(s, p + 1);
    }
}

/// White space does not end behind a comma.
proof fn lemma_white_stops(s: Seq<char>, p: int)
    requires
        0 <= p < s.len(),
        s.last() == ',',
    ensures
        p <= literal::solid_from(s, p) < s.len(),
    decreases s.len() - p,
{
    if p + 1 < s.len() {
        lemma_white_stops(s, p + 1);
    }
}

proof fn lemma_trailing_comma(s: Seq<char>, p: int, read: Seq<ValueModel>, model: FloatModel)
    requires
        0 <= p < s.len(),
        s.last() == ',',
        !literal::is_empty_nesting(s),
    ensures
        literal::elements_from(s, p, read, model) !is Elements,
    decreases s.len() - p,
{
    let start = literal::solid_from(s, p);
    lemma_white_stops(s, p);
    lemma_token_stops(s, start);
    lemma_quoted_ends(s, start + 1, Seq::empty());
    literal::lemma_element_at(s, start, model);
    if let ElementRead::Element(m, end) = literal::element_at(s, start, model) {
        lemma_white_stops(s, end);
        let comma = literal::solid_from(s, end);
        if s[comma] == ',' && comma + 1 < s.len() {
            lemma_trailing_comma(s, comma + 1, read.push(m), model);
        }
    }
}

/// A literal with a comma behind its last element is no array, unless there is
/// nothing but braces, commas and white space in it.
pub proof fn law_trailing_comma(s: Seq<char>, model: FloatModel)
    requires
        literal::in_braces(text::trimmed(s)),
        between_braces(s).len() > 0,
        between_braces(s).last() == ',',
        !literal::is_empty_nesting(between_braces(s)),
    ensures
        !(array::elements_of(ValueModel::Text(s), model) matches Ok(Some(_))),
{
    lemma_trailing_comma(between_braces(s), 0, Seq::empty(), model);
}

/// Whether the floating-point numbers among some values are finite.
pub open spec fn are_finite(s: Seq<ValueModel>) -> bool {
    forall|i: int|
        0 <= i < s.len() ==> (#[trigger] s[i] matches ValueModel::Float(bits)
            ==> floats::is_finite_bits(bits))
}

proof fn lemma_literal_finite(s: Seq<char>, p: int, read: Seq<ValueModel>, model: FloatModel)
    requires
        are_finite(read),
        0 <= p <= s.len(),
    ensures
        literal::elements_from(s, p, read, model) matches Literal::Elements(t) ==> are_finite(t),
    decreases s.len() - p,
{
    let start = literal::solid_from(s, p);
    literal::lemma_solid_from(s, p);
    if start < s.len() {
        literal::lemma_element_at(s, start, model);
        if let ElementRead::Element(m, end) = literal::element_at(s, start, model) {
            literal::lemma_solid_from(s, end);
            let comma = literal::solid_from(s, end);
            assert(are_finite(read.push(m)));
            if comma < s.len() && s[comma] == ',' && literal::solid_from(s, comma + 1) < s.len() {
                lemma_literal_finite(s, comma + 1, read.push(m), model);
            }
        }
    }
}

/// The numbers in a literal are finite.
pub proof fn law_literal_numbers_are_finite(s: Seq<char>, model: FloatModel)
    ensures
        array::elements_of(ValueModel::Text(s), model) matches Ok(Some(t)) ==> are_finite(t),
{
    let t = text::trimmed(s);
    if literal::in_braces(t) {
        let inner = between_braces(s);
        if inner.len() > 0 {
            lemma_literal_finite(inner, 0, Seq::empty(), model);
        }
    }
}

} // verus!
