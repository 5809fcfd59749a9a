//! What holds of texts that are split into arrays, and of arrays that are joined
//! into texts.

use vstd::prelude::*;

use crate::array;
use crate::error::ErrorModel;
use crate::floats::{FloatModel, FloatStyle};
use crate::joining;
use crate::laws;
use crate::record;
use crate::text;
use crate::value::{self, ValueModel};

verus! {

/// A text prints as it is, NULL as nothing, a floating-point number in the style
/// for that, and a blob as its bytes are decoded.
pub proof fn law_printed(s: Seq<char>, bits: u64, b: Seq<u8>, model: FloatModel)
    ensures
        value::printed(ValueModel::Text(s), model) == s,
        value::printed(ValueModel::Null, model) == Seq::<char>::empty(),
        value::printed(ValueModel::Float(bits), model) == (model.shows)(bits, FloatStyle::Printed),
        value::printed(ValueModel::Blob(b), model) == value::lossy_text(b),
{
}

/// Whether one text stands in another at some place.
pub open spec fn occurs(d: Seq<char>, s: Seq<char>) -> bool {
    exists|j: int| occurs_at(d, s, j)
}

/// Whether one text stands in another at a place.
pub open spec fn occurs_at(d: Seq<char>, s: Seq<char>, j: int) -> bool {
    0 <= j && j + d.len() <= s.len() && s.subrange(j, j + d.len()) == d
}

/// The parts with a text between each two of them.
pub open spec fn glued(parts: Seq<Seq<char>>, d: Seq<char>) -> Seq<char> {
    parts.skip(1).fold_left(parts[0], |done: Seq<char>, part: Seq<char>| done + d + part)
}

/// The text that an element was made of: NULL of the text for it.
pub open spec fn part_of(m: ValueModel, null: Option<Seq<char>>) -> Seq<char> {
    match (m, null) {
        (ValueModel::Text(p), _) => p,
        (_, Some(n)) => n,
        (_, None) => Seq::empty(),
    }
}

/// Whether elements are texts, and NULLs in place of the text for it.
pub open spec fn are_parts(s: Seq<ValueModel>, null: Option<Seq<char>>) -> bool {
    forall|i: int|
        0 <= i < s.len() ==> match #[trigger] s[i] {
            ValueModel::Text(p) => null != Some(p),
            ValueModel::Null => null is Some,
            _ => false,
        }
}

/// The texts that elements were made of.
pub open spec fn parts_in(s: Seq<ValueModel>, null: Option<Seq<char>>) -> Seq<Seq<char>> {
    Seq::new(s.len(), |i: int| part_of(s[i], null))
}

/// Whether parts are what a text is split into: with the delimiter between each
/// two of them they are the text, no part has the delimiter in it, and the
/// delimiter behind a part does not start before the part ends.
pub open spec fn is_split_of(parts: Seq<Seq<char>>, t: Seq<char>, d: Seq<char>) -> bool {
    &&& parts.len() > 0
    &&& glued(parts, d) == t
    &&& forall|i: int| 0 <= i < parts.len() ==> !occurs(d, #[trigger] parts[i])
    &&& forall|i: int, j: int|
        0 <= i < parts.len() - 1 && 0 <= j < parts[i].len() ==> !#[trigger] occurs_at(
            d,
            parts[i] + d,
            j,
        )
}

proof fn lemma_glued(parts: Seq<Seq<char>>, d: Seq<char>)
    requires
        parts.len() > 0,
    ensures
        text::joined(parts, d) == glued(parts, d),
    decreases parts.len(),
{
    let f = |done: Seq<char>, part: Seq<char>| done + d + part;
    if parts.len() > 1 {
        let front = parts.drop_last();
        lemma_glued(front, d);
        text::lemma_joined_push(front, parts.last(), d);
        assert(front.push(parts.last()) =~= parts);
        assert(parts.skip(1).drop_last() =~= front.skip(1));
        assert(parts.skip(1).last() == parts.last());
    } else {
        assert(parts.skip(1) =~= Seq::<Seq<char>>::empty());
    }
}

proof fn lemma_not_before(s: Seq<char>, d: Seq<char>, from: int)
    requires
        0 <= from,
    ensures
        match text::place_from(s, d, from) {
            Some(at) => from <= at && occurs_at(d, s, at) && forall|j: int|
                from <= j < at ==> !#[trigger] occurs_at(d, s, j),
            None => forall|j: int| from <= j ==> !#[trigger] occurs_at(d, s, j),
        },
    decreases s.len() - from + 1,
{
    if from + d.len() <= s.len() && !text::stands_at(s, d, from) {
        lemma_not_before(s, d, from + 1);
    }
}

proof fn lemma_pieces(s: Seq<char>, d: Seq<char>)
    requires
        d.len() > 0,
    ensures
        is_split_of(text::pieces(s, d), s, d),
    decreases s.len(),
{
    let parts = text::pieces(s, d);
    text::lemma_joined_pieces(s, d);
    lemma_glued(parts, d);
    lemma_not_before(s, d, 0);
    match text::place_from(s, d, 0) {
        Some(at) => {
            let rest = s.skip(at + d.len());
            let behind = text::pieces(rest, d);
            lemma_pieces(rest, d);
            let first = s.take(at);
            assert(first + d =~= s.take(at + d.len()));
            assert forall|j: int| 0 <= j < first.len() implies !#[trigger] occurs_at(
                d,
                first + d,
                j,
            ) by {
                if occurs_at(d, first + d, j) {
                    assert((first + d).subrange(j, j + d.len()) =~= s.subrange(j, j + d.len()));
                    assert(occurs_at(d, s, j));
                }
            }
            assert(!occurs(d, first)) by {
                if occurs(d, first) {
                    let j = choose|j: int| occurs_at(d, first, j);
                    assert(first.subrange(j, j + d.len()) =~= s.subrange(j, j + d.len()));
                    assert(occurs_at(d, s, j));
                }
            }
            assert forall|i: int| 0 <= i < parts.len() implies !occurs(d, #[trigger] parts[i]) by {
                if i > 0 {
                    assert(parts[i] == behind[i - 1]);
                }
            }
            assert forall|i: int, j: int|
                0 <= i < parts.len() - 1 && 0 <= j < parts[i].len() implies !#[trigger] occurs_at(
                d,
                parts[i] + d,
                j,
            ) by {
                if i > 0 {
                    assert(parts[i] == behind[i - 1]);
                }
            }
        },
        None => {
            assert forall|i: int| 0 <= i < parts.len() implies !occurs(d, #[trigger] parts[i]) by {
                assert(parts[i] == s);
            }
        },
    }
}

/// A text is split at every occurrence of a delimiter that is not empty, from
/// left to right, and nowhere else.
pub proof fn law_split(
    text: ValueModel,
    delimiter: ValueModel,
    null_str: Option<ValueModel>,
    model: FloatModel,
)
    requires
        text !is Null,
        delimiter !is Null,
        value::printed(delimiter, model).len() > 0,
    ensures
        exists|s: Seq<ValueModel>|
            {
                &&& joining::split_answer(text, delimiter, null_str, model)
                    == #[trigger] record::packed(s)
                &&& are_parts(s, joining::null_text(null_str, model))
                &&& is_split_of(
                    parts_in(s, joining::null_text(null_str, model)),
                    value::printed(text, model),
                    value::printed(delimiter, model),
                )
            },
{
    let (t, d) = (value::printed(text, model), value::printed(delimiter, model));
    let null = joining::null_text(null_str, model);
    let pieces = text::pieces(t, d);
    let s = joining::part_elements(pieces, null);
    lemma_pieces(t, d);
    assert(parts_in(s, null) =~= pieces);
    assert(joining::split_answer(text, delimiter, null_str, model) == record::packed(s));
}

/// There is one way in which a text is split at a delimiter.
pub proof fn law_one_split(a: Seq<Seq<char>>, b: Seq<Seq<char>>, t: Seq<char>, d: Seq<char>)
    requires
        d.len() > 0,
        is_split_of(a, t, d),
        is_split_of(b, t, d),
    ensures
        a == b,
    decreases a.len(),
{
    lemma_glued(a, d);
    lemma_glued(b, d);
    lemma_first_part(a, t, d);
    lemma_first_part(b, t, d);
    let (x, y) = (a[0], b[0]);
    if a.len() > 1 && b.len() > 1 {
        if x.len() < y.len() {
            lemma_not_inside(x, y, t, d);
        }
        if y.len() < x.len() {
            lemma_not_inside(y, x, t, d);
        }
        assert(t.take(x.len() as int) =~= x);
        assert(t.take(y.len() as int) =~= y);
        let rest = t.skip((x.len() + d.len()) as int);
        lemma_rest_is_split(a, t, d);
        lemma_rest_is_split(b, t, d);
        law_one_split(a.skip(1), b.skip(1), rest, d);
        assert(a =~= seq![x] + a.skip(1));
        assert(b =~= seq![y] + b.skip(1));
    } else if a.len() > 1 {
        assert(t == y);
        assert(occurs_at(d, y, x.len() as int));
    } else if b.len() > 1 {
        assert(t == x);
        assert(occurs_at(d, x, y.len() as int));
    } else {
        assert(a =~= seq![x]);
        assert(b =~= seq![y]);
    }
}

proof fn lemma_first_part(parts: Seq<Seq<char>>, t: Seq<char>, d: Seq<char>)
    requires
        is_split_of(parts, t, d),
        text::joined(parts, d) == t,
    ensures
        parts.len() == 1 ==> t == parts[0],
        parts.len() > 1 ==> {
            &&& t == parts[0] + d + text::joined(parts.skip(1), d)
            &&& t.len() >= parts[0].len() + d.len()
            &&& t.take((parts[0].len() + d.len()) as int) == parts[0] + d
            &&& t.skip((parts[0].len() + d.len()) as int) == text::joined(parts.skip(1), d)
            &&& occurs_at(d, t, parts[0].len() as int)
        },
{
    if parts.len() > 1 {
        let x = parts[0];
        let rest = text::joined(parts.skip(1), d);
        assert(t == x + d + rest);
        assert(t.take((x.len() + d.len()) as int) =~= x + d);
        assert(t.skip((x.len() + d.len()) as int) =~= rest);
        assert(t.subrange(x.len() as int, (x.len() + d.len()) as int) =~= d);
    }
}

proof fn lemma_not_inside(x: Seq<char>, y: Seq<char>, t: Seq<char>, d: Seq<char>)
    requires
        x.len() < y.len(),
        t.len() >= y.len() + d.len(),
        t.take((x.len() + d.len()) as int) == x + d,
        t.take((y.len() + d.len()) as int) == y + d,
    ensures
        occurs_at(d, y + d, x.len() as int),
{
    let j = x.len() as int;
    let long = t.take((y.len() + d.len()) as int);
    let short = t.take((x.len() + d.len()) as int);
    assert(long.subrange(j, j + d.len()) =~= short.subrange(j, j + d.len()));
    assert((x + d).subrange(j, j + d.len()) =~= d);
    assert(occurs_at(d, y + d, j));
}

proof fn lemma_rest_is_split(parts: Seq<Seq<char>>, t: Seq<char>, d: Seq<char>)
    requires
        parts.len() > 1,
        is_split_of(parts, t, d),
        t.skip((parts[0].len() + d.len()) as int) == text::joined(parts.skip(1), d),
    ensures
        is_split_of(parts.skip(1), t.skip((parts[0].len() + d.len()) as int), d),
{
    let rest = parts.skip(1);
    lemma_glued(rest, d);
    assert forall|i: int| 0 <= i < rest.len() implies !occurs(d, #[trigger] rest[i]) by {
        assert(rest[i] == parts[i + 1]);
    }
    assert forall|i: int, j: int|
        0 <= i < rest.len() - 1 && 0 <= j < rest[i].len() implies !#[trigger] occurs_at(
        d,
        rest[i] + d,
        j,
    ) by {
        assert(rest[i] == parts[i + 1]);
    }
}

/// The text of a value that stands for NULL: there is none where the value is
/// not given or is NULL itself.
pub proof fn law_null_text(m: ValueModel, model: FloatModel)
    ensures
        joining::null_text(None, model) is None,
        joining::null_text(Some(ValueModel::Null), model) is None,
        m !is Null ==> joining::null_text(Some(m), model) == Some(value::printed(m, model)),
{
}

/// NULL is not split. At NULL a text is split into its characters, and at an
/// empty delimiter it stays whole. Parts that are the text for NULL are NULL.
pub proof fn law_split_otherwise(
    text: ValueModel,
    delimiter: ValueModel,
    null_str: Option<ValueModel>,
    model: FloatModel,
)
    ensures
        joining::split_answer(ValueModel::Null, delimiter, null_str, model) == Ok::<
            ValueModel,
            ErrorModel,
        >(ValueModel::Null),
        text !is Null ==> joining::split_answer(text, ValueModel::Null, null_str, model)
            == record::packed(
            Seq::new(
                value::printed(text, model).len(),
                |i: int|
                    if joining::null_text(null_str, model) == Some(
                        seq![value::printed(text, model)[i]],
                    ) {
                        ValueModel::Null
                    } else {
                        ValueModel::Text(seq![value::printed(text, model)[i]])
                    },
            ),
        ),
        text !is Null && delimiter !is Null && value::printed(delimiter, model).len() == 0
            ==> joining::split_answer(text, delimiter, null_str, model) == record::packed(
            seq![
                if joining::null_text(null_str, model) == Some(value::printed(text, model)) {
                    ValueModel::Null
                } else {
                    ValueModel::Text(value::printed(text, model))
                },
            ],
        ),
{
    let t = value::printed(text, model);
    let null = joining::null_text(null_str, model);
    assert(joining::part_elements(joining::parts(t, ValueModel::Null, model), null) =~= Seq::new(
        t.len(),
        |i: int|
            if null == Some(seq![t[i]]) {
                ValueModel::Null
            } else {
                ValueModel::Text(seq![t[i]])
            },
    ));
    assert(joining::part_elements(seq![t], null) =~= seq![
        if null == Some(t) {
            ValueModel::Null
        } else {
            ValueModel::Text(t)
        },
    ]);
}

/// Whether joining shows an element: all but NULLs that no text is given for.
pub open spec fn is_shown(m: ValueModel, null_str: Option<ValueModel>) -> bool {
    m !is Null || (null_str matches Some(n) && n !is Null)
}

/// Whether joining shows any of some elements.
pub open spec fn any_shown(s: Seq<ValueModel>, null_str: Option<ValueModel>) -> bool {
    exists|i: int| 0 <= i < s.len() && is_shown(#[trigger] s[i], null_str)
}

proof fn lemma_shown(s: Seq<ValueModel>, null_str: Option<ValueModel>, model: FloatModel)
    ensures
        joining::shown(s, joining::null_text(null_str, model), model).len() > 0 <==> any_shown(
            s,
            null_str,
        ),
    decreases s.len(),
{
    if s.len() > 0 {
        let front = s.drop_last();
        lemma_shown(front, null_str, model);
        if any_shown(front, null_str) {
            let i = choose|i: int| 0 <= i < front.len() && is_shown(#[trigger] front[i], null_str);
            assert(is_shown(s[i], null_str));
        }
        if is_shown(s[s.len() - 1], null_str) {
            assert(any_shown(s, null_str));
        }
        if any_shown(s, null_str) {
            let i = choose|i: int| 0 <= i < s.len() && is_shown(#[trigger] s[i], null_str);
            if i < front.len() {
                assert(is_shown(front[i], null_str));
            }
        }
    }
}

/// What is joined of an array with one element more: the same where the element
/// is not shown, the element alone where it is the first that is, and else the
/// same with the delimiter and the element behind it. Of no elements nothing is
/// joined.
pub proof fn law_join_one_more(
    arr: ValueModel,
    longer: ValueModel,
    s: Seq<ValueModel>,
    m: ValueModel,
    delimiter: ValueModel,
    null_str: Option<ValueModel>,
    model: FloatModel,
)
    requires
        arr !is Null,
        longer !is Null,
        delimiter !is Null,
        laws::has_elements(arr, s, model),
        laws::has_elements(longer, s.push(m), model),
    ensures
        joining::join_answer(arr, delimiter, null_str, model) matches Ok(ValueModel::Text(r)) && {
            let part = if m is Null {
                value::printed(null_str->0, model)
            } else {
                value::printed(m, model)
            };
            &&& s.len() == 0 ==> r == Seq::<char>::empty()
            &&& joining::join_answer(longer, delimiter, null_str, model) == Ok::<
                ValueModel,
                ErrorModel,
            >(
                ValueModel::Text(
                    if !is_shown(m, null_str) {
                        r
                    } else if !any_shown(s, null_str) {
                        part
                    } else {
                        r + value::printed(delimiter, model) + part
                    },
                ),
            )
        },
{
    let null = joining::null_text(null_str, model);
    let d = value::printed(delimiter, model);
    lemma_shown(s, null_str, model);
    let before = joining::shown(s, null, model);
    assert(s.push(m).drop_last() =~= s);
    let part = if m is Null {
        value::printed(null_str->0, model)
    } else {
        value::printed(m, model)
    };
    if is_shown(m, null_str) {
        assert(joining::shown(s.push(m), null, model) == before.push(part));
        text::lemma_joined_push(before, part, d);
    } else {
        assert(joining::shown(s.push(m), null, model) == before);
    }
}

/// Of an array without elements nothing is joined. Of NULL, of what is no array
/// and with NULL between the elements the answer is NULL, and what cannot be read
/// is refused as ever.
pub proof fn law_join_otherwise(
    arr: ValueModel,
    delimiter: ValueModel,
    null_str: Option<ValueModel>,
    model: FloatModel,
)
    ensures
        arr is Null || delimiter is Null ==> joining::join_answer(arr, delimiter, null_str, model)
            == Ok::<ValueModel, ErrorModel>(ValueModel::Null),
        arr !is Null && delimiter !is Null ==> match array::elements_of(arr, model) {
            Err(e) => joining::join_answer(arr, delimiter, null_str, model) == Err::<
                ValueModel,
                ErrorModel,
            >(e),
            Ok(None) => joining::join_answer(arr, delimiter, null_str, model) == Ok::<
                ValueModel,
                ErrorModel,
            >(ValueModel::Null),
            Ok(Some(s)) => s.len() == 0 ==> joining::join_answer(arr, delimiter, null_str, model)
                == Ok::<ValueModel, ErrorModel>(ValueModel::Text(Seq::empty())),
        },
{
}

} // verus!
