//! What holds of numbers and their decimal text.

use vstd::prelude::*;

use crate::coercion;
use crate::error::ErrorModel;
use crate::floats::{self, FloatModel, FloatStyle};
use crate::numerals;
use crate::render;
use crate::text;
use crate::value::{self, ValueModel};

verus! {

/// The number that decimal digits are worth by their places.
pub open spec fn place_value(digits: Seq<char>) -> int {
    digits.fold_left(0int, |worth: int, c: char| 10 * worth + (c as int - 48))
}

/// Whether a text is one or more of the characters from `0` to `9`.
pub open spec fn all_digits(t: Seq<char>) -> bool {
    t.len() > 0 && forall|k: int| 0 <= k < t.len() ==> '0' <= #[trigger] t[k] <= '9'
}

/// Whether a text is the numeral of an integer: a minus sign just where the
/// integer is negative, then digits that are worth its absolute value, without a
/// zero before others.
pub open spec fn is_canonical(t: Seq<char>, i: int) -> bool {
    let digits = if i < 0 {
        t.skip(1)
    } else {
        t
    };
    &&& i < 0 ==> t.len() > 0 && t[0] == '-'
    &&& all_digits(digits)
    &&& digits[0] == '0' ==> digits.len() == 1
    &&& place_value(digits) == if i < 0 {
        -i
    } else {
        i
    }
}

/// Whether a text spells an integer: digits that are worth it, zeros before them
/// included, behind a sign or none.
pub open spec fn spells(t: Seq<char>, i: int) -> bool {
    if t.len() > 0 && t[0] == '-' {
        all_digits(t.skip(1)) && i == -place_value(t.skip(1))
    } else if t.len() > 0 && t[0] == '+' {
        all_digits(t.skip(1)) && i == place_value(t.skip(1))
    } else {
        all_digits(t) && i == place_value(t)
    }
}

/// Whether a text has nothing but white space.
pub open spec fn all_white(t: Seq<char>) -> bool {
    forall|k: int| 0 <= k < t.len() ==> text::is_white(#[trigger] t[k])
}

proof fn lemma_place_value(digits: Seq<char>)
    ensures
        numerals::digits_worth(digits) == place_value(digits),
    decreases digits.len(),
{
    if digits.len() > 0 {
        lemma_place_value(digits.drop_last());
    }
}

proof fn lemma_no_leading_zero(n: nat)
    ensures
        n > 0 ==> numerals::decimal(n)[0] != '0',
        n < 10 ==> numerals::decimal(n).len() == 1,
        numerals::decimal(n).len() > 0,
    decreases n,
{
    if n >= 10 {
        lemma_no_leading_zero(n / 10);
    }
}

/// The text of an integer is its numeral.
pub proof fn law_integer_text(i: int)
    ensures
        is_canonical(numerals::integer_text(i), i),
{
    let n = (if i < 0 {
        -i
    } else {
        i
    }) as nat;
    let digits = numerals::decimal(n);
    numerals::lemma_decimal(n);
    lemma_no_leading_zero(n);
    lemma_place_value(digits);
    assert forall|k: int| 0 <= k < digits.len() implies '0' <= #[trigger] digits[k] <= '9' by {
        assert(numerals::is_digit(digits[k]));
    }
    if i < 0 {
        assert(numerals::integer_text(i).skip(1) =~= digits);
    }
}

proof fn lemma_place_value_bound(digits: Seq<char>)
    requires
        forall|k: int| 0 <= k < digits.len() ==> '0' <= #[trigger] digits[k] <= '9',
    ensures
        place_value(digits) >= 0,
        digits.len() > 0 && digits[0] != '0' ==> place_value(digits) > 0,
    decreases digits.len(),
{
    if digits.len() > 0 {
        let front = digits.drop_last();
        assert forall|k: int| 0 <= k < front.len() implies '0' <= #[trigger] front[k] <= '9' by {
            assert(front[k] == digits[k]);
        }
        lemma_place_value_bound(front);
        if front.len() > 0 {
            assert(front[0] == digits[0]);
        } else {
            assert(place_value(front) == 0);
        }
        assert(place_value(digits) == 10 * place_value(front) + (digits.last() as int - 48));
    }
}

/// An integer has one numeral.
pub proof fn law_one_numeral(s: Seq<char>, t: Seq<char>, i: int)
    requires
        is_canonical(s, i),
        is_canonical(t, i),
    ensures
        s == t,
{
    if i < 0 {
        lemma_same_digits(s.skip(1), t.skip(1));
        assert(s =~= seq!['-'] + s.skip(1));
        assert(t =~= seq!['-'] + t.skip(1));
    } else {
        lemma_same_digits(s, t);
    }
}

proof fn lemma_same_digits(s: Seq<char>, t: Seq<char>)
    requires
        all_digits(s),
        all_digits(t),
        s[0] == '0' ==> s.len() == 1,
        t[0] == '0' ==> t.len() == 1,
        place_value(s) == place_value(t),
    ensures
        s == t,
    decreases s.len(),
{
    let (a, b) = (s.drop_last(), t.drop_last());
    let (x, y) = (s.last() as int - 48, t.last() as int - 48);
    assert forall|k: int| 0 <= k < a.len() implies '0' <= #[trigger] a[k] <= '9' by {
        assert(a[k] == s[k]);
    }
    assert forall|k: int| 0 <= k < b.len() implies '0' <= #[trigger] b[k] <= '9' by {
        assert(b[k] == t[k]);
    }
    lemma_place_value_bound(a);
    lemma_place_value_bound(b);
    assert('0' <= s[s.len() - 1] <= '9' && '0' <= t[t.len() - 1] <= '9');
    assert(10 * place_value(a) + x == 10 * place_value(b) + y);
    assert(x == y && place_value(a) == place_value(b));
    if a.len() > 0 {
        assert(a[0] == s[0]);
    }
    if b.len() > 0 {
        assert(b[0] == t[0]);
    }
    if a.len() == 0 || b.len() == 0 {
        assert(place_value(Seq::<char>::empty()) == 0);
        assert(a =~= Seq::<char>::empty() <==> a.len() == 0);
        assert(b =~= Seq::<char>::empty() <==> b.len() == 0);
        assert(a.len() == 0 && b.len() == 0);
    } else {
        lemma_same_digits(a, b);
    }
    assert(s.last() == t.last());
    assert(s =~= a.push(s.last()));
    assert(t =~= b.push(t.last()));
}

/// Wherever an integer is written, it is written as its numeral: as an element
/// of an array, on its own, and where it is compared with a text.
pub proof fn law_integers_are_written(i: i64, probe: Seq<char>, model: FloatModel)
    ensures
        is_canonical(render::element_text(ValueModel::Integer(i), model), i as int),
        is_canonical(value::printed(ValueModel::Integer(i), model), i as int),
        coercion::element_for(ValueModel::Integer(i), ValueModel::Text(probe), model) matches Ok(
            ValueModel::Text(t),
        ) && is_canonical(t, i as int),
{
    law_integer_text(i as int);
}

/// A text spells an integer of 64 bits just where it is read as that integer.
pub proof fn law_integers_are_read(t: Seq<char>, i: int)
    ensures
        numerals::integer_of(t) == Some(i) <==> spells(t, i) && i64::MIN <= i <= i64::MAX,
{
    let digits = numerals::unsigned_part(t);
    lemma_place_value(digits);
    if numerals::is_digits(digits) {
        assert forall|k: int| 0 <= k < digits.len() implies '0' <= #[trigger] digits[k] <= '9' by {
            assert(numerals::is_digit(digits[k]));
        }
    }
    if all_digits(digits) {
        assert forall|k: int| 0 <= k < digits.len() implies #[trigger] numerals::is_digit(
            digits[k],
        ) by {
            assert('0' <= digits[k] <= '9');
        }
    }
    if t.len() > 0 && (t[0] == '-' || t[0] == '+') {
        assert(digits == t.skip(1));
    } else {
        assert(digits == t);
    }
}

/// The numeral of an integer spells it.
pub proof fn law_numerals_spell(t: Seq<char>, i: int)
    requires
        is_canonical(t, i),
    ensures
        spells(t, i),
{
    if i >= 0 {
        assert('0' <= t[0] <= '9');
    }
}

/// A text is trimmed to what is left between the white space at its ends.
pub proof fn law_trimmed(before: Seq<char>, t: Seq<char>, behind: Seq<char>)
    requires
        all_white(before),
        all_white(behind),
        t.len() > 0 ==> !text::is_white(t[0]) && !text::is_white(t.last()),
    ensures
        text::trimmed(before + t + behind) == t,
{
    lemma_leading(before, t + behind);
    assert(before + t + behind =~= before + (t + behind));
    if t.len() > 0 {
        assert((t + behind)[0] == t[0]);
        assert(text::without_leading_white(t + behind) == t + behind);
        lemma_trailing(t, behind);
        assert(text::without_trailing_white(t) == t);
    } else {
        assert(t + behind =~= behind);
        assert(behind + Seq::<char>::empty() =~= behind);
        lemma_leading(behind, Seq::empty());
        assert(t =~= Seq::<char>::empty());
    }
}

proof fn lemma_leading(before: Seq<char>, s: Seq<char>)
    requires
        all_white(before),
    ensures
        text::without_leading_white(before + s) == text::without_leading_white(s),
    decreases before.len(),
{
    if before.len() == 0 {
        assert(before + s =~= s);
    } else {
        let rest = before.skip(1);
        assert forall|k: int| 0 <= k < rest.len() implies text::is_white(#[trigger] rest[k]) by {
            assert(text::is_white(before[k + 1]));
        }
        assert(text::is_white(before[0]));
        assert((before + s).skip(1) =~= rest + s);
        lemma_leading(rest, s);
    }
}

proof fn lemma_trailing(s: Seq<char>, behind: Seq<char>)
    requires
        all_white(behind),
    ensures
        text::without_trailing_white(s + behind) == text::without_trailing_white(s),
    decreases behind.len(),
{
    if behind.len() == 0 {
        assert(s + behind =~= s);
    } else {
        let rest = behind.drop_last();
        assert forall|k: int| 0 <= k < rest.len() implies text::is_white(#[trigger] rest[k]) by {
            assert(text::is_white(behind[k]));
        }
        assert(text::is_white(behind[behind.len() - 1]));
        assert((s + behind).drop_last() =~= s + rest);
        lemma_trailing(s, rest);
    }
}

/// A text that spells an integer, with white space around it or without, is read
/// as that integer where it is compared with a number.
pub proof fn law_texts_read_as_integers(
    before: Seq<char>,
    t: Seq<char>,
    behind: Seq<char>,
    i: i64,
    model: FloatModel,
)
    requires
        all_white(before),
        all_white(behind),
        spells(t, i as int),
    ensures
        coercion::text_number(before + t + behind, model) == Ok::<ValueModel, ErrorModel>(
            ValueModel::Integer(i),
        ),
        forall|probe: ValueModel| #[trigger]
            value::is_numeric(probe) ==> coercion::element_for(
                ValueModel::Text(before + t + behind),
                probe,
                model,
            ) == Ok::<ValueModel, ErrorModel>(ValueModel::Integer(i)),
{
    law_integers_are_read(t, i as int);
    let digits = if t[0] == '-' || t[0] == '+' {
        t.skip(1)
    } else {
        t
    };
    assert(t.last() == digits[digits.len() - 1]);
    assert('0' <= digits[digits.len() - 1] <= '9');
    if digits == t {
        assert('0' <= t[0] <= '9');
    }
    law_trimmed(before, t, behind);
}

/// The text of an integer is read as the integer again, with white space around
/// it or without.
pub proof fn law_integers_read_back(
    before: Seq<char>,
    behind: Seq<char>,
    i: i64,
    model: FloatModel,
)
    requires
        all_white(before),
        all_white(behind),
    ensures
        coercion::text_number(
            before + value::printed(ValueModel::Integer(i), model) + behind,
            model,
        ) == Ok::<ValueModel, ErrorModel>(ValueModel::Integer(i)),
{
    law_integer_text(i as int);
    law_numerals_spell(numerals::integer_text(i as int), i as int);
    law_texts_read_as_integers(before, numerals::integer_text(i as int), behind, i, model);
}

/// A text that spells no integer of 64 bits is read, where it is compared with a
/// number, as the finite floating-point number that it spells between the white
/// space at its ends. It is refused where it spells none.
pub proof fn law_other_texts_read(
    before: Seq<char>,
    t: Seq<char>,
    behind: Seq<char>,
    probe: ValueModel,
    model: FloatModel,
)
    requires
        all_white(before),
        all_white(behind),
        t.len() > 0 ==> !text::is_white(t[0]) && !text::is_white(t.last()),
        forall|i: int| #[trigger] spells(t, i) ==> !(i64::MIN <= i <= i64::MAX),
        value::is_numeric(probe),
    ensures
        ({
            let r = coercion::element_for(ValueModel::Text(before + t + behind), probe, model);
            match (model.reads)(t) {
                Some(bits) => if floats::is_finite_bits(bits) {
                    r == Ok::<ValueModel, ErrorModel>(ValueModel::Float(bits))
                } else {
                    r is Err
                },
                None => r is Err,
            }
        }),
{
    law_trimmed(before, t, behind);
    if let Some(i) = numerals::integer_of(t) {
        law_integers_are_read(t, i);
    }
}

/// What each kind of element becomes where it is compared with a value: NULLs
/// and elements of its type stay, as does everything against NULL; numbers become
/// texts against a text; blobs are refused against what is none, and the other
/// way round.
pub proof fn law_elements_take_types(m: ValueModel, probe: ValueModel, model: FloatModel)
    ensures
        m is Null || probe is Null || (value::is_numeric(m) && value::is_numeric(probe)) || (
        m is Text && probe is Text) || (m is Blob && probe is Blob) ==> coercion::element_for(
            m,
            probe,
            model,
        ) == Ok::<ValueModel, ErrorModel>(m),
        probe is Text ==> (m matches ValueModel::Float(bits) ==> coercion::element_for(
            m,
            probe,
            model,
        ) == Ok::<ValueModel, ErrorModel>(ValueModel::Text((model.shows)(bits, FloatStyle::Bare)))),
        m is Blob && (value::is_numeric(probe) || probe is Text) ==> coercion::element_for(
            m,
            probe,
            model,
        ) is Err,
        probe is Blob && (value::is_numeric(m) || m is Text) ==> coercion::element_for(
            m,
            probe,
            model,
        ) is Err,
{
}

} // verus!
