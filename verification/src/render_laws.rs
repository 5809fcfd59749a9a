//! What holds of the text of arrays.

use vstd::prelude::*;

use crate::aliases::{self, Moment};
use crate::floats::{self, FloatModel, FloatStyle};
use crate::literal_laws;
use crate::numeral_laws;
use crate::numerals;
use crate::render;
use crate::text;
use crate::value::ValueModel;

verus! {

/// A digit of base sixteen.
pub open spec fn hex_digit(d: int, capital: bool) -> char {
    if capital {
        "0123456789ABCDEF"@[d]
    } else {
        "0123456789abcdef"@[d]
    }
}

proof fn lemma_hex_digit(d: int, capital: bool)
    requires
        0 <= d < 16,
    ensures
        numerals::hex_char(
            d,
            if capital {
                'A'
            } else {
                'a'
            },
        ) == hex_digit(d, capital),
{
    reveal_strlit("0123456789ABCDEF");
    reveal_strlit("0123456789abcdef");
}

/// The text of an array starts and ends with a brace and has its elements between
/// them, each behind the one before it and a comma.
pub proof fn law_array_text_grows(vs: Seq<ValueModel>, m: ValueModel, model: FloatModel)
    ensures
        render::array_text(Seq::empty(), model) == "{}"@,
        ({
            let t = render::array_text(vs, model);
            let longer = render::array_text(vs.push(m), model);
            let e = render::element_text(m, model);
            &&& t.len() >= 2
            &&& vs.len() == 0 ==> longer == seq!['{'] + e + seq!['}']
            &&& vs.len() > 0 ==> longer == t.drop_last() + seq![','] + e + seq!['}']
        }),
{
    reveal_strlit("{}");
    assert(render::element_texts(Seq::empty(), model) =~= Seq::<Seq<char>>::empty());
    assert(render::array_text(Seq::empty(), model) =~= "{}"@);
    let parts = render::element_texts(vs, model);
    let e = render::element_text(m, model);
    assert(render::element_texts(vs.push(m), model) =~= parts.push(e));
    text::lemma_joined_push(parts, e, seq![',']);
    let t = render::array_text(vs, model);
    assert(t.drop_last() =~= seq!['{'] + text::joined(parts, seq![',']));
    let longer = render::array_text(vs.push(m), model);
    if vs.len() == 0 {
        assert(longer =~= seq!['{'] + e + seq!['}']);
    } else {
        assert(longer =~= t.drop_last() + seq![','] + e + seq!['}']);
    }
}

/// NULL is written as its name. A floating-point number is written in the style
/// for whole numbers where it is one, in the style for the others where it is not,
/// and zero without a sign.
pub proof fn law_null_and_float_elements(bits: u64, model: FloatModel)
    ensures
        render::element_text(ValueModel::Null, model) == "NULL"@,
        render::element_text(ValueModel::Float(0x8000_0000_0000_0000), model)
            == render::element_text(ValueModel::Float(0), model),
        bits != 0x8000_0000_0000_0000 ==> render::element_text(ValueModel::Float(bits), model) == (
        model.shows)(
            bits,
            if floats::is_whole_bits(bits) {
                FloatStyle::OnePlace
            } else {
                FloatStyle::Bare
            },
        ),
{
}

/// A blob is written in quotes as the letter `X` and its bytes, each as two
/// capital digits of base sixteen, between single quotes.
pub proof fn law_blob_elements(b: Seq<u8>, i: int, model: FloatModel)
    requires
        0 <= i < b.len(),
    ensures
        ({
            let t = render::element_text(ValueModel::Blob(b), model);
            &&& t.len() == 2 * b.len() + 5
            &&& t.take(3) == "\"X'"@
            &&& t.skip(t.len() - 2) == "'\""@
            &&& t[3 + 2 * i] == hex_digit(b[i] as int / 16, true)
            &&& t[4 + 2 * i] == hex_digit(b[i] as int % 16, true)
        }),
{
    let t = render::element_text(ValueModel::Blob(b), model);
    reveal_strlit("\"X'");
    reveal_strlit("'\"");
    lemma_hex_bytes(b, i);
    lemma_hex_digit(b[i] as int / 16, true);
    lemma_hex_digit(b[i] as int % 16, true);
    assert(t.take(3) =~= "\"X'"@);
    assert(t.skip(t.len() - 2) =~= "'\""@);
}

/// An empty blob is written without digits.
pub proof fn law_empty_blob_element(model: FloatModel)
    ensures
        render::element_text(ValueModel::Blob(Seq::empty()), model) == "\"X''\""@,
{
    reveal_strlit("\"X'");
    reveal_strlit("'\"");
    reveal_strlit("\"X''\"");
    assert(render::element_text(ValueModel::Blob(Seq::empty()), model) =~= "\"X''\""@);
}

proof fn lemma_hex_bytes(b: Seq<u8>, i: int)
    requires
        0 <= i < b.len(),
    ensures
        render::all_hex(b).len() == 2 * b.len(),
        render::all_hex(b)[2 * i] == numerals::hex_char(b[i] as int / 16, 'A'),
        render::all_hex(b)[2 * i + 1] == numerals::hex_char(b[i] as int % 16, 'A'),
    decreases b.len(),
{
    let front = b.drop_last();
    if i < front.len() {
        lemma_hex_bytes(front, i);
    } else if front.len() > 0 {
        lemma_hex_bytes(front, 0);
    } else {
        assert(render::all_hex(front) =~= Seq::<char>::empty());
    }
}

/// Whether a character keeps a text from being written as it is: a comma, a
/// brace, a quote, a backslash, white space, or a control character.
pub open spec fn keeps_from_plain(c: char) -> bool {
    c == ',' || c == '{' || c == '}' || c == '"' || c == '\\' || text::is_white(c) || (c as int)
        < 32 || 127 <= (c as int) < 160
}

/// How a character is written in quotes: quotes and backslashes behind a
/// backslash, line ends and tabs as their letters behind one, other control
/// characters as their codes in four digits of base sixteen.
pub open spec fn in_quotes(c: char) -> Seq<char> {
    if c == '"' {
        seq!['\\', '"']
    } else if c == '\\' {
        seq!['\\', '\\']
    } else if c == '\n' {
        seq!['\\', 'n']
    } else if c == '\r' {
        seq!['\\', 'r']
    } else if c == '\t' {
        seq!['\\', 't']
    } else if (c as int) < 32 || 127 <= (c as int) < 160 {
        seq![
            '\\',
            'u',
            '0',
            '0',
            hex_digit(c as int / 16, false),
            hex_digit(c as int % 16, false),
        ]
    } else {
        seq![c]
    }
}

/// A text is written as it is, where it is not empty, not the word for NULL and
/// has no character that keeps it from that. Any other is written in quotes, each
/// character on its own.
pub proof fn law_text_elements(s: Seq<char>, model: FloatModel)
    ensures
        render::element_text(ValueModel::Text(s), model) == if s.len() > 0
            && !literal_laws::is_null_spelling(s) && forall|k: int|
            0 <= k < s.len() ==> !keeps_from_plain(#[trigger] s[k]) {
            s
        } else {
            seq!['"'] + s.fold_left(
                Seq::<char>::empty(),
                |done: Seq<char>, c: char| done + in_quotes(c),
            ) + seq!['"']
        },
{
    reveal_strlit("null");
    reveal_strlit("NULL");
    assert(literal_laws::is_null_spelling(s) <==> text::is_null_word(s)) by {
        if literal_laws::is_null_spelling(s) {
            assert(s[0] == "null"@[0] || s[0] == "NULL"@[0]);
            assert(s[1] == "null"@[1] || s[1] == "NULL"@[1]);
            assert(s[2] == "null"@[2] || s[2] == "NULL"@[2]);
            assert(s[3] == "null"@[3] || s[3] == "NULL"@[3]);
        }
    }
    if forall|k: int| 0 <= k < s.len() ==> !keeps_from_plain(#[trigger] s[k]) {
        assert forall|k: int| 0 <= k < s.len() implies !render::is_special(#[trigger] s[k]) by {
            assert(!keeps_from_plain(s[k]));
        }
    } else {
        let k = choose|k: int| 0 <= k < s.len() && keeps_from_plain(#[trigger] s[k]);
        assert(render::is_special(s[k]));
    }
    lemma_in_quotes(s);
}

proof fn lemma_in_quotes(s: Seq<char>)
    ensures
        render::all_escaped(s) == s.fold_left(
            Seq::<char>::empty(),
            |done: Seq<char>, c: char| done + in_quotes(c),
        ),
    decreases s.len(),
{
    if s.len() > 0 {
        lemma_in_quotes(s.drop_last());
        lemma_one_in_quotes(s.last());
    }
}

proof fn lemma_one_in_quotes(c: char)
    ensures
        render::escaped(c) == in_quotes(c),
{
    let n = c as int;
    if text::is_control(c) && c != '\n' && c != '\r' && c != '\t' {
        lemma_hex_digit(0, false);
        lemma_hex_digit(n / 16, false);
        lemma_hex_digit(n % 16, false);
        reveal_strlit("0123456789abcdef");
        assert(render::escaped(c) =~= in_quotes(c));
    }
}

/// The digit of a number at a power of ten.
pub open spec fn digit_of(n: int, power: int) -> char {
    "0123456789"@[n / power % 10]
}

proof fn lemma_digit(d: int)
    requires
        0 <= d < 10,
    ensures
        numerals::digit_char(d) == "0123456789"@[d],
{
    reveal_strlit("0123456789");
}

proof fn lemma_padded_two(n: int)
    requires
        0 <= n < 100,
    ensures
        numerals::padded(n as nat, 2) == seq![digit_of(n, 10), digit_of(n, 1)],
{
    reveal_with_fuel(numerals::decimal, 3);
    lemma_digit(n / 10);
    lemma_digit(n % 10);
    lemma_digit(0);
    assert(numerals::padded(n as nat, 2) =~= seq![digit_of(n, 10), digit_of(n, 1)]);
}

proof fn lemma_padded_three(n: int)
    requires
        0 <= n < 1000,
    ensures
        numerals::padded(n as nat, 3) == seq![digit_of(n, 100), digit_of(n, 10), digit_of(n, 1)],
{
    reveal_with_fuel(numerals::decimal, 4);
    lemma_digit(n / 100);
    lemma_digit(n / 10 % 10);
    lemma_digit(n % 10);
    lemma_digit(0);
    assert(n / 10 / 10 == n / 100);
    assert(numerals::padded(n as nat, 3) =~= seq![
        digit_of(n, 100),
        digit_of(n, 10),
        digit_of(n, 1),
    ]);
}

proof fn lemma_padded_four(n: int)
    requires
        0 <= n < 10_000,
    ensures
        numerals::padded(n as nat, 4) == seq![
            digit_of(n, 1000),
            digit_of(n, 100),
            digit_of(n, 10),
            digit_of(n, 1),
        ],
{
    reveal_with_fuel(numerals::decimal, 5);
    lemma_digit(n / 1000);
    lemma_digit(n / 100 % 10);
    lemma_digit(n / 10 % 10);
    lemma_digit(n % 10);
    lemma_digit(0);
    assert(n / 10 / 10 == n / 100);
    assert(n / 10 / 10 / 10 == n / 1000);
    assert(numerals::padded(n as nat, 4) =~= seq![
        digit_of(n, 1000),
        digit_of(n, 100),
        digit_of(n, 10),
        digit_of(n, 1),
    ]);
}

/// The two digits of a number below a hundred.
pub open spec fn two_of(n: int) -> Seq<char> {
    seq![digit_of(n, 10), digit_of(n, 1)]
}

/// A moment is written with two digits for each part but the year, and three for
/// the milliseconds. A leap second is the one behind the 59th.
pub proof fn law_moment_text(m: Moment)
    requires
        aliases::is_moment(m),
    ensures
        ({
            let (second, nano) = if m.nanosecond < 1_000_000_000 {
                (m.second as int, m.nanosecond as int)
            } else {
                (60int, m.nanosecond - 1_000_000_000)
            };
            let milli = nano / 1_000_000;
            aliases::moment_text(m) == aliases::year_text(m.year as int) + seq!['-'] + two_of(
                m.month as int,
            ) + seq!['-'] + two_of(m.day as int) + seq![' '] + two_of(m.hour as int) + seq![':']
                + two_of(m.minute as int) + seq![':'] + two_of(second) + seq!['.'] + seq![
                digit_of(milli, 100),
                digit_of(milli, 10),
                digit_of(milli, 1),
            ]
        }),
{
    let (second, nano) = if m.nanosecond < 1_000_000_000 {
        (m.second as int, m.nanosecond as int)
    } else {
        (60int, m.nanosecond - 1_000_000_000)
    };
    let milli = nano / 1_000_000;
    assert(m.nanosecond as int / 1_000_000 % 1000 == milli);
    assert(m.second + m.nanosecond as int / 1_000_000_000 == second);
    lemma_padded_two(m.month as int);
    lemma_padded_two(m.day as int);
    lemma_padded_two(m.hour as int);
    lemma_padded_two(m.minute as int);
    lemma_padded_two(second);
    lemma_padded_three(milli);
}

/// A year from 0 to 9999 is written with four digits. Any other has a sign; a
/// later one its numeral behind it, and one before zero its digits, of which there
/// are four at least.
pub proof fn law_year_text(year: int)
    ensures
        0 <= year <= 9999 ==> aliases::year_text(year) == seq![
            digit_of(year, 1000),
            digit_of(year, 100),
            digit_of(year, 10),
            digit_of(year, 1),
        ],
        year > 9999 ==> aliases::year_text(year)[0] == '+' && numeral_laws::is_canonical(
            aliases::year_text(year).skip(1),
            year,
        ),
        year < -9999 ==> numeral_laws::is_canonical(aliases::year_text(year), year),
        -9999 <= year < 0 ==> aliases::year_text(year) == seq![
            '-',
            digit_of(-year, 1000),
            digit_of(-year, 100),
            digit_of(-year, 10),
            digit_of(-year, 1),
        ],
{
    let t = aliases::year_text(year);
    if 0 <= year <= 9999 {
        lemma_padded_four(year);
    } else if year > 9999 {
        numeral_laws::law_integer_text(year);
        assert(t.skip(1) =~= numerals::integer_text(year));
    } else if year < -9999 {
        lemma_five_digits((-year) as nat);
        numeral_laws::law_integer_text(year);
        assert(t == numerals::integer_text(year));
    } else {
        lemma_padded_four(-year);
        assert(t =~= seq![
            '-',
            digit_of(-year, 1000),
            digit_of(-year, 100),
            digit_of(-year, 10),
            digit_of(-year, 1),
        ]);
    }
}

proof fn lemma_five_digits(n: nat)
    requires
        n > 9999,
    ensures
        numerals::decimal(n).len() >= 5,
{
    reveal_with_fuel(numerals::decimal, 6);
    assert(n / 10 > 999 && n / 10 / 10 > 99 && n / 10 / 10 / 10 > 9);
}

/// The minor part of a version number has its sign, as the major part has.
pub proof fn law_version_signs(n: int)
    ensures
        ({
            let (major, minor) = aliases::version_parts(n);
            &&& n >= 0 ==> major >= 0 && 0 <= minor < 10_000
            &&& n <= 0 ==> major <= 0 && -10_000 < minor <= 0
            &&& 10_000 * major + minor == n
        }),
{
}

/// The text of a version has the numerals of its parts, and the version of the
/// package behind them as it is.
pub proof fn law_version_text(major: int, minor: int, package: Seq<char>)
    ensures
        exists|a: Seq<char>, b: Seq<char>|
            #![trigger numeral_laws::is_canonical(a, major), numeral_laws::is_canonical(b, minor)]
            numeral_laws::is_canonical(a, major) && numeral_laws::is_canonical(b, minor)
                && aliases::version_text(major, minor, package) == "PostgreSQL "@ + a + "."@ + b
                + " on Turso "@ + package,
{
    numeral_laws::law_integer_text(major);
    numeral_laws::law_integer_text(minor);
}

} // verus!
