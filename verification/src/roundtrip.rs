//! What the text of an array reads back as.

use vstd::prelude::*;

use crate::array;
use crate::floats::{self, FloatModel};
use crate::literal::{self, ElementRead, Literal};
use crate::numerals;
use crate::render;
use crate::text;
use crate::value::{self, ValueModel};

verus! {

/// Whether a character is written as its code: it is a control character
/// without a letter of its own.
pub open spec fn is_coded(c: char) -> bool {
    text::is_control(c) && c != '\n' && c != '\r' && c != '\t'
}

/// What a character in quotes reads back as: itself, or the letter `u` and its
/// code, since codes are written but not read.
pub open spec fn char_read_back(c: char) -> Seq<char> {
    if is_coded(c) {
        seq!['u'] + numerals::code_hex(c as int)
    } else {
        seq![c]
    }
}

/// What a text in quotes reads back as.
pub open spec fn text_read_back(s: Seq<char>) -> Seq<char>
    decreases s.len(),
{
    if s.len() == 0 {
        Seq::empty()
    } else {
        text_read_back(s.drop_last()) + char_read_back(s.last())
    }
}

/// What an element reads back as. A text without quotes reads as whatever it
/// spells, and a blob as the text of its digits. `None` for what spells a number
/// that is not finite.
pub open spec fn read_back(m: ValueModel, model: FloatModel) -> Option<ValueModel> {
    match m {
        ValueModel::Null => Some(m),
        ValueModel::Integer(_) => Some(m),
        ValueModel::Float(bits) => literal::token_element(render::float_element(bits, model), model),
        ValueModel::Text(s) => if render::needs_quotes(s) {
            Some(ValueModel::Text(text_read_back(s)))
        } else {
            literal::token_element(s, model)
        },
        ValueModel::Blob(b) => Some(ValueModel::Text("X'"@ + render::all_hex(b) + "'"@)),
    }
}

/// Whether a text is one token, which starts with neither a quote nor a brace.
pub open spec fn is_token(t: Seq<char>) -> bool {
    &&& t.len() > 0
    &&& t[0] != '"'
    &&& t[0] != '{'
    &&& forall|i: int| 0 <= i < t.len() ==> #[trigger] t[i] != ',' && !text::is_white(t[i])
}

/// Whether a row of characters stands at a place.
spec fn stands_in(s: Seq<char>, p: int, t: Seq<char>) -> bool {
    0 <= p && p + t.len() <= s.len() && forall|i: int|
        0 <= i < t.len() ==> s[p + i] == #[trigger] t[i]
}

/// A decimal fraction is a token that is neither NULL nor an integer.
proof fn lemma_decimal_fraction(t: Seq<char>)
    requires
        floats::is_decimal_fraction(t),
    ensures
        is_token(t),
        !text::is_null_word(t),
        numerals::integer_of(t) is None,
{
    let k = choose|k: int| 0 <= k < t.len() && t[k] == '.';
    assert(numerals::is_digit(t[0]) || t[0] == '.' || t[0] == '-');
    assert forall|i: int| 0 <= i < t.len() implies #[trigger] t[i] != ',' && !text::is_white(
        t[i],
    ) by {
        assert(numerals::is_digit(t[i]) || t[i] == '.' || t[i] == '-');
    }
    let digits = numerals::unsigned_part(t);
    if t[0] == '-' {
        assert(digits[k - 1] == '.');
        assert(!numerals::is_digit(digits[k - 1]));
    } else {
        assert(!numerals::is_digit(digits[k]));
    }
}

/// A floating-point number is written as a token. A finite one reads back,
/// without the sign of zero, and an infinity makes the text no array.
pub proof fn lemma_float_element(bits: u64, model: FloatModel)
    requires
        floats::reads_what_it_shows(model),
        !floats::is_nan_bits(bits),
    ensures
        is_token(render::float_element(bits, model)),
        literal::token_element(render::float_element(bits, model), model)
            == if !floats::is_finite_bits(bits) {
            None
        } else if bits == floats::SIGN_BIT {
            Some(ValueModel::Float(0))
        } else {
            Some(ValueModel::Float(bits))
        },
{
    let unsigned = if floats::magnitude(bits) == 0 {
        0u64
    } else {
        bits
    };
    let t = render::float_element(bits, model);
    assert(t == (model.shows)(unsigned, floats::element_style(unsigned)));
    if floats::is_finite_bits(bits) {
        lemma_decimal_fraction(t);
    } else {
        reveal_strlit("inf");
        reveal_strlit("-inf");
        let digits = numerals::unsigned_part(t);
        assert(digits[0] == 'i');
        assert(!numerals::is_digit(digits[0]));
    }
}

/// A token ends at the end of the text or at a comma.
proof fn lemma_token_end(s: Seq<char>, p: int, t: Seq<char>)
    requires
        stands_in(s, p, t),
        forall|i: int| 0 <= i < t.len() ==> #[trigger] t[i] != ',' && !text::is_white(t[i]),
        p + t.len() == s.len() || s[p + t.len()] == ',',
    ensures
        literal::token_end(s, p) == p + t.len(),
    decreases t.len(),
{
    if t.len() > 0 {
        assert(s[p + 0] == t[0]);
        let rest = t.skip(1);
        assert forall|i: int| 0 <= i < rest.len() implies s[p + 1 + i] == #[trigger] rest[i] by {
            assert(s[p + (i + 1)] == t[i + 1]);
        }
        lemma_token_end(s, p + 1, rest);
    }
}

/// A token reads as the element that it spells.
proof fn lemma_token_at(s: Seq<char>, p: int, t: Seq<char>, model: FloatModel)
    requires
        stands_in(s, p, t),
        is_token(t),
        p + t.len() == s.len() || s[p + t.len()] == ',',
    ensures
        literal::element_at(s, p, model) == match literal::token_element(t, model) {
            Some(m) => ElementRead::Element(m, p + t.len()),
            None => ElementRead::NotArray,
        },
{
    lemma_token_end(s, p, t);
    assert(s[p + 0] == t[0]);
    assert(s.subrange(p, p + t.len()) =~= t);
}

/// Characters without a meaning of their own in quotes are read as they stand.
proof fn lemma_plain_quoted(s: Seq<char>, p: int, t: Seq<char>, read: Seq<char>)
    requires
        stands_in(s, p, t),
        forall|i: int| 0 <= i < t.len() ==> #[trigger] t[i] != '"' && t[i] != '\\',
    ensures
        literal::quoted_from(s, p, read) == literal::quoted_from(s, p + t.len(), read + t),
    decreases t.len(),
{
    if t.len() == 0 {
        assert(read + t =~= read);
    } else {
        assert(s[p + 0] == t[0]);
        let rest = t.skip(1);
        assert forall|i: int| 0 <= i < rest.len() implies s[p + 1 + i] == #[trigger] rest[i] by {
            assert(s[p + (i + 1)] == t[i + 1]);
        }
        lemma_plain_quoted(s, p + 1, rest, read.push(t[0]));
        assert(read.push(t[0]) + rest =~= read + t);
    }
}

/// The digits of codes and of bytes are digits and letters.
pub proof fn lemma_hex_char(d: int, ten: char)
    requires
        0 <= d < 16,
        ten == 'a' || ten == 'A',
    ensures
        ({
            let c = numerals::hex_char(d, ten);
            numerals::is_digit(c) || 'a' <= c <= 'f' || 'A' <= c <= 'F'
        }),
{
}

/// A character in quotes is read as what it reads back as.
proof fn lemma_escaped(s: Seq<char>, p: int, c: char, read: Seq<char>)
    requires
        stands_in(s, p, render::escaped(c)),
    ensures
        literal::quoted_from(s, p, read) == literal::quoted_from(
            s,
            p + render::escaped(c).len(),
            read + char_read_back(c),
        ),
{
    let e = render::escaped(c);
    assert(s[p + 0] == e[0]);
    if is_coded(c) {
        let n = c as int;
        lemma_hex_char(n / 4096, 'a');
        lemma_hex_char(n / 256 % 16, 'a');
        lemma_hex_char(n / 16 % 16, 'a');
        lemma_hex_char(n % 16, 'a');
        let code = numerals::code_hex(n);
        assert(s[p + 1] == e[1]);
        assert forall|i: int| 0 <= i < code.len() implies s[p + 2 + i] == #[trigger] code[i] by {
            assert(s[p + (i + 2)] == e[i + 2]);
        }
        lemma_plain_quoted(s, p + 2, code, read.push('u'));
        assert(read.push('u') + code =~= read + char_read_back(c));
    } else {
        assert(read.push(c) =~= read + char_read_back(c));
        if e.len() == 2 {
            assert(s[p + 1] == e[1]);
        }
    }
}

/// A text in quotes is read as what it reads back as.
proof fn lemma_all_escaped(s: Seq<char>, p: int, t: Seq<char>, read: Seq<char>)
    requires
        stands_in(s, p, render::all_escaped(t)),
    ensures
        literal::quoted_from(s, p, read) == literal::quoted_from(
            s,
            p + render::all_escaped(t).len(),
            read + text_read_back(t),
        ),
    decreases t.len(),
{
    if t.len() == 0 {
        assert(read + text_read_back(t) =~= read);
    } else {
        let front = render::all_escaped(t.drop_last());
        let last = render::escaped(t.last());
        let all = render::all_escaped(t);
        assert forall|i: int| 0 <= i < front.len() implies s[p + i] == #[trigger] front[i] by {
            assert(s[p + i] == all[i]);
        }
        assert forall|i: int| 0 <= i < last.len() implies s[p + front.len() + i] == #[trigger] last[i] by {
            assert(s[p + (front.len() + i)] == all[front.len() + i]);
        }
        lemma_all_escaped(s, p, t.drop_last(), read);
        let so_far = read + text_read_back(t.drop_last());
        lemma_escaped(s, p + front.len(), t.last(), so_far);
        assert(so_far + char_read_back(t.last()) =~= read + text_read_back(t));
    }
}

/// The digits of bytes have no meaning of their own in quotes.
pub proof fn lemma_all_hex(b: Seq<u8>)
    ensures
        forall|i: int|
            0 <= i < render::all_hex(b).len() ==> #[trigger] render::all_hex(b)[i] != '"'
                && render::all_hex(b)[i] != '\\',
    decreases b.len(),
{
    if b.len() > 0 {
        lemma_all_hex(b.drop_last());
        lemma_hex_char(b.last() as int / 16, 'A');
        lemma_hex_char(b.last() as int % 16, 'A');
        let front = render::all_hex(b.drop_last());
        let all = render::all_hex(b);
        assert forall|i: int| 0 <= i < all.len() implies #[trigger] all[i] != '"' && all[i]
            != '\\' by {
            if i < front.len() {
                assert(all[i] == front[i]);
            } else {
                assert(all[i] == numerals::byte_hex(b.last())[i - front.len()]);
            }
        }
    }
}

/// The text of an element starts and ends with something other than white
/// space, and stands for what the element reads back as.
proof fn lemma_element(s: Seq<char>, p: int, m: ValueModel, model: FloatModel)
    requires
        stands_in(s, p, render::element_text(m, model)),
        floats::reads_what_it_shows(model),
        value::is_value(m),
        p + render::element_text(m, model).len() == s.len() || s[p + render::element_text(
            m,
            model,
        ).len()] == ',',
    ensures
        literal::element_at(s, p, model) == match read_back(m, model) {
            Some(v) => ElementRead::Element(v, p + render::element_text(m, model).len()),
            None => ElementRead::NotArray,
        },
{
    let t = render::element_text(m, model);
    match m {
        ValueModel::Null => {
            reveal_strlit("NULL");
            lemma_token_at(s, p, t, model);
        },
        ValueModel::Integer(i) => {
            numerals::lemma_integer_text(i as int);
            assert(numerals::is_digit(t[0]) || t[0] == '-');
            assert(is_token(t));
            lemma_token_at(s, p, t, model);
            assert(literal::token_element(t, model) == Some(m));
        },
        ValueModel::Float(bits) => {
            lemma_float_element(bits, model);
            lemma_token_at(s, p, t, model);
        },
        ValueModel::Text(x) => {
            if render::needs_quotes(x) {
                let body = render::all_escaped(x);
                assert(s[p + 0] == t[0]);
                assert forall|i: int| 0 <= i < body.len() implies s[p + 1 + i] == #[trigger] body[i] by {
                    assert(s[p + (i + 1)] == t[i + 1]);
                }
                lemma_all_escaped(s, p + 1, x, Seq::empty());
                assert(Seq::<char>::empty() + text_read_back(x) =~= text_read_back(x));
                assert(s[p + (1 + body.len())] == t[1 + body.len() as int]);
            } else {
                assert forall|i: int| 0 <= i < x.len() implies #[trigger] x[i] != ','
                    && !text::is_white(x[i]) by {
                    assert(!render::is_special(x[i]));
                }
                assert(!render::is_special(x[0]));
                lemma_token_at(s, p, t, model);
            }
        },
        ValueModel::Blob(b) => {
            reveal_strlit("\"X'");
            reveal_strlit("'\"");
            reveal_strlit("X'");
            reveal_strlit("'");
            let body = "X'"@ + render::all_hex(b) + "'"@;
            lemma_all_hex(b);
            assert(t =~= seq!['"'] + body + seq!['"']);
            assert(s[p + 0] == t[0]);
            assert forall|i: int| 0 <= i < body.len() implies s[p + 1 + i] == #[trigger] body[i] by {
                assert(s[p + (i + 1)] == t[i + 1]);
            }
            lemma_plain_quoted(s, p + 1, body, Seq::empty());
            assert(Seq::<char>::empty() + body =~= body);
            assert(s[p + (1 + body.len())] == t[1 + body.len() as int]);
        },
    }
}

/// The text of an element is not empty, and has no white space at its ends.
pub proof fn lemma_element_ends(m: ValueModel, model: FloatModel)
    requires
        floats::reads_what_it_shows(model),
        value::is_value(m),
    ensures
        render::element_text(m, model).len() > 0,
        !text::is_white(render::element_text(m, model)[0]),
        !text::is_white(render::element_text(m, model).last()),
{
    let t = render::element_text(m, model);
    match m {
        ValueModel::Null => {
            reveal_strlit("NULL");
        },
        ValueModel::Integer(i) => {
            numerals::lemma_integer_text(i as int);
            assert(numerals::is_digit(t[0]) || t[0] == '-');
            assert(numerals::is_digit(t[t.len() - 1]) || t[t.len() - 1] == '-');
        },
        ValueModel::Float(bits) => {
            lemma_float_element(bits, model);
            assert(!text::is_white(t[t.len() - 1]));
        },
        ValueModel::Text(x) => {
            if !render::needs_quotes(x) {
                assert(!render::is_special(x[0]));
                assert(!render::is_special(x[x.len() - 1]));
            }
        },
        ValueModel::Blob(b) => {
            reveal_strlit("\"X'");
            reveal_strlit("'\"");
        },
    }
}

/// What the text of an array reads back as.
pub open spec fn array_read_back(vs: Seq<ValueModel>, model: FloatModel) -> Literal {
    if forall|i: int| 0 <= i < vs.len() ==> (#[trigger] read_back(vs[i], model)) is Some {
        Literal::Elements(Seq::new(vs.len(), |i: int| read_back(vs[i], model)->0))
    } else {
        Literal::NotArray
    }
}

/// The elements behind the first `k` are read one by one.
proof fn lemma_elements(
    s: Seq<char>,
    p: int,
    vs: Seq<ValueModel>,
    k: int,
    read: Seq<ValueModel>,
    model: FloatModel,
)
    requires
        0 <= k < vs.len(),
        0 <= p <= s.len(),
        s.skip(p) == text::joined(render::element_texts(vs, model).skip(k), seq![',']),
        floats::reads_what_it_shows(model),
        forall|i: int| 0 <= i < vs.len() ==> value::is_value(#[trigger] vs[i]),
        read.len() == k,
        forall|i: int| 0 <= i < k ==> #[trigger] read_back(vs[i], model) == Some(read[i]),
    ensures
        literal::elements_from(s, p, read, model) == array_read_back(vs, model),
    decreases vs.len() - k,
{
    let texts = render::element_texts(vs, model);
    let t = texts[k];
    let rest = texts.skip(k);
    assert(rest[0] == t);
    assert(rest.skip(1) =~= texts.skip(k + 1));
    let behind = text::joined(texts.skip(k + 1), seq![',']);
    let joined = text::joined(rest, seq![',']);
    if k + 1 < vs.len() {
        assert(joined == t + seq![','] + behind);
    } else {
        assert(joined == t);
    }
    assert(joined.len() == s.len() - p);
    assert forall|i: int| 0 <= i < joined.len() implies s[p + i] == #[trigger] joined[i] by {
        assert(s.skip(p)[i] == s[p + i]);
    }
    let m = vs[k];
    lemma_element_ends(m, model);
    let end = p + t.len();
    assert forall|i: int| 0 <= i < t.len() implies s[p + i] == #[trigger] t[i] by {
        assert(t[i] == joined[i]);
    }
    assert(s[p + 0] == t[0]);
    if k + 1 < vs.len() {
        assert(joined[t.len() as int] == ',');
        assert(s[end] == ',');
    }
    lemma_element(s, p, m, model);
    assert(literal::solid_from(s, p) == p);
    assert(literal::solid_from(s, end) == end);
    match read_back(m, model) {
        None => {},
        Some(v) => {
            let more = read.push(v);
            if k + 1 < vs.len() {
                assert forall|i: int| 0 <= i < behind.len() implies s.skip(end + 1)[i]
                    == #[trigger] behind[i] by {
                    assert(joined[t.len() + 1 + i] == behind[i]);
                    assert(s[p + (t.len() + 1 + i)] == joined[t.len() + 1 + i]);
                }
                assert(s.skip(end + 1) =~= behind);
                lemma_element_ends(vs[k + 1], model);
                assert(texts.skip(k + 1)[0] == texts[k + 1]);
                assert(behind[0] == texts[k + 1][0]);
                assert(s[end + 1] == behind[0]);
                assert(literal::solid_from(s, end + 1) == end + 1);
                lemma_elements(s, end + 1, vs, k + 1, more, model);
            } else {
                assert(more =~= Seq::new(vs.len(), |i: int| read_back(vs[i], model)->0)) by {
                    assert forall|i: int| 0 <= i < more.len() implies more[i] == #[trigger] read_back(
                        vs[i],
                        model,
                    )->0 by {}
                }
            }
        },
    }
}

/// Joined parts end as the last of them does.
proof fn lemma_joined_ends(parts: Seq<Seq<char>>, d: Seq<char>)
    requires
        parts.len() > 0,
        forall|i: int| 0 <= i < parts.len() ==> (#[trigger] parts[i]).len() > 0,
    ensures
        text::joined(parts, d).len() > 0,
        text::joined(parts, d)[0] == parts[0][0],
        text::joined(parts, d).last() == parts.last().last(),
    decreases parts.len(),
{
    if parts.len() > 1 {
        let rest = parts.skip(1);
        assert forall|i: int| 0 <= i < rest.len() implies (#[trigger] rest[i]).len() > 0 by {
            assert(rest[i] == parts[i + 1]);
        }
        lemma_joined_ends(rest, d);
    }
}

/// The text of an array reads back as an array of as many elements, each of
/// which is what it reads back as on its own. It reads as no array where a text
/// without quotes, or a floating-point number, spells a number that is not
/// finite.
pub proof fn law_array_text_reads(vs: Seq<ValueModel>, model: FloatModel)
    requires
        floats::reads_what_it_shows(model),
        forall|i: int| 0 <= i < vs.len() ==> value::is_value(#[trigger] vs[i]),
    ensures
        literal::literal_of(render::array_text(vs, model), model) == array_read_back(vs, model),
{
    let texts = render::element_texts(vs, model);
    let body = text::joined(texts, seq![',']);
    let all = render::array_text(vs, model);
    assert(text::trimmed(all) == all);
    assert(all.subrange(1, all.len() - 1) =~= body);
    if vs.len() == 0 {
        assert(array_read_back(vs, model)->Elements_0 =~= Seq::<ValueModel>::empty());
    } else {
        assert forall|i: int| 0 <= i < texts.len() implies (#[trigger] texts[i]).len() > 0 by {
            assert(texts[i] == render::element_text(vs[i], model));
            lemma_element_ends(vs[i], model);
        }
        lemma_joined_ends(texts, seq![',']);
        lemma_element_ends(vs[0], model);
        lemma_element_ends(vs[vs.len() - 1], model);
        assert(text::trimmed(body) == body);
        assert(texts.skip(0) =~= texts);
        assert(body.skip(0) =~= body);
        lemma_elements(body, 0, vs, 0, Seq::empty(), model);
    }
}

/// Whether an element reads back as itself: it is NULL, an integer, a finite
/// floating-point number other than the zero with a sign, or a text without
/// characters that are written as codes and, unless it is quoted, without the
/// look of a number.
pub open spec fn reads_back(m: ValueModel, model: FloatModel) -> bool {
    match m {
        ValueModel::Null => true,
        ValueModel::Integer(_) => true,
        ValueModel::Float(bits) => floats::is_finite_bits(bits) && bits != floats::SIGN_BIT,
        ValueModel::Text(s) => {
            &&& forall|i: int| 0 <= i < s.len() ==> !is_coded(#[trigger] s[i])
            &&& render::needs_quotes(s) || (model.reads)(s) is None
        },
        ValueModel::Blob(_) => false,
    }
}

/// Whether each element of an array reads back as itself.
pub open spec fn all_read_back(vs: Seq<ValueModel>, model: FloatModel) -> bool {
    forall|i: int| 0 <= i < vs.len() ==> reads_back(#[trigger] vs[i], model)
}

/// A text in quotes reads back as itself just where no character is written as
/// a code.
proof fn lemma_text_read_back(s: Seq<char>)
    ensures
        text_read_back(s).len() >= s.len(),
        (forall|i: int| 0 <= i < s.len() ==> !is_coded(#[trigger] s[i])) ==> text_read_back(s) == s,
        (exists|i: int| 0 <= i < s.len() && is_coded(#[trigger] s[i])) ==> text_read_back(s).len()
            > s.len(),
    decreases s.len(),
{
    if s.len() > 0 {
        let front = s.drop_last();
        lemma_text_read_back(front);
        if forall|i: int| 0 <= i < s.len() ==> !is_coded(#[trigger] s[i]) {
            assert forall|i: int| 0 <= i < front.len() implies !is_coded(#[trigger] front[i]) by {
                assert(!is_coded(s[i]));
            }
            assert(!is_coded(s[s.len() - 1]));
            assert(text_read_back(s) =~= s);
        } else {
            let i = choose|i: int| 0 <= i < s.len() && is_coded(#[trigger] s[i]);
            if i < front.len() {
                assert(is_coded(front[i]));
            }
        }
    } else {
        assert(text_read_back(s) =~= s);
    }
}

/// An element reads back as itself just where [`reads_back`] says so.
pub proof fn law_element_reads_back(m: ValueModel, model: FloatModel)
    requires
        floats::reads_what_it_shows(model),
        value::is_value(m),
    ensures
        reads_back(m, model) <==> read_back(m, model) == Some(m),
{
    if let ValueModel::Float(bits) = m {
        lemma_float_element(bits, model);
    }
    if let ValueModel::Text(s) = m {
        lemma_text_read_back(s);
        if !render::needs_quotes(s) {
            assert forall|i: int| 0 <= i < s.len() implies !is_coded(#[trigger] s[i]) by {
                assert(!render::is_special(s[i]));
            }
        }
    }
}

/// An array whose elements each read back as themselves is the same array again
/// when its text is read.
pub proof fn law_array_text_round_trip(vs: Seq<ValueModel>, model: FloatModel)
    requires
        floats::reads_what_it_shows(model),
        forall|i: int| 0 <= i < vs.len() ==> value::is_value(#[trigger] vs[i]),
        all_read_back(vs, model),
    ensures
        literal::literal_of(render::array_text(vs, model), model) == Literal::Elements(vs),
        array::elements_of(ValueModel::Text(render::array_text(vs, model)), model) == Ok::<
            _,
            crate::error::ErrorModel,
        >(Some(vs)),
{
    law_array_text_reads(vs, model);
    assert forall|i: int| 0 <= i < vs.len() implies #[trigger] read_back(vs[i], model) == Some(
        vs[i],
    ) by {
        law_element_reads_back(vs[i], model);
    }
    assert(array_read_back(vs, model)->Elements_0 =~= vs);
}

} // verus!
