//! The text of arrays.

use vstd::prelude::*;

use crate::error::LimboError;
use crate::floats::{self, FloatModel, FloatStyle, FloatText};
use crate::literal::{self, Literal};
use crate::numerals;
use crate::record::{self, ValueIterator};
use crate::roundtrip;
use crate::text;
use crate::value::{Numeric, Value, ValueModel};

verus! {

/// Whether a character would be misread in a text without quotes.
pub open spec fn is_special(c: char) -> bool {
    c == ',' || c == '{' || c == '}' || c == '"' || c == '\\' || text::is_white(c)
        || text::is_control(c)
}

/// Whether a text needs quotes: it is empty, would read as NULL, or holds a
/// character that would be misread.
pub open spec fn needs_quotes(s: Seq<char>) -> bool {
    s.len() == 0 || text::is_null_word(s) || exists|i: int|
        0 <= i < s.len() && is_special(#[trigger] s[i])
}

/// A character in quotes.
pub open spec fn escaped(c: char) -> Seq<char> {
    if c == '"' {
        seq!['\\', '"']
    } else if c == '\\' {
        seq!['\\', '\\']
    } else if c == '\n' {
        seq!['\\', 'n']
    } else if c == '\r' {
        seq!['\\', 'r']
    } else if c == '\t' {
        seq!['\\', 't']
    } else if text::is_control(c) {
        seq!['\\', 'u'] + numerals::code_hex(c as int)
    } else {
        seq![c]
    }
}

/// The characters of a text in quotes.
pub open spec fn all_escaped(s: Seq<char>) -> Seq<char>
    decreases s.len(),
{
    if s.len() == 0 {
        Seq::empty()
    } else {
        all_escaped(s.drop_last()) + escaped(s.last())
    }
}

/// A text as an element of an array.
pub open spec fn text_element(s: Seq<char>) -> Seq<char> {
    if needs_quotes(s) {
        seq!['"'] + all_escaped(s) + seq!['"']
    } else {
        s
    }
}

/// A floating-point number as an element of an array: whole numbers with one
/// digit after the point, zero without a sign.
pub open spec fn float_element(bits: u64, model: FloatModel) -> Seq<char> {
    let unsigned = if floats::magnitude(bits) == 0 {
        0u64
    } else {
        bits
    };
    (model.shows)(unsigned, floats::element_style(unsigned))
}

/// Bytes as capital hexadecimal digits.
pub open spec fn all_hex(b: Seq<u8>) -> Seq<char>
    decreases b.len(),
{
    if b.len() == 0 {
        Seq::empty()
    } else {
        all_hex(b.drop_last()) + numerals::byte_hex(b.last())
    }
}

/// A value as an element of an array.
pub open spec fn element_text(m: ValueModel, model: FloatModel) -> Seq<char> {
    match m {
        ValueModel::Null => "NULL"@,
        ValueModel::Integer(i) => numerals::integer_text(i as int),
        ValueModel::Float(bits) => float_element(bits, model),
        ValueModel::Text(s) => text_element(s),
        ValueModel::Blob(b) => "\"X'"@ + all_hex(b) + "'\""@,
    }
}

/// The elements of an array, as texts.
pub open spec fn element_texts(vs: Seq<ValueModel>, model: FloatModel) -> Seq<Seq<char>> {
    Seq::new(vs.len(), |i: int| element_text(vs[i], model))
}

/// The text of an array: its elements in braces, with commas between them.
pub open spec fn array_text(vs: Seq<ValueModel>, model: FloatModel) -> Seq<char> {
    seq!['{'] + text::joined(element_texts(vs, model), seq![',']) + seq!['}']
}

/// Whether a character would be misread in a text without quotes.
fn special(c: char) -> (r: bool)
    ensures
        r == is_special(c),
{
    c == ',' || c == '{' || c == '}' || c == '"' || c == '\\' || text::white(c) || text::control(c)
}

/// Appends characters to a text.
fn push_all(result: &mut String, s: &[char])
    ensures
        final(result)@ == old(result)@ + s@,
{
    for i in 0..s.len()
        invariant
            result@ == old(result)@ + s@.take(i as int),
    {
        result.push(s[i]);
        assert(s@.take(i + 1) =~= s@.take(i as int).push(s@[i as int]));
    }
    assert(s@.take(s@.len() as int) =~= s@);
}

/// Appends a character in quotes.
fn push_escaped(result: &mut String, c: char)
    ensures
        final(result)@ == old(result)@ + escaped(c),
{
    if c == '"' {
        result.push('\\');
        result.push('"');
    } else if c == '\\' {
        result.push('\\');
        result.push('\\');
    } else if c == '\n' {
        result.push('\\');
        result.push('n');
    } else if c == '\r' {
        result.push('\\');
        result.push('r');
    } else if c == '\t' {
        result.push('\\');
        result.push('t');
    } else if text::control(c) {
        let code: u32 = c as u32;
        result.push('\\');
        result.push('u');
        result.push(numerals::hex_digit((code / 4096) as u8, false));
        result.push(numerals::hex_digit((code / 256 % 16) as u8, false));
        result.push(numerals::hex_digit((code / 16 % 16) as u8, false));
        result.push(numerals::hex_digit((code % 16) as u8, false));
    } else {
        result.push(c);
    }
    assert(result@ =~= old(result)@ + escaped(c));
}

/// Appends a text as an element of an array: as it is where it can be, and in
/// quotes otherwise.
pub fn write_pg_text_element(result: &mut String, s: &str)
    ensures
        final(result)@ == old(result)@ + text_element(s@),
{
    let chars = text::chars_of(s);
    let mut quotes = chars.len() == 0 || text::null_word(chars.as_slice());
    for i in 0..chars.len()
        invariant
            chars@ == s@,
            quotes <==> (s@.len() == 0 || text::is_null_word(s@) || exists|j: int|
                0 <= j < i && is_special(#[trigger] s@[j])),
    {
        if special(chars[i]) {
            assert(is_special(s@[i as int]));
            quotes = true;
        }
    }
    if !quotes {
        push_all(result, chars.as_slice());
        return;
    }
    result.push('"');
    let ghost before = result@;
    for i in 0..chars.len()
        invariant
            chars@ == s@,
            result@ == before + all_escaped(s@.take(i as int)),
    {
        let c = chars[i];
        push_escaped(result, c);
        assert(s@.take(i + 1).drop_last() =~= s@.take(i as int));
    }
    assert(s@.take(s@.len() as int) =~= s@);
    result.push('"');
    assert(result@ =~= old(result)@ + text_element(s@));
}

/// Appends a value as an element of an array. A whole number that is held as a
/// floating-point number has one digit after the point, and zero has no sign.
pub fn write_value_ref_pg<R: Fn(&str) -> Option<u64>, S: Fn(u64, FloatStyle) -> String>(
    result: &mut String,
    val: &Value,
    floats: &FloatText<R, S>,
)
    ensures
        final(result)@ == old(result)@ + element_text(val@, floats@),
        val@ matches ValueModel::Float(bits) ==> floats::is_whole_bits(bits) ==> final(result)@
            == old(result)@ + (numerals::integer_text(floats::whole_number(bits)) + ".0"@),
{
    match val {
        Value::Null => {
            result.append("NULL");
        },
        Value::Numeric(Numeric::Integer(n)) => {
            let digits = numerals::write_integer(*n);
            push_all(result, digits.as_slice());
        },
        Value::Numeric(Numeric::Float(x)) => {
            let bits = x.bits();
            let unsigned: u64 = if bits == floats::SIGN_BIT {
                0
            } else {
                bits
            };
            let style = if floats::is_whole(unsigned) {
                FloatStyle::OnePlace
            } else {
                FloatStyle::Bare
            };
            let shown = floats.show(unsigned, style);
            result.append(shown.as_str());
            proof {
                use_type_invariant(floats);
                floats.lemma_reads_what_it_shows();
                vstd::arithmetic::power2::lemma_pow2_pos(1074);
                let t = (floats@.shows)(unsigned, floats::element_style(unsigned));
            }
        },
        Value::Text(t) => {
            write_pg_text_element(result, t.as_str());
        },
        Value::Blob(b) => {
            result.append("\"X'");
            let ghost before = result@;
            for i in 0..b.len()
                invariant
                    result@ == before + all_hex(b@.take(i as int)),
            {
                let ghost so_far = result@;
                result.push(numerals::hex_digit(b[i] / 16, true));
                result.push(numerals::hex_digit(b[i] % 16, true));
                assert(result@ =~= so_far + numerals::byte_hex(b@[i as int]));
                assert(b@.take(i + 1).drop_last() =~= b@.take(i as int));
            }
            assert(b@.take(b@.len() as int) =~= b@);
            result.append("'\"");
            assert(result@ =~= old(result)@ + element_text(val@, floats@));
        },
    }
}

/// The text of an array that is held as a record. It reads as the same array
/// again where each of its elements does. Fails where the bytes are no record.
pub fn serialize_array_from_blob<
    R: Fn(&str) -> Option<u64>,
    S: Fn(u64, FloatStyle) -> String,
>(blob: &[u8], floats: &FloatText<R, S>) -> (r: Result<String, LimboError>)
    ensures
        match r {
            Ok(s) => record::record_values(blob@) matches Some(vs) && {
                &&& s@ == array_text(vs, floats@)
                &&& roundtrip::all_read_back(vs, floats@) ==> literal::literal_of(s@, floats@)
                    == Literal::Elements(vs)
            },
            Err(e) => record::record_values(blob@) is None && e@ is Corrupt,
        },
{
    let mut rest = match ValueIterator::new(blob) {
        Ok(it) => it,
        Err(e) => return Err(e),
    };
    let ghost all = rest@;
    let ghost mut done: Seq<ValueModel> = Seq::empty();
    let mut result = String::new();
    result.push('{');
    let mut first = true;
    assert(element_texts(done, floats@) =~= Seq::<Seq<char>>::empty());
    loop
        invariant
            record::record_items(blob@) == Some(all),
            done.len() + rest@.len() == all.len(),
            rest@ == all.skip(done.len() as int),
            forall|i: int| 0 <= i < done.len() ==> all[i] == Some(#[trigger] done[i]),
            first <==> done.len() == 0,
            result@ == seq!['{'] + text::joined(element_texts(done, floats@), seq![',']),
        decreases rest@.len(),
    {
        let ghost before = rest@;
        match rest.next() {
            None => {
                proof {
                    assert forall|i: int| 0 <= i < all.len() implies (#[trigger] all[i]) is Some by {
                        assert(all[i] == Some(done[i]));
                    }
                    assert(Seq::new(all.len(), |i: int| all[i]->0) =~= done);
                }
                result.push('}');
                assert(result@ =~= array_text(done, floats@));
                proof {
                    use_type_invariant(floats);
                    floats.lemma_reads_what_it_shows();
                    record::lemma_record_holds_values(blob@);
                    if roundtrip::all_read_back(done, floats@) {
                        roundtrip::law_array_text_round_trip(done, floats@);
                    }
                }
                return Ok(result);
            },
            Some(Err(e)) => {
                assert(all[done.len() as int] == before[0]);
                return Err(e);
            },
            Some(Ok(v)) => {
                let ghost so_far = result@;
                if !first {
                    result.push(',');
                }
                first = false;
                write_value_ref_pg(&mut result, &v, floats);
                proof {
                    assert(all[done.len() as int] == before[0]);
                    assert(before.skip(1) =~= all.skip(done.len() as int + 1));
                    let parts = element_texts(done, floats@);
                    assert(element_texts(done.push(v@), floats@) =~= parts.push(
                        element_text(v@, floats@),
                    ));
                    text::lemma_joined_push(parts, element_text(v@, floats@), seq![',']);
                    done = done.push(v@);
                    assert(result@ =~= seq!['{'] + text::joined(
                        element_texts(done, floats@),
                        seq![','],
                    ));
                }
            },
        }
    }
}

} // verus!
