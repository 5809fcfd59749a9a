//! Array literals: `{1, hello, NULL, "two words"}`.

use vstd::prelude::*;

use crate::error::{ErrorModel, LimboError};
use crate::floats::{self, FloatModel, FloatStyle, FloatText};
use crate::numerals;
use crate::text;
use crate::value::{self, Value, ValueModel};

verus! {

/// What a text is as an array literal.
pub enum Literal {
    /// An array with these elements.
    Elements(Seq<ValueModel>),
    /// No array.
    NotArray,
    /// An array of arrays, which there are not.
    Nested,
    /// Nothing: a backslash in quotes stands before a character outside ASCII.
    Undefined,
}

/// What stands where an element should.
pub enum ElementRead {
    /// An element, which ends before the given place.
    Element(ValueModel, int),
    /// The text is no array.
    NotArray,
    /// The text is an array of arrays.
    Nested,
    /// The text is the empty array, written as empty arrays in one another.
    EmptyNesting,
    /// The text is nothing.
    Undefined,
}

/// What stands behind an opening quote.
pub enum QuotedRead {
    /// A text, whose closing quote stands before the given place.
    Closed(Seq<char>, int),
    /// A text without a closing quote.
    Unclosed,
    /// Nothing.
    Undefined,
}

/// The first place from `p` on without white space.
pub open spec fn solid_from(s: Seq<char>, p: int) -> int
    decreases s.len() - p,
{
    if 0 <= p < s.len() && text::is_ascii_white(s[p]) {
        solid_from(s, p + 1)
    } else {
        p
    }
}

/// What a character stands for behind a backslash.
pub open spec fn unescaped(c: char) -> char {
    if c == 'n' {
        '\n'
    } else if c == 't' {
        '\t'
    } else if c == 'r' {
        '\r'
    } else {
        c
    }
}

/// What the places from `p` on make of the quoted text read so far.
pub open spec fn quoted_from(s: Seq<char>, p: int, read: Seq<char>) -> QuotedRead
    decreases s.len() - p,
{
    if p < 0 || p >= s.len() {
        QuotedRead::Unclosed
    } else if s[p] == '"' {
        QuotedRead::Closed(read, p + 1)
    } else if s[p] != '\\' {
        quoted_from(s, p + 1, read.push(s[p]))
    } else if p + 1 >= s.len() {
        QuotedRead::Unclosed
    } else if s[p + 1] > '\u{7f}' {
        QuotedRead::Undefined
    } else {
        quoted_from(s, p + 2, read.push(unescaped(s[p + 1])))
    }
}

/// The end of a token without quotes: a comma or white space.
pub open spec fn token_end(s: Seq<char>, p: int) -> int
    decreases s.len() - p,
{
    if 0 <= p < s.len() && s[p] != ',' && !text::is_ascii_white(s[p]) {
        token_end(s, p + 1)
    } else {
        p
    }
}

/// The element that a token without quotes stands for: NULL, an integer, a
/// finite floating-point number or a text. `None` where it spells a number
/// that is not finite.
pub open spec fn token_element(t: Seq<char>, model: FloatModel) -> Option<ValueModel> {
    if text::is_null_word(t) {
        Some(ValueModel::Null)
    } else {
        match numerals::integer_of(t) {
            Some(i) => Some(ValueModel::Integer(i as i64)),
            None => match (model.reads)(t) {
                Some(bits) => if floats::is_finite_bits(bits) {
                    Some(ValueModel::Float(bits))
                } else {
                    None
                },
                None => Some(ValueModel::Text(t)),
            },
        }
    }
}

/// Whether a text has nothing but braces, commas and white space.
pub open spec fn is_empty_nesting(s: Seq<char>) -> bool {
    forall|i: int| 0 <= i < s.len() ==> nesting_char(#[trigger] s[i])
}

/// Whether a character is a brace, a comma or white space.
pub open spec fn nesting_char(c: char) -> bool {
    c == '{' || c == '}' || c == ',' || text::is_white(c)
}

/// What stands at place `p`, where an element should.
pub open spec fn element_at(s: Seq<char>, p: int, model: FloatModel) -> ElementRead {
    if s[p] == '{' {
        if is_empty_nesting(s) {
            ElementRead::EmptyNesting
        } else {
            ElementRead::Nested
        }
    } else if s[p] == '"' {
        match quoted_from(s, p + 1, Seq::empty()) {
            QuotedRead::Closed(t, end) => ElementRead::Element(ValueModel::Text(t), end),
            QuotedRead::Unclosed => ElementRead::NotArray,
            QuotedRead::Undefined => ElementRead::Undefined,
        }
    } else {
        let end = token_end(s, p);
        match token_element(s.subrange(p, end), model) {
            Some(m) => ElementRead::Element(m, end),
            None => ElementRead::NotArray,
        }
    }
}

/// What the places from `p` on make of the elements read so far: elements are
/// parted by commas, each of which has another element behind it.
pub open spec fn elements_from(
    s: Seq<char>,
    p: int,
    read: Seq<ValueModel>,
    model: FloatModel,
) -> Literal
    decreases s.len() - p,
    via elements_shrink
{
    let start = solid_from(s, p);
    if p < 0 {
        Literal::NotArray
    } else if start >= s.len() {
        Literal::Elements(read)
    } else {
        match element_at(s, start, model) {
            ElementRead::NotArray => Literal::NotArray,
            ElementRead::Nested => Literal::Nested,
            ElementRead::EmptyNesting => Literal::Elements(Seq::empty()),
            ElementRead::Undefined => Literal::Undefined,
            ElementRead::Element(m, end) => {
                let comma = solid_from(s, end);
                if comma >= s.len() {
                    Literal::Elements(read.push(m))
                } else if s[comma] == ',' && solid_from(s, comma + 1) < s.len() {
                    elements_from(s, comma + 1, read.push(m), model)
                } else {
                    Literal::NotArray
                }
            },
        }
    }
}

#[via_fn]
proof fn elements_shrink(s: Seq<char>, p: int, read: Seq<ValueModel>, model: FloatModel) {
    let start = solid_from(s, p);
    if 0 <= p <= s.len() {
        lemma_solid_from(s, p);
        if start < s.len() {
            lemma_element_at(s, start, model);
            if let ElementRead::Element(m, end) = element_at(s, start, model) {
                lemma_solid_from(s, end);
            }
        }
    }
}

pub proof fn lemma_solid_from(s: Seq<char>, p: int)
    requires
        0 <= p <= s.len(),
    ensures
        p <= solid_from(s, p) <= s.len(),
    decreases s.len() - p,
{
    if p < s.len() && text::is_ascii_white(s[p]) {
        lemma_solid_from(s, p + 1);
    }
}

proof fn lemma_token_end(s: Seq<char>, p: int)
    requires
        0 <= p <= s.len(),
    ensures
        p <= token_end(s, p) <= s.len(),
    decreases s.len() - p,
{
    if p < s.len() && s[p] != ',' && !text::is_ascii_white(s[p]) {
        lemma_token_end(s, p + 1);
    }
}

proof fn lemma_quoted_from(s: Seq<char>, p: int, read: Seq<char>)
    requires
        0 <= p <= s.len(),
    ensures
        quoted_from(s, p, read) matches QuotedRead::Closed(_, end) ==> p < end <= s.len(),
    decreases s.len() - p,
{
    if p < s.len() && s[p] != '"' {
        if s[p] != '\\' {
            lemma_quoted_from(s, p + 1, read.push(s[p]));
        } else if p + 1 < s.len() {
            lemma_quoted_from(s, p + 2, read.push(unescaped(s[p + 1])));
        }
    }
}

pub proof fn lemma_element_at(s: Seq<char>, p: int, model: FloatModel)
    requires
        0 <= p < s.len(),
    ensures
        element_at(s, p, model) matches ElementRead::Element(_, end) ==> p <= end <= s.len(),
{
    lemma_quoted_from(s, p + 1, Seq::empty());
    lemma_token_end(s, p);
}

/// What stands between the braces.
pub open spec fn inner_literal(s: Seq<char>, model: FloatModel) -> Literal {
    let inner = text::trimmed(s);
    if inner.len() == 0 {
        Literal::Elements(Seq::empty())
    } else {
        elements_from(inner, 0, Seq::empty(), model)
    }
}

/// Whether a text stands in braces.
pub open spec fn in_braces(s: Seq<char>) -> bool {
    s.len() >= 2 && s[0] == '{' && s.last() == '}'
}

/// What a text is as an array literal: elements in braces, with white space
/// around them.
pub open spec fn literal_of(s: Seq<char>, model: FloatModel) -> Literal {
    let t = text::trimmed(s);
    if in_braces(t) {
        inner_literal(t.subrange(1, t.len() - 1), model)
    } else {
        Literal::NotArray
    }
}

/// Whether a text is anything as an array literal.
pub open spec fn is_defined(s: Seq<char>, model: FloatModel) -> bool {
    literal_of(s, model) !is Undefined
}

/// The answer to an array of arrays.
pub open spec fn nested_refusal() -> ErrorModel {
    ErrorModel::Constraint("multidimensional array literals are not supported on this engine build"@)
}

/// What reading a literal answers: its elements, `None` for what is no array,
/// and a refusal for an array of arrays.
pub open spec fn literal_answer(l: Literal) -> Result<Option<Seq<ValueModel>>, ErrorModel> {
    match l {
        Literal::Elements(s) => Ok(Some(s)),
        Literal::NotArray => Ok(None),
        Literal::Nested => Err(nested_refusal()),
        Literal::Undefined => Ok(None),
    }
}

/// The contents of an answer that may be a row of values.
pub open spec fn row_answer(r: Result<Option<Vec<Value>>, LimboError>) -> Result<
    Option<Seq<ValueModel>>,
    ErrorModel,
> {
    match r {
        Ok(Some(v)) => Ok(Some(value::models(v@))),
        Ok(None) => Ok(None),
        Err(e) => Err(e@),
    }
}

/// What a text was read as.
pub enum LiteralRead {
    Elements(Vec<Value>),
    NotArray,
    Nested,
    Undefined,
}

impl View for LiteralRead {
    type V = Literal;

    open spec fn view(&self) -> Literal {
        match self {
            LiteralRead::Elements(v) => Literal::Elements(value::models(v@)),
            LiteralRead::NotArray => Literal::NotArray,
            LiteralRead::Nested => Literal::Nested,
            LiteralRead::Undefined => Literal::Undefined,
        }
    }
}

/// Goes past white space.
fn skip_white(s: &[char], p: usize) -> (r: usize)
    requires
        p <= s@.len(),
    ensures
        r == solid_from(s@, p as int),
        p <= r <= s@.len(),
{
    let mut r: usize = p;
    while r < s.len() && text::ascii_white(s[r])
        invariant
            p <= r <= s@.len(),
            solid_from(s@, p as int) == solid_from(s@, r as int),
        decreases s@.len() - r,
    {
        r = r + 1;
    }
    r
}

/// A quoted text as it was read.
enum Quoted {
    Closed(String, usize),
    Unclosed,
    Undefined,
}

/// Reads a quoted text from behind its opening quote.
fn read_quoted(s: &[char], p: usize) -> (r: Quoted)
    requires
        p <= s@.len(),
    ensures
        match r {
            Quoted::Closed(t, end) => quoted_from(s@, p as int, Seq::empty())
                == QuotedRead::Closed(t@, end as int) && p < end <= s@.len(),
            Quoted::Unclosed => quoted_from(s@, p as int, Seq::empty()) is Unclosed,
            Quoted::Undefined => quoted_from(s@, p as int, Seq::empty()) is Undefined,
        },
{
    let mut read = String::new();
    let mut i: usize = p;
    while i < s.len()
        invariant
            p <= i <= s@.len(),
            quoted_from(s@, p as int, Seq::empty()) == quoted_from(s@, i as int, read@),
        decreases s@.len() - i,
    {
        let c = s[i];
        if c == '"' {
            return Quoted::Closed(read, i + 1);
        }
        if c == '\\' {
            if i + 1 == s.len() {
                return Quoted::Unclosed;
            }
            let e = s[i + 1];
            if e > '\u{7f}' {
                return Quoted::Undefined;
            }
            let meant = if e == 'n' {
                '\n'
            } else if e == 't' {
                '\t'
            } else if e == 'r' {
                '\r'
            } else {
                e
            };
            read.push(meant);
            i = i + 2;
        } else {
            read.push(c);
            i = i + 1;
        }
    }
    Quoted::Unclosed
}

/// Finds the end of a token without quotes.
fn find_token_end(s: &[char], p: usize) -> (r: usize)
    requires
        p <= s@.len(),
    ensures
        r == token_end(s@, p as int),
        p <= r <= s@.len(),
{
    let mut r: usize = p;
    while r < s.len() && s[r] != ',' && !text::ascii_white(s[r])
        invariant
            p <= r <= s@.len(),
            token_end(s@, p as int) == token_end(s@, r as int),
        decreases s@.len() - r,
    {
        r = r + 1;
    }
    r
}

/// The element that a token without quotes stands for.
fn read_token<R: Fn(&str) -> Option<u64>, S: Fn(u64, FloatStyle) -> String>(
    t: &[char],
    floats: &FloatText<R, S>,
) -> (r: Option<Value>)
    ensures
        match r {
            Some(v) => token_element(t@, floats@) == Some(v@),
            None => token_element(t@, floats@) is None,
        },
{
    if text::null_word(t) {
        return Some(Value::Null);
    }
    match numerals::read_integer(t) {
        Some(i) => Some(Value::from_i64(i)),
        None => {
            let token = text::string_of(t);
            match floats.read(token.as_str()) {
                Some(bits) => {
                    if floats::is_finite(bits) {
                        Some(Value::from_float_bits(bits))
                    } else {
                        None
                    }
                },
                None => Some(Value::Text(token)),
            }
        },
    }
}

/// Whether a text has nothing but braces, commas and white space.
fn empty_nesting(s: &[char]) -> (r: bool)
    ensures
        r == is_empty_nesting(s@),
{
    for i in 0..s.len()
        invariant
            forall|j: int| 0 <= j < i ==> nesting_char(#[trigger] s@[j]),
    {
        let c = s[i];
        if !(c == '{' || c == '}' || c == ',' || text::white(c)) {
            assert(!nesting_char(s@[i as int]));
            return false;
        }
    }
    true
}

/// Reads the elements of an array.
fn read_elements<R: Fn(&str) -> Option<u64>, S: Fn(u64, FloatStyle) -> String>(
    s: &[char],
    floats: &FloatText<R, S>,
) -> (r: LiteralRead)
    ensures
        r@ == elements_from(s@, 0, Seq::empty(), floats@),
{
    let mut read: Vec<Value> = Vec::new();
    let mut p: usize = 0;
    assert(value::models(read@) =~= Seq::<ValueModel>::empty());
    loop
        invariant
            p <= s@.len(),
            elements_from(s@, 0, Seq::empty(), floats@) == elements_from(
                s@,
                p as int,
                value::models(read@),
                floats@,
            ),
        decreases s@.len() - p,
    {
        let start = skip_white(s, p);
        if start == s.len() {
            return LiteralRead::Elements(read);
        }
        let end: usize;
        let ghost before = value::models(read@);
        if s[start] == '{' {
            if empty_nesting(s) {
                let none: Vec<Value> = Vec::new();
                assert(value::models(none@) =~= Seq::<ValueModel>::empty());
                return LiteralRead::Elements(none);
            }
            return LiteralRead::Nested;
        } else if s[start] == '"' {
            match read_quoted(s, start + 1) {
                Quoted::Closed(t, stop) => {
                    end = stop;
                    read.push(Value::Text(t));
                },
                Quoted::Unclosed => return LiteralRead::NotArray,
                Quoted::Undefined => return LiteralRead::Undefined,
            }
        } else {
            end = find_token_end(s, start);
            match read_token(vstd::slice::slice_subrange(s, start, end), floats) {
                Some(v) => {
                    read.push(v);
                },
                None => return LiteralRead::NotArray,
            }
        }
        assert(value::models(read@) =~= before.push(read@.last()@));
        let comma = skip_white(s, end);
        if comma == s.len() {
            return LiteralRead::Elements(read);
        }
        if s[comma] != ',' || skip_white(s, comma + 1) == s.len() {
            return LiteralRead::NotArray;
        }
        p = comma + 1;
    }
}

/// Reads what stands between the braces of an array literal.
fn read_inner<R: Fn(&str) -> Option<u64>, S: Fn(u64, FloatStyle) -> String>(
    s: &[char],
    floats: &FloatText<R, S>,
) -> (r: LiteralRead)
    ensures
        r@ == inner_literal(s@, floats@),
{
    let inner = text::trim(s);
    if inner.len() == 0 {
        let none: Vec<Value> = Vec::new();
        assert(value::models(none@) =~= Seq::<ValueModel>::empty());
        LiteralRead::Elements(none)
    } else {
        read_elements(inner, floats)
    }
}

/// Reads an array literal.
pub fn read_literal<R: Fn(&str) -> Option<u64>, S: Fn(u64, FloatStyle) -> String>(
    text: &str,
    floats: &FloatText<R, S>,
) -> (r: LiteralRead)
    ensures
        r@ == literal_of(text@, floats@),
{
    let chars = text::chars_of(text);
    let t = text::trim(chars.as_slice());
    if t.len() >= 2 && t[0] == '{' && t[t.len() - 1] == '}' {
        read_inner(vstd::slice::slice_subrange(t, 1, t.len() - 1), floats)
    } else {
        LiteralRead::NotArray
    }
}

/// What reading a literal answers.
fn answer_literal(l: LiteralRead) -> (r: Result<Option<Vec<Value>>, LimboError>)
    ensures
        row_answer(r) == literal_answer(l@),
{
    match l {
        LiteralRead::Elements(v) => Ok(Some(v)),
        LiteralRead::NotArray => Ok(None),
        LiteralRead::Nested => Err(
            LimboError::Constraint(
                "multidimensional array literals are not supported on this engine build".to_owned(),
            ),
        ),
        LiteralRead::Undefined => Ok(None),
    }
}

/// Reads an array literal: its elements, or `None` where the text is no array.
/// Refuses an array of arrays, unless there is nothing in it.
pub fn parse_text_array<R: Fn(&str) -> Option<u64>, S: Fn(u64, FloatStyle) -> String>(
    text: &str,
    floats: &FloatText<R, S>,
) -> (r: Result<Option<Vec<Value>>, LimboError>)
    requires
        is_defined(text@, floats@),
    ensures
        row_answer(r) == literal_answer(literal_of(text@, floats@)),
{
    answer_literal(read_literal(text, floats))
}

/// Reads an array literal that stands in braces, without white space around it.
pub fn parse_pg_text_array<R: Fn(&str) -> Option<u64>, S: Fn(u64, FloatStyle) -> String>(
    text: &str,
    floats: &FloatText<R, S>,
) -> (r: Result<Option<Vec<Value>>, LimboError>)
    requires
        in_braces(text@),
        inner_literal(text@.subrange(1, text@.len() - 1), floats@) !is Undefined,
    ensures
        row_answer(r) == literal_answer(
            inner_literal(text@.subrange(1, text@.len() - 1), floats@),
        ),
{
    let t = text::chars_of(text);
    let inner = vstd::slice::slice_subrange(t.as_slice(), 1, t.len() - 1);
    answer_literal(read_inner(inner, floats))
}

/// Whether a text is anything as an array literal.
pub fn text_is_defined<R: Fn(&str) -> Option<u64>, S: Fn(u64, FloatStyle) -> String>(
    text: &str,
    floats: &FloatText<R, S>,
) -> (r: bool)
    ensures
        r == is_defined(text@, floats@),
{
    match read_literal(text, floats) {
        LiteralRead::Undefined => false,
        _ => true,
    }
}

} // verus!
