//! What holds of array literals: what is one, and what it reads as.

use vstd::prelude::*;

use crate::array;
use crate::error::ErrorModel;
use crate::floats::{self, FloatModel};
use crate::laws;
use crate::literal::{self, ElementRead, Literal, QuotedRead};
use crate::membership;
use crate::numeral_laws;
use crate::numerals;
use crate::render;
use crate::roundtrip;
use crate::search_laws;
use crate::text;
use crate::value::{self, ValueModel};

verus! {

/// A character in quotes, which may stand behind a backslash.
pub ghost struct Quotable {
    pub c: char,
    pub escaped: bool,
}

/// How an element is written.
pub ghost enum Written {
    /// Without quotes.
    Token(Seq<char>),
    /// In quotes.
    Quoted(Seq<Quotable>),
}

/// An element with the white space around it.
pub ghost struct Piece {
    pub before: Seq<char>,
    pub written: Written,
    pub behind: Seq<char>,
}

/// Whether a character can stand in quotes: a quote and a backslash only behind
/// a backslash, and behind a backslash only a character of ASCII.
pub open spec fn can_stand(q: Quotable) -> bool {
    if q.escaped {
        q.c <= '\u{7f}'
    } else {
        q.c != '"' && q.c != '\\'
    }
}

/// How a character in quotes is written.
pub open spec fn quotable_text(q: Quotable) -> Seq<char> {
    if q.escaped {
        seq!['\\', q.c]
    } else {
        seq![q.c]
    }
}

/// What a character in quotes means.
pub open spec fn quotable_meaning(q: Quotable) -> char {
    if q.escaped && q.c == 'n' {
        '\n'
    } else if q.escaped && q.c == 'r' {
        '\r'
    } else if q.escaped && q.c == 't' {
        '\t'
    } else {
        q.c
    }
}

/// How characters in quotes are written, one behind the other.
pub open spec fn body(qs: Seq<Quotable>) -> Seq<char> {
    qs.fold_left(Seq::empty(), |done: Seq<char>, q: Quotable| done + quotable_text(q))
}

/// What characters in quotes mean.
pub open spec fn meanings(qs: Seq<Quotable>) -> Seq<char> {
    Seq::new(qs.len(), |i: int| quotable_meaning(qs[i]))
}

/// Whether a text has nothing but white space of ASCII.
pub open spec fn ascii_blank(t: Seq<char>) -> bool {
    forall|k: int| 0 <= k < t.len() ==> text::is_ascii_white(#[trigger] t[k])
}

/// Whether an element can be written so: a token has neither commas nor white
/// space, and starts with neither a quote nor a brace.
pub open spec fn can_be_written(w: Written) -> bool {
    match w {
        Written::Token(t) => {
            &&& t.len() > 0 ==> t[0] != '"' && t[0] != '{'
            &&& forall|k: int|
                0 <= k < t.len() ==> #[trigger] t[k] != ',' && !text::is_ascii_white(t[k])
        },
        Written::Quoted(qs) => forall|k: int| 0 <= k < qs.len() ==> can_stand(#[trigger] qs[k]),
    }
}

/// The text of an element.
pub open spec fn written_text(w: Written) -> Seq<char> {
    match w {
        Written::Token(t) => t,
        Written::Quoted(qs) => seq!['"'] + body(qs) + seq!['"'],
    }
}

/// What an element reads as. `None` for a token that spells a number that is not
/// finite.
pub open spec fn written_meaning(w: Written, model: FloatModel) -> Option<ValueModel> {
    match w {
        Written::Token(t) => literal::token_element(t, model),
        Written::Quoted(qs) => Some(ValueModel::Text(meanings(qs))),
    }
}

/// Whether an element can stand with white space around it.
pub open spec fn is_piece(p: Piece) -> bool {
    &&& ascii_blank(p.before)
    &&& ascii_blank(p.behind)
    &&& can_be_written(p.written)
    &&& written_text(p.written).len() == 0 ==> p.behind.len() == 0
}

/// The text of an element with the white space around it.
pub open spec fn piece_text(p: Piece) -> Seq<char> {
    p.before + written_text(p.written) + p.behind
}

/// The elements with commas between them.
pub open spec fn spread(ps: Seq<Piece>) -> Seq<char>
    decreases ps.len(),
{
    if ps.len() == 0 {
        Seq::empty()
    } else if ps.len() == 1 {
        piece_text(ps[0])
    } else {
        piece_text(ps[0]) + seq![','] + spread(ps.skip(1))
    }
}

/// Whether elements can stand with commas between them: all can, and the last is
/// not empty.
pub open spec fn are_pieces(ps: Seq<Piece>) -> bool {
    &&& ps.len() > 0
    &&& forall|k: int| 0 <= k < ps.len() ==> is_piece(#[trigger] ps[k])
    &&& written_text(ps.last().written).len() > 0
}

/// What elements read as: an array of what each does, unless one spells a number
/// that is not finite.
pub open spec fn pieces_meaning(ps: Seq<Piece>, model: FloatModel) -> Literal {
    if forall|k: int|
        0 <= k < ps.len() ==> (#[trigger] written_meaning(ps[k].written, model)) is Some {
        Literal::Elements(
            Seq::new(ps.len(), |k: int| written_meaning(ps[k].written, model)->0),
        )
    } else {
        Literal::NotArray
    }
}

/// Whether a token is the word for NULL, each of its letters small or capital.
pub open spec fn is_null_spelling(t: Seq<char>) -> bool {
    t.len() == 4 && forall|k: int|
        0 <= k < 4 ==> (#[trigger] t[k] == "null"@[k] || t[k] == "NULL"@[k])
}

/// A token is NULL where it is the word for it; else the integer that it spells,
/// if it spells one of 64 bits; else the floating-point number that it spells, and
/// the token as a text where it spells none. A number that is not finite is
/// nothing.
pub proof fn law_tokens(t: Seq<char>, i: int, model: FloatModel)
    ensures
        is_null_spelling(t) ==> literal::token_element(t, model) == Some(ValueModel::Null),
        !is_null_spelling(t) && numeral_laws::spells(t, i) && i64::MIN <= i <= i64::MAX
            ==> literal::token_element(t, model) == Some(ValueModel::Integer(i as i64)),
        !is_null_spelling(t) && (forall|j: int| #[trigger]
            numeral_laws::spells(t, j) ==> !(i64::MIN <= j <= i64::MAX))
            ==> literal::token_element(t, model) == match (model.reads)(t) {
            Some(bits) => if floats::is_finite_bits(bits) {
                Some(ValueModel::Float(bits))
            } else {
                None
            },
            None => Some(ValueModel::Text(t)),
        },
{
    reveal_strlit("null");
    reveal_strlit("NULL");
    assert(is_null_spelling(t) <==> text::is_null_word(t)) by {
        if is_null_spelling(t) {
            assert(t[0] == "null"@[0] || t[0] == "NULL"@[0]);
            assert(t[1] == "null"@[1] || t[1] == "NULL"@[1]);
            assert(t[2] == "null"@[2] || t[2] == "NULL"@[2]);
            assert(t[3] == "null"@[3] || t[3] == "NULL"@[3]);
        }
    }
    numeral_laws::law_integers_are_read(t, i);
    if let Some(j) = numerals::integer_of(t) {
        numeral_laws::law_integers_are_read(t, j);
    }
}

/// Whether a row of characters stands at a place.
spec fn stands_in(s: Seq<char>, p: int, t: Seq<char>) -> bool {
    0 <= p && p + t.len() <= s.len() && forall|i: int|
        0 <= i < t.len() ==> s[p + i] == #[trigger] t[i]
}

proof fn lemma_stands_part(s: Seq<char>, p: int, a: Seq<char>, b: Seq<char>)
    requires
        stands_in(s, p, a + b),
    ensures
        stands_in(s, p, a),
        stands_in(s, p + a.len(), b),
{
    assert forall|i: int| 0 <= i < a.len() implies s[p + i] == #[trigger] a[i] by {
        assert((a + b)[i] == a[i]);
    }
    assert forall|i: int| 0 <= i < b.len() implies s[p + a.len() + i] == #[trigger] b[i] by {
        assert((a + b)[a.len() + i] == b[i]);
        assert(s[p + (a.len() + i)] == (a + b)[a.len() + i]);
    }
}

/// White space is skipped up to what stands behind it.
proof fn lemma_solid(s: Seq<char>, p: int, w: Seq<char>)
    requires
        stands_in(s, p, w),
        ascii_blank(w),
        p + w.len() == s.len() || !text::is_ascii_white(s[p + w.len()]),
    ensures
        literal::solid_from(s, p) == p + w.len(),
    decreases w.len(),
{
    if w.len() > 0 {
        assert(s[p + 0] == w[0]);
        let rest = w.skip(1);
        assert(w =~= seq![w[0]] + rest);
        lemma_stands_part(s, p, seq![w[0]], rest);
        assert forall|k: int| 0 <= k < rest.len() implies text::is_ascii_white(
            #[trigger] rest[k],
        ) by {
            assert(rest[k] == w[k + 1]);
        }
        lemma_solid(s, p + 1, rest);
    }
}

proof fn lemma_token_end(s: Seq<char>, p: int, t: Seq<char>)
    requires
        stands_in(s, p, t),
        forall|k: int| 0 <= k < t.len() ==> #[trigger] t[k] != ',' && !text::is_ascii_white(t[k]),
        p + t.len() == s.len() || s[p + t.len()] == ',' || text::is_ascii_white(s[p + t.len()]),
    ensures
        literal::token_end(s, p) == p + t.len(),
    decreases t.len(),
{
    if t.len() > 0 {
        assert(s[p + 0] == t[0]);
        let rest = t.skip(1);
        assert(t =~= seq![t[0]] + rest);
        lemma_stands_part(s, p, seq![t[0]], rest);
        assert forall|k: int| 0 <= k < rest.len() implies #[trigger] rest[k] != ','
            && !text::is_ascii_white(rest[k]) by {
            assert(rest[k] == t[k + 1]);
        }
        lemma_token_end(s, p + 1, rest);
    }
}

proof fn lemma_quoted(s: Seq<char>, p: int, qs: Seq<Quotable>, read: Seq<char>)
    requires
        stands_in(s, p, body(qs)),
        forall|k: int| 0 <= k < qs.len() ==> can_stand(#[trigger] qs[k]),
    ensures
        literal::quoted_from(s, p, read) == literal::quoted_from(
            s,
            p + body(qs).len(),
            read + meanings(qs),
        ),
    decreases qs.len(),
{
    if qs.len() == 0 {
        assert(read + meanings(qs) =~= read);
    } else {
        let front = qs.drop_last();
        let q = qs.last();
        assert(body(qs) == body(front) + quotable_text(q));
        lemma_stands_part(s, p, body(front), quotable_text(q));
        assert forall|k: int| 0 <= k < front.len() implies can_stand(#[trigger] front[k]) by {
            assert(front[k] == qs[k]);
        }
        lemma_quoted(s, p, front, read);
        let at = p + body(front).len();
        let so_far = read + meanings(front);
        assert(can_stand(qs[qs.len() - 1]));
        let t = quotable_text(q);
        assert(s[at + 0] == t[0]);
        if q.escaped {
            assert(s[at + 1] == t[1]);
        }
        assert(so_far.push(quotable_meaning(q)) =~= read + meanings(qs));
    }
}

/// An element is read up to its end.
proof fn lemma_written(s: Seq<char>, p: int, w: Written, model: FloatModel)
    requires
        stands_in(s, p, written_text(w)),
        p < s.len(),
        can_be_written(w),
        ({
            let end = p + written_text(w).len();
            end == s.len() || s[end] == ',' || (text::is_ascii_white(s[end]) && end > p)
        }),
    ensures
        literal::element_at(s, p, model) == match written_meaning(w, model) {
            Some(m) => ElementRead::Element(m, p + written_text(w).len()),
            None => ElementRead::NotArray,
        },
{
    match w {
        Written::Token(t) => {
            lemma_token_end(s, p, t);
            if t.len() > 0 {
                assert(s[p + 0] == t[0]);
            }
            assert(s.subrange(p, p + t.len()) =~= t);
        },
        Written::Quoted(qs) => {
            let t = written_text(w);
            assert(t =~= seq!['"'] + (body(qs) + seq!['"']));
            lemma_stands_part(s, p, seq!['"'], body(qs) + seq!['"']);
            lemma_stands_part(s, p + 1, body(qs), seq!['"']);
            assert(s[p + 0] == t[0]);
            lemma_quoted(s, p + 1, qs, Seq::empty());
            assert(Seq::<char>::empty() + meanings(qs) =~= meanings(qs));
            let close = p + 1 + body(qs).len();
            assert(s[close + 0] == seq!['"'][0]);
        },
    }
}

/// The elements are read one by one, up to what stands behind them: nothing, or
/// a comma and more.
proof fn lemma_spread(
    s: Seq<char>,
    p: int,
    ps: Seq<Piece>,
    k: int,
    tail: Seq<char>,
    read: Seq<ValueModel>,
    model: FloatModel,
)
    requires
        0 <= k < ps.len(),
        0 <= p <= s.len(),
        s.skip(p) == spread(ps.skip(k)) + tail,
        are_pieces(ps),
        tail.len() > 0 ==> tail[0] == ',' && exists|j: int|
            1 <= j < tail.len() && !text::is_ascii_white(#[trigger] tail[j]),
        read.len() == k,
        forall|i: int|
            0 <= i < k ==> #[trigger] written_meaning(ps[i].written, model) == Some(read[i]),
    ensures
        pieces_meaning(ps, model) matches Literal::Elements(vs) ==> literal::elements_from(
            s,
            p,
            read,
            model,
        ) == if tail.len() == 0 {
            Literal::Elements(vs)
        } else {
            literal::elements_from(s, s.len() - tail.len() + 1, vs, model)
        },
        pieces_meaning(ps, model) is NotArray ==> literal::elements_from(s, p, read, model)
            is NotArray,
    decreases ps.len() - k,
{
    let rest = ps.skip(k);
    let piece = ps[k];
    assert(rest[0] == piece);
    assert(rest.skip(1) =~= ps.skip(k + 1));
    let t = written_text(piece.written);
    let more = if k + 1 < ps.len() {
        seq![','] + (spread(ps.skip(k + 1)) + tail)
    } else {
        tail
    };
    let all = s.skip(p);
    assert(is_piece(ps[k]));
    assert(all =~= piece.before + (t + (piece.behind + more))) by {
        if k + 1 < ps.len() {
            assert(spread(rest) == piece_text(piece) + seq![','] + spread(ps.skip(k + 1)));
        } else {
            assert(spread(rest) == piece_text(piece));
        }
    }
    assert(stands_in(s, p, all)) by {
        assert forall|i: int| 0 <= i < all.len() implies s[p + i] == #[trigger] all[i] by {}
    }
    let start = p + piece.before.len();
    let end = start + t.len();
    let comma = end + piece.behind.len();
    lemma_stands_part(s, p, piece.before, t + (piece.behind + more));
    lemma_stands_part(s, start, t, piece.behind + more);
    lemma_stands_part(s, end, piece.behind, more);
    assert(comma + more.len() == s.len());
    if more.len() > 0 {
        assert(s[comma + 0] == more[0]);
    }
    if t.len() == 0 {
        assert(k + 1 < ps.len());
    }
    // What stands at the start and at the end of the element.
    if t.len() > 0 {
        assert(s[start + 0] == t[0]);
        lemma_written_start(piece.written);
    }
    if piece.behind.len() > 0 {
        assert(s[end + 0] == piece.behind[0]);
        assert(text::is_ascii_white(piece.behind[0]));
    }
    lemma_solid(s, p, piece.before);
    lemma_written(s, start, piece.written, model);
    lemma_solid(s, end, piece.behind);
    assert(literal::solid_from(s, p) == start && start < s.len());
    match written_meaning(piece.written, model) {
        None => {
            assert(pieces_meaning(ps, model) is NotArray);
        },
        Some(m) => {
            assert(literal::solid_from(s, end) == comma);
            let now = read.push(m);
            if k + 1 < ps.len() {
                let behind = spread(ps.skip(k + 1)) + tail;
                lemma_stands_part(s, comma, seq![','], behind);
                lemma_spread_solid(s, comma + 1, ps, k + 1, tail);
                assert(s.skip(comma + 1) =~= behind) by {
                    assert forall|i: int| 0 <= i < behind.len() implies s.skip(comma + 1)[i]
                        == #[trigger] behind[i] by {
                        assert(s[comma + 1 + i] == behind[i]);
                    }
                }
                lemma_spread(s, comma + 1, ps, k + 1, tail, now, model);
            } else {
                assert(pieces_meaning(ps, model) == Literal::Elements(now)) by {
                    assert(now =~= Seq::new(
                        ps.len(),
                        |i: int| written_meaning(ps[i].written, model)->0,
                    )) by {
                        assert forall|i: int| 0 <= i < now.len() implies now[i]
                            == #[trigger] written_meaning(ps[i].written, model)->0 by {}
                    }
                }
                if tail.len() > 0 {
                    let j = choose|j: int|
                        1 <= j < tail.len() && !text::is_ascii_white(#[trigger] tail[j]);
                    assert(s[comma + j] == tail[j]);
                    lemma_solid_stops(s, comma + 1, comma + j);
                }
            }
        },
    }
}

/// White space ends before what is none.
proof fn lemma_solid_stops(s: Seq<char>, p: int, j: int)
    requires
        0 <= p <= j < s.len(),
        !text::is_ascii_white(s[j]),
    ensures
        p <= literal::solid_from(s, p) <= j,
    decreases j - p,
{
    if p < j && text::is_ascii_white(s[p]) {
        lemma_solid_stops(s, p + 1, j);
    }
}

/// An element does not start with white space.
proof fn lemma_written_start(w: Written)
    requires
        can_be_written(w),
        written_text(w).len() > 0,
    ensures
        !text::is_ascii_white(written_text(w)[0]),
{
}

/// Elements are more than white space.
proof fn lemma_spread_solid(s: Seq<char>, p: int, ps: Seq<Piece>, k: int, tail: Seq<char>)
    requires
        0 <= k < ps.len(),
        are_pieces(ps),
        stands_in(s, p, spread(ps.skip(k)) + tail),
    ensures
        literal::solid_from(s, p) < s.len(),
{
    let rest = ps.skip(k);
    let piece = ps[k];
    assert(is_piece(ps[k]));
    assert(rest[0] == piece);
    let t = written_text(piece.written);
    let x = spread(rest) + tail;
    let j = piece.before.len() as int;
    if t.len() > 0 {
        lemma_written_start(piece.written);
        assert(x[j] == t[0]);
    } else {
        assert(rest.len() > 1);
        assert(x[j] == ',');
    }
    assert(s[p + j] == x[j]);
    lemma_solid_stops(s, p, p + j);
}

/// The white space before the first element and behind the last is at the ends of
/// the text.
proof fn lemma_spread_ends(ps: Seq<Piece>)
    requires
        ps.len() > 0,
    ensures
        ({
            let bare = bared(ps);
            &&& bare.len() == ps.len()
            &&& spread(ps) == ps[0].before + spread(bare) + ps.last().behind
        }),
    decreases ps.len(),
{
    let bare = bared(ps);
    if ps.len() == 1 {
        assert(spread(ps) =~= ps[0].before + spread(bare) + ps[0].behind);
    } else {
        let rest = ps.skip(1);
        lemma_spread_ends(rest);
        let tail = bare.skip(1);
        let unfolded = bared(rest);
        // Only the white space before the second element differs.
        assert(spread(tail) == rest[0].before + spread(unfolded)) by {
            if rest.len() == 1 {
                assert(spread(tail) =~= rest[0].before + spread(unfolded));
            } else {
                assert(tail.skip(1) =~= unfolded.skip(1));
                assert(spread(tail) =~= rest[0].before + spread(unfolded));
            }
        }
        assert(spread(bare) == piece_text(bare[0]) + seq![','] + spread(tail));
        assert(spread(ps) == piece_text(ps[0]) + seq![','] + spread(rest));
        assert(spread(ps) =~= ps[0].before + spread(bare) + ps.last().behind);
    }
}

/// The elements without the white space at their ends.
pub open spec fn bared(ps: Seq<Piece>) -> Seq<Piece> {
    Seq::new(
        ps.len(),
        |k: int|
            Piece {
                before: if k == 0 {
                    Seq::empty()
                } else {
                    ps[k].before
                },
                written: ps[k].written,
                behind: if k == ps.len() - 1 {
                    Seq::empty()
                } else {
                    ps[k].behind
                },
            },
    )
}

proof fn lemma_bared(ps: Seq<Piece>, model: FloatModel)
    requires
        are_pieces(ps),
    ensures
        are_pieces(bared(ps)),
        pieces_meaning(bared(ps), model) == pieces_meaning(ps, model),
{
    let bare = bared(ps);
    assert forall|k: int| 0 <= k < bare.len() implies is_piece(#[trigger] bare[k]) by {
        assert(is_piece(ps[k]));
    }
    assert forall|k: int| 0 <= k < ps.len() implies #[trigger] written_meaning(
        bare[k].written,
        model,
    ) == written_meaning(ps[k].written, model) by {}
    if forall|k: int|
        0 <= k < bare.len() ==> (#[trigger] written_meaning(bare[k].written, model)) is Some {
        assert forall|k: int| 0 <= k < ps.len() implies (#[trigger] written_meaning(
            ps[k].written,
            model,
        )) is Some by {
            assert(written_meaning(bare[k].written, model) is Some);
        }
        assert(pieces_meaning(bare, model)->Elements_0 =~= pieces_meaning(ps, model)->Elements_0);
    }
}

/// Elements in braces with commas between them, with white space around each and
/// around the whole, are an array of what each element reads as. Where one spells
/// a number that is not finite, they are none. White space inside is that of
/// ASCII; at the ends it may be any.
pub proof fn law_elements_in_braces(
    around: Seq<char>,
    lead: Seq<char>,
    ps: Seq<Piece>,
    trail: Seq<char>,
    beyond: Seq<char>,
    model: FloatModel,
)
    requires
        numeral_laws::all_white(around),
        numeral_laws::all_white(lead),
        numeral_laws::all_white(trail),
        numeral_laws::all_white(beyond),
        are_pieces(ps),
        written_text(ps[0].written).len() > 0 ==> !text::is_white(written_text(ps[0].written)[0]),
        !text::is_white(written_text(ps.last().written).last()),
    ensures
        literal::literal_of(
            around + (seq!['{'] + (lead + spread(ps) + trail) + seq!['}']) + beyond,
            model,
        ) == pieces_meaning(ps, model),
{
    let inner = lead + spread(ps) + trail;
    let t = seq!['{'] + inner + seq!['}'];
    numeral_laws::law_trimmed(around, t, beyond);
    assert(t.subrange(1, t.len() - 1) =~= inner);
    let bare = bared(ps);
    let core = spread(bare);
    lemma_spread_ends(ps);
    lemma_bared(ps, model);
    let (first, last) = (ps[0], ps.last());
    let (w, v) = (lead + first.before, last.behind + trail);
    assert(is_piece(ps[0]) && is_piece(ps[ps.len() - 1]));
    assert(inner =~= w + core + v);
    assert forall|k: int| 0 <= k < w.len() implies text::is_white(#[trigger] w[k]) by {
        if k >= lead.len() {
            assert(text::is_ascii_white(first.before[k - lead.len()]));
        } else {
            assert(text::is_white(lead[k]));
        }
    }
    assert forall|k: int| 0 <= k < v.len() implies text::is_white(#[trigger] v[k]) by {
        if k < last.behind.len() {
            assert(text::is_ascii_white(last.behind[k]));
        } else {
            assert(text::is_white(trail[k - last.behind.len()]));
        }
    }
    lemma_core_ends(bare);
    numeral_laws::law_trimmed(w, core, v);
    assert(bare.skip(0) =~= bare);
    assert(core.skip(0) =~= core + Seq::<char>::empty());
    lemma_spread(core, 0, bare, 0, Seq::empty(), Seq::empty(), model);
}

/// Elements without white space at their ends start and end with other
/// characters.
proof fn lemma_core_ends(ps: Seq<Piece>)
    requires
        are_pieces(ps),
        ps[0].before.len() == 0,
        ps.last().behind.len() == 0,
        written_text(ps[0].written).len() > 0 ==> !text::is_white(written_text(ps[0].written)[0]),
        !text::is_white(written_text(ps.last().written).last()),
    ensures
        spread(ps).len() > 0,
        !text::is_white(spread(ps)[0]),
        !text::is_white(spread(ps).last()),
{
    let first = written_text(ps[0].written);
    lemma_spread_last(ps);
    if first.len() > 0 {
        assert(spread(ps)[0] == first[0]);
    } else {
        assert(is_piece(ps[0]));
        assert(spread(ps)[0] == ',');
    }
}

proof fn lemma_spread_last(ps: Seq<Piece>)
    requires
        ps.len() > 0,
        ps.last().behind.len() == 0,
        written_text(ps.last().written).len() > 0,
    ensures
        spread(ps).len() > 0,
        spread(ps).last() == written_text(ps.last().written).last(),
    decreases ps.len(),
{
    if ps.len() == 1 {
        assert(piece_text(ps[0]).last() == written_text(ps[0].written).last());
    } else {
        lemma_spread_last(ps.skip(1));
    }
}

/// A brace where an element should start makes the literal an array of arrays,
/// which is refused, whatever stands behind the brace; unless there is nothing but
/// braces, commas and white space in the literal: then it is the empty array.
/// Where an element before it spells a number that is not finite, the literal is
/// no array at all.
pub proof fn law_nested_anywhere(
    ps: Seq<Piece>,
    before: Seq<char>,
    behind: Seq<char>,
    model: FloatModel,
)
    requires
        are_pieces(ps),
        ps[0].before.len() == 0,
        written_text(ps[0].written).len() > 0 ==> !text::is_white(written_text(ps[0].written)[0]),
        ascii_blank(before),
        behind.len() > 0 ==> !text::is_white(behind.last()),
    ensures
        ({
            let core = spread(ps) + seq![','] + before + seq!['{'] + behind;
            literal::literal_of(seq!['{'] + core + seq!['}'], model)
                == if pieces_meaning(ps, model) is NotArray {
                Literal::NotArray
            } else if literal::is_empty_nesting(core) {
                Literal::Elements(Seq::empty())
            } else {
                Literal::Nested
            }
        }),
{
    let core = spread(ps) + seq![','] + before + seq!['{'] + behind;
    let t = seq!['{'] + core + seq!['}'];
    let none = Seq::<char>::empty();
    lemma_first_char(ps);
    assert(!text::is_white(core[0]) && !text::is_white(core.last()));
    lemma_nested_core(ps, before, behind, model);
    assert(text::trimmed(t) == t) by {
        numeral_laws::law_trimmed(none, t, none);
        assert(none + t + none =~= t);
    }
    assert(text::trimmed(core) == core) by {
        numeral_laws::law_trimmed(none, core, none);
        assert(none + core + none =~= core);
    }
    assert(t.subrange(1, t.len() - 1) =~= core);
}

proof fn lemma_nested_core(
    ps: Seq<Piece>,
    before: Seq<char>,
    behind: Seq<char>,
    model: FloatModel,
)
    requires
        are_pieces(ps),
        ascii_blank(before),
    ensures
        ({
            let core = spread(ps) + seq![','] + before + seq!['{'] + behind;
            literal::elements_from(core, 0, Seq::empty(), model)
                == if pieces_meaning(ps, model) is NotArray {
                Literal::NotArray
            } else if literal::is_empty_nesting(core) {
                Literal::Elements(Seq::empty())
            } else {
                Literal::Nested
            }
        }),
{
    let core = spread(ps) + seq![','] + before + seq!['{'] + behind;
    let tail = seq![','] + before + seq!['{'] + behind;
    let at = 1 + before.len() as int;
    assert(tail[at] == '{');
    assert(ps.skip(0) =~= ps);
    assert(core.skip(0) =~= spread(ps) + tail);
    lemma_spread(core, 0, ps, 0, tail, Seq::empty(), model);
    let p = core.len() - tail.len() + 1;
    assert(stands_in(core, p, before)) by {
        assert forall|i: int| 0 <= i < before.len() implies core[p + i] == #[trigger] before[i] by {
            assert(tail[1 + i] == before[i]);
        }
    }
    assert(core[p + before.len()] == '{');
    lemma_solid(core, p, before);
}

proof fn lemma_first_char(ps: Seq<Piece>)
    requires
        are_pieces(ps),
        ps[0].before.len() == 0,
        written_text(ps[0].written).len() > 0 ==> !text::is_white(written_text(ps[0].written)[0]),
    ensures
        spread(ps).len() > 0,
        !text::is_white(spread(ps)[0]),
{
    let first = written_text(ps[0].written);
    assert(is_piece(ps[0]));
    if first.len() > 0 {
        assert(spread(ps)[0] == first[0]);
    } else {
        assert(spread(ps)[0] == ',');
    }
}

/// White space that was skipped is white space.
proof fn lemma_skipped(s: Seq<char>, p: int)
    requires
        0 <= p <= s.len(),
    ensures
        p <= literal::solid_from(s, p) <= s.len(),
        ascii_blank(s.subrange(p, literal::solid_from(s, p))),
        literal::solid_from(s, p) < s.len() ==> !text::is_ascii_white(
            s[literal::solid_from(s, p)],
        ),
    decreases s.len() - p,
{
    literal::lemma_solid_from(s, p);
    if p < s.len() && text::is_ascii_white(s[p]) {
        lemma_skipped(s, p + 1);
        let end = literal::solid_from(s, p);
        let (all, rest) = (s.subrange(p, end), s.subrange(p + 1, end));
        literal::lemma_solid_from(s, p + 1);
        assert forall|k: int| 0 <= k < all.len() implies text::is_ascii_white(
            #[trigger] all[k],
        ) by {
            if k > 0 {
                assert(all[k] == rest[k - 1]);
            }
        }
    }
}

/// A token that was read has neither commas nor white space.
proof fn lemma_token_read(s: Seq<char>, p: int)
    requires
        0 <= p <= s.len(),
    ensures
        p <= literal::token_end(s, p) <= s.len(),
        forall|k: int|
            p <= k < literal::token_end(s, p) ==> #[trigger] s[k] != ',' && !text::is_ascii_white(
                s[k],
            ),
        literal::token_end(s, p) < s.len() ==> s[literal::token_end(s, p)] == ','
            || text::is_ascii_white(s[literal::token_end(s, p)]),
    decreases s.len() - p,
{
    if p < s.len() && s[p] != ',' && !text::is_ascii_white(s[p]) {
        lemma_token_read(s, p + 1);
    }
}

/// The character in quotes at a place.
spec fn quotable_at(s: Seq<char>, p: int) -> Quotable {
    if s[p] != '\\' {
        Quotable { c: s[p], escaped: false }
    } else {
        Quotable { c: s[p + 1], escaped: true }
    }
}

/// A quoted text that was read is made of characters that can stand in quotes.
proof fn lemma_quoted_read(s: Seq<char>, p: int, read: Seq<char>) -> (qs: Seq<Quotable>)
    requires
        0 <= p <= s.len(),
        literal::quoted_from(s, p, read) is Closed,
    ensures
        literal::quoted_from(s, p, read) matches QuotedRead::Closed(t, end) && {
            &&& p < end <= s.len()
            &&& s[end - 1] == '"'
            &&& s.subrange(p, end - 1) == body(qs)
            &&& t == read + meanings(qs)
            &&& forall|k: int| 0 <= k < qs.len() ==> can_stand(#[trigger] qs[k])
        },
    decreases s.len() - p,
{
    if s[p] == '"' {
        let none = Seq::<Quotable>::empty();
        assert(s.subrange(p, p) =~= body(none));
        assert(read + meanings(none) =~= read);
        none
    } else {
        let q = quotable_at(s, p);
        let next = if q.escaped {
            p + 2
        } else {
            p + 1
        };
        let now = read.push(quotable_meaning(q));
        assert(literal::quoted_from(s, p, read) == literal::quoted_from(s, next, now));
        let rest = lemma_quoted_read(s, next, now);
        let all = seq![q] + rest;
        lemma_body_front(q, rest);
        let end = literal::quoted_from(s, p, read)->Closed_1;
        assert(s.subrange(p, end - 1) =~= quotable_text(q) + s.subrange(next, end - 1));
        assert(now + meanings(rest) =~= read + meanings(all));
        assert forall|k: int| 0 <= k < all.len() implies can_stand(#[trigger] all[k]) by {
            if k > 0 {
                assert(all[k] == rest[k - 1]);
            }
        }
        all
    }
}

proof fn lemma_body_front(q: Quotable, rest: Seq<Quotable>)
    ensures
        body(seq![q] + rest) == quotable_text(q) + body(rest),
        (seq![q] + rest).len() == 1 + rest.len(),
        (seq![q] + rest)[0] == q,
        forall|k: int| 1 <= k <= rest.len() ==> #[trigger] (seq![q] + rest)[k] == rest[k - 1],
    decreases rest.len(),
{
    let all = seq![q] + rest;
    if rest.len() == 0 {
        assert(all.drop_last() =~= Seq::<Quotable>::empty());
        assert(body(all.drop_last()) =~= Seq::<char>::empty());
        assert(body(all) == body(all.drop_last()) + quotable_text(q));
        assert(body(rest) =~= Seq::<char>::empty());
        assert(body(all) =~= quotable_text(q) + body(rest));
    } else {
        lemma_body_front(q, rest.drop_last());
        assert(all.drop_last() =~= seq![q] + rest.drop_last());
        assert(body(all) == body(all.drop_last()) + quotable_text(rest.last()));
        assert(body(rest) == body(rest.drop_last()) + quotable_text(rest.last()));
        assert(body(all) =~= quotable_text(q) + body(rest));
    }
}

/// Whether elements that stand in a text were read as some values.
pub open spec fn are_read_as(ps: Seq<Piece>, vs: Seq<ValueModel>, model: FloatModel) -> bool {
    ps.len() == vs.len() && forall|k: int|
        0 <= k < ps.len() ==> #[trigger] written_meaning(ps[k].written, model) == Some(vs[k])
}

/// Elements that were read stand in the text, with commas between them.
proof fn lemma_elements_read(
    s: Seq<char>,
    p: int,
    read: Seq<ValueModel>,
    model: FloatModel,
) -> (ps: Seq<Piece>)
    requires
        0 <= p <= s.len(),
        literal::solid_from(s, p) < s.len(),
        literal::elements_from(s, p, read, model) is Elements,
    ensures
        literal::elements_from(s, p, read, model) matches Literal::Elements(vs) && ({
            ||| vs.len() == 0 && literal::is_empty_nesting(s)
            ||| {
                &&& are_pieces(ps)
                &&& s.skip(p) == spread(ps)
                &&& vs.len() == read.len() + ps.len()
                &&& vs.take(read.len() as int) == read
                &&& are_read_as(ps, vs.skip(read.len() as int), model)
            }
        }),
    decreases s.len() - p,
{
    let start = literal::solid_from(s, p);
    lemma_skipped(s, p);
    literal::lemma_element_at(s, start, model);
    let vs = literal::elements_from(s, p, read, model)->Elements_0;
    let (m, end) = match literal::element_at(s, start, model) {
        ElementRead::Element(m, end) => (m, end),
        _ => (ValueModel::Null, start),
    };
    if !(literal::element_at(s, start, model) is Element) {
        assert(vs.len() == 0 && literal::is_empty_nesting(s));
        Seq::empty()
    } else {
        let written = if s[start] == '"' {
            let qs = lemma_quoted_read(s, start + 1, Seq::empty());
            let w = Written::Quoted(qs);
            assert(Seq::<char>::empty() + meanings(qs) =~= meanings(qs));
            assert(s.subrange(start, end) =~= written_text(w));
            w
        } else {
            lemma_token_read(s, start);
            let t = s.subrange(start, end);
            assert forall|k: int| 0 <= k < t.len() implies #[trigger] t[k] != ','
                && !text::is_ascii_white(t[k]) by {
                assert(t[k] == s[start + k]);
            }
            Written::Token(t)
        };
        assert(can_be_written(written));
        assert(written_text(written) == s.subrange(start, end));
        assert(written_meaning(written, model) == Some(m));
        lemma_skipped(s, end);
        let comma = literal::solid_from(s, end);
        let piece = Piece {
            before: s.subrange(p, start),
            written,
            behind: s.subrange(end, comma),
        };
        if end == start {
            assert(s[start] == ',');
            assert(comma == end);
        }
        assert(is_piece(piece));
        let now = read.push(m);
        if comma >= s.len() {
            let ps = seq![piece];
            assert(end > start);
            assert(s.skip(p) =~= piece_text(piece));
            assert(vs == now);
            assert(vs.take(read.len() as int) =~= read);
            let tail = vs.skip(read.len() as int);
            assert(tail =~= seq![m]);
            assert(are_pieces(ps)) by {
                assert forall|k: int| 0 <= k < ps.len() implies is_piece(#[trigger] ps[k]) by {}
            }
            assert forall|k: int| 0 <= k < ps.len() implies #[trigger] written_meaning(
                ps[k].written,
                model,
            ) == Some(tail[k]) by {}
            ps
        } else {
            let rest = lemma_elements_read(s, comma + 1, now, model);
            let ps = seq![piece] + rest;
            if !(vs.len() == 0 && literal::is_empty_nesting(s)) {
                assert(ps.skip(1) =~= rest);
                assert(s.skip(p) =~= piece_text(piece) + seq![','] + s.skip(comma + 1));
                assert(are_pieces(ps)) by {
                    assert forall|k: int| 0 <= k < ps.len() implies is_piece(#[trigger] ps[k]) by {
                        if k > 0 {
                            assert(ps[k] == rest[k - 1]);
                        }
                    }
                    assert(ps.last() == rest.last());
                }
                assert(vs.take(read.len() as int) =~= read) by {
                    assert(vs.take(now.len() as int).take(read.len() as int) =~= vs.take(
                        read.len() as int,
                    ));
                    assert(now.take(read.len() as int) =~= read);
                }
                let (tail, behind) = (vs.skip(read.len() as int), vs.skip(now.len() as int));
                assert(tail[0] == m) by {
                    assert(vs.take(now.len() as int)[read.len() as int] == m);
                }
                assert forall|k: int| 0 <= k < ps.len() implies #[trigger] written_meaning(
                    ps[k].written,
                    model,
                ) == Some(tail[k]) by {
                    if k > 0 {
                        assert(ps[k] == rest[k - 1]);
                        assert(written_meaning(rest[k - 1].written, model) == Some(behind[k - 1]));
                        assert(behind[k - 1] == tail[k]);
                    }
                }
            }
            ps
        }
    }
}

/// A text is an array only where it is elements in braces, with commas between
/// them, and its elements are what these read as; or where there is nothing but
/// braces, commas and white space in the braces, and it has none.
pub proof fn law_only_elements_in_braces(s: Seq<char>, vs: Seq<ValueModel>, model: FloatModel)
    requires
        literal::literal_of(s, model) == Literal::Elements(vs),
    ensures
        literal::in_braces(text::trimmed(s)),
        (vs.len() == 0 && literal::is_empty_nesting(laws::between_braces(s))) || exists|
            ps: Seq<Piece>,
        | #[trigger] are_pieces(ps) && laws::between_braces(s) == spread(ps) && are_read_as(
            ps,
            vs,
            model,
        ),
{
    let inner = laws::between_braces(s);
    if inner.len() > 0 {
        lemma_trimmed_solid(s);
        let ps = lemma_elements_read(inner, 0, Seq::empty(), model);
        assert(inner.skip(0) =~= inner);
        assert(vs.skip(0) =~= vs);
        if are_pieces(ps) && inner == spread(ps) && are_read_as(ps, vs, model) {
            assert(are_pieces(ps));
        }
    }
}

proof fn lemma_trimmed_solid(s: Seq<char>)
    requires
        laws::between_braces(s).len() > 0,
    ensures
        literal::solid_from(laws::between_braces(s), 0) == 0,
{
    let t = text::trimmed(s);
    let x = t.subrange(1, t.len() - 1);
    let y = text::without_leading_white(x);
    lemma_without_leading(x);
    lemma_without_trailing(y);
    assert(text::trimmed(x)[0] == y[0]);
}

proof fn lemma_without_leading(s: Seq<char>)
    ensures
        text::without_leading_white(s).len() > 0 ==> !text::is_white(
            text::without_leading_white(s)[0],
        ),
    decreases s.len(),
{
    if s.len() > 0 && text::is_white(s[0]) {
        lemma_without_leading(s.skip(1));
    }
}

proof fn lemma_without_trailing(s: Seq<char>)
    ensures
        text::without_trailing_white(s).len() <= s.len(),
        text::without_trailing_white(s).len() > 0 ==> text::without_trailing_white(s)[0] == s[0],
    decreases s.len(),
{
    if s.len() > 0 && text::is_white(s.last()) {
        lemma_without_trailing(s.drop_last());
    }
}

proof fn lemma_body_sum(a: Seq<Quotable>, b: Seq<Quotable>)
    ensures
        body(a + b) == body(a) + body(b),
        meanings(a + b) == meanings(a) + meanings(b),
    decreases b.len(),
{
    if b.len() == 0 {
        assert(a + b =~= a);
        assert(body(b) =~= Seq::<char>::empty());
        assert(body(a) + body(b) =~= body(a));
    } else {
        let all = a + b;
        lemma_body_sum(a, b.drop_last());
        assert(all.drop_last() =~= a + b.drop_last());
        assert(body(all) == body(all.drop_last()) + quotable_text(b.last()));
        assert(body(b) == body(b.drop_last()) + quotable_text(b.last()));
        assert(body(all) =~= body(a) + body(b));
    }
    assert(meanings(a + b) =~= meanings(a) + meanings(b));
}

/// The character at a place as it stands in quotes without a backslash.
pub open spec fn plain_at(t: Seq<char>, i: int) -> Quotable {
    Quotable { c: t[i], escaped: false }
}

/// Characters as they stand in quotes without a backslash.
pub open spec fn plainly(t: Seq<char>) -> Seq<Quotable> {
    Seq::new(t.len(), |i: int| plain_at(t, i))
}

proof fn lemma_plainly(t: Seq<char>)
    ensures
        body(plainly(t)) == t,
        meanings(plainly(t)) == t,
    decreases t.len(),
{
    let qs = plainly(t);
    if t.len() > 0 {
        lemma_plainly(t.drop_last());
        assert(qs.drop_last() =~= plainly(t.drop_last()));
        assert(body(qs) == body(qs.drop_last()) + quotable_text(qs.last()));
        assert(body(qs) =~= t);
    } else {
        assert(body(qs) =~= t);
    }
    assert(meanings(qs) =~= t);
}

/// How a character is written in the quotes of an element.
spec fn char_quotables(c: char) -> Seq<Quotable> {
    if c == '"' || c == '\\' {
        seq![Quotable { c, escaped: true }]
    } else if c == '\n' {
        seq![Quotable { c: 'n', escaped: true }]
    } else if c == '\r' {
        seq![Quotable { c: 'r', escaped: true }]
    } else if c == '\t' {
        seq![Quotable { c: 't', escaped: true }]
    } else if text::is_control(c) {
        seq![Quotable { c: 'u', escaped: true }] + plainly(numerals::code_hex(c as int))
    } else {
        seq![Quotable { c, escaped: false }]
    }
}

spec fn text_quotables(s: Seq<char>) -> Seq<Quotable>
    decreases s.len(),
{
    if s.len() == 0 {
        Seq::empty()
    } else {
        text_quotables(s.drop_last()) + char_quotables(s.last())
    }
}

proof fn lemma_one_quotable(q: Quotable)
    ensures
        body(seq![q]) == quotable_text(q),
        meanings(seq![q]) == seq![quotable_meaning(q)],
{
    let qs = seq![q];
    assert(qs.drop_last() =~= Seq::<Quotable>::empty());
    assert(body(qs.drop_last()) =~= Seq::<char>::empty());
    assert(body(qs) == body(qs.drop_last()) + quotable_text(q));
    assert(body(qs) =~= quotable_text(q));
    assert(meanings(qs) =~= seq![quotable_meaning(q)]);
}

proof fn lemma_char_quotables(c: char)
    ensures
        body(char_quotables(c)) == render::escaped(c),
        meanings(char_quotables(c)) == roundtrip::char_read_back(c),
        forall|k: int|
            0 <= k < char_quotables(c).len() ==> can_stand(#[trigger] char_quotables(c)[k]),
{
    let qs = char_quotables(c);
    if roundtrip::is_coded(c) {
        let n = c as int;
        let code = numerals::code_hex(n);
        let u = seq![Quotable { c: 'u', escaped: true }];
        lemma_one_quotable(Quotable { c: 'u', escaped: true });
        lemma_plainly(code);
        lemma_body_sum(u, plainly(code));
        roundtrip::lemma_hex_char(n / 4096, 'a');
        roundtrip::lemma_hex_char(n / 256 % 16, 'a');
        roundtrip::lemma_hex_char(n / 16 % 16, 'a');
        roundtrip::lemma_hex_char(n % 16, 'a');
        assert forall|k: int| 0 <= k < qs.len() implies can_stand(#[trigger] qs[k]) by {
            if k > 0 {
                assert(qs[k] == plainly(code)[k - 1]);
            }
        }
        assert(body(qs) =~= render::escaped(c));
        assert(meanings(qs) =~= roundtrip::char_read_back(c));
    } else {
        lemma_one_quotable(qs[0]);
        assert(qs =~= seq![qs[0]]);
        assert(body(qs) =~= render::escaped(c));
        assert(meanings(qs) =~= roundtrip::char_read_back(c));
    }
}

proof fn lemma_text_quotables(s: Seq<char>)
    ensures
        body(text_quotables(s)) == render::all_escaped(s),
        meanings(text_quotables(s)) == roundtrip::text_read_back(s),
        forall|k: int|
            0 <= k < text_quotables(s).len() ==> can_stand(#[trigger] text_quotables(s)[k]),
    decreases s.len(),
{
    let qs = text_quotables(s);
    if s.len() > 0 {
        let front = text_quotables(s.drop_last());
        let last = char_quotables(s.last());
        lemma_text_quotables(s.drop_last());
        lemma_char_quotables(s.last());
        lemma_body_sum(front, last);
        assert forall|k: int| 0 <= k < qs.len() implies can_stand(#[trigger] qs[k]) by {
            if k < front.len() {
                assert(qs[k] == front[k]);
            } else {
                assert(qs[k] == last[k - front.len()]);
            }
        }
    } else {
        assert(body(qs) =~= render::all_escaped(s));
        assert(meanings(qs) =~= roundtrip::text_read_back(s));
    }
}

/// How a value is written as an element.
spec fn written_value(m: ValueModel, model: FloatModel) -> Written {
    match m {
        ValueModel::Text(s) => if render::needs_quotes(s) {
            Written::Quoted(text_quotables(s))
        } else {
            Written::Token(s)
        },
        ValueModel::Blob(b) => Written::Quoted(plainly("X'"@ + render::all_hex(b) + "'"@)),
        _ => Written::Token(render::element_text(m, model)),
    }
}

/// The text of a value as an element is one that an element can have, without
/// white space at its ends, and reads as what the value reads back as.
proof fn lemma_written_value(m: ValueModel, model: FloatModel)
    requires
        floats::reads_what_it_shows(model),
        value::is_value(m),
    ensures
        ({
            let w = written_value(m, model);
            let t = written_text(w);
            &&& can_be_written(w)
            &&& t == render::element_text(m, model)
            &&& t.len() > 0
            &&& !text::is_white(t[0])
            &&& !text::is_white(t.last())
            &&& written_meaning(w, model) == roundtrip::read_back(m, model)
        }),
{
    let w = written_value(m, model);
    let t = render::element_text(m, model);
    roundtrip::lemma_element_ends(m, model);
    match m {
        ValueModel::Null => {
            reveal_strlit("NULL");
        },
        ValueModel::Integer(i) => {
            numerals::lemma_integer_text(i as int);
            assert(numerals::is_digit(t[0]) || t[0] == '-');
            assert forall|k: int| 0 <= k < t.len() implies #[trigger] t[k] != ','
                && !text::is_ascii_white(t[k]) by {
                assert(numerals::is_digit(t[k]) || t[k] == '-');
            }
        },
        ValueModel::Float(bits) => {
            roundtrip::lemma_float_element(bits, model);
            assert forall|k: int| 0 <= k < t.len() implies #[trigger] t[k] != ','
                && !text::is_ascii_white(t[k]) by {
                assert(t[k] != ',' && !text::is_white(t[k]));
            }
        },
        ValueModel::Text(s) => {
            if render::needs_quotes(s) {
                lemma_text_quotables(s);
            } else {
                assert(!render::is_special(s[0]));
                assert forall|k: int| 0 <= k < s.len() implies #[trigger] s[k] != ','
                    && !text::is_ascii_white(s[k]) by {
                    assert(!render::is_special(s[k]));
                }
            }
        },
        ValueModel::Blob(b) => {
            reveal_strlit("\"X'");
            reveal_strlit("'\"");
            reveal_strlit("X'");
            reveal_strlit("'");
            let inside = "X'"@ + render::all_hex(b) + "'"@;
            roundtrip::lemma_all_hex(b);
            lemma_plainly(inside);
            assert(t =~= seq!['"'] + inside + seq!['"']);
            let qs = plainly(inside);
            assert forall|k: int| 0 <= k < qs.len() implies can_stand(#[trigger] qs[k]) by {
                assert(inside[k] != '"' && inside[k] != '\\');
            }
        },
    }
}

/// The elements of an array as they are written, with white space around each.
pub open spec fn spaced(
    vs: Seq<ValueModel>,
    before: Seq<Seq<char>>,
    behind: Seq<Seq<char>>,
    model: FloatModel,
) -> Seq<char>
    decreases vs.len(),
{
    if vs.len() == 0 {
        Seq::empty()
    } else {
        let first = before[0] + render::element_text(vs[0], model) + behind[0];
        if vs.len() == 1 {
            first
        } else {
            first + seq![','] + spaced(vs.skip(1), before.skip(1), behind.skip(1), model)
        }
    }
}

spec fn spaced_pieces(
    vs: Seq<ValueModel>,
    before: Seq<Seq<char>>,
    behind: Seq<Seq<char>>,
    model: FloatModel,
) -> Seq<Piece> {
    Seq::new(
        vs.len(),
        |k: int|
            Piece { before: before[k], written: written_value(vs[k], model), behind: behind[k] },
    )
}

proof fn lemma_spaced(
    vs: Seq<ValueModel>,
    before: Seq<Seq<char>>,
    behind: Seq<Seq<char>>,
    model: FloatModel,
)
    requires
        floats::reads_what_it_shows(model),
        laws::are_values(vs),
        before.len() == vs.len(),
        behind.len() == vs.len(),
    ensures
        spaced(vs, before, behind, model) == spread(spaced_pieces(vs, before, behind, model)),
    decreases vs.len(),
{
    let ps = spaced_pieces(vs, before, behind, model);
    if vs.len() > 0 {
        lemma_written_value(vs[0], model);
        if vs.len() > 1 {
            let rest = vs.skip(1);
            assert forall|k: int| 0 <= k < rest.len() implies value::is_value(
                #[trigger] rest[k],
            ) by {
                assert(rest[k] == vs[k + 1]);
            }
            lemma_spaced(rest, before.skip(1), behind.skip(1), model);
            assert(ps.skip(1) =~= spaced_pieces(rest, before.skip(1), behind.skip(1), model));
        }
    }
}

/// A written array still reads back as its elements when white space is put
/// around its commas, inside its braces and around it.
pub proof fn law_spaced_array_text(
    vs: Seq<ValueModel>,
    before: Seq<Seq<char>>,
    behind: Seq<Seq<char>>,
    around: Seq<char>,
    beyond: Seq<char>,
    model: FloatModel,
)
    requires
        floats::reads_what_it_shows(model),
        laws::are_values(vs),
        vs.len() > 0,
        before.len() == vs.len(),
        behind.len() == vs.len(),
        forall|k: int| 0 <= k < before.len() ==> ascii_blank(#[trigger] before[k]),
        forall|k: int| 0 <= k < behind.len() ==> ascii_blank(#[trigger] behind[k]),
        numeral_laws::all_white(around),
        numeral_laws::all_white(beyond),
    ensures
        literal::literal_of(
            around + (seq!['{'] + spaced(vs, before, behind, model) + seq!['}']) + beyond,
            model,
        ) == roundtrip::array_read_back(vs, model),
        roundtrip::all_read_back(vs, model) ==> literal::literal_of(
            around + (seq!['{'] + spaced(vs, before, behind, model) + seq!['}']) + beyond,
            model,
        ) == Literal::Elements(vs),
{
    let ps = spaced_pieces(vs, before, behind, model);
    let none = Seq::<char>::empty();
    lemma_spaced(vs, before, behind, model);
    assert forall|k: int| 0 <= k < ps.len() implies is_piece(#[trigger] ps[k]) && written_meaning(
        ps[k].written,
        model,
    ) == roundtrip::read_back(vs[k], model) by {
        lemma_written_value(vs[k], model);
        assert(ascii_blank(before[k]) && ascii_blank(behind[k]));
    }
    let n = vs.len() - 1;
    lemma_written_value(vs[0], model);
    lemma_written_value(vs[n], model);
    assert(ps.last() == ps[n]);
    assert(none + spread(ps) + none =~= spread(ps));
    law_elements_in_braces(around, none, ps, none, beyond, model);
    let read = roundtrip::array_read_back(vs, model);
    assert(pieces_meaning(ps, model) == read) by {
        if forall|k: int| 0 <= k < vs.len() ==> (#[trigger] roundtrip::read_back(vs[k], model)) is Some {
            assert forall|k: int| 0 <= k < ps.len() implies (#[trigger] written_meaning(
                ps[k].written,
                model,
            )) is Some by {
                assert(is_piece(ps[k]));
                assert(roundtrip::read_back(vs[k], model) is Some);
            }
            assert forall|k: int| 0 <= k < vs.len() implies #[trigger] written_meaning(
                ps[k].written,
                model,
            ) == roundtrip::read_back(vs[k], model) by {
                assert(is_piece(ps[k]));
            }
            assert(pieces_meaning(ps, model)->Elements_0 =~= read->Elements_0);
        } else {
            let k = choose|k: int|
                0 <= k < vs.len() && !((#[trigger] roundtrip::read_back(vs[k], model)) is Some);
            assert(is_piece(ps[k]));
            assert(written_meaning(ps[k].written, model) is None);
        }
    }
    if roundtrip::all_read_back(vs, model) {
        roundtrip::law_array_text_reads(vs, model);
        roundtrip::law_array_text_round_trip(vs, model);
    }
}

/// A literal of integers in quotes, with white space around each.
pub open spec fn quoted_integers(
    s: Seq<i64>,
    before: Seq<Seq<char>>,
    behind: Seq<Seq<char>>,
    model: FloatModel,
) -> Seq<Piece> {
    Seq::new(
        s.len(),
        |k: int|
            Piece {
                before: before[k],
                written: Written::Quoted(plainly(value::printed(ValueModel::Integer(s[k]), model))),
                behind: behind[k],
            },
    )
}

proof fn lemma_quoted_integer(i: i64, model: FloatModel)
    ensures
        ({
            let t = value::printed(ValueModel::Integer(i), model);
            let w = Written::Quoted(plainly(t));
            &&& can_be_written(w)
            &&& written_text(w) == seq!['"'] + t + seq!['"']
            &&& written_meaning(w, model) == Some(ValueModel::Text(t))
        }),
{
    let t = value::printed(ValueModel::Integer(i), model);
    let qs = plainly(t);
    numerals::lemma_integer_text(i as int);
    lemma_plainly(t);
    assert forall|k: int| 0 <= k < qs.len() implies can_stand(#[trigger] qs[k]) by {
        assert(numerals::is_digit(t[k]) || t[k] == '-');
    }
}

/// In a literal of integers in quotes an integer is found just where it is one of
/// them, and its position is that of the first.
pub proof fn law_quoted_integers_are_found(
    s: Seq<i64>,
    before: Seq<Seq<char>>,
    behind: Seq<Seq<char>>,
    i: i64,
    model: FloatModel,
)
    requires
        s.len() > 0,
        before.len() == s.len(),
        behind.len() == s.len(),
        forall|k: int| 0 <= k < before.len() ==> ascii_blank(#[trigger] before[k]),
        forall|k: int| 0 <= k < behind.len() ==> ascii_blank(#[trigger] behind[k]),
    ensures
        ({
            let arr = ValueModel::Text(
                seq!['{'] + spread(quoted_integers(s, before, behind, model)) + seq!['}'],
            );
            let target = ValueModel::Integer(i);
            &&& membership::contains_answer(arr, target, model) == Ok::<ValueModel, ErrorModel>(
                ValueModel::Integer(
                    if s.contains(i) {
                        1
                    } else {
                        0
                    },
                ),
            )
            &&& !s.contains(i) ==> membership::position_answer(arr, target, model) == Ok::<
                ValueModel,
                ErrorModel,
            >(ValueModel::Null)
            &&& forall|k: int|
                0 <= k < s.len() && #[trigger] s[k] == i && !s.take(k).contains(i)
                    ==> membership::position_answer(arr, target, model) == Ok::<
                    ValueModel,
                    ErrorModel,
                >(ValueModel::Integer((k + 1) as i64))
        }),
{
    let ps = quoted_integers(s, before, behind, model);
    let none = Seq::<char>::empty();
    let target = ValueModel::Integer(i);
    let inside = seq!['{'] + spread(ps) + seq!['}'];
    let arr = ValueModel::Text(inside);
    assert forall|k: int| 0 <= k < ps.len() implies is_piece(#[trigger] ps[k]) && written_meaning(
        ps[k].written,
        model,
    ) == Some(ValueModel::Text(value::printed(ValueModel::Integer(s[k]), model))) by {
        lemma_quoted_integer(s[k], model);
        assert(ascii_blank(before[k]) && ascii_blank(behind[k]));
    }
    let n = s.len() - 1;
    lemma_quoted_integer(s[0], model);
    lemma_quoted_integer(s[n], model);
    assert(ps.last() == ps[n]);
    law_elements_in_braces(none, none, ps, none, none, model);
    assert(none + spread(ps) + none =~= spread(ps));
    assert(none + inside + none =~= inside);
    let texts = Seq::new(
        s.len(),
        |k: int| ValueModel::Text(value::printed(ValueModel::Integer(s[k]), model)),
    );
    let numbers = Seq::new(s.len(), |k: int| ValueModel::Integer(s[k]));
    assert(pieces_meaning(ps, model) == Literal::Elements(texts)) by {
        assert forall|k: int| 0 <= k < ps.len() implies (#[trigger] written_meaning(
            ps[k].written,
            model,
        )) == Some(texts[k]) by {
            assert(is_piece(ps[k]));
        }
        assert(pieces_meaning(ps, model)->Elements_0 =~= texts);
    }
    assert forall|k: int| 0 <= k < texts.len() implies #[trigger] crate::coercion::element_for(
        texts[k],
        target,
        model,
    ) == Ok::<ValueModel, ErrorModel>(numbers[k]) by {
        let t = value::printed(ValueModel::Integer(s[k]), model);
        numeral_laws::law_integers_read_back(none, none, s[k], model);
        assert(none + t + none =~= t);
    }
    assert(array::elements_of(arr, model) == Ok::<Option<Seq<ValueModel>>, ErrorModel>(
        Some(texts),
    ));
    search_laws::law_search_of_literals(arr, target, numbers, model);
    assert(search_laws::are_brought(texts, numbers, target, model));
    assert forall|k: int| 0 <= k < s.len() implies (value::same_value(
        #[trigger] numbers[k],
        target,
    ) <==> s[k] == i) by {
        crate::value_laws::law_integers_compare(s[k], i);
    }
    assert forall|k: int|
        0 <= k < s.len() && #[trigger] s[k] == i && !s.take(k).contains(i) implies
        search_laws::is_first(numbers, target, k) by {
        assert(value::same_value(numbers[k], target));
        assert forall|j: int| 0 <= j < k implies !value::same_value(
            #[trigger] numbers[j],
            target,
        ) by {
            assert(s.take(k)[j] == s[j]);
            if s[j] == i {
                assert(s.take(k).contains(i));
            }
        }
    }
    if s.contains(i) {
        let k = lemma_first_integer(s, i);
        assert(s[k] == i && !s.take(k).contains(i));
    } else {
        assert forall|k: int| 0 <= k < numbers.len() implies !value::same_value(
            #[trigger] numbers[k],
            target,
        ) by {
            if s[k] == i {
                assert(s.contains(i));
            }
        }
    }
}

proof fn lemma_first_integer(s: Seq<i64>, i: i64) -> (k: int)
    requires
        s.contains(i),
    ensures
        0 <= k < s.len(),
        s[k] == i,
        !s.take(k).contains(i),
    decreases s.len(),
{
    let front = s.drop_last();
    if front.contains(i) {
        let k = lemma_first_integer(front, i);
        assert(front.take(k) =~= s.take(k));
        k
    } else {
        assert(s.take(s.len() - 1) =~= front);
        let j = choose|j: int| 0 <= j < s.len() && s[j] == i;
        if j < s.len() - 1 {
            assert(front[j] == i);
        }
        s.len() - 1
    }
}

/// A text that stands in braces is the literal of what stands between them.
pub proof fn law_braces_alone(s: Seq<char>, model: FloatModel)
    requires
        literal::in_braces(s),
    ensures
        literal::literal_of(s, model) == literal::inner_literal(
            s.subrange(1, s.len() - 1),
            model,
        ),
{
    let none = Seq::<char>::empty();
    numeral_laws::law_trimmed(none, s, none);
    assert(none + s + none =~= s);
}

/// Whether an element starts at a place: at the start, or behind a comma, with
/// nothing but white space between.
pub open spec fn starts_element(s: Seq<char>, q: int) -> bool {
    exists|c: int| #[trigger] is_blank_from(s, c, q)
}

/// Whether a place is the start of a text or a comma stands before it, and there
/// is nothing but white space from there to another.
pub open spec fn is_blank_from(s: Seq<char>, c: int, q: int) -> bool {
    0 <= c <= q <= s.len() && (c == 0 || s[c - 1] == ',') && ascii_blank(s.subrange(c, q))
}

proof fn lemma_refused_at(s: Seq<char>, p: int, read: Seq<ValueModel>, model: FloatModel)
    requires
        0 <= p <= s.len(),
        p == 0 || s[p - 1] == ',',
    ensures
        literal::elements_from(s, p, read, model) is Nested ==> exists|q: int|
            0 <= q < s.len() && #[trigger] s[q] == '{' && starts_element(s, q),
        literal::elements_from(s, p, read, model) is Undefined ==> exists|q: int|
            0 <= q < s.len() - 1 && #[trigger] s[q] == '\\' && s[q + 1] > '\u{7f}',
    decreases s.len() - p,
{
    let start = literal::solid_from(s, p);
    lemma_skipped(s, p);
    if start < s.len() {
        literal::lemma_element_at(s, start, model);
        assert(is_blank_from(s, p, start));
        match literal::element_at(s, start, model) {
            ElementRead::Nested => {
                assert(s[start] == '{' && starts_element(s, start));
            },
            ElementRead::Undefined => {
                lemma_undefined_at(s, start + 1, Seq::empty());
            },
            ElementRead::Element(m, end) => {
                lemma_skipped(s, end);
                let comma = literal::solid_from(s, end);
                if comma < s.len() && s[comma] == ',' && literal::solid_from(s, comma + 1)
                    < s.len() {
                    lemma_refused_at(s, comma + 1, read.push(m), model);
                }
            },
            _ => {},
        }
    }
}

proof fn lemma_undefined_at(s: Seq<char>, p: int, read: Seq<char>)
    requires
        0 <= p <= s.len(),
        literal::quoted_from(s, p, read) is Undefined,
    ensures
        exists|q: int| 0 <= q < s.len() - 1 && #[trigger] s[q] == '\\' && s[q + 1] > '\u{7f}',
    decreases s.len() - p,
{
    if s[p] != '\\' {
        lemma_undefined_at(s, p + 1, read.push(s[p]));
    } else if !(s[p + 1] > '\u{7f}') {
        lemma_undefined_at(s, p + 2, read.push(literal::unescaped(s[p + 1])));
    }
}

/// A text is refused as an array of arrays only where a brace stands in it where
/// an element starts. It is nothing only where a backslash stands in it before a
/// character outside ASCII.
pub proof fn law_only_nested_is_refused(s: Seq<char>, model: FloatModel)
    ensures
        literal::literal_of(s, model) is Nested ==> exists|q: int|
            0 <= q < laws::between_braces(s).len() && #[trigger] laws::between_braces(s)[q] == '{'
                && starts_element(laws::between_braces(s), q),
        literal::literal_of(s, model) is Undefined ==> exists|q: int|
            0 <= q < laws::between_braces(s).len() - 1 && #[trigger] laws::between_braces(s)[q]
                == '\\' && laws::between_braces(s)[q + 1] > '\u{7f}',
{
    lemma_refused_at(laws::between_braces(s), 0, Seq::empty(), model);
}

/// A text is nothing but braces, commas and white space where each of its
/// characters is one of these.
pub proof fn law_nothing_in_braces(s: Seq<char>)
    ensures
        literal::is_empty_nesting(s) <==> forall|k: int|
            0 <= k < s.len() ==> (#[trigger] s[k] == '{' || s[k] == '}' || s[k] == ','
                || text::is_white(s[k])),
{
    if literal::is_empty_nesting(s) {
        assert forall|k: int| 0 <= k < s.len() implies (#[trigger] s[k] == '{' || s[k] == '}'
            || s[k] == ',' || text::is_white(s[k])) by {
            assert(literal::nesting_char(s[k]));
        }
    }
}

/// Braces with nothing but white space between them are the empty array, with
/// white space around them or without.
pub proof fn law_empty_braces(
    around: Seq<char>,
    inside: Seq<char>,
    beyond: Seq<char>,
    model: FloatModel,
)
    requires
        numeral_laws::all_white(around),
        numeral_laws::all_white(inside),
        numeral_laws::all_white(beyond),
    ensures
        literal::literal_of(around + (seq!['{'] + inside + seq!['}']) + beyond, model)
            == Literal::Elements(Seq::empty()),
{
    let t = seq!['{'] + inside + seq!['}'];
    let none = Seq::<char>::empty();
    numeral_laws::law_trimmed(around, t, beyond);
    assert(t.subrange(1, t.len() - 1) =~= inside);
    numeral_laws::law_trimmed(inside, none, none);
    assert(inside + none + none =~= inside);
}

/// A text that does not start and end with braces, apart from white space around
/// it, is no array; nor is a single brace.
pub proof fn law_without_braces(
    around: Seq<char>,
    t: Seq<char>,
    beyond: Seq<char>,
    model: FloatModel,
)
    requires
        numeral_laws::all_white(around),
        numeral_laws::all_white(beyond),
        t.len() > 0 ==> !text::is_white(t[0]) && !text::is_white(t.last()),
        t.len() < 2 || t[0] != '{' || t.last() != '}',
    ensures
        literal::literal_of(around + t + beyond, model) is NotArray,
{
    numeral_laws::law_trimmed(around, t, beyond);
}

} // verus!
