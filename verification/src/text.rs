//! Characters and sequences of characters.

use vstd::prelude::*;

verus! {

/// `String::push` puts one character behind those that are there.
pub assume_specification[ String::push ](s: &mut String, c: char)
    ensures
        final(s)@ == old(s)@.push(c),
;

/// The characters of a text, in order.
pub fn chars_of(s: &str) -> (r: Vec<char>)
    ensures
        r@ == s@,
{
    let mut r: Vec<char> = Vec::new();
    for c in it: s.chars()
        invariant
            it.seq() == s@,
            r@ == s@.take(it.index()),
    {
        r.push(c);
    }
    r
}

/// The text made of the given characters.
pub fn string_of(chars: &[char]) -> (r: String)
    ensures
        r@ == chars@,
{
    let mut r = String::new();
    for i in 0..chars.len()
        invariant
            r@ == chars@.take(i as int),
    {
        r.push(chars[i]);
        assert(chars@.take(i + 1) =~= chars@.take(i as int).push(chars@[i as int]));
    }
    assert(chars@.take(chars@.len() as int) =~= chars@);
    r
}

/// Whether two texts have the same characters.
pub fn same_chars(a: &[char], b: &[char]) -> (r: bool)
    ensures
        r == (a@ == b@),
{
    if a.len() != b.len() {
        return false;
    }
    for i in 0..a.len()
        invariant
            a@.len() == b@.len(),
            forall|j: int| 0 <= j < i ==> a@[j] == b@[j],
    {
        if a[i] != b[i] {
            return false;
        }
    }
    assert(a@ =~= b@);
    true
}

/// The characters with the Unicode property `White_Space`.
pub open spec fn is_white(c: char) -> bool {
    ||| '\u{9}' <= c <= '\u{d}'
    ||| c == ' '
    ||| c == '\u{85}'
    ||| c == '\u{a0}'
    ||| c == '\u{1680}'
    ||| '\u{2000}' <= c <= '\u{200a}'
    ||| c == '\u{2028}'
    ||| c == '\u{2029}'
    ||| c == '\u{202f}'
    ||| c == '\u{205f}'
    ||| c == '\u{3000}'
}

/// Whether a character has the Unicode property `White_Space`.
pub fn white(c: char) -> (r: bool)
    ensures
        r == is_white(c),
{
    ('\u{9}' <= c && c <= '\u{d}') || c == ' ' || c == '\u{85}' || c == '\u{a0}' || c == '\u{1680}'
        || ('\u{2000}' <= c && c <= '\u{200a}') || c == '\u{2028}' || c == '\u{2029}' || c
        == '\u{202f}' || c == '\u{205f}' || c == '\u{3000}'
}

/// The white space of ASCII: space, tab, line feed, form feed and carriage return.
pub open spec fn is_ascii_white(c: char) -> bool {
    c == ' ' || c == '\t' || c == '\n' || c == '\u{c}' || c == '\r'
}

/// Whether a character is white space of ASCII.
pub fn ascii_white(c: char) -> (r: bool)
    ensures
        r == is_ascii_white(c),
{
    c == ' ' || c == '\t' || c == '\n' || c == '\u{c}' || c == '\r'
}

/// The characters of the Unicode category `Cc`.
pub open spec fn is_control(c: char) -> bool {
    c <= '\u{1f}' || '\u{7f}' <= c <= '\u{9f}'
}

/// Whether a character is of the Unicode category `Cc`.
pub fn control(c: char) -> (r: bool)
    ensures
        r == is_control(c),
{
    c <= '\u{1f}' || ('\u{7f}' <= c && c <= '\u{9f}')
}

/// The text behind its leading white space.
pub open spec fn without_leading_white(s: Seq<char>) -> Seq<char>
    decreases s.len(),
{
    if s.len() > 0 && is_white(s[0]) {
        without_leading_white(s.skip(1))
    } else {
        s
    }
}

/// The text before its trailing white space.
pub open spec fn without_trailing_white(s: Seq<char>) -> Seq<char>
    decreases s.len(),
{
    if s.len() > 0 && is_white(s.last()) {
        without_trailing_white(s.drop_last())
    } else {
        s
    }
}

/// The text between its leading and its trailing white space.
pub open spec fn trimmed(s: Seq<char>) -> Seq<char> {
    without_trailing_white(without_leading_white(s))
}

/// Cuts off leading and trailing white space.
pub fn trim(s: &[char]) -> (r: &[char])
    ensures
        r@ == trimmed(s@),
{
    let mut start: usize = 0;
    assert(s@.skip(0) =~= s@);
    while start < s.len() && white(s[start])
        invariant
            start <= s@.len(),
            without_leading_white(s@) == without_leading_white(s@.skip(start as int)),
        decreases s@.len() - start,
    {
        assert(s@.skip(start as int).skip(1) =~= s@.skip(start + 1));
        start = start + 1;
    }
    let ghost behind = s@.skip(start as int);
    assert(without_leading_white(s@) == behind);
    let mut end: usize = s.len();
    assert(s@.subrange(start as int, end as int) =~= behind);
    while end > start && white(s[end - 1])
        invariant
            start <= end <= s@.len(),
            without_trailing_white(behind) == without_trailing_white(
                s@.subrange(start as int, end as int),
            ),
        decreases end,
    {
        assert(s@.subrange(start as int, end as int).drop_last() =~= s@.subrange(
            start as int,
            end - 1,
        ));
        end = end - 1;
    }
    vstd::slice::slice_subrange(s, start, end)
}

/// Whether the text is the word `null`, in any mixture of cases.
pub open spec fn is_null_word(s: Seq<char>) -> bool {
    &&& s.len() == 4
    &&& s[0] == 'n' || s[0] == 'N'
    &&& s[1] == 'u' || s[1] == 'U'
    &&& s[2] == 'l' || s[2] == 'L'
    &&& s[3] == 'l' || s[3] == 'L'
}

/// Whether the text is the word `null`, in any mixture of cases.
pub fn null_word(s: &[char]) -> (r: bool)
    ensures
        r == is_null_word(s@),
{
    s.len() == 4 && (s[0] == 'n' || s[0] == 'N') && (s[1] == 'u' || s[1] == 'U') && (s[2] == 'l'
        || s[2] == 'L') && (s[3] == 'l' || s[3] == 'L')
}

/// Whether `d` stands at place `i` of `s`.
pub open spec fn stands_at(s: Seq<char>, d: Seq<char>, i: int) -> bool {
    0 <= i && i + d.len() <= s.len() && s.subrange(i, i + d.len()) == d
}

/// The leftmost place, from `i` on, at which `d` stands in `s`.
pub open spec fn place_from(s: Seq<char>, d: Seq<char>, i: int) -> Option<int>
    decreases s.len() - i + 1,
{
    if i + d.len() > s.len() {
        None
    } else if stands_at(s, d, i) {
        Some(i)
    } else {
        place_from(s, d, i + 1)
    }
}

/// The place that is found lies in the text, and the separator stands there.
pub proof fn lemma_place_from(s: Seq<char>, d: Seq<char>, i: int)
    requires
        0 <= i,
    ensures
        place_from(s, d, i) matches Some(at) ==> i <= at && stands_at(s, d, at),
    decreases s.len() - i + 1,
{
    if i + d.len() <= s.len() && !stands_at(s, d, i) {
        lemma_place_from(s, d, i + 1);
    }
}

/// The pieces between the occurrences of a separator, which are looked for from
/// left to right and do not overlap.
pub open spec fn pieces(s: Seq<char>, d: Seq<char>) -> Seq<Seq<char>>
    decreases s.len(),
    via pieces_shrink
{
    match place_from(s, d, 0) {
        Some(at) => if d.len() > 0 {
            seq![s.take(at)] + pieces(s.skip(at + d.len()), d)
        } else {
            seq![s]
        },
        None => seq![s],
    }
}

#[via_fn]
proof fn pieces_shrink(s: Seq<char>, d: Seq<char>) {
    lemma_place_from(s, d, 0);
}

/// Looks for the leftmost place, from `from` on, at which `d` stands in `s`.
fn find_from(s: &[char], d: &[char], from: usize) -> (r: Option<usize>)
    requires
        d@.len() > 0,
    ensures
        match r {
            Some(at) => place_from(s@, d@, from as int) == Some(at as int),
            None => place_from(s@, d@, from as int) is None,
        },
{
    let mut i: usize = from;
    while d.len() <= s.len() && i <= s.len() - d.len()
        invariant
            d@.len() > 0,
            place_from(s@, d@, from as int) == place_from(s@, d@, i as int),
        decreases s@.len() - i + 1,
    {
        if same_chars(vstd::slice::slice_subrange(s, i, i + d.len()), d) {
            return Some(i);
        }
        i = i + 1;
    }
    None
}

/// The views of the texts in a vector.
pub open spec fn texts(v: Seq<Vec<char>>) -> Seq<Seq<char>> {
    Seq::new(v.len(), |i: int| v[i]@)
}

/// Cuts a text at the occurrences of a separator.
pub fn split(s: &[char], d: &[char]) -> (r: Vec<Vec<char>>)
    requires
        d@.len() > 0,
    ensures
        texts(r@) == pieces(s@, d@),
{
    let mut r: Vec<Vec<char>> = Vec::new();
    let mut start: usize = 0;
    let mut open = true;
    assert(s@.skip(0) =~= s@);
    assert(texts(r@) + pieces(s@, d@) =~= pieces(s@, d@));
    while open
        invariant
            d@.len() > 0,
            start <= s@.len(),
            open ==> texts(r@) + pieces(s@.skip(start as int), d@) == pieces(s@, d@),
            !open ==> texts(r@) == pieces(s@, d@),
        decreases s@.len() - start + (if open { 1int } else { 0 }),
    {
        let rest = vstd::slice::slice_subrange(s, start, s.len());
        let ghost before = r@;
        proof {
            assert(rest@ =~= s@.skip(start as int));
            lemma_place_from(rest@, d@, 0);
        }
        match find_from(rest, d, 0) {
            Some(at) => {
                let piece = vstd::slice::slice_to_vec(vstd::slice::slice_subrange(rest, 0, at));
                proof {
                    assert(piece@ =~= rest@.take(at as int));
                    assert(s@.skip(start as int).skip(at + d@.len()) =~= s@.skip(
                        start + at + d@.len(),
                    ));
                    let tail = pieces(s@.skip(start + at + d@.len()), d@);
                    assert(texts(before.push(piece)) =~= texts(before).push(piece@));
                    assert(texts(before) + (seq![piece@] + tail) =~= texts(before).push(piece@)
                        + tail);
                }
                r.push(piece);
                start = start + at + d.len();
            },
            None => {
                let piece = vstd::slice::slice_to_vec(rest);
                proof {
                    assert(texts(before.push(piece)) =~= texts(before) + seq![piece@]);
                }
                r.push(piece);
                open = false;
            },
        }
    }
    r
}

/// The pieces with the separator between each two of them.
pub open spec fn joined(parts: Seq<Seq<char>>, d: Seq<char>) -> Seq<char>
    decreases parts.len(),
{
    if parts.len() == 0 {
        Seq::empty()
    } else if parts.len() == 1 {
        parts[0]
    } else {
        parts[0] + d + joined(parts.skip(1), d)
    }
}

/// One more part is joined behind the others.
pub proof fn lemma_joined_push(parts: Seq<Seq<char>>, last: Seq<char>, d: Seq<char>)
    ensures
        joined(parts.push(last), d) == if parts.len() == 0 {
            last
        } else {
            joined(parts, d) + d + last
        },
    decreases parts.len(),
{
    let all = parts.push(last);
    if parts.len() > 0 {
        lemma_joined_push(parts.skip(1), last, d);
        assert(all.skip(1) =~= parts.skip(1).push(last));
        if parts.len() == 1 {
            assert(parts.skip(1).len() == 0);
            assert(joined(all, d) =~= joined(parts, d) + d + last);
        } else {
            assert(joined(all, d) =~= joined(parts, d) + d + last);
        }
    }
}

/// Joining the pieces of a text restores the text.
pub proof fn lemma_joined_pieces(s: Seq<char>, d: Seq<char>)
    ensures
        joined(pieces(s, d), d) == s,
        pieces(s, d).len() > 0,
    decreases s.len(),
{
    lemma_place_from(s, d, 0);
    if let Some(at) = place_from(s, d, 0) {
        if d.len() > 0 {
            let rest = s.skip(at + d.len());
            lemma_joined_pieces(rest, d);
            assert(pieces(s, d).skip(1) =~= pieces(rest, d));
            assert(s =~= s.take(at) + s.subrange(at, at + d.len()) + rest);
        }
    }
}

} // verus!
