//! Decimal and hexadecimal numerals.

use vstd::prelude::*;

verus! {

/// Whether a character is one of the ten decimal digits.
pub open spec fn is_digit(c: char) -> bool {
    '0' <= c <= '9'
}

/// What a decimal digit is worth.
pub open spec fn digit_worth(c: char) -> int {
    c as int - '0' as int
}

/// The decimal digit that is worth `d`.
pub open spec fn digit_char(d: int) -> char {
    ('0' as int + d) as char
}

/// Whether a text is one or more decimal digits.
pub open spec fn is_digits(s: Seq<char>) -> bool {
    s.len() > 0 && forall|i: int| 0 <= i < s.len() ==> #[trigger] is_digit(s[i])
}

/// The number that a row of decimal digits spells.
pub open spec fn digits_worth(s: Seq<char>) -> int
    decreases s.len(),
{
    if s.len() == 0 {
        0
    } else {
        digits_worth(s.drop_last()) * 10 + digit_worth(s.last())
    }
}

/// The digits of an integer numeral, without its sign.
pub open spec fn unsigned_part(s: Seq<char>) -> Seq<char> {
    if s.len() > 0 && (s[0] == '-' || s[0] == '+') {
        s.skip(1)
    } else {
        s
    }
}

/// The integer that a text spells: an optional sign and one or more decimal
/// digits. `None` where the text is anything else, or the integer does not fit
/// into 64 bits.
pub open spec fn integer_of(s: Seq<char>) -> Option<int> {
    let digits = unsigned_part(s);
    let worth = if s.len() > 0 && s[0] == '-' {
        -digits_worth(digits)
    } else {
        digits_worth(digits)
    };
    if is_digits(digits) && i64::MIN <= worth <= i64::MAX {
        Some(worth)
    } else {
        None
    }
}

/// Reads an integer.
pub fn read_integer(s: &[char]) -> (r: Option<i64>)
    ensures
        match r {
            Some(i) => integer_of(s@) == Some(i as int),
            None => integer_of(s@) is None,
        },
{
    let negative = s.len() > 0 && s[0] == '-';
    let start: usize = if s.len() > 0 && (s[0] == '-' || s[0] == '+') {
        1
    } else {
        0
    };
    let ghost digits = unsigned_part(s@);
    assert(digits =~= s@.skip(start as int));
    if start == s.len() {
        return None;
    }
    let limit: u64 = 0x8000_0000_0000_0000;
    let mut worth: u64 = 0;
    let mut beyond = false;
    let mut i: usize = start;
    assert(digits.take(0) =~= Seq::<char>::empty());
    while i < s.len()
        invariant
            start <= i <= s@.len(),
            start < s@.len(),
            limit == 0x8000_0000_0000_0000,
            digits == s@.skip(start as int),
            digits == unsigned_part(s@),
            forall|j: int| 0 <= j < i - start ==> #[trigger] is_digit(digits[j]),
            !beyond ==> worth == digits_worth(digits.take(i - start)) && worth <= limit,
            beyond ==> digits_worth(digits.take(i - start)) > limit,
        decreases s@.len() - i,
    {
        let c = s[i];
        assert(c == digits[i - start]);
        if !('0' <= c && c <= '9') {
            assert(!is_digit(digits[i - start]));
            return None;
        }
        let d: u64 = c as u64 - '0' as u64;
        proof {
            let grown = digits.take(i - start + 1);
            assert(grown.drop_last() =~= digits.take(i - start));
            assert(grown.last() == c);
            assert(digits_worth(grown) == digits_worth(digits.take(i - start)) * 10 + d);
        }
        if !beyond {
            if worth > (limit - d) / 10 {
                beyond = true;
            } else {
                worth = worth * 10 + d;
            }
        }
        i = i + 1;
    }
    assert(digits.take(s@.len() - start) =~= digits);
    if beyond {
        return None;
    }
    if negative {
        if worth == limit {
            Some(i64::MIN)
        } else {
            Some(-(worth as i64))
        }
    } else {
        if worth == limit {
            None
        } else {
            Some(worth as i64)
        }
    }
}

/// The decimal digits of a number, without leading zeros.
pub open spec fn decimal(n: nat) -> Seq<char>
    decreases n,
{
    if n < 10 {
        seq![digit_char(n as int)]
    } else {
        decimal(n / 10).push(digit_char((n % 10) as int))
    }
}

/// The numeral of an integer.
pub open spec fn integer_text(i: int) -> Seq<char> {
    if i < 0 {
        seq!['-'] + decimal((-i) as nat)
    } else {
        decimal(i as nat)
    }
}

/// The digits of a number spell that number.
pub proof fn lemma_decimal(n: nat)
    ensures
        is_digits(decimal(n)),
        digits_worth(decimal(n)) == n,
    decreases n,
{
    if n < 10 {
        let s = decimal(n);
        assert(s.drop_last() =~= Seq::<char>::empty());
        assert(digits_worth(s.drop_last()) == 0);
    } else {
        lemma_decimal(n / 10);
        let s = decimal(n);
        assert(s.drop_last() =~= decimal(n / 10));
        assert forall|i: int| 0 <= i < s.len() implies #[trigger] is_digit(s[i]) by {
            if i < s.len() - 1 {
                assert(s[i] == decimal(n / 10)[i]);
                assert(is_digit(decimal(n / 10)[i]));
            }
        }
    }
}

/// The numeral of an integer that fits reads back as that integer.
pub proof fn lemma_integer_text(i: int)
    requires
        i64::MIN <= i <= i64::MAX,
    ensures
        integer_of(integer_text(i)) == Some(i),
        integer_text(i).len() > 0,
        forall|k: int| 0 <= k < integer_text(i).len() ==> {
            is_digit(#[trigger] integer_text(i)[k]) || integer_text(i)[k] == '-'
        },
{
    let s = integer_text(i);
    if i < 0 {
        let d = decimal((-i) as nat);
        lemma_decimal((-i) as nat);
        assert(s.skip(1) =~= d);
        assert forall|k: int| 0 <= k < s.len() implies is_digit(#[trigger] s[k]) || s[k] == '-' by {
            if k > 0 {
                assert(s[k] == d[k - 1]);
                assert(is_digit(d[k - 1]));
            }
        }
    } else {
        lemma_decimal(i as nat);
        assert(is_digit(s[0]));
        assert forall|k: int| 0 <= k < s.len() implies is_digit(#[trigger] s[k]) || s[k] == '-' by {
            assert(is_digit(s[k]));
        }
    }
}

/// Writes the decimal digits of a number.
pub fn write_decimal(n: u64) -> (r: Vec<char>)
    ensures
        r@ == decimal(n as nat),
    decreases n,
{
    if n < 10 {
        let mut r: Vec<char> = Vec::new();
        r.push(('0' as u8 + n as u8) as char);
        assert(r@ =~= seq![digit_char(n as int)]);
        r
    } else {
        let mut r = write_decimal(n / 10);
        r.push(('0' as u8 + (n % 10) as u8) as char);
        r
    }
}

/// Writes the numeral of an integer.
pub fn write_integer(i: i64) -> (r: Vec<char>)
    ensures
        r@ == integer_text(i as int),
{
    if i >= 0 {
        return write_decimal(i as u64);
    }
    let size: u64 = (-(i as i128)) as u64;
    let mut r: Vec<char> = Vec::new();
    r.push('-');
    let mut digits = write_decimal(size);
    r.append(&mut digits);
    assert(r@ =~= seq!['-'] + decimal(size as nat));
    r
}

/// Decimal digits with zeros in front, up to a width.
pub open spec fn padded(n: nat, width: nat) -> Seq<char> {
    let digits = decimal(n);
    if digits.len() < width {
        Seq::new((width - digits.len()) as nat, |i: int| '0') + digits
    } else {
        digits
    }
}

/// The hexadecimal digit that is worth `d`, its letters starting from `ten`.
pub open spec fn hex_char(d: int, ten: char) -> char {
    if d < 10 {
        digit_char(d)
    } else {
        (ten as int + (d - 10)) as char
    }
}

/// A byte as two capital hexadecimal digits.
pub open spec fn byte_hex(b: u8) -> Seq<char> {
    seq![hex_char(b as int / 16, 'A'), hex_char(b as int % 16, 'A')]
}

/// A number below `65536` as four small hexadecimal digits.
pub open spec fn code_hex(n: int) -> Seq<char> {
    seq![
        hex_char(n / 4096, 'a'),
        hex_char(n / 256 % 16, 'a'),
        hex_char(n / 16 % 16, 'a'),
        hex_char(n % 16, 'a'),
    ]
}

/// The hexadecimal digit that is worth `d`.
pub fn hex_digit(d: u8, capital: bool) -> (c: char)
    requires
        d < 16,
    ensures
        c == hex_char(d as int, if capital { 'A' } else { 'a' }),
{
    if d < 10 {
        ('0' as u8 + d) as char
    } else if capital {
        ('A' as u8 + (d - 10)) as char
    } else {
        ('a' as u8 + (d - 10)) as char
    }
}

} // verus!
