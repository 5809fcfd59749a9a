//! Binary64 numbers by their bit patterns, and their text.
//!
//! The library holds a floating-point number as the 64 bits of its IEEE 754
//! representation. What a number is worth, how it compares and whether it is
//! whole are decided here on integers. Reading and writing its decimal text is
//! left to a pair of functions that the caller supplies.

use vstd::arithmetic::div_mod::{
    lemma_fundamental_div_mod, lemma_fundamental_div_mod_converse, lemma_mod_multiples_basic,
};
use vstd::arithmetic::mul::{lemma_mul_is_associative, lemma_mul_strict_inequality};
use vstd::arithmetic::power2::{
    lemma_pow2_adds, lemma_pow2_pos, lemma_pow2_strictly_increases, lemma_pow2_unfold, lemma2_to64,
    lemma2_to64_rest, pow2,
};
use vstd::prelude::*;

use crate::numerals;
use crate::order::{self, Order};

verus! {

/// The weight of the sign bit.
pub const SIGN_BIT: u64 = 0x8000_0000_0000_0000;

/// The weight of the lowest exponent bit: fractions are smaller than this.
pub const FRACTION_LIMIT: u64 = 0x10_0000_0000_0000;

/// The magnitude of an infinity; larger magnitudes are not numbers.
pub const INFINITE_MAGNITUDE: u64 = 0x7ff0_0000_0000_0000;

/// The bits below the sign bit.
pub open spec fn magnitude(bits: u64) -> int {
    if bits < SIGN_BIT {
        bits as int
    } else {
        bits - SIGN_BIT
    }
}

/// Whether the bits are one of the patterns that stand for no number.
pub open spec fn is_nan_bits(bits: u64) -> bool {
    magnitude(bits) > INFINITE_MAGNITUDE
}

/// Whether the bits stand for a finite number.
pub open spec fn is_finite_bits(bits: u64) -> bool {
    magnitude(bits) < INFINITE_MAGNITUDE
}

/// The absolute value, counted in units of the smallest positive number
/// (`2` to the power of `-1074`). An infinity counts as the number that would
/// follow the largest finite one.
pub open spec fn magnitude_units(m: int) -> int {
    if m < FRACTION_LIMIT {
        m
    } else {
        (FRACTION_LIMIT + m % (FRACTION_LIMIT as int)) * pow2(
            (m / (FRACTION_LIMIT as int) - 1) as nat,
        )
    }
}

/// The value, counted in units of the smallest positive number.
pub open spec fn float_units(bits: u64) -> int {
    if bits < SIGN_BIT {
        magnitude_units(magnitude(bits))
    } else {
        -magnitude_units(magnitude(bits))
    }
}

/// The number of units in one.
pub open spec fn unit_scale() -> int {
    pow2(1074) as int
}

/// Whether the bits stand for a finite whole number.
pub open spec fn is_whole_bits(bits: u64) -> bool {
    is_finite_bits(bits) && float_units(bits) % unit_scale() == 0
}

/// A larger magnitude is worth more.
pub proof fn lemma_magnitude_units_increase(a: int, b: int)
    requires
        0 <= a < b,
    ensures
        0 <= magnitude_units(a) < magnitude_units(b),
{
    let limit: int = FRACTION_LIMIT as int;
    let (ea, fa) = (a / limit, a % limit);
    let (eb, fb) = (b / limit, b % limit);
    lemma_fundamental_div_mod(a, limit);
    lemma_fundamental_div_mod(b, limit);
    assert(0 <= fa < limit && 0 <= fb < limit);
    assert(0 <= ea <= eb) by (nonlinear_arith)
        requires
            a == limit * ea + fa,
            b == limit * eb + fb,
            0 <= a < b,
            0 <= fa < limit,
            0 <= fb < limit,
    ;
    if b >= limit {
        assert(eb >= 1);
        let pb = pow2((eb - 1) as nat) as int;
        lemma_pow2_pos((eb - 1) as nat);
        assert((limit + fb) * pb >= limit) by (nonlinear_arith)
            requires
                pb >= 1,
                fb >= 0,
                limit >= 0,
        ;
        if a >= limit {
            assert(ea >= 1);
            let pa = pow2((ea - 1) as nat) as int;
            lemma_pow2_pos((ea - 1) as nat);
            assert((limit + fa) * pa >= 0) by (nonlinear_arith)
                requires
                    pa >= 0,
                    fa >= 0,
                    limit >= 0,
            ;
            if ea == eb {
                lemma_mul_strict_inequality(limit + fa, limit + fb, pa);
            } else {
                let d = (eb - 1 - ea) as nat;
                lemma_pow2_unfold(ea as nat);
                lemma_pow2_adds(ea as nat, d);
                lemma_pow2_pos(d);
                let pe = pow2(ea as nat) as int;
                let pd = pow2(d) as int;
                assert(pe == 2 * pa);
                assert(pb == pe * pd);
                assert((limit + fa) * pa < limit * pe) by (nonlinear_arith)
                    requires
                        pe == 2 * pa,
                        0 <= fa < limit,
                        pa >= 1,
                ;
                assert(limit * pe <= (limit + fb) * pb) by (nonlinear_arith)
                    requires
                        pb == pe * pd,
                        pd >= 1,
                        pe >= 1,
                        fb >= 0,
                        limit >= 0,
                ;
            }
        }
    }
}

/// What the magnitude holds of whole ones: their number, and whether anything
/// is left over. `None` when there are `2` to the power of `64` or more.
pub open spec fn whole_part_of(m: int, part: Option<(u64, bool)>) -> bool {
    match part {
        Some((whole, rest)) => {
            &&& whole * unit_scale() <= magnitude_units(m) < (whole + 1) * unit_scale()
            &&& rest <==> magnitude_units(m) != whole * unit_scale()
        },
        None => magnitude_units(m) >= pow2(64) * unit_scale(),
    }
}

/// Two to a small power.
fn small_power(n: u64) -> (r: u64)
    requires
        n <= 63,
    ensures
        r == pow2(n as nat),
{
    let mut r: u64 = 1;
    let mut i: u64 = 0;
    proof {
        lemma2_to64();
        lemma2_to64_rest();
    }
    while i < n
        invariant
            i <= n <= 63,
            r == pow2(i as nat),
        decreases n - i,
    {
        proof {
            lemma_pow2_unfold((i + 1) as nat);
            if i + 1 < 63 {
                lemma_pow2_strictly_increases((i + 1) as nat, 63);
            }
            lemma2_to64_rest();
        }
        r = r * 2;
        i = i + 1;
    }
    r
}

/// Splits a magnitude into whole ones and what is left over.
fn whole_part(m: u64) -> (part: Option<(u64, bool)>)
    requires
        m <= INFINITE_MAGNITUDE,
    ensures
        whole_part_of(m as int, part),
{
    let exponent: u64 = m / FRACTION_LIMIT;
    let fraction: u64 = m % FRACTION_LIMIT;
    if exponent < 1023 {
        proof {
            lemma_below_one(m as int);
            let s = unit_scale();
            assert(0 * s == 0 && (0 + 1) * s == s) by (nonlinear_arith);
        }
        return Some((0, m != 0));
    }
    let digits: u64 = FRACTION_LIMIT + fraction;
    proof {
        lemma2_to64();
        lemma2_to64_rest();
    }
    if exponent <= 1075 {
        let shift: u64 = 1075 - exponent;
        let unit: u64 = small_power(shift);
        let whole: u64 = digits / unit;
        let rest: u64 = digits % unit;
        proof {
            let p = pow2((exponent - 1) as nat) as int;
            lemma_pow2_adds((exponent - 1) as nat, shift as nat);
            lemma_pow2_pos((exponent - 1) as nat);
            lemma_pow2_pos(shift as nat);
            lemma_fundamental_div_mod(digits as int, unit as int);
            assert(unit_scale() == p * unit);
            let (w, r, u, d): (int, int, int, int) = (
                whole as int,
                rest as int,
                unit as int,
                digits as int,
            );
            assert(w * (p * u) <= d * p && d * p < (w + 1) * (p * u) && (d * p == w * (p * u)
                <==> r == 0)) by (nonlinear_arith)
                requires
                    d == u * w + r,
                    0 <= r < u,
                    p >= 1,
            ;
        }
        return Some((whole, rest != 0));
    }
    if exponent <= 1086 {
        let shift: u64 = exponent - 1075;
        let unit: u64 = small_power(shift);
        proof {
            if shift < 11 {
                lemma_pow2_strictly_increases(shift as nat, 11);
            }
            assert(digits * unit <= 0x1f_ffff_ffff_ffff * 0x800) by (nonlinear_arith)
                requires
                    digits <= 0x1f_ffff_ffff_ffff,
                    unit <= 0x800,
            ;
            lemma_pow2_adds(1074, shift as nat);
            lemma_pow2_pos(1074);
            lemma_mul_is_associative(digits as int, unit as int, unit_scale());
            assert(unit * unit_scale() == unit_scale() * unit) by (nonlinear_arith);
            assert((digits * unit + 1) * unit_scale() == digits * unit * unit_scale()
                + unit_scale()) by (nonlinear_arith);
        }
        let whole: u64 = digits * unit;
        return Some((whole, false));
    }
    proof {
        let over = (exponent - 1087) as nat;
        lemma_pow2_adds(1074, 12);
        lemma_pow2_adds(1086, over);
        lemma_pow2_pos(over);
        lemma_pow2_pos(1074);
        let (s, o, d): (int, int, int) = (unit_scale(), pow2(over) as int, digits as int);
        assert(pow2((exponent - 1) as nat) == s * 4096 * o);
        assert(d * (s * 4096 * o) >= 0x1_0000_0000_0000_0000 * s) by (nonlinear_arith)
            requires
                d >= 0x10_0000_0000_0000,
                s >= 1,
                o >= 1,
        ;
    }
    None
}

/// A magnitude whose exponent field is below that of one is less than one.
proof fn lemma_below_one(m: int)
    requires
        0 <= m < 1023 * FRACTION_LIMIT,
    ensures
        0 <= magnitude_units(m) < unit_scale(),
        magnitude_units(m) == 0 <==> m == 0,
{
    lemma_magnitude_units_increase(m, 1023 * FRACTION_LIMIT);
    lemma_fundamental_div_mod_converse(1023 * FRACTION_LIMIT, FRACTION_LIMIT as int, 1023, 0);
    lemma2_to64_rest();
    lemma_pow2_adds(52, 1022);
    if m > 0 {
        lemma_magnitude_units_increase(0, m);
    }
}

/// The bits without the sign.
fn magnitude_of(bits: u64) -> (m: u64)
    ensures
        m == magnitude(bits),
{
    if bits < SIGN_BIT {
        bits
    } else {
        bits - SIGN_BIT
    }
}

/// Whether the bits stand for no number.
pub fn is_nan(bits: u64) -> (r: bool)
    ensures
        r == is_nan_bits(bits),
{
    magnitude_of(bits) > INFINITE_MAGNITUDE
}

/// Whether the bits stand for a finite number.
pub fn is_finite(bits: u64) -> (r: bool)
    ensures
        r == is_finite_bits(bits),
{
    magnitude_of(bits) < INFINITE_MAGNITUDE
}

/// Whether the bits stand for a finite number without a fractional part.
pub fn is_whole(bits: u64) -> (r: bool)
    ensures
        r == is_whole_bits(bits),
{
    let m = magnitude_of(bits);
    if m >= INFINITE_MAGNITUDE {
        return false;
    }
    proof {
        lemma_pow2_pos(1074);
        lemma_negated_multiple(magnitude_units(m as int), unit_scale());
    }
    match whole_part(m) {
        Some((whole, rest)) => {
            proof {
                let (u, s): (int, int) = (magnitude_units(m as int), unit_scale());
                let w: int = whole as int;
                assert((w + 1) * s == w * s + s) by (nonlinear_arith);
                assert(w * s == s * w) by (nonlinear_arith);
                lemma_fundamental_div_mod_converse(u, s, w, u - w * s);
            }
            !rest
        },
        None => {
            proof {
                lemma_from_two_to_64(m as int);
            }
            true
        },
    }
}

/// An integer is a multiple of another exactly when its negation is.
proof fn lemma_negated_multiple(x: int, d: int)
    requires
        d > 0,
    ensures
        x % d == 0 <==> (-x) % d == 0,
{
    lemma_fundamental_div_mod(x, d);
    lemma_fundamental_div_mod(-x, d);
    if x % d == 0 {
        let q = x / d;
        assert(-x == d * (-q)) by (nonlinear_arith)
            requires
                x == d * q,
        ;
        assert(d * (-q) == (-q) * d) by (nonlinear_arith);
        lemma_mod_multiples_basic(-q, d);
    }
    if (-x) % d == 0 {
        let q = (-x) / d;
        assert(x == (-q) * d) by (nonlinear_arith)
            requires
                -x == d * q,
        ;
        lemma_mod_multiples_basic(-q, d);
    }
}

/// A magnitude worth `2` to the power of `64` or more has no fractional part.
proof fn lemma_from_two_to_64(m: int)
    requires
        0 <= m,
        magnitude_units(m) >= pow2(64) * unit_scale(),
    ensures
        magnitude_units(m) % unit_scale() == 0,
{
    let limit: int = FRACTION_LIMIT as int;
    let (e, f) = (m / limit, m % limit);
    let s = unit_scale();
    lemma_fundamental_div_mod(m, limit);
    lemma_pow2_pos(1074);
    lemma2_to64();
    lemma2_to64_rest();
    if m < 1086 * limit {
        lemma_magnitude_units_increase(m, 1086 * limit);
        lemma_fundamental_div_mod_converse(1086 * limit, limit, 1086, 0);
        lemma_pow2_adds(1074, 11);
        assert(limit * (s * 2048) < 0x1_0000_0000_0000_0000 * s) by (nonlinear_arith)
            requires
                limit == 0x10_0000_0000_0000,
                s >= 1,
        ;
    }
    assert(e >= 1086) by (nonlinear_arith)
        requires
            m >= 1086 * limit,
            m == limit * e + f,
            0 <= f < limit,
    ;
    let over = (e - 1075) as nat;
    lemma_pow2_adds(1074, over);
    let o = pow2(over) as int;
    assert((limit + f) * (s * o) == ((limit + f) * o) * s) by (nonlinear_arith);
    lemma_mod_multiples_basic((limit + f) * o, s);
}

/// How two numbers compare by value.
pub fn order_floats(a: u64, b: u64) -> (r: Order)
    ensures
        r == order::int_order(float_units(a), float_units(b)),
{
    let (ma, mb): (u64, u64) = (magnitude_of(a), magnitude_of(b));
    proof {
        let (x, y): (int, int) = (ma as int, mb as int);
        if x < y {
            lemma_magnitude_units_increase(x, y);
        }
        if y < x {
            lemma_magnitude_units_increase(y, x);
        }
        if 0 < x {
            lemma_magnitude_units_increase(0, x);
        }
        if 0 < y {
            lemma_magnitude_units_increase(0, y);
        }
    }
    if a < SIGN_BIT && b < SIGN_BIT {
        if ma < mb {
            Order::Less
        } else if ma == mb {
            Order::Equal
        } else {
            Order::Greater
        }
    } else if a < SIGN_BIT {
        if ma == 0 && mb == 0 {
            Order::Equal
        } else {
            Order::Greater
        }
    } else if b < SIGN_BIT {
        if ma == 0 && mb == 0 {
            Order::Equal
        } else {
            Order::Less
        }
    } else {
        if ma > mb {
            Order::Less
        } else if ma == mb {
            Order::Equal
        } else {
            Order::Greater
        }
    }
}

/// How an integer and a number compare by value.
pub fn order_integer_float(i: i64, bits: u64) -> (r: Order)
    requires
        !is_nan_bits(bits),
    ensures
        r == order::int_order(i * unit_scale(), float_units(bits)),
{
    let m = magnitude_of(bits);
    let part = whole_part(m);
    let negative = bits >= SIGN_BIT;
    // The absolute value of the integer.
    let size: u64 = if i >= 0 {
        i as u64
    } else {
        (-(i as i128)) as u64
    };
    let ghost s = unit_scale();
    let ghost u = magnitude_units(m as int);
    proof {
        lemma_pow2_pos(1074);
        lemma2_to64();
        if m > 0 {
            lemma_magnitude_units_increase(0, m as int);
        }
        assert(i < 0 ==> i * s < 0) by (nonlinear_arith)
            requires
                s >= 1,
        ;
        assert(i > 0 ==> i * s > 0) by (nonlinear_arith)
            requires
                s >= 1,
        ;
        assert(i == 0 ==> i * s == 0);
        assert(i >= 0 ==> i * s == size * s);
        assert(i < 0 ==> i * s == -(size * s)) by (nonlinear_arith)
            requires
                i < 0 ==> i == -size,
        ;
    }
    match part {
        None => {
            proof {
                assert(size * s < 0x1_0000_0000_0000_0000 * s) by (nonlinear_arith)
                    requires
                        size < 0x1_0000_0000_0000_0000,
                        s >= 1,
                ;
            }
            if negative {
                Order::Greater
            } else {
                Order::Less
            }
        },
        Some((whole, rest)) => {
            proof {
                assert(size < whole ==> size * s + s <= whole * s) by (nonlinear_arith)
                    requires
                        s >= 1,
                ;
                assert(size > whole ==> size * s >= (whole + 1) * s) by (nonlinear_arith)
                    requires
                        s >= 1,
                ;
                assert(whole == 0 ==> whole * s == 0) by (nonlinear_arith);
            }
            if !negative {
                if i < 0 {
                    Order::Less
                } else if size < whole {
                    Order::Less
                } else if size > whole {
                    Order::Greater
                } else if rest {
                    Order::Less
                } else {
                    Order::Equal
                }
            } else {
                if i > 0 {
                    Order::Greater
                } else if size < whole {
                    Order::Greater
                } else if size > whole {
                    Order::Less
                } else if rest {
                    Order::Greater
                } else {
                    Order::Equal
                }
            }
        },
    }
}

/// The forms in which a number is written out.
#[derive(Clone, Copy, Debug, PartialEq, Eq, Structural)]
pub enum FloatStyle {
    /// The number alone, as in a cast to text: `1`, `2.5`.
    Bare,
    /// Exactly one digit after the point: `1.0`.
    OnePlace,
    /// The text of a numeric value wherever a value is printed: `1.0`, `2.5`.
    Printed,
}

/// What reading and writing numbers gives, as mathematical functions.
pub struct FloatModel {
    /// The bits of the number that a text spells, if it spells one.
    pub reads: spec_fn(Seq<char>) -> Option<u64>,
    /// The text of the number with the given bits.
    pub shows: spec_fn(u64, FloatStyle) -> Seq<char>,
}

/// The style in which a number is written among the elements of an array: with
/// one digit after the point where it is whole.
pub open spec fn element_style(bits: u64) -> FloatStyle {
    if is_whole_bits(bits) {
        FloatStyle::OnePlace
    } else {
        FloatStyle::Bare
    }
}

/// Whether a text is a decimal fraction: digits, a point and maybe a sign.
pub open spec fn is_decimal_fraction(t: Seq<char>) -> bool {
    &&& forall|i: int|
        0 <= i < t.len() ==> numerals::is_digit(#[trigger] t[i]) || t[i] == '.' || t[i] == '-'
    &&& t.contains('.')
}

/// The whole number that the bits stand for.
pub open spec fn whole_number(bits: u64) -> int {
    float_units(bits) / unit_scale()
}

/// Whether the bits stand for a whole number so small that the next number is
/// one apart at most: below `2` to the power of `53`.
pub open spec fn is_small_whole(bits: u64) -> bool {
    is_whole_bits(bits) && -0x20_0000_0000_0000 < whole_number(bits) < 0x20_0000_0000_0000
}

/// Whether numbers are written as they should be, and read back from their text:
/// a finite number, other than the zero with a sign, is written among the
/// elements of an array as a decimal fraction that spells it, and an infinity as
/// its name. A whole number has all its digits there, and a zero behind the
/// point; alone it has no point, if it is small. An integer spells a number too.
pub open spec fn reads_what_it_shows(model: FloatModel) -> bool {
    &&& forall|bits: u64|
        #![trigger (model.shows)(bits, element_style(bits))]
        !is_nan_bits(bits) && bits != SIGN_BIT ==> {
            let t = (model.shows)(bits, element_style(bits));
            &&& (model.reads)(t) == Some(bits)
            &&& is_whole_bits(bits) ==> t == numerals::integer_text(whole_number(bits)) + ".0"@
            &&& if is_finite_bits(bits) {
                is_decimal_fraction(t)
            } else if bits < SIGN_BIT {
                t == "inf"@
            } else {
                t == "-inf"@
            }
        }
    &&& forall|bits: u64| #[trigger]
        is_small_whole(bits) && bits != SIGN_BIT ==> (model.shows)(bits, FloatStyle::Bare)
            == numerals::integer_text(whole_number(bits))
    &&& forall|t: Seq<char>|
        #![trigger numerals::integer_of(t)]
        #![trigger (model.reads)(t)]
        numerals::integer_of(t) is Some ==> (model.reads)(t) is Some
}

/// Whether a pair of functions does what the model says.
pub open spec fn follows<R: Fn(&str) -> Option<u64>, S: Fn(u64, FloatStyle) -> String>(
    read: R,
    show: S,
    model: FloatModel,
) -> bool {
    &&& reads_what_it_shows(model)
    &&& forall|text: &str| #[trigger] call_requires(read, (text,))
    &&& forall|text: &str, bits: Option<u64>| #[trigger]
        call_ensures(read, (text,), bits) ==> bits == (model.reads)(text@)
    &&& forall|bits: u64, style: FloatStyle| #[trigger] call_requires(show, (bits, style))
    &&& forall|bits: u64, style: FloatStyle, text: String| #[trigger]
        call_ensures(show, (bits, style), text) ==> text@ == (model.shows)(bits, style)
}

/// The conversions between numbers and their decimal text.
///
/// `read` gives the bits of the number that a text spells (including the
/// spellings of the infinities and of not-a-number), or `None` where it spells
/// none. `show` writes a number in one of the styles. Both must give the same
/// answer whenever they are asked the same question; `show` must write numbers
/// as [`reads_what_it_shows`] says, and `read` must give them back.
pub struct FloatText<R: Fn(&str) -> Option<u64>, S: Fn(u64, FloatStyle) -> String> {
    read: R,
    show: S,
    model: Ghost<FloatModel>,
}

impl<R: Fn(&str) -> Option<u64>, S: Fn(u64, FloatStyle) -> String> FloatText<R, S> {
    #[verifier::type_invariant]
    pub closed spec fn well_formed(self) -> bool {
        follows(self.read, self.show, self.model@)
    }

    /// What the conversions give.
    pub closed spec fn view(&self) -> FloatModel {
        self.model@
    }

    /// Numbers read back from their text.
    pub proof fn lemma_reads_what_it_shows(&self)
        requires
            self.well_formed(),
        ensures
            reads_what_it_shows(self@),
    {
    }

    /// Takes a pair of functions that follow some model.
    pub fn new(read: R, show: S) -> (r: Self)
        requires
            exists|model: FloatModel| follows(read, show, model),
        ensures
            follows(read, show, r@),
    {
        let ghost model = choose|model: FloatModel| follows(read, show, model);
        FloatText { read, show, model: Ghost(model) }
    }

    /// Takes a pair of functions that follow a given model.
    pub fn modelled(read: R, show: S, model: Ghost<FloatModel>) -> (r: Self)
        requires
            follows(read, show, model@),
        ensures
            r@ == model@,
    {
        FloatText { read, show, model }
    }

    /// The bits of the number that a text spells.
    pub fn read(&self, text: &str) -> (bits: Option<u64>)
        ensures
            bits == (self@.reads)(text@),
    {
        proof {
            use_type_invariant(self);
        }
        (self.read)(text)
    }

    /// The text of a number.
    pub fn show(&self, bits: u64, style: FloatStyle) -> (text: String)
        ensures
            text@ == (self@.shows)(bits, style),
    {
        proof {
            use_type_invariant(self);
        }
        (self.show)(bits, style)
    }
}

} // verus!
