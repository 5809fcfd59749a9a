//! What holds of the order of values.

use vstd::arithmetic::power2::{lemma_pow2_adds, lemma_pow2_pos, pow2};
use vstd::prelude::*;

use crate::floats;
use crate::order::{self, Order};
use crate::value::{self, Numeric, Value, ValueModel};

verus! {

/// NULL comes before numbers, numbers before texts, and texts before blobs. NULL
/// is the same as NULL.
pub proof fn law_types_compare(a: ValueModel, b: ValueModel)
    ensures
        a is Null && b is Null ==> value::value_order(a, b) == Order::Equal,
        a is Null && b !is Null ==> value::value_order(a, b) == Order::Less,
        value::is_numeric(a) && (b is Text || b is Blob) ==> value::value_order(a, b)
            == Order::Less,
        a is Text && b is Blob ==> value::value_order(a, b) == Order::Less,
{
}

/// Integers compare as they do.
pub proof fn law_integers_compare(i: i64, j: i64)
    ensures
        i < j ==> value::value_order(ValueModel::Integer(i), ValueModel::Integer(j)) == Order::Less,
        i == j ==> value::value_order(ValueModel::Integer(i), ValueModel::Integer(j))
            == Order::Equal,
        i > j ==> value::value_order(ValueModel::Integer(i), ValueModel::Integer(j))
            == Order::Greater,
        value::same_value(ValueModel::Integer(i), ValueModel::Integer(j)) <==> i == j,
{
    let s = floats::unit_scale();
    lemma_pow2_pos(1074);
    assert(i < j ==> i * s < j * s) by (nonlinear_arith)
        requires
            s >= 1,
    ;
    assert(i > j ==> i * s > j * s) by (nonlinear_arith)
        requires
            s >= 1,
    ;
}

/// Texts compare as the first characters do in which they differ; a text that
/// is the start of a longer one comes before it.
pub proof fn law_texts_compare(common: Seq<char>, s: Seq<char>, t: Seq<char>)
    requires
        s.len() > 0 && t.len() > 0 ==> s[0] != t[0],
    ensures
        ({
            let o = value::value_order(
                ValueModel::Text(common + s),
                ValueModel::Text(common + t),
            );
            if s.len() == 0 && t.len() == 0 {
                o == Order::Equal
            } else if s.len() == 0 || (t.len() > 0 && (s[0] as int) < (t[0] as int)) {
                o == Order::Less
            } else {
                o == Order::Greater
            }
        }),
        value::same_value(ValueModel::Text(s), ValueModel::Text(t)) <==> s == t,
{
    let (a, b) = (value::code_points(common + s), value::code_points(common + t));
    let n = common.len();
    assert forall|i: int| 0 <= i < n implies a[i] == b[i] by {}
    order::lemma_lex_common_prefix(a, b, n);
    assert(a.skip(n as int) =~= value::code_points(s));
    assert(b.skip(n as int) =~= value::code_points(t));
}

/// Blobs compare as the first bytes do in which they differ; a blob that is the
/// start of a longer one comes before it.
pub proof fn law_blobs_compare(common: Seq<u8>, s: Seq<u8>, t: Seq<u8>)
    requires
        s.len() > 0 && t.len() > 0 ==> s[0] != t[0],
    ensures
        ({
            let o = value::value_order(
                ValueModel::Blob(common + s),
                ValueModel::Blob(common + t),
            );
            if s.len() == 0 && t.len() == 0 {
                o == Order::Equal
            } else if s.len() == 0 || (t.len() > 0 && s[0] < t[0]) {
                o == Order::Less
            } else {
                o == Order::Greater
            }
        }),
        value::same_value(ValueModel::Blob(s), ValueModel::Blob(t)) <==> s == t,
{
    let (a, b) = (value::byte_values(common + s), value::byte_values(common + t));
    let n = common.len();
    assert forall|i: int| 0 <= i < n implies a[i] == b[i] by {}
    order::lemma_lex_common_prefix(a, b, n);
    assert(a.skip(n as int) =~= value::byte_values(s));
    assert(b.skip(n as int) =~= value::byte_values(t));
}

/// Floating-point numbers without a sign compare as their bits do, and those with
/// one the other way round. The two zeros are the same, and every other number
/// with a sign comes before those without.
pub proof fn law_floats_compare(a: u64, b: u64)
    requires
        a <= 0x7ff0_0000_0000_0000,
        b <= 0x7ff0_0000_0000_0000,
    ensures
        ({
            let sign = 0x8000_0000_0000_0000u64;
            let (x, y) = (ValueModel::Float(a), ValueModel::Float(b));
            let (nx, ny) = (
                ValueModel::Float((a + sign) as u64),
                ValueModel::Float((b + sign) as u64),
            );
            &&& value::value_order(x, y) == order::int_order(a as int, b as int)
            &&& value::value_order(nx, ny) == order::int_order(b as int, a as int)
            &&& a == 0 && b == 0 ==> value::value_order(nx, y) == Order::Equal
            &&& a != 0 || b != 0 ==> value::value_order(nx, y) == Order::Less
        }),
        order::int_order(a as int, b as int) == if a < b {
            Order::Less
        } else if a == b {
            Order::Equal
        } else {
            Order::Greater
        },
{
    let (x, y) = (a as int, b as int);
    if x < y {
        floats::lemma_magnitude_units_increase(x, y);
    }
    if y < x {
        floats::lemma_magnitude_units_increase(y, x);
    }
    if 0 < x {
        floats::lemma_magnitude_units_increase(0, x);
    }
    if 0 < y {
        floats::lemma_magnitude_units_increase(0, y);
    }
}

/// An integer and a floating-point number without a sign compare as exact
/// numbers. The number is worth the digits of its fraction with a one before
/// them, times two to the power of its exponent; where the exponent is zero there
/// is no such one, and the number is less than one.
pub proof fn law_integer_and_float_compare(i: i64, exponent: u64, fraction: u64)
    requires
        exponent < 2047,
        fraction < 0x10_0000_0000_0000,
    ensures
        ({
            let bits = (exponent * 0x10_0000_0000_0000 + fraction) as u64;
            let digits = 0x10_0000_0000_0000 + fraction;
            value::value_order(ValueModel::Integer(i), ValueModel::Float(bits))
                == if exponent == 0 {
                if i == 0 && fraction == 0 {
                    Order::Equal
                } else if i <= 0 {
                    Order::Less
                } else {
                    Order::Greater
                }
            } else if exponent >= 1075 {
                order::int_order(i as int, digits * pow2((exponent - 1075) as nat))
            } else {
                order::int_order(i * pow2((1075 - exponent) as nat), digits)
            }
        }),
{
    let limit: int = 0x10_0000_0000_0000;
    let bits = (exponent * 0x10_0000_0000_0000 + fraction) as u64;
    let m = floats::magnitude(bits);
    let s = floats::unit_scale();
    let digits: int = limit + fraction;
    lemma_pow2_pos(1074);
    vstd::arithmetic::div_mod::lemma_fundamental_div_mod_converse(
        m,
        limit,
        exponent as int,
        fraction as int,
    );
    let x = i as int;
    if exponent == 0 {
        floats::lemma_magnitude_units_increase(m, 1023 * limit);
        vstd::arithmetic::div_mod::lemma_fundamental_div_mod_converse(1023 * limit, limit, 1023, 0);
        vstd::arithmetic::power2::lemma2_to64_rest();
        lemma_pow2_adds(52, 1022);
        assert(x <= 0 ==> x * s <= 0) by (nonlinear_arith)
            requires
                s >= 1,
        ;
        assert(x < 0 ==> x * s < 0) by (nonlinear_arith)
            requires
                s >= 1,
        ;
        assert(x >= 1 ==> x * s >= s) by (nonlinear_arith)
            requires
                s >= 1,
        ;
    } else if exponent >= 1075 {
        let over = (exponent - 1075) as nat;
        lemma_pow2_adds(1074, over);
        let y = digits * pow2(over);
        let o = pow2(over) as int;
        assert(digits * (s * o) == (digits * o) * s) by (nonlinear_arith);
        assert(floats::float_units(bits) == y * s);
        assert((x < y ==> x * s < y * s) && (x > y ==> x * s > y * s)) by (nonlinear_arith)
            requires
                s >= 1,
        ;
    } else {
        let under = (1075 - exponent) as nat;
        let e = (exponent - 1) as nat;
        lemma_pow2_adds(e, under);
        lemma_pow2_pos(e);
        let (p, u) = (pow2(e) as int, pow2(under) as int);
        let z = x * u;
        assert(x * (p * u) == (x * u) * p) by (nonlinear_arith);
        assert(x * s == z * p);
        assert((z < digits ==> z * p < digits * p) && (z > digits ==> z * p > digits * p))
            by (nonlinear_arith)
            requires
                p >= 1,
        ;
    }
}

/// A sign before both reverses how an integer and a floating-point number
/// compare.
pub proof fn law_signs_reverse(i: i64, bits: u64)
    requires
        i > i64::MIN,
        bits <= 0x7ff0_0000_0000_0000,
    ensures
        value::value_order(
            ValueModel::Integer((-i) as i64),
            ValueModel::Float((bits + 0x8000_0000_0000_0000) as u64),
        ) == order::reversed(
            value::value_order(ValueModel::Integer(i), ValueModel::Float(bits)),
        ),
{
    let s = floats::unit_scale();
    let x = i as int;
    assert((-x) * s == -(x * s)) by (nonlinear_arith);
}

/// An infinity is above all integers.
pub proof fn law_infinity_is_above(i: i64)
    ensures
        value::value_order(
            ValueModel::Integer(i),
            ValueModel::Float(0x7ff0_0000_0000_0000),
        ) == Order::Less,
{
    let limit: int = 0x10_0000_0000_0000;
    let s = floats::unit_scale();
    lemma_pow2_pos(1074);
    vstd::arithmetic::div_mod::lemma_fundamental_div_mod_converse(2047 * limit, limit, 2047, 0);
    lemma_pow2_adds(1074, 972);
    lemma_pow2_adds(64, 908);
    lemma_pow2_pos(908);
    vstd::arithmetic::power2::lemma2_to64();
    let (o, x) = (pow2(908) as int, i as int);
    let big = pow2(972) as int;
    assert(big >= 0x1_0000_0000_0000_0000) by (nonlinear_arith)
        requires
            big == 0x1_0000_0000_0000_0000 * o,
            o >= 1,
    ;
    assert(x * s < limit * (s * big)) by (nonlinear_arith)
        requires
            x < 0x1_0000_0000_0000_0000,
            big >= 0x1_0000_0000_0000_0000,
            s >= 1,
            limit >= 1,
    ;
}

/// Which bits stand for finite numbers, and which for none.
pub proof fn law_kinds_of_floats(bits: u64)
    ensures
        floats::is_finite_bits(bits) <==> bits as int % 0x8000_0000_0000_0000
            < 0x7ff0_0000_0000_0000,
        floats::is_nan_bits(bits) <==> bits as int % 0x8000_0000_0000_0000 > 0x7ff0_0000_0000_0000,
{
}

/// Which floating-point numbers are whole, and which whole number each is: those
/// with large exponents are, and of the others those whose lowest digits are zero.
/// A sign changes neither.
pub proof fn law_whole_floats(exponent: u64, fraction: u64)
    requires
        exponent < 2047,
        fraction < 0x10_0000_0000_0000,
    ensures
        ({
            let bits = (exponent * 0x10_0000_0000_0000 + fraction) as u64;
            let negative = (bits + 0x8000_0000_0000_0000) as u64;
            let digits = 0x10_0000_0000_0000 + fraction;
            &&& floats::is_whole_bits(negative) == floats::is_whole_bits(bits)
            &&& floats::is_whole_bits(bits) ==> floats::whole_number(negative)
                == -floats::whole_number(bits)
            &&& exponent == 0 ==> (floats::is_whole_bits(bits) <==> fraction == 0) && (fraction == 0
                ==> floats::whole_number(bits) == 0)
            &&& exponent >= 1075 ==> floats::is_whole_bits(bits) && floats::whole_number(bits)
                == digits * pow2((exponent - 1075) as nat)
            &&& 1 <= exponent < 1075 ==> {
                let unit = pow2((1075 - exponent) as nat) as int;
                &&& floats::is_whole_bits(bits) <==> digits as int % unit == 0
                &&& digits as int % unit == 0 ==> floats::whole_number(bits) == digits as int / unit
            }
        }),
{
    let limit: int = 0x10_0000_0000_0000;
    let bits = (exponent * 0x10_0000_0000_0000 + fraction) as u64;
    let m = floats::magnitude(bits);
    let s = floats::unit_scale();
    let u = floats::float_units(bits);
    let digits: int = limit + fraction;
    lemma_pow2_pos(1074);
    vstd::arithmetic::div_mod::lemma_fundamental_div_mod_converse(
        m,
        limit,
        exponent as int,
        fraction as int,
    );
    lemma_negated(u, s);
    if exponent == 0 {
        if m > 0 {
            floats::lemma_magnitude_units_increase(0, m);
        }
        floats::lemma_magnitude_units_increase(m, 1023 * limit);
        vstd::arithmetic::div_mod::lemma_fundamental_div_mod_converse(1023 * limit, limit, 1023, 0);
        vstd::arithmetic::power2::lemma2_to64_rest();
        lemma_pow2_adds(52, 1022);
        vstd::arithmetic::div_mod::lemma_fundamental_div_mod_converse(u, s, 0, u);
    } else if exponent >= 1075 {
        let over = (exponent - 1075) as nat;
        lemma_pow2_adds(1074, over);
        let o = pow2(over) as int;
        let y = digits * o;
        assert(digits * (s * o) == (digits * o) * s) by (nonlinear_arith);
        assert(y * s == s * y) by (nonlinear_arith);
        vstd::arithmetic::div_mod::lemma_fundamental_div_mod_converse(u, s, y, 0);
    } else {
        let under = (1075 - exponent) as nat;
        let e = (exponent - 1) as nat;
        lemma_pow2_adds(e, under);
        lemma_pow2_pos(e);
        lemma_pow2_pos(under);
        let (p, unit) = (pow2(e) as int, pow2(under) as int);
        let (q, r) = (digits / unit, digits % unit);
        vstd::arithmetic::div_mod::lemma_fundamental_div_mod(digits, unit);
        assert(u == digits * p);
        assert(s == p * unit);
        assert(digits * p == (p * unit) * q + r * p) by (nonlinear_arith)
            requires
                digits == unit * q + r,
        ;
        assert(0 <= r * p < p * unit) by (nonlinear_arith)
            requires
                0 <= r < unit,
                p >= 1,
        ;
        assert(r != 0 ==> r * p != 0) by (nonlinear_arith)
            requires
                p >= 1,
        ;
        assert(r == 0 ==> r * p == 0) by (nonlinear_arith);
        vstd::arithmetic::div_mod::lemma_fundamental_div_mod_converse(u, s, q, r * p);
    }
}

proof fn lemma_negated(u: int, s: int)
    requires
        s > 0,
    ensures
        u % s == 0 <==> (-u) % s == 0,
        u % s == 0 ==> (-u) / s == -(u / s),
{
    vstd::arithmetic::div_mod::lemma_fundamental_div_mod(u, s);
    vstd::arithmetic::div_mod::lemma_fundamental_div_mod(-u, s);
    let (q, t) = (u / s, (-u) / s);
    if u % s == 0 {
        assert(-u == s * (-q)) by (nonlinear_arith)
            requires
                u == s * q,
        ;
        vstd::arithmetic::div_mod::lemma_fundamental_div_mod_converse(-u, s, -q, 0);
    }
    if (-u) % s == 0 {
        assert(u == s * (-t)) by (nonlinear_arith)
            requires
                -u == s * t,
        ;
        vstd::arithmetic::div_mod::lemma_fundamental_div_mod_converse(u, s, -t, 0);
    }
}

/// The contents of a row of values are those of each.
pub proof fn law_models(v: Seq<Value>, i: int)
    requires
        0 <= i < v.len(),
    ensures
        value::models(v).len() == v.len(),
        value::models(v)[i] == v[i]@,
        v[i] is Null <==> v[i]@ is Null,
        v[i] matches Value::Numeric(Numeric::Integer(n)) ==> v[i]@ == ValueModel::Integer(n),
        v[i] matches Value::Numeric(Numeric::Float(x)) ==> v[i]@ == ValueModel::Float(x@),
        v[i] matches Value::Text(s) ==> v[i]@ == ValueModel::Text(s@),
        v[i] matches Value::Blob(b) ==> v[i]@ == ValueModel::Blob(b@),
{
}

} // verus!
