//! Dynamically typed values.

use vstd::prelude::*;

use crate::floats::{self, FloatModel, FloatStyle, FloatText};
use crate::numerals;
use crate::order::{self, Order};
use crate::text;

verus! {

/// A floating-point number, by its bits. Never one of the patterns that stand
/// for no number.
#[derive(Clone, Copy, Debug)]
pub struct NonNan {
    bits: u64,
}

impl NonNan {
    #[verifier::type_invariant]
    spec fn well_formed(self) -> bool {
        !floats::is_nan_bits(self.bits)
    }

    /// The bits of the number.
    pub closed spec fn view(&self) -> u64 {
        self.bits
    }

    /// The number with the given bits, if they stand for one.
    pub fn new(bits: u64) -> (r: Option<NonNan>)
        ensures
            r is Some <==> !floats::is_nan_bits(bits),
            r matches Some(x) ==> x@ == bits,
    {
        if floats::is_nan(bits) {
            None
        } else {
            Some(NonNan { bits })
        }
    }

    /// The bits of the number.
    pub fn bits(&self) -> (r: u64)
        ensures
            r == self@,
            !floats::is_nan_bits(r),
    {
        proof {
            use_type_invariant(self);
        }
        self.bits
    }
}

/// A number: an integer, or a floating-point number.
#[derive(Clone, Copy, Debug)]
pub enum Numeric {
    Integer(i64),
    Float(NonNan),
}

/// A value of any type.
#[derive(Debug)]
pub enum Value {
    Null,
    Numeric(Numeric),
    Text(String),
    Blob(Vec<u8>),
}

/// A value of any type, with its contents as sequences.
pub enum ValueModel {
    Null,
    Integer(i64),
    Float(u64),
    Text(Seq<char>),
    Blob(Seq<u8>),
}

impl View for Value {
    type V = ValueModel;

    open spec fn view(&self) -> ValueModel {
        match self {
            Value::Null => ValueModel::Null,
            Value::Numeric(Numeric::Integer(i)) => ValueModel::Integer(*i),
            Value::Numeric(Numeric::Float(x)) => ValueModel::Float(x@),
            Value::Text(s) => ValueModel::Text(s@),
            Value::Blob(b) => ValueModel::Blob(b@),
        }
    }
}

/// The contents of a row of values.
pub open spec fn models(v: Seq<Value>) -> Seq<ValueModel> {
    Seq::new(v.len(), |i: int| v[i]@)
}

/// Whether something can be a value: a floating-point number is a number.
pub open spec fn is_value(m: ValueModel) -> bool {
    m matches ValueModel::Float(bits) ==> !floats::is_nan_bits(bits)
}

/// Whether a value is a number.
pub open spec fn is_numeric(m: ValueModel) -> bool {
    m is Integer || m is Float
}

/// What a number is worth, in units of the smallest positive floating-point
/// number, in which all numbers are whole.
pub open spec fn numeric_units(m: ValueModel) -> int {
    match m {
        ValueModel::Integer(i) => i * floats::unit_scale(),
        ValueModel::Float(bits) => floats::float_units(bits),
        _ => 0,
    }
}

/// Whether two values are the same: both NULL, numbers of equal worth, equal
/// texts or equal blobs.
pub open spec fn same_value(a: ValueModel, b: ValueModel) -> bool {
    match (a, b) {
        (ValueModel::Null, ValueModel::Null) => true,
        (ValueModel::Text(s), ValueModel::Text(t)) => s == t,
        (ValueModel::Blob(s), ValueModel::Blob(t)) => s == t,
        _ => is_numeric(a) && is_numeric(b) && numeric_units(a) == numeric_units(b),
    }
}

/// The rank of a value's type: NULL, then numbers, then texts, then blobs.
pub open spec fn class_rank(m: ValueModel) -> int {
    match m {
        ValueModel::Null => 0,
        ValueModel::Integer(_) => 1,
        ValueModel::Float(_) => 1,
        ValueModel::Text(_) => 2,
        ValueModel::Blob(_) => 3,
    }
}

/// The code points of a text.
pub open spec fn code_points(s: Seq<char>) -> Seq<int> {
    Seq::new(s.len(), |i: int| s[i] as int)
}

/// The bytes of a blob, as integers.
pub open spec fn byte_values(s: Seq<u8>) -> Seq<int> {
    Seq::new(s.len(), |i: int| s[i] as int)
}

/// How two values compare: by the rank of their types; within a type numbers by
/// worth, texts by code points and blobs by bytes, in dictionary order.
pub open spec fn value_order(a: ValueModel, b: ValueModel) -> Order {
    match (a, b) {
        (ValueModel::Text(s), ValueModel::Text(t)) => order::lex_order(
            code_points(s),
            code_points(t),
        ),
        (ValueModel::Blob(s), ValueModel::Blob(t)) => order::lex_order(
            byte_values(s),
            byte_values(t),
        ),
        _ => if class_rank(a) != class_rank(b) {
            order::int_order(class_rank(a), class_rank(b))
        } else {
            order::int_order(numeric_units(a), numeric_units(b))
        },
    }
}

/// Two values compare as equal exactly when they are the same.
pub proof fn law_order_equal(a: ValueModel, b: ValueModel)
    ensures
        value_order(a, b) == Order::Equal <==> same_value(a, b),
{
    match (a, b) {
        (ValueModel::Text(s), ValueModel::Text(t)) => {
            order::lemma_lex_equal(code_points(s), code_points(t));
            if code_points(s) == code_points(t) {
                assert forall|i: int| 0 <= i < s.len() implies s[i] == t[i] by {
                    assert(code_points(s)[i] == code_points(t)[i]);
                }
                assert(s.len() == code_points(s).len());
                assert(s =~= t);
            }
        },
        (ValueModel::Blob(s), ValueModel::Blob(t)) => {
            order::lemma_lex_equal(byte_values(s), byte_values(t));
            if byte_values(s) == byte_values(t) {
                assert forall|i: int| 0 <= i < s.len() implies s[i] == t[i] by {
                    assert(byte_values(s)[i] == byte_values(t)[i]);
                }
                assert(s.len() == byte_values(s).len());
                assert(s =~= t);
            }
        },
        _ => {},
    }
}

/// Swapping the two values reverses how they compare.
pub proof fn law_order_reversed(a: ValueModel, b: ValueModel)
    ensures
        value_order(b, a) == order::reversed(value_order(a, b)),
{
    match (a, b) {
        (ValueModel::Text(s), ValueModel::Text(t)) => {
            order::lemma_lex_reversed(code_points(s), code_points(t));
        },
        (ValueModel::Blob(s), ValueModel::Blob(t)) => {
            order::lemma_lex_reversed(byte_values(s), byte_values(t));
        },
        _ => {},
    }
}

/// Among values, not coming after is transitive.
pub proof fn law_order_transitive(a: ValueModel, b: ValueModel, c: ValueModel)
    requires
        value_order(a, b) != Order::Greater,
        value_order(b, c) != Order::Greater,
    ensures
        value_order(a, c) != Order::Greater,
        value_order(a, c) == Order::Equal ==> value_order(a, b) == Order::Equal && value_order(
            b,
            c,
        ) == Order::Equal,
{
    match (a, b, c) {
        (ValueModel::Text(s), ValueModel::Text(t), ValueModel::Text(u)) => {
            order::lemma_lex_transitive(code_points(s), code_points(t), code_points(u));
        },
        (ValueModel::Blob(s), ValueModel::Blob(t), ValueModel::Blob(u)) => {
            order::lemma_lex_transitive(byte_values(s), byte_values(t), byte_values(u));
        },
        _ => {},
    }
}

/// What decoding arbitrary bytes as UTF-8 gives, the bytes that are none
/// being replaced.
pub uninterp spec fn lossy_text(bytes: Seq<u8>) -> Seq<char>;

/// `String::from_utf8_lossy` decodes bytes, putting replacement characters
/// where they are no UTF-8; bytes that are UTF-8 throughout are decoded as they
/// stand. What stands for bytes that are no UTF-8 is left open here.
#[verifier::external_body]
fn decode_lossy(bytes: &[u8]) -> (r: String)
    ensures
        r@ == lossy_text(bytes@),
        vstd::utf8::valid_utf8(bytes@) ==> r@ == vstd::utf8::decode_utf8(bytes@),
{
    String::from_utf8_lossy(bytes).into_owned()
}

/// The text of a value on its own.
pub open spec fn printed(m: ValueModel, model: FloatModel) -> Seq<char> {
    match m {
        ValueModel::Null => Seq::empty(),
        ValueModel::Integer(i) => numerals::integer_text(i as int),
        ValueModel::Float(bits) => (model.shows)(bits, FloatStyle::Printed),
        ValueModel::Text(s) => s,
        ValueModel::Blob(b) => lossy_text(b),
    }
}

/// How two rows of bytes compare.
fn order_bytes(a: &[u8], b: &[u8]) -> (r: Order)
    ensures
        r == order::lex_order(byte_values(a@), byte_values(b@)),
{
    let mut i: usize = 0;
    while i < a.len() && i < b.len() && a[i] == b[i]
        invariant
            i <= a@.len(),
            i <= b@.len(),
            forall|j: int| 0 <= j < i ==> a@[j] == b@[j],
        decreases a@.len() - i,
    {
        i = i + 1;
    }
    proof {
        order::lemma_lex_common_prefix(byte_values(a@), byte_values(b@), i as nat);
    }
    if i < a.len() && i < b.len() {
        if a[i] < b[i] {
            Order::Less
        } else {
            Order::Greater
        }
    } else if i < b.len() {
        Order::Less
    } else if i < a.len() {
        Order::Greater
    } else {
        Order::Equal
    }
}

/// How two texts compare.
fn order_chars(a: &[char], b: &[char]) -> (r: Order)
    ensures
        r == order::lex_order(code_points(a@), code_points(b@)),
{
    let mut i: usize = 0;
    while i < a.len() && i < b.len() && a[i] == b[i]
        invariant
            i <= a@.len(),
            i <= b@.len(),
            forall|j: int| 0 <= j < i ==> a@[j] == b@[j],
        decreases a@.len() - i,
    {
        i = i + 1;
    }
    proof {
        order::lemma_lex_common_prefix(code_points(a@), code_points(b@), i as nat);
    }
    if i < a.len() && i < b.len() {
        if a[i] < b[i] {
            Order::Less
        } else {
            Order::Greater
        }
    } else if i < b.len() {
        Order::Less
    } else if i < a.len() {
        Order::Greater
    } else {
        Order::Equal
    }
}

impl Numeric {
    /// How two numbers compare.
    pub fn order(&self, other: &Numeric) -> (r: Order)
        ensures
            r == value_order(Value::Numeric(*self)@, Value::Numeric(*other)@),
    {
        match (self, other) {
            (Numeric::Integer(a), Numeric::Integer(b)) => {
                proof {
                    let s = floats::unit_scale();
                    let (x, y): (int, int) = (*a as int, *b as int);
                    vstd::arithmetic::power2::lemma_pow2_pos(1074);
                    assert(x < y ==> x * s < y * s) by (nonlinear_arith)
                        requires
                            s >= 1,
                    ;
                    assert(x > y ==> x * s > y * s) by (nonlinear_arith)
                        requires
                            s >= 1,
                    ;
                }
                if *a < *b {
                    Order::Less
                } else if *a == *b {
                    Order::Equal
                } else {
                    Order::Greater
                }
            },
            (Numeric::Integer(a), Numeric::Float(b)) => floats::order_integer_float(*a, b.bits()),
            (Numeric::Float(a), Numeric::Integer(b)) => {
                match floats::order_integer_float(*b, a.bits()) {
                    Order::Less => Order::Greater,
                    Order::Equal => Order::Equal,
                    Order::Greater => Order::Less,
                }
            },
            (Numeric::Float(a), Numeric::Float(b)) => floats::order_floats(a.bits(), b.bits()),
        }
    }
}

impl Value {
    /// An integer.
    pub fn from_i64(i: i64) -> (r: Value)
        ensures
            r@ == ValueModel::Integer(i),
    {
        Value::Numeric(Numeric::Integer(i))
    }

    /// The floating-point number with the given bits; NULL where they stand for
    /// no number.
    pub fn from_float_bits(bits: u64) -> (r: Value)
        ensures
            r@ == if floats::is_nan_bits(bits) {
                ValueModel::Null
            } else {
                ValueModel::Float(bits)
            },
    {
        match NonNan::new(bits) {
            Some(x) => Value::Numeric(Numeric::Float(x)),
            None => Value::Null,
        }
    }

    /// A text.
    pub fn build_text(s: &str) -> (r: Value)
        ensures
            r@ == ValueModel::Text(s@),
    {
        Value::Text(s.to_owned())
    }

    /// A blob.
    pub fn from_slice(bytes: &[u8]) -> (r: Value)
        ensures
            r@ == ValueModel::Blob(bytes@),
    {
        Value::Blob(vstd::slice::slice_to_vec(bytes))
    }

    /// Whether the value is NULL.
    pub fn is_null(&self) -> (r: bool)
        ensures
            r == (self@ is Null),
    {
        match self {
            Value::Null => true,
            _ => false,
        }
    }

    /// The rank of the value's type.
    fn rank(&self) -> (r: u8)
        ensures
            r == class_rank(self@),
    {
        match self {
            Value::Null => 0,
            Value::Numeric(_) => 1,
            Value::Text(_) => 2,
            Value::Blob(_) => 3,
        }
    }

    /// How two values compare.
    pub fn order(&self, other: &Value) -> (r: Order)
        ensures
            r == value_order(self@, other@),
    {
        match (self, other) {
            (Value::Numeric(a), Value::Numeric(b)) => a.order(b),
            (Value::Text(s), Value::Text(t)) => {
                let a = text::chars_of(s.as_str());
                let b = text::chars_of(t.as_str());
                order_chars(a.as_slice(), b.as_slice())
            },
            (Value::Blob(s), Value::Blob(t)) => order_bytes(s.as_slice(), t.as_slice()),
            _ => {
                let (a, b): (u8, u8) = (self.rank(), other.rank());
                if a < b {
                    Order::Less
                } else if a == b {
                    Order::Equal
                } else {
                    Order::Greater
                }
            },
        }
    }

    /// Whether two values are the same.
    pub fn same(&self, other: &Value) -> (r: bool)
        ensures
            r == same_value(self@, other@),
    {
        proof {
            law_order_equal(self@, other@);
        }
        self.order(other) == Order::Equal
    }

    /// The text of the value on its own.
    pub fn print<R: Fn(&str) -> Option<u64>, S: Fn(u64, FloatStyle) -> String>(
        &self,
        floats: &FloatText<R, S>,
    ) -> (r: String)
        ensures
            r@ == printed(self@, floats@),
    {
        match self {
            Value::Null => String::new(),
            Value::Numeric(Numeric::Integer(i)) => text::string_of(
                numerals::write_integer(*i).as_slice(),
            ),
            Value::Numeric(Numeric::Float(x)) => floats.show(x.bits(), FloatStyle::Printed),
            Value::Text(s) => s.clone(),
            Value::Blob(b) => decode_lossy(b.as_slice()),
        }
    }
}

impl Clone for Value {
    fn clone(&self) -> (r: Self)
        ensures
            r@ == self@,
    {
        match self {
            Value::Null => Value::Null,
            Value::Numeric(n) => Value::Numeric(*n),
            Value::Text(s) => Value::Text(s.clone()),
            Value::Blob(b) => Value::Blob(vstd::slice::slice_to_vec(b.as_slice())),
        }
    }
}

impl PartialEq for Value {
    fn eq(&self, other: &Self) -> (r: bool) {
        self.same(other)
    }
}

impl vstd::std_specs::cmp::PartialEqSpecImpl for Value {
    open spec fn obeys_eq_spec() -> bool {
        true
    }

    open spec fn eq_spec(&self, other: &Self) -> bool {
        same_value(self@, other@)
    }
}

} // verus!
