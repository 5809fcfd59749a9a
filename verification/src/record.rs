//! Rows of values as bytes.
//!
//! A record is a header and a body. The header starts with its own length and
//! goes on with one type code for each value, all of them integers of variable
//! length. The body holds the values themselves, one behind the other, each in
//! as many bytes as its type code says.

use vstd::prelude::*;
use vstd::utf8::{decode_utf8, encode_utf8, valid_utf8};

use crate::bigendian;
use crate::error::{ErrorModel, LimboError};
use crate::floats;
use crate::value::{self, Numeric, Value, ValueModel};
use crate::varint;

verus! {

/// The type code of an integer: the fewest bytes that hold it. Zero and one
/// take none.
pub open spec fn integer_code(i: int) -> nat {
    if i == 0 {
        8
    } else if i == 1 {
        9
    } else if -0x80 <= i < 0x80 {
        1
    } else if -0x8000 <= i < 0x8000 {
        2
    } else if -0x80_0000 <= i < 0x80_0000 {
        3
    } else if -0x8000_0000 <= i < 0x8000_0000 {
        4
    } else if -0x8000_0000_0000 <= i < 0x8000_0000_0000 {
        5
    } else {
        6
    }
}

/// The type code of a value.
pub open spec fn type_code(m: ValueModel) -> nat {
    match m {
        ValueModel::Null => 0,
        ValueModel::Integer(i) => integer_code(i as int),
        ValueModel::Float(_) => 7,
        ValueModel::Text(s) => 13 + 2 * encode_utf8(s).len(),
        ValueModel::Blob(b) => 12 + 2 * b.len(),
    }
}

/// The number of bytes that a type code stands for.
pub open spec fn body_len(code: nat) -> nat {
    if code >= 12 {
        ((code - 12) / 2) as nat
    } else if code == 5 {
        6
    } else if code == 6 || code == 7 {
        8
    } else if code <= 4 {
        code
    } else {
        0
    }
}

/// The bytes of a value.
pub open spec fn body_bytes(m: ValueModel) -> Seq<u8> {
    match m {
        ValueModel::Null => Seq::empty(),
        ValueModel::Integer(i) => bigendian::signed_bytes(
            i as int,
            body_len(integer_code(i as int)),
        ),
        ValueModel::Float(bits) => bigendian::low_bytes(bits as nat, 8),
        ValueModel::Text(s) => encode_utf8(s),
        ValueModel::Blob(b) => b,
    }
}

/// The value with the given type code and bytes. `None` where there is none:
/// two codes are not in use, and the bytes of a text must be UTF-8. Bytes of a
/// floating-point number that stand for no number are NULL.
pub open spec fn decoded(code: nat, s: Seq<u8>) -> Option<ValueModel> {
    if code == 0 {
        Some(ValueModel::Null)
    } else if code <= 6 {
        Some(ValueModel::Integer(bigendian::signed_worth(s) as i64))
    } else if code == 7 {
        let bits = bigendian::worth(s) as u64;
        if floats::is_nan_bits(bits) {
            Some(ValueModel::Null)
        } else {
            Some(ValueModel::Float(bits))
        }
    } else if code == 8 {
        Some(ValueModel::Integer(0))
    } else if code == 9 {
        Some(ValueModel::Integer(1))
    } else if code < 12 {
        None
    } else if code % 2 == 0 {
        Some(ValueModel::Blob(s))
    } else if valid_utf8(s) {
        Some(ValueModel::Text(decode_utf8(s)))
    } else {
        None
    }
}

/// The items of a record, one for each type code: the value, or `None` where
/// there is none (the code is not in use, its bytes are no value of the type, or
/// too few bytes are left). Type codes that break off are one more such item.
pub open spec fn items(codes: Seq<u8>, body: Seq<u8>) -> Seq<Option<ValueModel>>
    decreases codes.len(),
{
    if codes.len() == 0 {
        Seq::empty()
    } else {
        match varint::varint_at(codes) {
            None => seq![None],
            Some((code, n)) => if 0 < n <= codes.len() {
                let rest = codes.skip(n as int);
                if body_len(code) <= body.len() {
                    seq![decoded(code, body.take(body_len(code) as int))] + items(
                        rest,
                        body.skip(body_len(code) as int),
                    )
                } else {
                    seq![None::<ValueModel>] + items(rest, body)
                }
            } else {
                seq![None]
            },
        }
    }
}

/// The items of a row of bytes, if it starts with the length of a header that
/// lies within it.
pub open spec fn record_items(b: Seq<u8>) -> Option<Seq<Option<ValueModel>>> {
    match varint::varint_at(b) {
        Some((size, n)) => if n <= size <= b.len() {
            Some(items(b.subrange(n as int, size as int), b.skip(size as int)))
        } else {
            None
        },
        None => None,
    }
}

/// Whether every item is a value.
pub open spec fn all_values(s: Seq<Option<ValueModel>>) -> bool {
    forall|i: int| 0 <= i < s.len() ==> (#[trigger] s[i]) is Some
}

/// The values of a record, if the bytes are one.
pub open spec fn record_values(b: Seq<u8>) -> Option<Seq<ValueModel>> {
    match record_items(b) {
        Some(s) => if all_values(s) {
            Some(Seq::new(s.len(), |i: int| s[i]->0))
        } else {
            None
        },
        None => None,
    }
}

/// The items of a record that are values are values that there are.
proof fn lemma_items_are_values(codes: Seq<u8>, body: Seq<u8>)
    ensures
        forall|i: int|
            0 <= i < items(codes, body).len() ==> (#[trigger] items(codes, body)[i]
                matches Some(m) ==> value::is_value(m)),
    decreases codes.len(),
{
    if codes.len() > 0 {
        if let Some((code, n)) = varint::varint_at(codes) {
            if 0 < n <= codes.len() {
                let rest = codes.skip(n as int);
                let all = items(codes, body);
                let behind = if body_len(code) <= body.len() {
                    body.skip(body_len(code) as int)
                } else {
                    body
                };
                lemma_items_are_values(rest, behind);
                assert forall|i: int| 0 <= i < all.len() implies (#[trigger] all[i] matches Some(m)
                    ==> value::is_value(m)) by {
                    if i > 0 {
                        assert(all[i] == items(rest, behind)[i - 1]);
                    }
                }
            }
        }
    }
}

/// The values of a record are values that there are.
pub proof fn lemma_record_holds_values(b: Seq<u8>)
    ensures
        record_values(b) matches Some(s) ==> forall|i: int|
            0 <= i < s.len() ==> value::is_value(#[trigger] s[i]),
{
    if let Some((size, n)) = varint::varint_at(b) {
        if n <= size <= b.len() {
            lemma_items_are_values(b.subrange(n as int, size as int), b.skip(size as int));
        }
    }
}

/// The type codes of a row of values.
pub open spec fn code_bytes(vs: Seq<ValueModel>) -> Seq<u8>
    decreases vs.len(),
{
    if vs.len() == 0 {
        Seq::empty()
    } else {
        varint::varint_bytes(type_code(vs[0]) as u64) + code_bytes(vs.skip(1))
    }
}

/// The bytes of a row of values.
pub open spec fn bodies(vs: Seq<ValueModel>) -> Seq<u8>
    decreases vs.len(),
{
    if vs.len() == 0 {
        Seq::empty()
    } else {
        body_bytes(vs[0]) + bodies(vs.skip(1))
    }
}

/// The length of a header with `n` bytes of type codes: the least that counts
/// these and its own `k` bytes, or more of them.
pub open spec fn header_len_from(n: nat, k: nat) -> nat
    decreases 9 - k,
{
    if k >= 9 || varint::varint_bytes((n + k) as u64).len() <= k {
        n + k
    } else {
        header_len_from(n, k + 1)
    }
}

/// The length of a header with `n` bytes of type codes.
pub open spec fn header_len(n: nat) -> nat {
    header_len_from(n, 1)
}

/// The record of a row of values.
pub open spec fn record_bytes(vs: Seq<ValueModel>) -> Seq<u8> {
    varint::varint_bytes(header_len(code_bytes(vs).len()) as u64) + code_bytes(vs) + bodies(vs)
}

/// Whether there is a record of a row of values: type codes and the length of
/// the header have 64 bits.
pub open spec fn record_fits(vs: Seq<ValueModel>) -> bool {
    &&& forall|i: int| 0 <= i < vs.len() ==> type_code(#[trigger] vs[i]) <= u64::MAX
    &&& code_bytes(vs).len() + 9 <= u64::MAX
}

/// A value reads back from its type code and its bytes.
proof fn lemma_value_reads_back(m: ValueModel)
    requires
        value::is_value(m),
    ensures
        decoded(type_code(m), body_bytes(m)) == Some(m),
        body_bytes(m).len() == body_len(type_code(m)),
{
    bigendian::lemma_spans();
    match m {
        ValueModel::Integer(i) => {
            if i != 0 && i != 1 {
                bigendian::lemma_signed_reads_back(i as int, body_len(type_code(m)));
            }
        },
        ValueModel::Float(bits) => {
            bigendian::lemma_worth_of_low_bytes(bits as nat, 8);
            bigendian::lemma_low_bytes_len(bits as nat, 8);
        },
        ValueModel::Text(s) => {
            vstd::utf8::encode_utf8_valid_utf8(s);
            vstd::utf8::encode_utf8_decode_utf8(s);
        },
        _ => {},
    }
}

/// The items of the type codes and bytes of values are those values.
proof fn lemma_items_read_back(vs: Seq<ValueModel>)
    requires
        forall|i: int| 0 <= i < vs.len() ==> value::is_value(#[trigger] vs[i]),
        forall|i: int| 0 <= i < vs.len() ==> type_code(#[trigger] vs[i]) <= u64::MAX,
    ensures
        items(code_bytes(vs), bodies(vs)) == Seq::new(vs.len(), |i: int| Some(vs[i])),
    decreases vs.len(),
{
    let expected = Seq::new(vs.len(), |i: int| Some(vs[i]));
    if vs.len() == 0 {
        assert(items(code_bytes(vs), bodies(vs)) =~= expected);
    } else {
        let m = vs[0];
        let rest = vs.skip(1);
        assert forall|i: int| 0 <= i < rest.len() implies value::is_value(#[trigger] rest[i])
            && type_code(rest[i]) <= u64::MAX by {
            assert(rest[i] == vs[i + 1]);
        }
        lemma_items_read_back(rest);
        lemma_value_reads_back(m);
        let code = type_code(m);
        let head = varint::varint_bytes(code as u64);
        varint::lemma_varint_reads_back(code as u64, code_bytes(rest));
        assert((head + code_bytes(rest)).skip(head.len() as int) =~= code_bytes(rest));
        let body = body_bytes(m) + bodies(rest);
        assert(body.take(body_len(code) as int) =~= body_bytes(m));
        assert(body.skip(body_len(code) as int) =~= bodies(rest));
        assert(items(code_bytes(vs), bodies(vs)) =~= expected);
    }
}

/// The number of bytes of an integer does not shrink as the integer grows.
proof fn lemma_varint_len_grows(a: u64, b: u64)
    requires
        a <= b,
    ensures
        varint::varint_bytes(a).len() <= varint::varint_bytes(b).len(),
{
    varint::lemma_varint_len(a);
    varint::lemma_varint_len(b);
    if b < 0x100_0000_0000_0000 {
        varint::lemma_marked_count_grows((a / 128) as nat, (b / 128) as nat);
    } else if a < 0x100_0000_0000_0000 {
        varint::lemma_varint_reads_back(a, Seq::empty());
    }
}

/// The length of a header counts exactly the bytes that it takes to write it.
pub proof fn lemma_header_len(n: nat, k: nat)
    requires
        n + 9 <= u64::MAX,
        1 <= k <= 9,
        k <= varint::varint_bytes((n + k) as u64).len(),
    ensures
        header_len_from(n, k) <= n + 9,
        header_len_from(n, k) == n + varint::varint_bytes(header_len_from(n, k) as u64).len(),
    decreases 9 - k,
{
    varint::lemma_varint_reads_back((n + k) as u64, Seq::empty());
    if k < 9 && varint::varint_bytes((n + k) as u64).len() > k {
        lemma_varint_len_grows((n + k) as u64, (n + k + 1) as u64);
        lemma_header_len(n, k + 1);
    }
}

/// The values of the record of a row of values are those values.
pub proof fn law_record_reads_back(vs: Seq<ValueModel>)
    requires
        forall|i: int| 0 <= i < vs.len() ==> value::is_value(#[trigger] vs[i]),
        record_fits(vs),
    ensures
        record_values(record_bytes(vs)) == Some(vs),
{
    let codes = code_bytes(vs);
    let body = bodies(vs);
    let size = header_len(codes.len());
    varint::lemma_varint_reads_back((codes.len() + 1) as u64, Seq::empty());
    lemma_header_len(codes.len(), 1);
    let head = varint::varint_bytes(size as u64);
    let b = record_bytes(vs);
    assert(b =~= head + (codes + body));
    varint::lemma_varint_reads_back(size as u64, codes + body);
    assert(b.subrange(head.len() as int, size as int) =~= codes);
    assert(b.skip(size as int) =~= body);
    lemma_items_read_back(vs);
    let s = items(codes, body);
    assert(record_items(b) == Some(s));
    assert(Seq::new(s.len(), |i: int| s[i]->0) =~= vs);
}

/// `String::from_utf8` gives the text that the bytes are the UTF-8 of, and fails
/// exactly on bytes that are no UTF-8.
#[verifier::external_body]
fn decode_text(bytes: Vec<u8>) -> (r: Option<String>)
    ensures
        r is Some <==> valid_utf8(bytes@),
        r matches Some(s) ==> s@ == decode_utf8(bytes@),
{
    String::from_utf8(bytes).ok()
}

/// Walks through the items of a record.
pub struct ValueIterator<'a> {
    codes: &'a [u8],
    body: &'a [u8],
}

impl<'a> ValueIterator<'a> {
    /// The items still to come.
    pub closed spec fn view(&self) -> Seq<Option<ValueModel>> {
        items(self.codes@, self.body@)
    }

    /// Starts at the first item of a record.
    pub fn new(payload: &'a [u8]) -> (r: Result<ValueIterator<'a>, LimboError>)
        ensures
            match r {
                Ok(it) => record_items(payload@) == Some(it@),
                Err(e) => record_items(payload@) is None && e@ is Corrupt,
            },
    {
        match varint::read_varint(payload) {
            Some((size, n)) => {
                if size < n as u64 || size > payload.len() as u64 {
                    return Err(LimboError::Corrupt);
                }
                let end: usize = size as usize;
                let codes = vstd::slice::slice_subrange(payload, n, end);
                let body = vstd::slice::slice_subrange(payload, end, payload.len());
                assert(body@ =~= payload@.skip(end as int));
                Ok(ValueIterator { codes, body })
            },
            None => Err(LimboError::Corrupt),
        }
    }

    /// Goes on to the next item.
    pub fn next(&mut self) -> (r: Option<Result<Value, LimboError>>)
        ensures
            match r {
                None => old(self)@.len() == 0 && final(self)@ == old(self)@,
                Some(item) => {
                    &&& old(self)@.len() > 0
                    &&& final(self)@ == old(self)@.skip(1)
                    &&& match item {
                        Ok(v) => old(self)@[0] == Some(v@),
                        Err(e) => old(self)@[0] is None && e@ is Corrupt,
                    }
                },
            },
    {
        if self.codes.len() == 0 {
            return None;
        }
        match varint::read_varint(self.codes) {
            None => {
                let end: usize = self.codes.len();
                self.codes = vstd::slice::slice_subrange(self.codes, end, end);
                assert(self@ =~= old(self)@.skip(1));
                Some(Err(LimboError::Corrupt))
            },
            Some((code, n)) => {
                let codes = vstd::slice::slice_subrange(self.codes, n, self.codes.len());
                assert(codes@ =~= self.codes@.skip(n as int));
                self.codes = codes;
                let len = code_len(code);
                if len > self.body.len() as u64 {
                    assert(self@ =~= old(self)@.skip(1));
                    return Some(Err(LimboError::Corrupt));
                }
                let end: usize = len as usize;
                let mine = vstd::slice::slice_subrange(self.body, 0, end);
                let rest = vstd::slice::slice_subrange(self.body, end, self.body.len());
                assert(mine@ =~= self.body@.take(end as int));
                assert(rest@ =~= self.body@.skip(end as int));
                self.body = rest;
                assert(self@ =~= old(self)@.skip(1));
                Some(decode(code, mine))
            },
        }
    }

    /// The number of items still to come.
    pub fn count(self) -> (r: usize)
        ensures
            r == self@.len(),
    {
        let mut rest = self;
        let mut r: usize = 0;
        let ghost total = self@;
        proof {
            lemma_items_count(self.codes@, self.body@);
            assert(self.codes.len() <= usize::MAX);
        }
        while rest.codes.len() > 0
            invariant
                r + rest@.len() == total.len(),
                total.len() <= usize::MAX,
            decreases rest@.len(),
        {
            let _ = rest.next();
            r = r + 1;
        }
        r
    }
}

/// There are no more items than can be counted.
pub proof fn lemma_items_fit(it: &ValueIterator)
    ensures
        it@.len() <= usize::MAX,
{
    lemma_items_count(it.codes@, it.body@);
    assert(it.codes.len() <= usize::MAX);
}

/// Each item takes a byte of the type codes at least.
proof fn lemma_items_count(codes: Seq<u8>, body: Seq<u8>)
    ensures
        items(codes, body).len() <= codes.len(),
        codes.len() > 0 ==> items(codes, body).len() > 0,
    decreases codes.len(),
{
    if codes.len() > 0 {
        if let Some((code, n)) = varint::varint_at(codes) {
            if 0 < n <= codes.len() {
                let rest = codes.skip(n as int);
                lemma_items_count(rest, body.skip(body_len(code) as int));
                lemma_items_count(rest, body);
            }
        }
    }
}

/// The number of bytes that a type code stands for.
fn code_len(code: u64) -> (r: u64)
    ensures
        r == body_len(code as nat),
{
    if code >= 12 {
        (code - 12) / 2
    } else if code == 5 {
        6
    } else if code == 6 || code == 7 {
        8
    } else if code <= 4 {
        code
    } else {
        0
    }
}

/// Makes a value of its type code and its bytes.
fn decode(code: u64, s: &[u8]) -> (r: Result<Value, LimboError>)
    requires
        s@.len() == body_len(code as nat),
    ensures
        match r {
            Ok(v) => decoded(code as nat, s@) == Some(v@),
            Err(e) => decoded(code as nat, s@) is None && e@ is Corrupt,
        },
{
    if code == 0 {
        Ok(Value::Null)
    } else if code <= 6 {
        Ok(Value::from_i64(bigendian::read_signed(s)))
    } else if code == 7 {
        Ok(Value::from_float_bits(bigendian::read_unsigned(s)))
    } else if code == 8 {
        Ok(Value::from_i64(0))
    } else if code == 9 {
        Ok(Value::from_i64(1))
    } else if code < 12 {
        Err(LimboError::Corrupt)
    } else if code % 2 == 0 {
        Ok(Value::from_slice(s))
    } else {
        match decode_text(vstd::slice::slice_to_vec(s)) {
            Some(t) => Ok(Value::Text(t)),
            None => Err(LimboError::Corrupt),
        }
    }
}

/// The values of a record. Fails where the bytes are no record.
pub fn array_values_from_blob(blob: &[u8]) -> (r: Result<Vec<Value>, LimboError>)
    ensures
        match r {
            Ok(vs) => record_values(blob@) == Some(value::models(vs@)),
            Err(e) => record_values(blob@) is None && e@ is Corrupt,
        },
{
    let mut rest = match ValueIterator::new(blob) {
        Ok(it) => it,
        Err(e) => return Err(e),
    };
    let ghost all = rest@;
    let mut values: Vec<Value> = Vec::new();
    loop
        invariant
            record_items(blob@) == Some(all),
            values@.len() + rest@.len() == all.len(),
            rest@ == all.skip(values@.len() as int),
            forall|i: int| 0 <= i < values@.len() ==> all[i] == Some((#[trigger] values@[i])@),
        decreases rest@.len(),
    {
        let ghost before = rest@;
        match rest.next() {
            None => {
                proof {
                    assert forall|i: int| 0 <= i < all.len() implies (#[trigger] all[i]) is Some by {
                        assert(all[i] == Some(values@[i]@));
                    }
                    assert(Seq::new(all.len(), |i: int| all[i]->0) =~= value::models(values@));
                }
                return Ok(values);
            },
            Some(Err(e)) => {
                assert(all[values@.len() as int] == before[0]);
                return Err(e);
            },
            Some(Ok(v)) => {
                assert(all[values@.len() as int] == before[0]);
                assert(before.skip(1) =~= all.skip(values@.len() as int + 1));
                values.push(v);
            },
        }
    }
}

/// The type code of an integer.
fn code_of_integer(i: i64) -> (r: u64)
    ensures
        r == integer_code(i as int),
{
    if i == 0 {
        8
    } else if i == 1 {
        9
    } else if -0x80 <= i && i < 0x80 {
        1
    } else if -0x8000 <= i && i < 0x8000 {
        2
    } else if -0x80_0000 <= i && i < 0x80_0000 {
        3
    } else if -0x8000_0000 <= i && i < 0x8000_0000 {
        4
    } else if -0x8000_0000_0000 <= i && i < 0x8000_0000_0000 {
        5
    } else {
        6
    }
}

/// The type code and the bytes of a value; no code where 64 bits have no room
/// for it.
fn encode(v: &Value) -> (r: (Option<u64>, Vec<u8>))
    ensures
        match r.0 {
            Some(code) => code == type_code(v@),
            None => type_code(v@) > u64::MAX,
        },
        r.1@ == body_bytes(v@),
        value::is_value(v@),
{
    match v {
        Value::Null => (Some(0), Vec::new()),
        Value::Numeric(Numeric::Integer(i)) => {
            let code = code_of_integer(*i);
            if code >= 8 {
                (Some(code), Vec::new())
            } else {
                proof {
                    bigendian::lemma_spans();
                }
                (Some(code), bigendian::write_signed(*i, code_len(code) as u8))
            }
        },
        Value::Numeric(Numeric::Float(x)) => (
            Some(7),
            bigendian::write_unsigned(x.bits() as u128, 8),
        ),
        Value::Text(s) => {
            let bytes = vstd::slice::slice_to_vec(s.as_str().as_bytes());
            let len: u64 = bytes.len() as u64;
            if len > (u64::MAX - 13) / 2 {
                (None, bytes)
            } else {
                (Some(13 + 2 * len), bytes)
            }
        },
        Value::Blob(b) => {
            let bytes = vstd::slice::slice_to_vec(b.as_slice());
            let len: u64 = bytes.len() as u64;
            if len > (u64::MAX - 12) / 2 {
                (None, bytes)
            } else {
                (Some(12 + 2 * len), bytes)
            }
        },
    }
}

pub proof fn lemma_one_more(vs: Seq<ValueModel>, m: ValueModel)
    ensures
        code_bytes(vs.push(m)) == code_bytes(vs) + varint::varint_bytes(type_code(m) as u64),
        bodies(vs.push(m)) == bodies(vs) + body_bytes(m),
    decreases vs.len(),
{
    let all = vs.push(m);
    if vs.len() == 0 {
        assert(code_bytes(all.skip(1)) =~= Seq::<u8>::empty());
        assert(bodies(all.skip(1)) =~= Seq::<u8>::empty());
        assert(code_bytes(all) =~= code_bytes(vs) + varint::varint_bytes(type_code(m) as u64));
        assert(bodies(all) =~= bodies(vs) + body_bytes(m));
    } else {
        lemma_one_more(vs.skip(1), m);
        assert(all.skip(1) =~= vs.skip(1).push(m));
        assert(code_bytes(all) =~= code_bytes(vs) + varint::varint_bytes(type_code(m) as u64));
        assert(bodies(all) =~= bodies(vs) + body_bytes(m));
    }
}

/// What packing a row of values gives.
pub open spec fn packed(vs: Seq<ValueModel>) -> Result<ValueModel, ErrorModel> {
    if record_fits(vs) {
        Ok(ValueModel::Blob(record_bytes(vs)))
    } else {
        Err(ErrorModel::TooBig)
    }
}

/// The contents of an answer.
pub open spec fn answer(r: Result<Value, LimboError>) -> Result<ValueModel, ErrorModel> {
    match r {
        Ok(v) => Ok(v@),
        Err(e) => Err(e@),
    }
}

/// Packs values into a record.
pub fn values_to_record_blob(values: &[Value]) -> (r: Result<Value, LimboError>)
    ensures
        answer(r) == packed(value::models(values@)),
        r matches Ok(Value::Blob(b)) ==> record_values(b@) == Some(value::models(values@)),
{
    let ghost vs = value::models(values@);
    let mut codes: Vec<u8> = Vec::new();
    let mut body: Vec<u8> = Vec::new();
    assert(vs.take(0) =~= Seq::<ValueModel>::empty());
    for i in 0..values.len()
        invariant
            vs == value::models(values@),
            codes@ == code_bytes(vs.take(i as int)),
            body@ == bodies(vs.take(i as int)),
            forall|j: int| 0 <= j < i ==> type_code(#[trigger] vs[j]) <= u64::MAX,
            forall|j: int| 0 <= j < i ==> value::is_value(#[trigger] vs[j]),
    {
        let (code, mut bytes) = encode(&values[i]);
        proof {
            assert(vs.take(i + 1) =~= vs.take(i as int).push(vs[i as int]));
            lemma_one_more(vs.take(i as int), vs[i as int]);
        }
        match code {
            Some(code) => {
                let mut more = varint::write_varint(code);
                codes.append(&mut more);
                body.append(&mut bytes);
            },
            None => {
                assert(type_code(vs[i as int]) > u64::MAX);
                return Err(LimboError::TooBig);
            },
        }
    }
    assert(vs.take(vs.len() as int) =~= vs);
    let n: u64 = codes.len() as u64;
    if n > u64::MAX - 9 {
        return Err(LimboError::TooBig);
    }
    let mut k: u64 = 1;
    while k < 9 && varint::write_varint(n + k).len() as u64 > k
        invariant
            n <= u64::MAX - 9,
            1 <= k <= 9,
            header_len(n as nat) == header_len_from(n as nat, k as nat),
        decreases 9 - k,
    {
        k = k + 1;
    }
    let mut out = varint::write_varint(n + k);
    out.append(&mut codes);
    out.append(&mut body);
    proof {
        assert(out@ =~= record_bytes(vs));
        law_record_reads_back(vs);
    }
    Ok(Value::Blob(out))
}

} // verus!
