//! What holds of records and their bytes.

use vstd::arithmetic::power::{lemma_pow0, lemma_pow1, lemma_pow_positive, pow};
use vstd::prelude::*;
use vstd::utf8::{decode_utf8, encode_utf8, valid_utf8};

use crate::bigendian;
use crate::error::ErrorModel;
use crate::floats;
use crate::record;
use crate::value::ValueModel;
use crate::varint;

verus! {

/// The number that bytes are worth by their places, the highest first.
pub open spec fn place_value(s: Seq<u8>) -> int {
    s.fold_left(0int, |worth: int, b: u8| 256 * worth + b)
}

/// An integer below 128 takes one byte. A larger one below `2` to the power of
/// `56` takes one byte more than it does without its lowest seven bits, which are
/// in the last; all bytes but the last are marked by their top bit. The largest
/// take nine, of which the last holds eight bits.
pub proof fn law_varints(v: u64)
    ensures
        v < 128 ==> varint::varint_bytes(v) == seq![v as u8],
        128 <= v < 0x100_0000_0000_0000 ==> {
            let high = varint::varint_bytes(v / 128);
            varint::varint_bytes(v) == high.drop_last() + seq![
                (high.last() + 128) as u8,
                (v % 128) as u8,
            ]
        },
        v >= 0x100_0000_0000_0000 ==> {
            let t = varint::varint_bytes(v);
            &&& t.len() == 9
            &&& t[8] == (v % 256) as u8
            &&& forall|k: int|
                0 <= k < 8 ==> #[trigger] t[k] == 128 + (v as int / 256) / pow(128, (7 - k) as nat)
                    % 128
        },
{
    if v < 128 {
        assert(varint::marked_bytes(0, 0) =~= Seq::<u8>::empty());
        assert(varint::varint_bytes(v) =~= seq![v as u8]);
    } else if v < 0x100_0000_0000_0000 {
        let u = v / 128;
        let (x, y) = ((v / 128) as nat, (u / 128) as nat);
        let high = varint::varint_bytes(u);
        let front = varint::marked_bytes(y, varint::marked_count(y));
        assert(x / 128 == y);
        assert(varint::marked_count(x) == varint::marked_count(y) + 1);
        assert(varint::marked_bytes(x, varint::marked_count(x)) == front.push(
            (128 + x % 128) as u8,
        ));
        assert(high == front.push((u % 128) as u8));
        assert(high.drop_last() =~= front);
        assert(varint::varint_bytes(v) =~= high.drop_last() + seq![
            (high.last() + 128) as u8,
            (v % 128) as u8,
        ]);
    } else {
        let x = (v / 256) as nat;
        let t = varint::varint_bytes(v);
        lemma_marked(x, 8);
        assert forall|k: int| 0 <= k < 8 implies #[trigger] t[k] == 128 + (v as int / 256) / pow(
            128,
            (7 - k) as nat,
        ) % 128 by {
            assert(t[k] == varint::marked_bytes(x, 8)[k]);
        }
    }
}

proof fn lemma_marked(x: nat, n: nat)
    ensures
        varint::marked_bytes(x, n).len() == n,
        forall|k: int|
            0 <= k < n ==> #[trigger] varint::marked_bytes(x, n)[k] == 128 + x as int / pow(
                128,
                (n - 1 - k) as nat,
            ) % 128,
    decreases n,
{
    if n > 0 {
        let m = (n - 1) as nat;
        lemma_marked(x / 128, m);
        let all = varint::marked_bytes(x, n);
        assert forall|k: int| 0 <= k < n implies #[trigger] all[k] == 128 + x as int / pow(
            128,
            (n - 1 - k) as nat,
        ) % 128 by {
            if k < m {
                let e = (m - 1 - k) as nat;
                assert(all[k] == varint::marked_bytes(x / 128, m)[k]);
                lemma_pow_positive(128, e);
                vstd::arithmetic::div_mod::lemma_div_denominator(x as int, 128, pow(128, e));
                vstd::arithmetic::power::lemma_pow_adds(128, 1, e);
                lemma_pow1(128);
            } else {
                lemma_pow0(128);
            }
        }
    }
}

/// The bytes of a whole number, each by its place.
proof fn lemma_low(x: nat, n: nat)
    ensures
        bigendian::low_bytes(x, n).len() == n,
        forall|k: int|
            0 <= k < n ==> #[trigger] bigendian::low_bytes(x, n)[k] == x as int / pow(
                256,
                (n - 1 - k) as nat,
            ) % 256,
    decreases n,
{
    if n > 0 {
        let m = (n - 1) as nat;
        lemma_low(x / 256, m);
        let all = bigendian::low_bytes(x, n);
        assert forall|k: int| 0 <= k < n implies #[trigger] all[k] == x as int / pow(
            256,
            (n - 1 - k) as nat,
        ) % 256 by {
            if k < m {
                let e = (m - 1 - k) as nat;
                assert(all[k] == bigendian::low_bytes(x / 256, m)[k]);
                lemma_pow_positive(256, e);
                vstd::arithmetic::div_mod::lemma_div_denominator(x as int, 256, pow(256, e));
                vstd::arithmetic::power::lemma_pow_adds(256, 1, e);
                lemma_pow1(256);
            } else {
                lemma_pow0(256);
            }
        }
    }
}

proof fn lemma_span(n: nat)
    ensures
        bigendian::span(n) == pow(256, n),
    decreases n,
{
    if n == 0 {
        lemma_pow0(256);
    } else {
        lemma_span((n - 1) as nat);
        vstd::arithmetic::power::lemma_pow_adds(256, 1, (n - 1) as nat);
        lemma_pow1(256);
    }
}

/// Adding what all bytes can hold does not change any of them.
proof fn lemma_wrapped(i: int, n: nat, e: nat)
    requires
        e < n,
    ensures
        (i + pow(256, n)) / pow(256, e) % 256 == i / pow(256, e) % 256,
{
    let p = pow(256, e);
    let d = (n - e - 1) as nat;
    let q = pow(256, d);
    lemma_pow_positive(256, e);
    vstd::arithmetic::power::lemma_pow_adds(256, e, (d + 1) as nat);
    vstd::arithmetic::power::lemma_pow_adds(256, 1, d);
    lemma_pow1(256);
    assert(pow(256, n) == p * (256 * q));
    vstd::arithmetic::div_mod::lemma_hoist_over_denominator(i, 256 * q, p as nat);
    assert(p * (256 * q) == (256 * q) * p) by (nonlinear_arith);
    vstd::arithmetic::div_mod::lemma_mod_multiples_vanish(q, i / p, 256);
}

/// The type code of a value and the number of its bytes: NULL, zero and one take
/// none; other integers as few bytes of one, two, three, four, six and eight as
/// hold them; floating-point numbers eight; texts and blobs as many as they have,
/// which their codes tell.
pub proof fn law_type_codes(m: ValueModel)
    ensures
        m is Null ==> record::type_code(m) == 0,
        m matches ValueModel::Integer(i) ==> record::type_code(m) == if i == 0 {
            8nat
        } else if i == 1 {
            9
        } else if -128 <= i < 128 {
            1
        } else if -32_768 <= i < 32_768 {
            2
        } else if -8_388_608 <= i < 8_388_608 {
            3
        } else if -2_147_483_648 <= i < 2_147_483_648 {
            4
        } else if -140_737_488_355_328 <= i < 140_737_488_355_328 {
            5
        } else {
            6
        },
        m is Float ==> record::type_code(m) == 7,
        m matches ValueModel::Text(s) ==> record::type_code(m) == 13 + 2 * encode_utf8(s).len(),
        m matches ValueModel::Blob(b) ==> record::type_code(m) == 12 + 2 * b.len(),
{
}

/// The bytes of an integer and of a floating-point number are those of its two's
/// complement and of its bits, the highest first; texts are their UTF-8, and blobs
/// what they are.
pub proof fn law_value_bytes(m: ValueModel, k: int)
    ensures
        m is Null ==> record::body_bytes(m).len() == 0,
        m matches ValueModel::Integer(i) ==> {
            let n = record::body_bytes(m).len();
            &&& n == if i == 0 || i == 1 {
                0nat
            } else if -128 <= i < 128 {
                1
            } else if -32_768 <= i < 32_768 {
                2
            } else if -8_388_608 <= i < 8_388_608 {
                3
            } else if -2_147_483_648 <= i < 2_147_483_648 {
                4
            } else if -140_737_488_355_328 <= i < 140_737_488_355_328 {
                6
            } else {
                8
            }
            &&& 0 <= k < n ==> record::body_bytes(m)[k] == i as int / pow(256, (n - 1 - k) as nat)
                % 256
        },
        m matches ValueModel::Float(bits) ==> {
            &&& record::body_bytes(m).len() == 8
            &&& 0 <= k < 8 ==> record::body_bytes(m)[k] == bits as int / pow(256, (7 - k) as nat)
                % 256
        },
        m matches ValueModel::Text(s) ==> record::body_bytes(m) == encode_utf8(s),
        m matches ValueModel::Blob(b) ==> record::body_bytes(m) == b,
{
    match m {
        ValueModel::Integer(i) => {
            let n = record::body_len(record::integer_code(i as int));
            bigendian::lemma_spans();
            lemma_span(n);
            if i >= 0 {
                lemma_low(i as nat, n);
            } else {
                lemma_low((i + bigendian::span(n)) as nat, n);
                if 0 <= k < n {
                    lemma_wrapped(i as int, n, (n - 1 - k) as nat);
                }
            }
        },
        ValueModel::Float(bits) => {
            lemma_low(bits as nat, 8);
        },
        _ => {},
    }
}

/// The type codes of values, one behind the other.
pub open spec fn codes_of(vs: Seq<ValueModel>) -> Seq<u8> {
    vs.fold_left(
        Seq::<u8>::empty(),
        |done: Seq<u8>, m: ValueModel| done + varint::varint_bytes(record::type_code(m) as u64),
    )
}

/// The bytes of values, one behind the other.
pub open spec fn bytes_of(vs: Seq<ValueModel>) -> Seq<u8> {
    vs.fold_left(
        Seq::<u8>::empty(),
        |done: Seq<u8>, m: ValueModel| done + record::body_bytes(m),
    )
}

proof fn lemma_codes(vs: Seq<ValueModel>)
    ensures
        record::code_bytes(vs) == codes_of(vs),
        record::bodies(vs) == bytes_of(vs),
    decreases vs.len(),
{
    if vs.len() > 0 {
        lemma_codes(vs.drop_last());
        record::lemma_one_more(vs.drop_last(), vs.last());
        assert(vs.drop_last().push(vs.last()) =~= vs);
    } else {
        assert(record::code_bytes(vs) =~= Seq::<u8>::empty());
        assert(record::bodies(vs) =~= Seq::<u8>::empty());
    }
}

/// A record is the length of its header, the type codes of its values and their
/// bytes. The length counts its own bytes, which are as few as can be.
pub proof fn law_record_layout(vs: Seq<ValueModel>)
    requires
        record::packed(vs) is Ok,
    ensures
        record::packed(vs) matches Ok(ValueModel::Blob(b)) && exists|size: u64|
            {
                let head = #[trigger] varint::varint_bytes(size);
                &&& b == head + codes_of(vs) + bytes_of(vs)
                &&& size == head.len() + codes_of(vs).len()
                &&& forall|k: int|
                    0 < k < head.len() ==> (#[trigger] varint::varint_bytes(
                        (codes_of(vs).len() + k) as u64,
                    )).len() > k
            },
{
    lemma_codes(vs);
    let n = codes_of(vs).len();
    varint::lemma_varint_reads_back((n + 1) as u64, Seq::empty());
    record::lemma_header_len(n, 1);
    let size = record::header_len(n) as u64;
    let head = varint::varint_bytes(size);
    lemma_least_header(n, 1);
    assert(record::record_bytes(vs) == head + codes_of(vs) + bytes_of(vs));
}

proof fn lemma_least_header(n: nat, k: nat)
    requires
        n + 9 <= u64::MAX,
        1 <= k <= 9,
    ensures
        forall|j: int|
            k <= j < record::header_len_from(n, k) - n ==> (#[trigger] varint::varint_bytes(
                (n + j) as u64,
            )).len() > j,
    decreases 9 - k,
{
    if k < 9 && varint::varint_bytes((n + k) as u64).len() > k {
        lemma_least_header(n, k + 1);
    }
}

/// Values can be packed unless there are more of them, or more bytes in one, than
/// a machine has room for.
pub proof fn law_packs(vs: Seq<ValueModel>)
    requires
        vs.len() < 0x400_0000_0000_0000,
        forall|i: int|
            0 <= i < vs.len() ==> match #[trigger] vs[i] {
                ValueModel::Text(s) => encode_utf8(s).len() < 0x4000_0000_0000_0000,
                ValueModel::Blob(b) => b.len() < 0x4000_0000_0000_0000,
                _ => true,
            },
    ensures
        record::packed(vs) is Ok,
{
    lemma_codes_len(vs);
    assert forall|i: int| 0 <= i < vs.len() implies record::type_code(#[trigger] vs[i])
        <= u64::MAX by {}
}

proof fn lemma_codes_len(vs: Seq<ValueModel>)
    ensures
        record::code_bytes(vs).len() <= 9 * vs.len(),
    decreases vs.len(),
{
    if vs.len() > 0 {
        lemma_codes_len(vs.skip(1));
        varint::lemma_varint_reads_back(record::type_code(vs[0]) as u64, Seq::empty());
    }
}

/// What cannot be packed is refused as too big.
pub proof fn law_packed_or_too_big(vs: Seq<ValueModel>)
    ensures
        record::packed(vs) is Ok || record::packed(vs) == Err::<ValueModel, ErrorModel>(
            ErrorModel::TooBig,
        ),
{
}

/// The items of a record are read one by one: each takes its type code, and as
/// many bytes of the body as the code says.
pub proof fn law_items_one_by_one(code: u64, codes: Seq<u8>, bytes: Seq<u8>, body: Seq<u8>)
    requires
        bytes.len() == record::body_len(code as nat),
    ensures
        record::items(varint::varint_bytes(code) + codes, bytes + body) == seq![
            record::decoded(code as nat, bytes),
        ] + record::items(codes, body),
        record::items(Seq::empty(), body) == Seq::<Option<ValueModel>>::empty(),
{
    let head = varint::varint_bytes(code);
    varint::lemma_varint_reads_back(code, codes);
    assert((head + codes).skip(head.len() as int) =~= codes);
    assert((bytes + body).take(bytes.len() as int) =~= bytes);
    assert((bytes + body).skip(bytes.len() as int) =~= body);
}

/// The number of bytes that a type code stands for.
pub proof fn law_code_lengths(code: nat)
    ensures
        code == 0 || code == 8 || code == 9 || code == 10 || code == 11 ==> record::body_len(code)
            == 0,
        1 <= code <= 4 ==> record::body_len(code) == code,
        code == 5 ==> record::body_len(code) == 6,
        code == 6 || code == 7 ==> record::body_len(code) == 8,
        code >= 12 ==> record::body_len(code) == (code - 12) / 2,
{
}

proof fn lemma_worth(s: Seq<u8>)
    ensures
        bigendian::worth(s) == place_value(s),
    decreases s.len(),
{
    if s.len() > 0 {
        lemma_worth(s.drop_last());
    }
}

/// What a type code and its bytes stand for: two's complement for integers, bits
/// for floating-point numbers, which are NULL where they are no number, UTF-8 for
/// texts, and bytes for blobs. Two codes stand for nothing.
pub proof fn law_decoded(code: nat, s: Seq<u8>)
    requires
        s.len() == record::body_len(code),
    ensures
        code == 0 ==> record::decoded(code, s) == Some(ValueModel::Null),
        1 <= code <= 6 ==> (record::decoded(code, s) matches Some(ValueModel::Integer(i)) && {
            let half = pow(256, s.len()) / 2;
            i as int == if place_value(s) < half {
                place_value(s)
            } else {
                place_value(s) - pow(256, s.len())
            }
        }),
        code == 7 ==> (record::decoded(code, s) == if floats::is_nan_bits(place_value(s) as u64) {
            Some(ValueModel::Null)
        } else {
            Some(ValueModel::Float(place_value(s) as u64))
        }),
        code == 8 ==> record::decoded(code, s) == Some(ValueModel::Integer(0)),
        code == 9 ==> record::decoded(code, s) == Some(ValueModel::Integer(1)),
        code == 10 || code == 11 ==> record::decoded(code, s) is None,
        code >= 12 && code % 2 == 0 ==> record::decoded(code, s) == Some(ValueModel::Blob(s)),
        code >= 12 && code % 2 == 1 ==> record::decoded(code, s) == if valid_utf8(s) {
            Some(ValueModel::Text(decode_utf8(s)))
        } else {
            None
        },
{
    lemma_worth(s);
    lemma_span(s.len());
    bigendian::lemma_spans();
    bigendian::lemma_worth_below_span(s);
}

/// A record starts with the length of its header; bytes in which that lies behind
/// their end, or before its own, are none. Its values are its items, where all of
/// them are values.
pub proof fn law_records(size: u64, rest: Seq<u8>)
    ensures
        ({
            let head = varint::varint_bytes(size);
            let b = head + rest;
            &&& size < head.len() || size > b.len() ==> record::record_items(b) is None
            &&& head.len() <= size <= b.len() ==> record::record_items(b) == Some(
                record::items(
                    rest.take(size - head.len()),
                    rest.skip(size - head.len()),
                ),
            )
        }),
{
    let head = varint::varint_bytes(size);
    let b = head + rest;
    varint::lemma_varint_reads_back(size, rest);
    if head.len() <= size <= b.len() {
        assert(b.subrange(head.len() as int, size as int) =~= rest.take(size - head.len()));
        assert(b.skip(size as int) =~= rest.skip(size - head.len()));
    }
}

/// Bytes are an array just where they are a record and each item is a value, and
/// its elements are these.
pub proof fn law_record_values(b: Seq<u8>)
    ensures
        match (record::record_items(b), record::record_values(b)) {
            (Some(items), Some(vs)) => items.len() == vs.len() && forall|i: int|
                0 <= i < vs.len() ==> #[trigger] items[i] == Some(vs[i]),
            (Some(items), None) => exists|i: int|
                0 <= i < items.len() && (#[trigger] items[i]) is None,
            (None, vs) => vs is None,
        },
{
}

} // verus!
