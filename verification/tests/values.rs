use pgarray::bigendian::{read_signed, read_unsigned, write_signed, write_unsigned};
use pgarray::error::LimboError;
use pgarray::floats::{is_finite, is_nan, is_whole, order_floats, order_integer_float};
use pgarray::floats::{FloatStyle, FloatText};
use pgarray::numerals::{hex_digit, read_integer, write_decimal, write_integer};
use pgarray::order::Order;
use pgarray::ordered::ValueSet;
use pgarray::text::{ascii_white, chars_of, control, null_word, split, string_of, trim, white};
use pgarray::value::{NonNan, Numeric, Value};
use pgarray::varint::{read_varint, write_varint};

fn floats() -> FloatText<impl Fn(&str) -> Option<u64>, impl Fn(u64, FloatStyle) -> String> {
    FloatText::new(
        |s: &str| s.parse::<f64>().ok().map(f64::to_bits),
        |bits: u64, style: FloatStyle| match style {
            FloatStyle::Bare => format!("{}", f64::from_bits(bits)),
            FloatStyle::OnePlace => format!("{:.1}", f64::from_bits(bits)),
            FloatStyle::Printed => format!("{:?}", f64::from_bits(bits)),
        },
    )
}

fn number(i: i64) -> Value {
    Value::from_i64(i)
}

fn text(s: &str) -> Value {
    Value::build_text(s)
}

fn float(x: f64) -> Value {
    Value::from_float_bits(x.to_bits())
}

fn chars(s: &str) -> Vec<char> {
    s.chars().collect()
}

const SAMPLES: [f64; 22] = [
    0.0,
    -0.0,
    1.0,
    -1.0,
    0.5,
    -0.5,
    1.5,
    2.5,
    1e15,
    9007199254740991.0,
    9007199254740992.0,
    9223372036854775807.0,
    -9223372036854775808.0,
    1e300,
    -1e300,
    f64::MIN_POSITIVE,
    5e-324,
    f64::MAX,
    f64::MIN,
    f64::INFINITY,
    f64::NEG_INFINITY,
    123456.789,
];

fn std_order(o: std::cmp::Ordering) -> Order {
    match o {
        std::cmp::Ordering::Less => Order::Less,
        std::cmp::Ordering::Equal => Order::Equal,
        std::cmp::Ordering::Greater => Order::Greater,
    }
}

#[test]
fn floats_are_classified_by_their_bits() {
    for x in SAMPLES {
        assert!(!is_nan(x.to_bits()));
        assert_eq!(is_finite(x.to_bits()), x.is_finite());
        assert_eq!(is_whole(x.to_bits()), x.is_finite() && x.fract() == 0.0);
    }
    assert!(is_nan(f64::NAN.to_bits()));
    assert!(!is_finite(f64::NAN.to_bits()));
    assert!(!is_whole(f64::NAN.to_bits()));
}

#[test]
fn floats_are_ordered_by_their_bits() {
    for x in SAMPLES {
        for y in SAMPLES {
            let expected = std_order(x.partial_cmp(&y).unwrap());
            assert_eq!(order_floats(x.to_bits(), y.to_bits()), expected);
        }
    }
}

#[test]
fn integers_and_floats_are_ordered_exactly() {
    assert_eq!(order_integer_float(1, 1.0f64.to_bits()), Order::Equal);
    assert_eq!(order_integer_float(1, 1.5f64.to_bits()), Order::Less);
    assert_eq!(order_integer_float(-1, (-1.5f64).to_bits()), Order::Greater);
    assert_eq!(order_integer_float(0, (-0.0f64).to_bits()), Order::Equal);
    // 2 to the power of 63 is one more than the largest integer.
    assert_eq!(order_integer_float(i64::MAX, 9223372036854775808.0f64.to_bits()), Order::Less);
    assert_eq!(order_integer_float(i64::MIN, (-9223372036854775808.0f64).to_bits()), Order::Equal);
    assert_eq!(order_integer_float(9007199254740993, 9007199254740992.0f64.to_bits()), Order::Greater);
    assert_eq!(order_integer_float(i64::MAX, f64::INFINITY.to_bits()), Order::Less);
    assert_eq!(order_integer_float(i64::MIN, f64::NEG_INFINITY.to_bits()), Order::Greater);
    assert_eq!(order_integer_float(0, 5e-324f64.to_bits()), Order::Less);
}

#[test]
fn no_value_holds_what_is_no_number() {
    assert!(NonNan::new(f64::NAN.to_bits()).is_none());
    assert_eq!(NonNan::new(2.5f64.to_bits()).unwrap().bits(), 2.5f64.to_bits());
    assert_eq!(Value::from_float_bits(f64::NAN.to_bits()), Value::Null);
}

#[test]
fn values_are_ordered_by_type_and_then_by_contents() {
    let rising = [
        Value::Null,
        float(f64::NEG_INFINITY),
        number(-3),
        float(-2.5),
        number(0),
        float(0.25),
        number(7),
        text(""),
        text("a"),
        text("ab"),
        text("b"),
        text("é"),
        Value::from_slice(&[]),
        Value::from_slice(&[0]),
        Value::from_slice(&[0, 1]),
        Value::from_slice(&[255]),
    ];
    for (i, x) in rising.iter().enumerate() {
        for (j, y) in rising.iter().enumerate() {
            assert_eq!(x.order(y), std_order(i.cmp(&j)));
            assert_eq!(x.same(y), i == j);
            assert_eq!(x == y, i == j);
        }
    }
    assert_eq!(number(1), float(1.0));
    assert_eq!(float(0.0), float(-0.0));
    assert_ne!(number(1), text("1"));
    assert_eq!(Numeric::Integer(2).order(&Numeric::Integer(3)), Order::Less);
}

#[test]
fn values_print_their_contents() {
    let floats = floats();
    assert_eq!(Value::Null.print(&floats), "");
    assert_eq!(number(-42).print(&floats), "-42");
    assert_eq!(float(2.5).print(&floats), "2.5");
    assert_eq!(text("a b").print(&floats), "a b");
    assert_eq!(Value::from_slice(b"abc").print(&floats), "abc");
}

#[test]
fn blobs_print_with_replacement_characters() {
    let blob = Value::from_slice(&[0x61, 0xff, 0x62]);
    assert_eq!(blob.print(&floats()), "a\u{fffd}b");
}

#[test]
fn a_clone_is_the_same_value() {
    for v in [Value::Null, number(3), float(0.5), text("x"), Value::from_slice(&[1, 2])] {
        assert_eq!(v.clone(), v);
        assert!(!v.is_null() || v == Value::Null);
    }
}

#[test]
fn errors_have_texts() {
    assert_eq!(LimboError::Constraint("no".to_string()).message(), "no");
    assert_eq!(LimboError::Corrupt.message(), "malformed record");
    assert_eq!(LimboError::TooBig.message(), "record too big");
}

#[test]
fn character_classes_are_those_of_unicode() {
    for c in '\u{0}'..=char::MAX {
        assert_eq!(white(c), c.is_whitespace(), "{c:?}");
        assert_eq!(control(c), c.is_control(), "{c:?}");
        assert_eq!(ascii_white(c), c.is_ascii_whitespace(), "{c:?}");
    }
}

#[test]
fn texts_are_trimmed_on_both_sides() {
    for s in ["", " ", "a", "  a b ", "\u{3000}x\u{85}", "\t\n", "x\u{200b}", "\u{200b} "] {
        assert_eq!(string_of(trim(&chars(s))), s.trim());
        assert_eq!(string_of(&chars_of(s)), s);
    }
}

#[test]
fn texts_are_split_as_std_splits_them() {
    for (s, d) in [
        ("a,b,,c", ","),
        ("", ","),
        (",", ","),
        ("aaaa", "aa"),
        ("aaaaa", "aa"),
        ("abab", "ba"),
        ("x--y-z", "--"),
        ("é, ü", ", "),
        ("abc", "abcd"),
    ] {
        let parts: Vec<String> = split(&chars(s), &chars(d)).iter().map(|p| string_of(p)).collect();
        let expected: Vec<&str> = s.split(d).collect();
        assert_eq!(parts, expected);
    }
}

#[test]
fn the_null_word_has_any_case() {
    for s in ["null", "NULL", "Null", "nULl"] {
        assert!(null_word(&chars(s)));
    }
    for s in ["", "nul", "nulls", "nuli", "ınull"] {
        assert!(!null_word(&chars(s)));
    }
}

#[test]
fn integers_are_read_as_std_reads_them() {
    for s in [
        "",
        "0",
        "+",
        "-",
        "+1",
        "-1",
        "--1",
        "+-1",
        "007",
        "9223372036854775807",
        "9223372036854775808",
        "-9223372036854775808",
        "-9223372036854775809",
        "99999999999999999999999999",
        "00000000000000000000000000000001",
        "1 ",
        " 1",
        "1a",
        "١",
        "1_000",
        "1.0",
    ] {
        assert_eq!(read_integer(&chars(s)), s.parse::<i64>().ok(), "{s:?}");
    }
}

#[test]
fn integers_are_written_as_std_writes_them() {
    for i in [0, 1, -1, 9, 10, -10, 12345, i64::MAX, i64::MIN, i64::MIN + 1] {
        assert_eq!(string_of(&write_integer(i)), i.to_string());
        assert_eq!(read_integer(&write_integer(i)), Some(i));
    }
    assert_eq!(string_of(&write_decimal(u64::MAX)), u64::MAX.to_string());
}

#[test]
fn digits_are_written_in_both_cases() {
    assert_eq!(hex_digit(0, false), '0');
    assert_eq!(hex_digit(9, true), '9');
    assert_eq!(hex_digit(10, false), 'a');
    assert_eq!(hex_digit(15, true), 'F');
}

#[test]
fn varints_read_back() {
    for v in [0, 1, 127, 128, 16383, 16384, 2097151, 1 << 35, (1 << 56) - 1, 1 << 56, u64::MAX] {
        let bytes = write_varint(v);
        assert_eq!(read_varint(&bytes), Some((v, bytes.len())));
        assert_eq!(read_varint(&bytes[..bytes.len() - 1]), None);
    }
    assert_eq!(write_varint(0x7f), [0x7f]);
    assert_eq!(write_varint(0x80), [0x81, 0x00]);
    assert_eq!(write_varint(u64::MAX), [0xff; 9]);
    assert_eq!(read_varint(&[]), None);
}

#[test]
fn big_endian_numbers_read_back() {
    assert_eq!(write_signed(-2, 3), [0xff, 0xff, 0xfe]);
    assert_eq!(read_signed(&[0xff, 0xff, 0xfe]), -2);
    assert_eq!(read_signed(&[0x01, 0x00]), 256);
    assert_eq!(read_signed(&i64::MIN.to_be_bytes()), i64::MIN);
    assert_eq!(write_unsigned(0x0102, 2), [1, 2]);
    assert_eq!(read_unsigned(&[1, 2]), 0x0102);
}

#[test]
fn sets_hold_each_value_once() {
    let values = [
        text("b"),
        number(3),
        Value::Null,
        float(3.0),
        number(-1),
        text("a"),
        Value::from_slice(&[1]),
        number(3),
    ];
    let set = ValueSet::of(&values);
    for v in &values {
        assert!(set.contains(v));
    }
    for v in [number(2), float(2.5), text(""), text("c"), Value::from_slice(&[])] {
        assert!(!set.contains(&v));
    }
    assert!(!ValueSet::of(&[]).contains(&Value::Null));
    let many: Vec<Value> = (0..200).map(|i| number((i * 37) % 200 * 2)).collect();
    let set = ValueSet::of(&many);
    for i in -1..401 {
        assert_eq!(set.contains(&number(i)), i >= 0 && i < 400 && i % 2 == 0);
    }
}
