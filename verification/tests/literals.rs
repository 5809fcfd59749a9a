use pgarray::error::LimboError;
use pgarray::floats::{FloatStyle, FloatText};
use pgarray::literal::{parse_pg_text_array, parse_text_array, text_is_defined};
use pgarray::record::values_to_record_blob;
use pgarray::render::{serialize_array_from_blob, write_pg_text_element, write_value_ref_pg};
use pgarray::value::Value;

fn floats() -> FloatText<impl Fn(&str) -> Option<u64>, impl Fn(u64, FloatStyle) -> String> {
    FloatText::new(
        |s: &str| s.parse::<f64>().ok().map(f64::to_bits),
        |bits: u64, style: FloatStyle| match style {
            FloatStyle::Bare => format!("{}", f64::from_bits(bits)),
            FloatStyle::OnePlace => format!("{:.1}", f64::from_bits(bits)),
            FloatStyle::Printed => format!("{:?}", f64::from_bits(bits)),
        },
    )
}

fn number(i: i64) -> Value {
    Value::from_i64(i)
}

fn float(x: f64) -> Value {
    Value::from_float_bits(x.to_bits())
}

fn text(s: &str) -> Value {
    Value::build_text(s)
}

fn parse(s: &str) -> Option<Vec<Value>> {
    parse_text_array(s, &floats()).unwrap()
}

fn render(values: &[Value]) -> String {
    match values_to_record_blob(values).unwrap() {
        Value::Blob(b) => serialize_array_from_blob(&b, &floats()).unwrap(),
        other => panic!("not a blob: {other:?}"),
    }
}

fn element(s: &str) -> String {
    let mut result = String::from(">");
    write_pg_text_element(&mut result, s);
    result
}

#[test]
fn tokens_are_nulls_numbers_or_texts() {
    assert_eq!(
        parse("{1, hello, NULL, 3.5, null, -7, +8, 1e3, nulls}").unwrap(),
        [
            number(1),
            text("hello"),
            Value::Null,
            float(3.5),
            Value::Null,
            number(-7),
            number(8),
            float(1000.0),
            text("nulls")
        ]
    );
    // An integer that does not fit is a floating-point number.
    assert_eq!(parse("{9223372036854775808}").unwrap(), [float(9223372036854775808.0)]);
}

#[test]
fn white_space_around_elements_is_skipped() {
    assert_eq!(parse(" \u{3000}{ 1 ,\t2\n}  ").unwrap(), [number(1), number(2)]);
    assert_eq!(parse("{}").unwrap(), []);
    assert_eq!(parse("{ \u{a0} }").unwrap(), []);
    assert!(parse("{1 2}").is_none());
    assert!(parse("{\"a\"b}").is_none());
}

#[test]
fn an_empty_token_is_an_empty_text() {
    assert_eq!(parse("{,1}").unwrap(), [text(""), number(1)]);
    assert_eq!(parse("{1,,2}").unwrap(), [number(1), text(""), number(2)]);
    assert!(parse("{,}").is_none());
}

#[test]
fn quotes_keep_texts_apart_from_numbers_and_nulls() {
    assert_eq!(
        parse("{\"1\",\"NULL\",\"a,b\",\"{x}\",\"\"}").unwrap(),
        [text("1"), text("NULL"), text("a,b"), text("{x}"), text("")]
    );
}

#[test]
fn backslashes_escape_in_quotes() {
    assert_eq!(
        parse("{\"a\\nb\\tc\\rd\\\"e\\\\f\\qg\"}").unwrap(),
        [text("a\nb\tc\rd\"e\\fqg")]
    );
    // Outside of quotes a backslash is a character as any other.
    assert_eq!(parse("{a\\nb}").unwrap(), [text("a\\nb")]);
}

#[test]
fn quotes_must_be_closed() {
    assert!(parse("{\"abc}").is_none());
    assert!(parse("{\"abc\\\"}").is_none());
    assert!(parse("{\"abc\\}").is_none());
}

#[test]
fn what_is_not_in_braces_is_no_array() {
    for s in ["", "{", "}", "1,2", "{1", "1}", "x{1}"] {
        assert!(parse(s).is_none(), "{s:?}");
    }
}

#[test]
fn numbers_that_are_not_finite_are_rejected() {
    for s in ["{nan}", "{inf}", "{-Infinity}", "{1,NaN,2}"] {
        assert!(parse(s).is_none(), "{s:?}");
    }
    assert_eq!(parse("{\"nan\"}").unwrap(), [text("nan")]);
}

#[test]
fn nested_braces_are_refused() {
    for s in ["{{1}}", "{1,{2}}", "{ {a} }", "{{},x}"] {
        let err = parse_text_array(s, &floats()).unwrap_err();
        assert!(matches!(&err, LimboError::Constraint(_)));
        assert_eq!(
            err.message(),
            "multidimensional array literals are not supported on this engine build"
        );
    }
    // Behind the start of a token, a brace is a character as any other.
    assert_eq!(parse("{a{b}").unwrap(), [text("a{b")]);
    assert_eq!(parse("{,{}}").unwrap(), []);
}

#[test]
fn the_part_in_braces_is_parsed_alone() {
    let parsed = parse_pg_text_array("{1,x}", &floats()).unwrap().unwrap();
    assert_eq!(parsed, [number(1), text("x")]);
}

#[test]
fn a_backslash_goes_with_ascii_only() {
    let floats = floats();
    assert!(text_is_defined("{\"a\\qb\"}", &floats));
    assert!(text_is_defined("nothing", &floats));
    assert!(!text_is_defined("{\"\\é\"}", &floats));
    // Where the text is no array before that place, it is that.
    assert!(text_is_defined("{a b,\"\\é\"}", &floats));
    assert!(text_is_defined("{\\é}", &floats));
}

#[test]
fn texts_are_quoted_where_they_would_be_misread() {
    assert_eq!(element("plain"), ">plain");
    assert_eq!(element("naïve🚀"), ">naïve🚀");
    assert_eq!(element(""), ">\"\"");
    assert_eq!(element("nUll"), ">\"nUll\"");
    assert_eq!(element("a b"), ">\"a b\"");
    assert_eq!(element("a,b"), ">\"a,b\"");
    assert_eq!(element("{}"), ">\"{}\"");
    assert_eq!(element("a\"b\\c"), ">\"a\\\"b\\\\c\"");
    assert_eq!(element("\n\r\t"), ">\"\\n\\r\\t\"");
    assert_eq!(element("\u{1}\u{1f}\u{85}"), ">\"\\u0001\\u001f\\u0085\"");
    assert_eq!(element("\u{3000}"), ">\"\u{3000}\"");
}

#[test]
fn values_are_written_as_elements() {
    let written = |v: &Value| {
        let mut result = String::new();
        write_value_ref_pg(&mut result, v, &floats());
        result
    };
    assert_eq!(written(&Value::Null), "NULL");
    assert_eq!(written(&number(i64::MIN)), "-9223372036854775808");
    assert_eq!(written(&float(1.0)), "1.0");
    assert_eq!(written(&float(-0.0)), "0.0");
    assert_eq!(written(&float(2.25)), "2.25");
    assert_eq!(written(&float(-3.0)), "-3.0");
    assert_eq!(written(&float(f64::INFINITY)), "inf");
    assert_eq!(written(&text("a b")), "\"a b\"");
    assert_eq!(written(&Value::from_slice(&[0, 0xab, 0xff])), "\"X'00ABFF'\"");
}

#[test]
fn arrays_are_written_in_braces() {
    assert_eq!(render(&[]), "{}");
    assert_eq!(render(&[text("")]), "{\"\"}");
    assert_eq!(render(&[number(1), text("a b"), Value::Null, float(2.0)]), "{1,\"a b\",NULL,2.0}");
}

#[test]
fn the_text_of_an_array_reads_back() {
    let values = vec![
        Value::Null,
        number(-5),
        float(0.1),
        float(1e300),
        text("word"),
        text("null"),
        text(""),
        text("a\"b\\c, {d}\n\t\r é \u{3000}"),
    ];
    assert_eq!(parse(&render(&values)).unwrap(), values);
    assert_eq!(parse(&render(&[])).unwrap(), []);
}

#[test]
fn some_elements_read_back_as_others() {
    // A text that looks like a number, a blob, and a character that is written as a code.
    assert_eq!(parse(&render(&[text("12")])).unwrap(), [number(12)]);
    assert_eq!(parse(&render(&[Value::from_slice(&[1, 255])])).unwrap(), [text("X'01FF'")]);
    assert_eq!(parse(&render(&[text("a\u{1}b")])).unwrap(), [text("au0001b")]);
    assert!(parse(&render(&[number(1), text("inf")])).is_none());
    assert!(parse(&render(&[float(f64::INFINITY)])).is_none());
}

#[test]
fn finite_numbers_read_back_from_their_text() {
    let floats = floats();
    let mut bits: u64 = 1;
    let mut tried = 0;
    for _ in 0..20_000 {
        bits = bits.wrapping_mul(6364136223846793005).wrapping_add(1442695040888963407);
        let x = f64::from_bits(bits);
        if x.is_finite() {
            let style = if x.fract() == 0.0 { FloatStyle::OnePlace } else { FloatStyle::Bare };
            let shown = floats.show(bits, style);
            assert!(shown.contains('.'));
            assert!(shown.chars().all(|c| c.is_ascii_digit() || c == '.' || c == '-'));
            assert_eq!(floats.read(&shown), Some(bits));
            tried += 1;
        }
    }
    assert!(tried > 10_000);
    for x in [0.0, f64::MAX, f64::MIN, 5e-324, f64::MIN_POSITIVE, 1e300, 0.1, -2.5, 1e16] {
        assert_eq!(parse(&render(&[float(x)])).unwrap(), [float(x)]);
    }
    for x in [0.0f64, 1.0, -3.0, 1e15, 1e22, 1e23, -1e30, 9007199254740993.0, 1.5e38] {
        let whole = format!("{}", x as i128);
        assert_eq!(floats.show(x.to_bits(), FloatStyle::OnePlace), format!("{whole}.0"));
        if x.abs() < 9007199254740992.0 {
            assert_eq!(floats.show(x.to_bits(), FloatStyle::Bare), whole);
        }
    }
    assert_eq!(floats.show(9007199254740991.0f64.to_bits(), FloatStyle::Bare), "9007199254740991");
    assert_eq!(floats.show((-9007199254740990.0f64).to_bits(), FloatStyle::Bare), "-9007199254740990");
    assert_eq!(floats.show(f64::INFINITY.to_bits(), FloatStyle::Bare), "inf");
    assert_eq!(floats.show(f64::NEG_INFINITY.to_bits(), FloatStyle::Bare), "-inf");
    assert_eq!(floats.read("-inf"), Some(f64::NEG_INFINITY.to_bits()));
    assert_eq!(floats.read("+007"), Some(7.0f64.to_bits()));
    // The zero with a sign is written without it.
    assert_eq!(render(&[float(-0.0)]), "{0.0}");
}
