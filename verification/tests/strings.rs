use pgarray::array::array_values_from_any;
use pgarray::floats::{FloatStyle, FloatText};
use pgarray::joining::{exec_array_to_string, exec_string_to_array};
use pgarray::record::values_to_record_blob;
use pgarray::value::Value;

fn floats() -> FloatText<impl Fn(&str) -> Option<u64>, impl Fn(u64, FloatStyle) -> String> {
    FloatText::new(
        |s: &str| s.parse::<f64>().ok().map(f64::to_bits),
        |bits: u64, style: FloatStyle| match style {
            FloatStyle::Bare => format!("{}", f64::from_bits(bits)),
            FloatStyle::OnePlace => format!("{:.1}", f64::from_bits(bits)),
            FloatStyle::Printed => format!("{:?}", f64::from_bits(bits)),
        },
    )
}

fn number(i: i64) -> Value {
    Value::from_i64(i)
}

fn float(x: f64) -> Value {
    Value::from_float_bits(x.to_bits())
}

fn text(s: &str) -> Value {
    Value::build_text(s)
}

fn split(s: &Value, delimiter: &Value, null_str: Option<&Value>) -> Vec<Value> {
    let r = exec_string_to_array(s, delimiter, null_str, &floats()).unwrap();
    assert!(matches!(r, Value::Blob(_)));
    array_values_from_any(&r, &floats()).unwrap().unwrap()
}

fn join(arr: &Value, delimiter: &Value, null_str: Option<&Value>) -> Value {
    exec_array_to_string(arr, delimiter, null_str, &floats()).unwrap()
}

#[test]
fn texts_are_split_at_a_delimiter() {
    assert_eq!(split(&text("a,b,,c"), &text(","), None), [text("a"), text("b"), text(""), text("c")]);
    assert_eq!(split(&text(""), &text(","), None), [text("")]);
    assert_eq!(split(&text("abc"), &text(""), None), [text("abc")]);
    assert_eq!(split(&text("a--b-c"), &text("--"), None), [text("a"), text("b-c")]);
    assert_eq!(split(&text("aé😀"), &Value::Null, None), [text("a"), text("é"), text("😀")]);
    assert_eq!(split(&text(""), &Value::Null, None), []);
}

#[test]
fn parts_that_are_the_null_text_are_null() {
    let null = text("x");
    assert_eq!(split(&text("x,y,X"), &text(","), Some(&null)), [Value::Null, text("y"), text("X")]);
    assert_eq!(split(&text("axb"), &Value::Null, Some(&null)), [text("a"), Value::Null, text("b")]);
    assert_eq!(split(&text("1,2"), &text(","), Some(&number(2))), [text("1"), Value::Null]);
    assert_eq!(split(&text(",a"), &text(","), Some(&text(""))), [Value::Null, text("a")]);
    assert_eq!(split(&text(",a"), &text(","), Some(&Value::Null)), [text(""), text("a")]);
    assert_eq!(split(&text("all"), &text(""), Some(&text("all"))), [Value::Null]);
}

#[test]
fn other_values_are_split_as_they_print() {
    assert_eq!(split(&number(10203), &number(0), None), [text("1"), text("2"), text("3")]);
    assert_eq!(split(&float(1.5), &text("."), None), [text("1"), text("5")]);
    let blob = Value::from_slice(&[b'a', 0xff, b'b']);
    assert_eq!(split(&blob, &text("\u{fffd}"), None), [text("a"), text("b")]);
    let r = exec_string_to_array(&Value::Null, &text(","), None, &floats()).unwrap();
    assert_eq!(r, Value::Null);
}

#[test]
fn elements_are_joined_with_a_delimiter() {
    let arr = values_to_record_blob(&[
        number(1),
        Value::Null,
        text(""),
        float(2.5),
        Value::from_slice(&[b'z', 0xff]),
    ])
    .unwrap();
    assert_eq!(join(&arr, &text(", "), None), text("1, , 2.5, z\u{fffd}"));
    assert_eq!(join(&arr, &text("|"), Some(&text("*"))), text("1|*||2.5|z\u{fffd}"));
    assert_eq!(join(&arr, &number(0), Some(&Value::Null)), text("1002.50z\u{fffd}"));
    assert_eq!(join(&text("{NULL,a,NULL}"), &text("-"), None), text("a"));
    assert_eq!(join(&text("{NULL,a}"), &text("-"), Some(&number(7))), text("7-a"));
    assert_eq!(join(&text("{}"), &text("-"), None), text(""));
}

#[test]
fn what_cannot_be_joined_is_null() {
    assert_eq!(join(&Value::Null, &text(","), None), Value::Null);
    assert_eq!(join(&text("{1}"), &Value::Null, None), Value::Null);
    assert_eq!(join(&number(1), &text(","), None), Value::Null);
    assert_eq!(join(&Value::from_slice(&[0xff]), &text(","), None), Value::Null);
    assert_eq!(join(&Value::from_slice(&[3, 1, 10, 5]), &text(","), None), Value::Null);
    assert!(exec_array_to_string(&text("{{1}}"), &text(","), None, &floats()).is_err());
    assert_eq!(join(&text("{{1}}"), &Value::Null, None), Value::Null);
}

#[test]
fn joining_undoes_splitting() {
    let floats = floats();
    for s in ["", "a", "a,b", ",,", "aaaa", "x, y ,z", "null,NULL"] {
        for d in ["", ",", "aa", ", "] {
            for null in [None, Some(text("")), Some(text("a")), Some(text("null"))] {
                let arr = exec_string_to_array(&text(s), &text(d), null.as_ref(), &floats).unwrap();
                assert_eq!(join(&arr, &text(d), null.as_ref()), text(s));
            }
        }
    }
}
