use pgarray::coercion::{
    coerce_elements_for_probe, coerce_sides, coerce_text_to_numeric, coercion_refusal,
    numeric_as_text, ARRAY_ANY_COERCION_MARKER,
};
use pgarray::array::exec_array_remove;
use pgarray::floats::{FloatStyle, FloatText};
use pgarray::membership::{
    array_find_streaming, exec_array_contains, exec_array_contains_all, exec_array_overlap,
    exec_array_position,
};
use pgarray::record::values_to_record_blob;
use pgarray::value::{NonNan, Numeric, Value};

fn floats() -> FloatText<impl Fn(&str) -> Option<u64>, impl Fn(u64, FloatStyle) -> String> {
    FloatText::new(
        |s: &str| s.parse::<f64>().ok().map(f64::to_bits),
        |bits: u64, style: FloatStyle| match style {
            FloatStyle::Bare => format!("{}", f64::from_bits(bits)),
            FloatStyle::OnePlace => format!("{:.1}", f64::from_bits(bits)),
            FloatStyle::Printed => format!("{:?}", f64::from_bits(bits)),
        },
    )
}

fn number(i: i64) -> Value {
    Value::from_i64(i)
}

fn float(x: f64) -> Value {
    Value::from_float_bits(x.to_bits())
}

fn text(s: &str) -> Value {
    Value::build_text(s)
}

fn pack(values: &[Value]) -> Value {
    values_to_record_blob(values).unwrap()
}

fn contains(arr: &Value, target: &Value) -> Value {
    exec_array_contains(arr, target, &floats()).unwrap()
}

fn position(arr: &Value, target: &Value) -> Value {
    exec_array_position(arr, target, &floats()).unwrap()
}

#[test]
fn the_first_accepted_item_is_found() {
    let Value::Blob(b) = pack(&[number(1), text("x"), text("y")]) else {
        panic!("not a blob");
    };
    assert_eq!(array_find_streaming(&b, |v: &Value| matches!(v, Value::Text(_))), Some(1));
    assert_eq!(array_find_streaming(&b, |v: &Value| v.is_null()), None);
    assert_eq!(array_find_streaming(&[0xff], |_: &Value| true), None);
    // The second item is broken: what stands before it is found, what stands behind is not.
    let broken = [4, 1, 10, 1, 5, 6];
    assert_eq!(array_find_streaming(&broken, |v: &Value| *v == number(5)), Some(0));
    assert_eq!(array_find_streaming(&broken, |v: &Value| *v == number(6)), None);
}

#[test]
fn contains_and_position_agree() {
    let arr = pack(&[number(7), Value::Null, text("7"), number(7)]);
    for (target, place) in [
        (number(7), Some(1)),
        (float(7.0), Some(1)),
        (Value::Null, Some(2)),
        (text("7"), Some(3)),
        (number(8), None),
    ] {
        assert_eq!(contains(&arr, &target), number(place.is_some() as i64));
        assert_eq!(position(&arr, &target), place.map(number).unwrap_or(Value::Null));
    }
}

#[test]
fn what_is_no_array_is_not_searched() {
    for arr in [Value::Null, number(1), text("1"), text("{1")] {
        assert_eq!(contains(&arr, &number(1)), Value::Null);
        assert_eq!(position(&arr, &number(1)), Value::Null);
    }
    // A blob that is no record holds nothing.
    let junk = Value::from_slice(&[0xff]);
    assert_eq!(contains(&junk, &number(1)), number(0));
    assert_eq!(position(&junk, &number(1)), Value::Null);
}

#[test]
fn records_are_searched_without_coercion() {
    let arr = pack(&[text("1"), text("x")]);
    assert_eq!(contains(&arr, &number(1)), number(0));
    assert_eq!(contains(&arr, &text("1")), number(1));
    assert_eq!(contains(&arr, &Value::from_slice(&[1])), number(0));
}

#[test]
fn literals_are_searched_in_the_type_of_the_value() {
    let arr = text("{1,2.5,NULL,x}");
    assert_eq!(position(&arr, &text("2.5")), number(2));
    assert_eq!(position(&arr, &text("1")), number(1));
    assert_eq!(position(&arr, &Value::Null), number(3));
    let err = exec_array_position(&arr, &number(1), &floats()).unwrap_err();
    assert_eq!(
        err.message(),
        "\u{1}array-any-coercion\u{1}invalid input syntax for type numeric: \"x\""
    );
    assert_eq!(position(&text("{\" 3 \",\"0.5\"}"), &float(0.5)), number(2));
    assert_eq!(position(&text("{\" 3 \"}"), &number(3)), number(1));
}

#[test]
fn a_removed_value_is_not_found() {
    let floats = floats();
    let arr = text("{1,2,1,NULL}");
    for target in [number(1), Value::Null] {
        let r = exec_array_remove(&arr, &target, &floats).unwrap();
        assert_eq!(contains(&r, &target), number(0));
        assert_eq!(position(&r, &target), Value::Null);
    }
}

#[test]
fn texts_are_read_as_numbers() {
    let floats = floats();
    assert_eq!(coerce_text_to_numeric(" 12 ", &floats).unwrap(), number(12));
    assert_eq!(coerce_text_to_numeric("\t-1.5e2", &floats).unwrap(), float(-150.0));
    for s in ["", "x", "1 2", "inf", "NaN", "1e999"] {
        assert_eq!(
            coerce_text_to_numeric(s, &floats).unwrap_err().message(),
            format!("{ARRAY_ANY_COERCION_MARKER}invalid input syntax for type numeric: \"{s}\"")
        );
    }
}

#[test]
fn numbers_are_written_as_texts() {
    let floats = floats();
    assert_eq!(numeric_as_text(&Numeric::Integer(-3), &floats), "-3");
    let one = Numeric::Float(NonNan::new(1.0f64.to_bits()).unwrap());
    assert_eq!(numeric_as_text(&one, &floats), "1");
    assert_eq!(coercion_refusal("why").message(), "\u{1}array-any-coercion\u{1}why");
}

#[test]
fn elements_take_the_type_of_the_value() {
    let floats = floats();
    let blob = Value::from_slice(&[1]);
    let to = |elements: Vec<Value>, probe: &Value| coerce_elements_for_probe(elements, probe, &floats);
    assert_eq!(
        to(vec![number(1), text("2"), Value::Null], &float(0.5)).unwrap(),
        [number(1), number(2), Value::Null]
    );
    assert_eq!(
        to(vec![number(1), float(2.0), text("x")], &text("")).unwrap(),
        [text("1"), text("2"), text("x")]
    );
    assert_eq!(
        to(vec![number(1), text("x"), blob.clone()], &Value::Null).unwrap(),
        [number(1), text("x"), blob.clone()]
    );
    assert_eq!(to(vec![blob.clone(), Value::Null], &blob).unwrap(), [blob.clone(), Value::Null]);
    let mismatch = "\u{1}array-any-coercion\u{1}array element type does not match the comparison \
                    value's type on this engine build; cast the array to the column's array type";
    assert_eq!(to(vec![number(1), blob.clone()], &number(1)).unwrap_err().message(), mismatch);
    assert_eq!(to(vec![text("x")], &blob).unwrap_err().message(), mismatch);
}

#[test]
fn sides_take_a_common_type() {
    let floats = floats();
    let blob = Value::from_slice(&[1]);
    let (a, b) = coerce_sides(vec![number(1), text("5")], vec![text("2"), Value::Null], &floats).unwrap();
    assert_eq!(a, [number(1), number(5)]);
    assert_eq!(b, [number(2), Value::Null]);
    let (a, b) = coerce_sides(vec![text("x")], vec![text("2")], &floats).unwrap();
    assert_eq!((a, b), (vec![text("x")], vec![text("2")]));
    let err = coerce_sides(vec![blob.clone()], vec![number(1)], &floats).unwrap_err();
    assert_eq!(
        err.message(),
        "\u{1}array-any-coercion\u{1}array element type does not match the other array's element \
         type on this engine build; cast both arrays to the same array type"
    );
    assert!(coerce_sides(vec![text("x")], vec![blob.clone()], &floats).is_err());
    assert!(coerce_sides(vec![blob.clone()], vec![Value::Null, blob], &floats).is_ok());
}

#[test]
fn overlap_goes_both_ways() {
    let floats = floats();
    let (a, b, c) = (text("{1,2}"), pack(&[number(2), number(3)]), text("{4}"));
    for nulls in [false, true] {
        let overlap = |x: &Value, y: &Value| exec_array_overlap(x, y, nulls, &floats).unwrap();
        assert_eq!(overlap(&a, &b), number(1));
        assert_eq!(overlap(&b, &a), number(1));
        assert_eq!(overlap(&b, &c), number(0));
        assert_eq!(overlap(&c, &b), number(0));
        assert_eq!(overlap(&a, &text("{}")), number(0));
        assert_eq!(overlap(&a, &Value::Null), Value::Null);
        assert_eq!(overlap(&number(1), &a), Value::Null);
        assert_eq!(overlap(&a, &number(1)), Value::Null);
    }
    assert!(exec_array_overlap(&a, &text("{{1}}"), false, &floats).is_err());
}

#[test]
fn an_array_contains_its_own_elements() {
    let floats = floats();
    let all = |x: &Value, y: &Value, nulls: bool| exec_array_contains_all(x, y, nulls, &floats).unwrap();
    let (a, b) = (text("{1,2,3}"), text("{3,1,1}"));
    for nulls in [false, true] {
        assert_eq!(all(&a, &a, nulls), number(1));
        assert_eq!(all(&a, &b, nulls), number(1));
        assert_eq!(all(&b, &a, nulls), number(0));
        assert_eq!(all(&a, &text("{}"), nulls), number(1));
        assert_eq!(all(&a, &Value::Null, nulls), Value::Null);
        assert_eq!(all(&number(2), &a, nulls), Value::Null);
    }
    let with_null = text("{1,NULL}");
    assert_eq!(all(&with_null, &with_null, false), number(1));
    assert_eq!(all(&with_null, &with_null, true), number(0));
}
