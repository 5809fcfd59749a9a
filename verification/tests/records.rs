use pgarray::array::{
    array_values_from_any, compute_array_length, compute_array_length_at_dim, exec_array_append,
    exec_array_cat, exec_array_prepend, exec_array_remove, exec_array_slice,
    make_array_from_registers, Register,
};
use pgarray::comparison::compare_arrays;
use pgarray::error::LimboError;
use pgarray::floats::{FloatStyle, FloatText};
use pgarray::record::{array_values_from_blob, values_to_record_blob, ValueIterator};
use pgarray::render::serialize_array_from_blob;
use pgarray::value::Value;
use std::cmp::Ordering;

fn floats() -> FloatText<impl Fn(&str) -> Option<u64>, impl Fn(u64, FloatStyle) -> String> {
    FloatText::new(
        |s: &str| s.parse::<f64>().ok().map(f64::to_bits),
        |bits: u64, style: FloatStyle| match style {
            FloatStyle::Bare => format!("{}", f64::from_bits(bits)),
            FloatStyle::OnePlace => format!("{:.1}", f64::from_bits(bits)),
            FloatStyle::Printed => format!("{:?}", f64::from_bits(bits)),
        },
    )
}

fn number(i: i64) -> Value {
    Value::from_i64(i)
}

fn text(s: &str) -> Value {
    Value::build_text(s)
}

fn float(x: f64) -> Value {
    Value::from_float_bits(x.to_bits())
}

fn blob(bytes: &[u8]) -> Value {
    Value::from_slice(bytes)
}

fn pack(values: &[Value]) -> Value {
    values_to_record_blob(values).unwrap()
}

fn bytes(values: &[Value]) -> Vec<u8> {
    match pack(values) {
        Value::Blob(b) => b,
        other => panic!("not a blob: {other:?}"),
    }
}

fn elements(v: &Value) -> Vec<Value> {
    array_values_from_any(v, &floats()).unwrap().unwrap()
}

#[test]
fn records_are_laid_out_as_header_and_bodies() {
    assert_eq!(bytes(&[]), [1]);
    assert_eq!(bytes(&[Value::Null]), [2, 0]);
    assert_eq!(bytes(&[number(0), number(1)]), [3, 8, 9]);
    assert_eq!(bytes(&[number(2), number(-1)]), [3, 1, 1, 2, 0xff]);
    assert_eq!(bytes(&[number(300)]), [2, 2, 1, 44]);
    assert_eq!(bytes(&[number(70000)]), [2, 3, 1, 17, 112]);
    assert_eq!(bytes(&[number(1 << 30)]), [2, 4, 64, 0, 0, 0]);
    assert_eq!(bytes(&[number(1 << 40)]), [2, 5, 1, 0, 0, 0, 0, 0]);
    assert_eq!(bytes(&[number(i64::MIN)]), [2, 6, 128, 0, 0, 0, 0, 0, 0, 0]);
    assert_eq!(bytes(&[float(1.0)]), [2, 7, 0x3f, 0xf0, 0, 0, 0, 0, 0, 0]);
    assert_eq!(bytes(&[text("ab")]), [2, 17, b'a', b'b']);
    assert_eq!(bytes(&[blob(&[5, 6])]), [2, 16, 5, 6]);
}

#[test]
fn records_give_back_their_values() {
    let values = vec![
        Value::Null,
        number(0),
        number(1),
        number(-1),
        number(127),
        number(128),
        number(-32769),
        number(1 << 31),
        number(1 << 47),
        number(i64::MIN),
        float(-0.5),
        float(f64::INFINITY),
        text(""),
        text("naïve 🚀"),
        blob(&[]),
        blob(&[0, 255]),
    ];
    let packed = bytes(&values);
    assert_eq!(array_values_from_blob(&packed).unwrap(), values);
    assert_eq!(ValueIterator::new(&packed).unwrap().count(), values.len());
    let many: Vec<Value> = (0..500).map(number).collect();
    assert_eq!(array_values_from_blob(&bytes(&many)).unwrap(), many);
    let long = vec![text(&"x".repeat(100_000))];
    assert_eq!(array_values_from_blob(&bytes(&long)).unwrap(), long);
}

#[test]
fn bytes_that_are_no_record_are_corrupt() {
    for b in [&[][..], &[0xff, 0xfe, 0xfd], &[3, 1], &[0]] {
        assert!(matches!(array_values_from_blob(b), Err(LimboError::Corrupt)));
        assert!(matches!(serialize_array_from_blob(b, &floats()), Err(LimboError::Corrupt)));
    }
    // A code that is not in use, bytes that are missing, and bytes that are not UTF-8.
    for b in [&[2, 10][..], &[2, 1], &[2, 15, 0xff]] {
        assert!(matches!(array_values_from_blob(b), Err(LimboError::Corrupt)));
        assert_eq!(compute_array_length(&blob(b)).unwrap(), Some(1));
        assert!(array_values_from_any(&blob(b), &floats()).unwrap().is_none());
    }
}

#[test]
fn float_bytes_that_are_no_number_read_as_null() {
    let mut b = vec![2, 7];
    b.extend_from_slice(&f64::NAN.to_bits().to_be_bytes());
    assert_eq!(array_values_from_blob(&b).unwrap(), [Value::Null]);
}

#[test]
fn an_iterator_gives_each_item_once() {
    let packed = bytes(&[number(5), text("x")]);
    let mut it = ValueIterator::new(&packed).unwrap();
    assert_eq!(it.next().unwrap().unwrap(), number(5));
    assert_eq!(it.next().unwrap().unwrap(), text("x"));
    assert!(it.next().is_none());
    assert!(it.next().is_none());
}

#[test]
fn values_of_every_kind_are_arrays_or_none() {
    let floats = floats();
    assert_eq!(elements(&Value::Null), []);
    assert_eq!(elements(&text("{1,x}")), [number(1), text("x")]);
    assert_eq!(elements(&pack(&[number(4)])), [number(4)]);
    assert!(array_values_from_any(&number(4), &floats).unwrap().is_none());
    assert!(array_values_from_any(&float(4.5), &floats).unwrap().is_none());
    assert!(array_values_from_any(&text("4"), &floats).unwrap().is_none());
    assert!(array_values_from_any(&text("{{1}}"), &floats).is_err());
}

#[test]
fn lengths_are_taken_at_a_depth() {
    let floats = floats();
    let inner = pack(&[number(1), number(2), number(3)]);
    let outer = pack(&[inner, Value::Null]);
    let at = |v: &Value, dim: i64| compute_array_length_at_dim(v, dim, &floats).unwrap();
    assert_eq!(at(&outer, 1), compute_array_length(&outer).unwrap());
    assert_eq!(at(&outer, 1), Some(2));
    assert_eq!(at(&outer, 2), Some(3));
    assert_eq!(at(&outer, 3), None);
    assert_eq!(at(&outer, 0), None);
    assert_eq!(at(&outer, -5), None);
    assert_eq!(at(&pack(&[]), 1), Some(0));
    assert_eq!(at(&pack(&[]), 2), None);
    assert_eq!(at(&Value::Null, 1), None);
    assert_eq!(at(&Value::Null, 2), None);
    // Only what is held as a record has a length.
    assert_eq!(compute_array_length(&text("{1,2,3}")).unwrap(), None);
    assert_eq!(compute_array_length(&text("{{1}}")).unwrap(), None);
    assert_eq!(at(&text("{a,b}"), 1), None);
    assert_eq!(at(&text("{\"{1,2,3}\"}"), 2), None);
    assert_eq!(at(&text("{a,b}"), 2), None);
    assert!(compute_array_length_at_dim(&text("{{1}}"), 2, &floats).is_err());
}

#[test]
fn appending_and_prepending_add_one_element() {
    let floats = floats();
    let arr = text("{1,2}");
    let appended = exec_array_append(&arr, &text("z"), &floats).unwrap();
    assert_eq!(elements(&appended), [number(1), number(2), text("z")]);
    let prepended = exec_array_prepend(&arr, &Value::Null, &floats).unwrap();
    assert_eq!(elements(&prepended), [Value::Null, number(1), number(2)]);
    let alone = exec_array_append(&Value::Null, &number(9), &floats).unwrap();
    assert_eq!(elements(&alone), [number(9)]);
    let alone = exec_array_prepend(&Value::Null, &number(9), &floats).unwrap();
    assert_eq!(elements(&alone), [number(9)]);
    assert_eq!(exec_array_append(&number(3), &number(9), &floats).unwrap(), Value::Null);
    assert_eq!(exec_array_prepend(&text("x"), &number(9), &floats).unwrap(), Value::Null);
    assert!(exec_array_append(&text("{{1}}"), &number(9), &floats).is_err());
}

#[test]
fn arrays_are_put_in_a_row() {
    let floats = floats();
    let (a, b, c) = (pack(&[number(1)]), text("{x,y}"), pack(&[Value::Null]));
    let cat = |x: &Value, y: &Value| exec_array_cat(x, y, &floats).unwrap();
    assert_eq!(elements(&cat(&a, &b)), [number(1), text("x"), text("y")]);
    assert_eq!(cat(&cat(&a, &b), &c), cat(&a, &cat(&b, &c)));
    assert_eq!(cat(&a, &Value::Null), Value::Null);
    assert_eq!(cat(&a, &number(7)), Value::Null);
    assert_eq!(cat(&number(7), &a), Value::Null);
    // What is no array decides before the other side is looked at.
    assert_eq!(cat(&number(7), &text("{{1}}")), Value::Null);
    assert!(exec_array_cat(&a, &text("{{1}}"), &floats).is_err());
}

#[test]
fn removing_leaves_the_other_elements_in_order() {
    let floats = floats();
    let arr = pack(&[Value::Null, number(1), float(1.0), text("1"), Value::Null]);
    let r = exec_array_remove(&arr, &number(1), &floats).unwrap();
    assert_eq!(elements(&r), [Value::Null, text("1"), Value::Null]);
    let r = exec_array_remove(&arr, &Value::Null, &floats).unwrap();
    assert_eq!(elements(&r), [number(1), float(1.0), text("1")]);
    assert_eq!(exec_array_remove(&arr, &number(8), &floats).unwrap(), arr);
    assert_eq!(exec_array_remove(&number(8), &number(8), &floats).unwrap(), Value::Null);
}

#[test]
fn slices_take_both_bounds() {
    let floats = floats();
    let arr = text("{10,20,30,40}");
    let slice = |a: &Value, b: &Value| elements(&exec_array_slice(&arr, a, b, &floats).unwrap());
    assert_eq!(slice(&number(2), &number(3)), [number(20), number(30)]);
    assert_eq!(slice(&number(1), &number(4)), elements(&arr));
    assert_eq!(slice(&number(0), &number(1)), [number(10)]);
    assert_eq!(slice(&number(-7), &number(1)), [number(10)]);
    assert_eq!(slice(&Value::Null, &number(1)), [number(10)]);
    assert_eq!(slice(&number(3), &number(99)), [number(30), number(40)]);
    assert_eq!(slice(&number(3), &number(i64::MAX)), [number(30), number(40)]);
    assert_eq!(slice(&number(3), &number(2)), []);
    assert_eq!(slice(&number(9), &number(9)), []);
    assert_eq!(slice(&number(1), &number(0)), []);
    assert_eq!(slice(&number(1), &Value::Null), []);
    assert_eq!(slice(&number(1), &text("3")), []);
    assert_eq!(exec_array_slice(&number(1), &number(1), &number(1), &floats).unwrap(), Value::Null);
}

#[test]
fn two_slices_make_the_array() {
    let floats = floats();
    let arr = pack(&[number(10), text("b"), Value::Null]);
    for k in 0..=3 {
        let front = exec_array_slice(&arr, &number(1), &number(k), &floats).unwrap();
        let back = exec_array_slice(&arr, &number(k + 1), &number(3), &floats).unwrap();
        assert_eq!(exec_array_cat(&front, &back, &floats).unwrap(), arr);
    }
}

#[test]
fn registers_in_the_middle_make_an_array() {
    let registers: Vec<Register> = (0..5).map(|i| Register::Value(number(i))).collect();
    let r = make_array_from_registers(&registers, 1, 3).unwrap();
    assert_eq!(elements(&r), [number(1), number(2), number(3)]);
    assert_eq!(elements(&make_array_from_registers(&registers, 5, 0).unwrap()), []);
}

#[test]
fn arrays_compare_element_by_element() {
    let rising = [
        bytes(&[]),
        bytes(&[Value::Null]),
        bytes(&[number(1)]),
        bytes(&[number(1), Value::Null]),
        bytes(&[number(1), number(2)]),
        bytes(&[float(1.5)]),
        bytes(&[number(2)]),
        bytes(&[text("a"), text("z")]),
        bytes(&[text("b")]),
        bytes(&[blob(&[0])]),
    ];
    for (i, a) in rising.iter().enumerate() {
        for (j, b) in rising.iter().enumerate() {
            assert_eq!(compare_arrays(a, b).unwrap(), i.cmp(&j));
        }
    }
    let whole = compare_arrays(&bytes(&[number(1), number(2)]), &bytes(&[float(1.0), float(2.0)]));
    assert_eq!(whole.unwrap(), Ordering::Equal);
}

#[test]
fn only_records_compare() {
    let good = bytes(&[number(0)]);
    // No header, a code that is not in use behind a difference, a body that is missing.
    for bad in [&[0xff][..], &[3, 9, 10], &[3, 1, 10, 5], &[2, 1]] {
        for (a, b) in [(bad, &good[..]), (&good[..], bad), (bad, bad)] {
            assert!(matches!(compare_arrays(a, b), Err(LimboError::Corrupt)));
        }
    }
    assert_eq!(compare_arrays(&good, &good).unwrap(), Ordering::Equal);
}
