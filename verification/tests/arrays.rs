use pgarray::array::{
    compute_array_length, exec_array_cat, exec_array_remove, exec_array_slice,
    make_array_from_registers, Register,
};
use pgarray::coercion::ARRAY_ANY_COERCION_MARKER;
use pgarray::floats::{FloatStyle, FloatText};
use pgarray::joining::exec_string_to_array;
use pgarray::literal::parse_text_array;
use pgarray::membership::{
    array_find_streaming, exec_array_contains, exec_array_contains_all, exec_array_overlap,
    exec_array_position,
};
use pgarray::record::{array_values_from_blob, values_to_record_blob};
use pgarray::render::serialize_array_from_blob;
use pgarray::value::Value;

fn floats() -> FloatText<impl Fn(&str) -> Option<u64>, impl Fn(u64, FloatStyle) -> String> {
    FloatText::new(
        |s: &str| s.parse::<f64>().ok().map(f64::to_bits),
        |bits: u64, style: FloatStyle| match style {
            FloatStyle::Bare => format!("{}", f64::from_bits(bits)),
            FloatStyle::OnePlace => format!("{:.1}", f64::from_bits(bits)),
            FloatStyle::Printed => format!("{:?}", f64::from_bits(bits)),
        },
    )
}

#[test]
fn test_parse_text_array_multibyte_utf8() {
    let input = r#"{"café","naïve","über"}"#;
    let result = parse_text_array(input, &floats()).unwrap().unwrap();
    assert_eq!(result.len(), 3);
    assert_eq!(result[0], Value::build_text("café"));
    assert_eq!(result[1], Value::build_text("naïve"));
    assert_eq!(result[2], Value::build_text("über"));
}

#[test]
fn test_parse_text_array_emoji() {
    let input = r#"{"hello 🌍","test 🚀"}"#;
    let result = parse_text_array(input, &floats()).unwrap().unwrap();
    assert_eq!(result.len(), 2);
    assert_eq!(result[0], Value::build_text("hello 🌍"));
    assert_eq!(result[1], Value::build_text("test 🚀"));
}

#[test]
fn test_parse_text_array_cjk() {
    let input = r#"{"你好","世界"}"#;
    let result = parse_text_array(input, &floats()).unwrap().unwrap();
    assert_eq!(result.len(), 2);
    assert_eq!(result[0], Value::build_text("你好"));
    assert_eq!(result[1], Value::build_text("世界"));
}

#[test]
fn test_compute_array_length_null_returns_none() {
    assert_eq!(compute_array_length(&Value::Null).unwrap(), None);
}

#[test]
fn test_compute_array_length_valid_array() {
    let blob = values_to_record_blob(&[Value::from_i64(1), Value::from_i64(2)]).unwrap();
    assert_eq!(compute_array_length(&blob).unwrap(), Some(2));
}

#[test]
fn test_compute_array_length_non_blob_returns_none() {
    assert_eq!(
        compute_array_length(&Value::from_i64(42)).unwrap(),
        None,
    );
}

#[test]
fn test_array_remove_all_occurrences() {
    let arr = values_to_record_blob(&[
        Value::from_i64(1),
        Value::from_i64(2),
        Value::from_i64(3),
        Value::from_i64(2),
        Value::from_i64(1),
    ])
    .unwrap();
    let result = exec_array_remove(&arr, &Value::from_i64(2), &floats()).unwrap();
    let Value::Blob(blob) = &result else {
        panic!("Expected Blob");
    };
    let elements = array_values_from_blob(blob).unwrap();
    assert_eq!(elements.len(), 3);
    assert_eq!(elements[0], Value::from_i64(1));
    assert_eq!(elements[1], Value::from_i64(3));
    assert_eq!(elements[2], Value::from_i64(1));
}

#[test]
fn test_array_contains_null_array_returns_null() {
    assert_eq!(
        exec_array_contains(&Value::Null, &Value::from_i64(1), &floats()).unwrap(),
        Value::Null,
    );
}

#[test]
fn test_array_position_null_array_returns_null() {
    assert_eq!(
        exec_array_position(&Value::Null, &Value::from_i64(1), &floats()).unwrap(),
        Value::Null,
    );
}

#[test]
fn test_compute_array_length_invalid_blob_returns_none() {
    // A random blob that is not a valid record should return None
    let invalid = Value::from_slice(&[0xFF, 0xFE, 0xFD]);
    assert_eq!(compute_array_length(&invalid).unwrap(), None);
}

#[test]
fn test_parse_text_array_rejects_json_format() {
    // JSON [1,2,3] format is not accepted, only {1,2,3}
    assert!(parse_text_array("[1,2,3]", &floats()).unwrap().is_none());
    assert!(parse_text_array(r#"["hello"]"#, &floats()).unwrap().is_none());
}

#[test]
fn test_parse_text_array_rejects_trailing_comma() {
    assert!(parse_text_array("{1,2,}", &floats()).unwrap().is_none());
    assert!(parse_text_array("{1, 2, }", &floats()).unwrap().is_none());
}

#[test]
fn test_parse_text_array_rejects_infinity() {
    assert!(parse_text_array("{1e309}", &floats()).unwrap().is_none());
    assert!(parse_text_array("{-1e309}", &floats()).unwrap().is_none());
}

#[test]
fn test_string_to_array_null_delimiter_splits_chars() {
    let result =
        exec_string_to_array(&Value::build_text("hello"), &Value::Null, None, &floats()).unwrap();
    let Value::Blob(blob) = &result else {
        panic!("Expected Blob, got {result:?}");
    };
    let elements = array_values_from_blob(blob).unwrap();
    assert_eq!(elements.len(), 5);
    assert_eq!(elements[0], Value::build_text("h"));
    assert_eq!(elements[1], Value::build_text("e"));
    assert_eq!(elements[4], Value::build_text("o"));
}

#[test]
fn test_exec_array_contains_streaming() {
    let arr = values_to_record_blob(&[
        Value::from_i64(10),
        Value::from_i64(20),
        Value::from_i64(30),
    ])
    .unwrap();
    assert_eq!(
        exec_array_contains(&arr, &Value::from_i64(20), &floats()).unwrap(),
        Value::from_i64(1)
    );
    assert_eq!(
        exec_array_contains(&arr, &Value::from_i64(99), &floats()).unwrap(),
        Value::from_i64(0)
    );
}

#[test]
fn test_exec_array_position_streaming() {
    let arr = values_to_record_blob(&[
        Value::from_i64(10),
        Value::from_i64(20),
        Value::from_i64(30),
    ])
    .unwrap();
    // 1-based: element 20 is at position 2
    assert_eq!(
        exec_array_position(&arr, &Value::from_i64(20), &floats()).unwrap(),
        Value::from_i64(2)
    );
    assert_eq!(
        exec_array_position(&arr, &Value::from_i64(99), &floats()).unwrap(),
        Value::Null
    );
}

#[test]
fn test_dc1_negative_index_preserves_array() {
    let arr = values_to_record_blob(&[
        Value::from_i64(10),
        Value::from_i64(20),
        Value::from_i64(30),
    ])
    .unwrap();
    // array_find_streaming with impossible predicate should return None
    let Value::Blob(blob) = &arr else {
        panic!("Expected Blob");
    };
    assert!(array_find_streaming(blob, |_: &Value| false).is_none());
}

#[test]
fn test_dc4_array_remove_null_returns_null() {
    assert_eq!(
        exec_array_remove(&Value::Null, &Value::from_i64(1), &floats()).unwrap(),
        Value::Null
    );
}

#[test]
fn test_dc4_array_slice_null_returns_null() {
    assert_eq!(
        exec_array_slice(
            &Value::Null,
            &Value::from_i64(0),
            &Value::from_i64(2),
            &floats()
        )
        .unwrap(),
        Value::Null,
    );
}

#[test]
fn test_dc4_array_cat_null_returns_null() {
    assert_eq!(
        exec_array_cat(&Value::Null, &Value::Null, &floats()).unwrap(),
        Value::Null
    );
    assert_eq!(
        exec_array_cat(&Value::Null, &Value::from_i64(1), &floats()).unwrap(),
        Value::Null,
    );
}

#[test]
fn test_serialize_array_from_blob() {
    let arr = values_to_record_blob(&[Value::from_i64(1), Value::build_text("hello"), Value::Null])
        .unwrap();
    let Value::Blob(blob) = &arr else {
        panic!("Expected Blob");
    };
    let text = serialize_array_from_blob(blob, &floats()).unwrap();
    assert_eq!(text, "{1,hello,NULL}");
}

#[test]
fn test_make_array_from_registers() {
    let registers = vec![
        Register::Value(Value::from_i64(1)),
        Register::Value(Value::build_text("two")),
        Register::Value(Value::from_i64(3)),
    ];
    let result = make_array_from_registers(&registers, 0, 3).unwrap();
    let Value::Blob(blob) = &result else {
        panic!("Expected Blob");
    };
    let elements = array_values_from_blob(blob).unwrap();
    assert_eq!(elements.len(), 3);
    assert_eq!(elements[0], Value::from_i64(1));
    assert_eq!(elements[1], Value::build_text("two"));
    assert_eq!(elements[2], Value::from_i64(3));
}

#[test]
fn a_multidimensional_text_literal_refuses_loudly() {
    let err = parse_text_array("{{1,2},{3,4}}", &floats()).unwrap_err();
    assert!(
        err.message().contains("multidimensional"),
        "expected the multidimensional refusal, got: {err:?}"
    );
    let err = exec_array_contains(
        &Value::build_text("{{1,2},{3,4}}"),
        &Value::from_i64(2),
        &floats(),
    )
    .unwrap_err();
    assert!(err.message().contains("multidimensional"));
}

#[test]
fn quoted_text_elements_coerce_to_a_numeric_probe() {
    let arr = Value::build_text(r#"{"1","3"}"#);
    assert_eq!(
        exec_array_contains(&arr, &Value::from_i64(3), &floats()).unwrap(),
        Value::from_i64(1)
    );
    assert_eq!(
        exec_array_contains(&arr, &Value::from_i64(2), &floats()).unwrap(),
        Value::from_i64(0)
    );
    assert_eq!(
        exec_array_position(&arr, &Value::from_i64(3), &floats()).unwrap(),
        Value::from_i64(2)
    );
}

#[test]
fn an_unparseable_text_element_refuses_the_whole_array() {
    // `{"1","x"}` errors even though "1" alone would have matched.
    let arr = Value::build_text(r#"{"1","x"}"#);
    let err = exec_array_contains(&arr, &Value::from_i64(1), &floats()).unwrap_err();
    assert!(
        err.message().contains(ARRAY_ANY_COERCION_MARKER)
            && err.message().contains("invalid input syntax"),
        "expected the marked coercion refusal, got: {err:?}"
    );
}

#[test]
fn a_blob_probe_against_text_elements_refuses_loudly() {
    let arr = Value::build_text("{a,b}");
    let probe = Value::from_slice(&[1, 2, 3]);
    let err = exec_array_contains(&arr, &probe, &floats()).unwrap_err();
    assert!(err.message().contains(ARRAY_ANY_COERCION_MARKER));
}

#[test]
fn mixed_class_overlap_coerces_or_refuses() {
    let nums = values_to_record_blob(&[Value::from_i64(1), Value::from_i64(2)]).unwrap();
    let texts = Value::build_text(r#"{"2","5"}"#);
    assert_eq!(
        exec_array_overlap(&nums, &texts, true, &floats()).unwrap(),
        Value::from_i64(1)
    );
    let bad = Value::build_text(r#"{"2","x"}"#);
    assert!(exec_array_overlap(&nums, &bad, true, &floats()).is_err());
}

#[test]
fn an_all_empty_nesting_is_the_empty_array() {
    assert_eq!(
        parse_text_array("{ {} }", &floats()).unwrap().unwrap(),
        Vec::<Value>::new()
    );
    assert_eq!(
        parse_text_array("{{},{}}", &floats()).unwrap().unwrap(),
        Vec::<Value>::new()
    );
}

#[test]
fn null_semantics_match_postgres() {
    let floats = floats();
    // A NULL probe finds a NULL element.
    let arr = Value::build_text("{a,NULL,c}");
    assert_eq!(
        exec_array_position(&arr, &Value::Null, &floats).unwrap(),
        Value::from_i64(2)
    );
    // A NULL element in the contained side is never found.
    let a = values_to_record_blob(&[Value::from_i64(1), Value::from_i64(2)]).unwrap();
    let b = values_to_record_blob(&[Value::Null]).unwrap();
    assert_eq!(
        exec_array_contains_all(&a, &b, true, &floats).unwrap(),
        Value::from_i64(0)
    );
    // Not even when the containing side holds a NULL of its own.
    let a_with_null = values_to_record_blob(&[Value::from_i64(1), Value::Null]).unwrap();
    assert_eq!(
        exec_array_contains_all(&a_with_null, &b, true, &floats).unwrap(),
        Value::from_i64(0)
    );
    // && never matches through NULLs either.
    assert_eq!(
        exec_array_overlap(&a_with_null, &b, true, &floats).unwrap(),
        Value::from_i64(0)
    );
    // The default keeps NULL-matching containment; a NULL in `b` with no NULL
    // in `a` is not vacuously contained.
    assert_eq!(
        exec_array_contains_all(&a_with_null, &b, false, &floats).unwrap(),
        Value::from_i64(1)
    );
    assert_eq!(
        exec_array_overlap(&a_with_null, &b, false, &floats).unwrap(),
        Value::from_i64(1)
    );
    assert_eq!(
        exec_array_contains_all(&a, &b, false, &floats).unwrap(),
        Value::from_i64(0)
    );
}
