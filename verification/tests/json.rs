use octane::convert::{Float64, FromJSON, JSONable, NoWhere, ToJSON, TupleStruct};
use octane::parse;
use octane::value::Value;

#[test]
fn success_string() {
    // Parsing should work as expected.
    let (string, rest) = parse::parse_string(r#""as\n\t\u0041d\"f"foo"#).unwrap();
    assert_eq!(string, "as\n\tAd\"f".to_string());
    assert_eq!(rest, "foo");
}

#[test]
fn failure_string() {
    // No closing quote should result in an error.
    assert!(parse::parse_string(r#""asdffoo"#).is_none());
    // Unicode escapes should handle bad cases.
    assert!(parse::parse_string(r#""abc\u004""#).is_none());
    assert!(parse::parse_string(r#""abc\ux123""#).is_none());
    // Non-existent escapes should error.
    assert!(parse::parse_string(r#""\c""#).is_none());
}

#[test]
fn success_bool() {
    // Parsing should work as expected.
    assert_eq!((true, " asdf"), parse::parse_bool("true asdf").unwrap());
    assert_eq!((false, " asdf"), parse::parse_bool("false asdf").unwrap());
    assert!(parse::parse_bool("asdf").is_none());
}

#[test]
fn success_null() {
    // Parsing should work as expected.
    assert_eq!(((), " asdf"), parse::parse_null("null asdf").unwrap());
    assert!(parse::parse_null("asdf").is_none());
}

#[test]
fn success_number() {
    // Parsing should work as expected.
    assert_eq!(
        (Value::Float((-1.23e-2f64).to_bits()), "asdf"),
        parse::parse_int_or_float("-1.23e-2asdf").unwrap()
    );
    assert!(parse::parse_int_or_float("1..").is_none());
}

#[test]
fn success_element() {
    // Parsing should work as expected.
    let (val, rest) = parse::parse_element(" 123 asdf").unwrap();
    assert_eq!(rest, "asdf");
    assert!(val.is_integer());
    assert!(!val.is_string());
    assert_eq!(*val.as_integer().unwrap(), 123);
}

#[test]
fn success_object() {
    // Parsing should work as expected.
    let (obj, rest) = parse::parse_object(
        r#"{"a" : 1.0 , "b": "two", "c": {"x": 3}, "d": true, "e": false, "f": null, "g": [true, false]}asdf"#,
    )
    .unwrap();
    assert_eq!(*obj.get("a").unwrap().as_float().unwrap(), 1.0f64.to_bits());
    assert_eq!(*obj.get("b").unwrap().as_string().unwrap(), "two".to_string());
    assert_eq!(
        *obj.get("c").unwrap().get("x").unwrap().as_integer().unwrap(),
        3
    );
    assert_eq!(*obj.get("d").unwrap().as_boolean().unwrap(), true);
    assert_eq!(*obj.get("e").unwrap().as_boolean().unwrap(), false);
    assert_eq!(obj.get("f").unwrap().as_null().unwrap(), ());
    assert!(obj
        .get("g")
        .unwrap()
        .as_array()
        .unwrap()
        .iter()
        .map(|v| *v.as_boolean().unwrap())
        .eq(vec![true, false].into_iter()));
    assert_eq!(rest, "asdf");
}

#[test]
fn success_serialize() {
    // Values should be converted to valid JSON..
    let s = r#"{"a" : 1.0 , "b": "two", "c": {"x": 3}, "d": true, "e": false, "f": null, "g": [true, false]}"#;
    let parsed = Value::parse(s).unwrap();
    assert_eq!(parsed, Value::parse(&parsed.serialize()).unwrap());
}

#[test]
fn failure_object() {
    // Bad cases should be handled.
    assert!(parse::parse_object(r#"{"#).is_none());
    assert!(parse::parse_object(r#"{"a":}"#).is_none());
    assert!(parse::parse_object(r#"{"a":,}"#).is_none());
    assert!(parse::parse_object(r#"{a:1}"#).is_none());
    assert!(parse::parse_object(r#"{"a":1,}"#).is_none());
}

#[test]
fn success_derive() {
    // The conversion protocol should work on aggregates.
    let obj = JSONable::<i32>::from_json(
        Value::parse(r#"{"x": 1, "y": "asdf", "z": [1, 2, 3]}"#).unwrap(),
    )
    .unwrap();
    assert_eq!(obj.x, 1);
    assert_eq!(obj.y, "asdf".to_string());
    assert_eq!(obj.z, vec![1, 2, 3]);
    assert_eq!(
        obj,
        JSONable::from_json(obj.clone().to_json().unwrap()).unwrap()
    );
    let obj = NoWhere::<i32>::from_json(
        Value::parse(r#"{"x": 1, "y": "asdf", "z": [1, 2, 3]}"#).unwrap(),
    )
    .unwrap();
    assert_eq!(obj.x, 1);
    assert_eq!(obj.y, "asdf".to_string());
    assert_eq!(obj.z, vec![1, 2, 3]);
    assert_eq!(
        obj,
        NoWhere::from_json(obj.clone().to_json().unwrap()).unwrap()
    );
    let val = Value::parse(r#"[1, "asdf", [[2, "foo", []], [3, "bar", []]]]"#).unwrap();
    let arr = TupleStruct::from_json(val).unwrap();
    assert_eq!(arr.0, 1);
    assert_eq!(arr.1, "asdf".to_string());
    assert_eq!(arr.2[0].0, 2);
    assert_eq!(arr.2[0].1, "foo".to_string());
    assert_eq!(arr.2[0].2, vec![]);
    assert_eq!(arr.2[1].0, 3);
    assert_eq!(arr.2[1].1, "bar".to_string());
    assert_eq!(arr.2[1].2, vec![]);
    assert_eq!(
        arr,
        TupleStruct::from_json(arr.clone().to_json().unwrap()).unwrap()
    );
}

#[test]
fn fail_derive() {
    // Decoding must error when converting decimals to integers.
    assert!(JSONable::<i32>::from_json(
        Value::parse(r#"{"x": 1.1, "y": "asdf", "z": [1, 2, 3]}"#).unwrap()
    )
    .is_none());
    // Missing fields should error.
    assert!(
        JSONable::<i32>::from_json(Value::parse(r#"{"x": 1, "y": "asdf"}"#).unwrap()).is_none()
    );
    // Extra fields should error.
    assert!(JSONable::<i32>::from_json(
        Value::parse(r#"{"x": 1, "y": "asdf", "z": [1, 2, 3], "foo": "bar"}"#).unwrap()
    )
    .is_none());
}

#[test]
fn tuple_arity_mismatch_fails() {
    // A two-element array does not decode into an arity-three aggregate.
    assert!(TupleStruct::from_json(Value::parse(r#"[1, "asdf"]"#).unwrap()).is_none());
    assert!(TupleStruct::from_json(Value::parse(r#"[1, "a", [], 4]"#).unwrap()).is_none());
}

#[test]
fn integer_bounds_round_trip() {
    // The exact 64-bit bounds parse and serialize to the same digits.
    let (v, rest) = parse::parse_int_or_float("9223372036854775807").unwrap();
    assert_eq!(rest, "");
    assert_eq!(v, Value::Integer(i64::MAX));
    assert_eq!(v.serialize(), "9223372036854775807");
    let (v, rest) = parse::parse_int_or_float("-9223372036854775808,").unwrap();
    assert_eq!(rest, ",");
    assert_eq!(v, Value::Integer(i64::MIN));
    assert_eq!(v.serialize(), "-9223372036854775808");
    // One past the bound is rejected rather than wrapped.
    assert!(parse::parse_int_or_float("9223372036854775808").is_none());
    assert!(parse::parse_int_or_float("-9223372036854775809").is_none());
}

#[test]
fn float_bits_round_trip() {
    // A float survives serialization with its exact bit pattern, and a
    // whole-valued float keeps its fraction mark.
    for f in [0.1f64, -0.0, 2.5e-10, 1.0, 3.0e300, -7.25] {
        let v = Value::Float(f.to_bits());
        let text = v.serialize();
        let back = Value::parse(&text).unwrap();
        assert_eq!(back, v);
    }
    assert_eq!(Value::Float(1.0f64.to_bits()).serialize(), "1.0");
}

#[test]
fn string_escape_round_trip() {
    // Control characters, quotes and backslashes are escaped and decode
    // back to the same text.
    let v = Value::Str("a\"b\\c\nd\u{1}e/αβ".to_string());
    let text = v.serialize();
    let back = Value::parse(&text).unwrap();
    assert_eq!(back, v);
    assert_eq!(
        Value::Str("\u{8}\u{c}".to_string()).serialize(),
        "\"\\u0008\\u000c\""
    );
}

#[test]
fn nested_round_trip() {
    // A nested value re-parses to a structurally equal value.
    let s = r#"[{"k": [1, 2.5, "x"], "m": {}}, [], null, true, -12]"#;
    let parsed = Value::parse(s).unwrap();
    let text = parsed.serialize();
    assert_eq!(parsed, Value::parse(&text).unwrap());
    assert_eq!(text, Value::parse(&text).unwrap().serialize());
}

#[test]
fn duplicate_keys_overwrite_in_place() {
    // A duplicate key keeps the first occurrence's position but takes the
    // later value, and the result still round-trips.
    let v = Value::parse(r#"{"a": 1, "b": 2, "a": 3}"#).unwrap();
    assert_eq!(v.serialize(), r#"{"a":3,"b":2}"#);
    assert_eq!(v, Value::parse(&v.serialize()).unwrap());
}

#[test]
fn empty_containers() {
    assert_eq!(Value::parse("[]").unwrap().serialize(), "[]");
    assert_eq!(Value::parse("{}").unwrap().serialize(), "{}");
    assert_eq!(Value::parse(" [ ] ").unwrap(), Value::Array(vec![]));
    assert!(Value::parse("").is_none());
    assert!(Value::parse("[1, 2").is_none());
    assert!(Value::parse("[1,]").is_none());
}

#[test]
fn lookup_failures_are_none() {
    let v = Value::parse(r#"{"a": [10, 20]}"#).unwrap();
    assert!(v.get("missing").is_none());
    assert!(v.get_index(0).is_none());
    let arr = v.get("a").unwrap();
    assert_eq!(*arr.get_index(1).unwrap().as_integer().unwrap(), 20);
    assert!(arr.get_index(2).is_none());
    assert!(Value::Null.get("a").is_none());
    assert!(Value::Null.as_integer().is_none());
    assert!(Value::Integer(1).as_float().is_none());
    assert!(Value::Float(0).as_integer().is_none());
}

#[test]
fn scalar_conversions() {
    // Kind mismatches fail exactly; matching kinds succeed.
    assert_eq!(i64::from_json(Value::Integer(7)).unwrap(), 7);
    assert!(i64::from_json(Value::Float(7.0f64.to_bits())).is_none());
    assert!(bool::from_json(Value::Integer(1)).is_none());
    assert_eq!(bool::from_json(Value::Boolean(true)).unwrap(), true);
    assert_eq!(
        String::from_json(Value::Str("s".to_string())).unwrap(),
        "s".to_string()
    );
    assert!(i32::from_json(Value::Integer(1i64 << 40)).is_none());
    assert_eq!(
        Vec::<i64>::from_json(Value::parse("[1,2]").unwrap()).unwrap(),
        vec![1, 2]
    );
    assert!(Vec::<i64>::from_json(Value::parse("[1,true]").unwrap()).is_none());
    assert_eq!(7i64.to_json().unwrap(), Value::Integer(7));
    // A float target accepts either numeric kind, widening an integer.
    assert_eq!(
        Float64::from_json(Value::Float(2.5f64.to_bits())).unwrap(),
        Float64(2.5f64.to_bits())
    );
    assert_eq!(
        Float64::from_json(Value::Integer(3)).unwrap(),
        Float64(3.0f64.to_bits())
    );
    assert!(Float64::from_json(Value::Boolean(true)).is_none());
    assert_eq!(
        Float64(0.5f64.to_bits()).to_json().unwrap(),
        Value::Float(0.5f64.to_bits())
    );
}
