use toons::decode::deserialize;
use toons::encode::serialize;
use toons::value::Delimiter;
use toons::value::ExpandPaths;
use toons::value::Value;

fn chars_of(s: &str) -> Vec<char> {
    s.chars().collect()
}

fn roundtrip(v: Value) {
    let text = serialize(&v, Delimiter::Comma, 2, false, None).unwrap();
    let back = deserialize(&text, true, ExpandPaths::Off, None).unwrap();
    assert_eq!(back, v);
}

#[test]
fn scalar_roots_roundtrip() {
    roundtrip(Value::Null);
    roundtrip(Value::Bool(true));
    roundtrip(Value::Bool(false));
    roundtrip(Value::Int(0));
    roundtrip(Value::Int(-42));
    roundtrip(Value::Int(i64::MAX));
    roundtrip(Value::Int(i64::MIN));
    roundtrip(Value::Str(chars_of("hello")));
    roundtrip(Value::Str(chars_of("")));
    roundtrip(Value::Str(chars_of("line\nbreak\tand \"quote\" \\ back")));
    roundtrip(Value::Float(chars_of("1.5")));
    roundtrip(Value::Float(chars_of("-2.25")));
}

#[test]
fn numeric_string_guard() {
    let v = Value::Str(chars_of("007"));
    let text = serialize(&v, Delimiter::Comma, 2, false, None).unwrap();
    assert_eq!(text, "\"007\"");
    assert_eq!(
        deserialize(&text, true, ExpandPaths::Off, None).unwrap(),
        v
    );
    assert_eq!(
        deserialize("007", true, ExpandPaths::Off, None).unwrap(),
        v
    );
    assert_eq!(
        deserialize("x: 007", true, ExpandPaths::Off, None).unwrap(),
        Value::Object(vec![(chars_of("x"), v)])
    );
}

#[test]
fn quoting_necessity() {
    for s in [
        "", "true", " x", "x ", "1e5", "-5abc", "false", "null", "+17", "5.", ".5", "inf",
        "NaN", "Infinity", "+1.5", "1e999",
    ] {
        let v = Value::Str(chars_of(s));
        let text = serialize(&v, Delimiter::Comma, 2, false, None).unwrap();
        assert!(text.starts_with('"'), "expected quoting for {:?}: {}", s, text);
        assert!(text.ends_with('"'));
        assert_eq!(deserialize(&text, true, ExpandPaths::Off, None).unwrap(), v);
    }
}

#[test]
fn plain_strings_stay_bare() {
    for s in ["hello", "x_y.z", "a b"] {
        let v = Value::Str(chars_of(s));
        let text = serialize(&v, Delimiter::Comma, 2, false, None).unwrap();
        assert_eq!(text, s);
        assert_eq!(deserialize(&text, true, ExpandPaths::Off, None).unwrap(), v);
    }
}

#[test]
fn float_texts_are_canonical() {
    let v = deserialize("x: 2.0", true, ExpandPaths::Off, None).unwrap();
    assert_eq!(
        v,
        Value::Object(vec![(chars_of("x"), Value::Float(chars_of("2.0")))])
    );
    let v2 = deserialize("x: 1e3", true, ExpandPaths::Off, None).unwrap();
    assert_eq!(
        v2,
        Value::Object(vec![(chars_of("x"), Value::Float(chars_of("1000.0")))])
    );
}

#[test]
fn zero_floats_render_as_zero() {
    let v = Value::Object(vec![(chars_of("x"), Value::Float(chars_of("0.0")))]);
    let text = serialize(&v, Delimiter::Comma, 2, false, None).unwrap();
    assert_eq!(text, "x: 0");
    let back = deserialize(&text, true, ExpandPaths::Off, None).unwrap();
    assert_eq!(
        back,
        Value::Object(vec![(chars_of("x"), Value::Int(0))])
    );
}

#[test]
fn nested_tree_roundtrip() {
    roundtrip(Value::Object(vec![
        (chars_of("title"), Value::Str(chars_of("report"))),
        (
            chars_of("rows"),
            Value::Array(vec![
                Value::Object(vec![
                    (chars_of("k"), Value::Str(chars_of("alpha"))),
                    (chars_of("n"), Value::Int(1)),
                ]),
                Value::Object(vec![
                    (chars_of("k"), Value::Str(chars_of("beta"))),
                    (chars_of("n"), Value::Int(2)),
                ]),
            ]),
        ),
        (
            chars_of("misc"),
            Value::Array(vec![
                Value::Null,
                Value::Bool(false),
                Value::Array(vec![Value::Int(1), Value::Str(chars_of("x"))]),
            ]),
        ),
    ]));
}

#[test]
fn quoted_keys_roundtrip() {
    roundtrip(Value::Object(vec![
        (chars_of("odd key"), Value::Int(1)),
        (chars_of("with:colon"), Value::Int(2)),
        (chars_of(""), Value::Int(3)),
    ]));
}

#[test]
fn delimiter_inside_string_is_quoted() {
    let v = Value::Object(vec![(
        chars_of("xs"),
        Value::Array(vec![Value::Str(chars_of("a,b")), Value::Str(chars_of("c"))]),
    )]);
    let text = serialize(&v, Delimiter::Comma, 2, false, None).unwrap();
    assert_eq!(text, "xs[2]: \"a,b\",c");
    assert_eq!(deserialize(&text, true, ExpandPaths::Off, None).unwrap(), v);
}

#[test]
fn exponent_forms_expand_to_decimal_notation() {
    let big = Value::Object(vec![(chars_of("x"), Value::Float(chars_of("1e+16")))]);
    let text = serialize(&big, Delimiter::Comma, 2, false, None).unwrap();
    assert_eq!(text, "x: 10000000000000000");
    let small = Value::Object(vec![(chars_of("x"), Value::Float(chars_of("1e-7")))]);
    let text2 = serialize(&small, Delimiter::Comma, 2, false, None).unwrap();
    assert_eq!(text2, "x: 0.0000001");
    let back = deserialize(&text2, true, ExpandPaths::Off, None).unwrap();
    assert_eq!(
        back,
        Value::Object(vec![(chars_of("x"), Value::Float(chars_of("1e-7")))])
    );
    let mixed = Value::Object(vec![(chars_of("x"), Value::Float(chars_of("1.5e+20")))]);
    let text3 = serialize(&mixed, Delimiter::Comma, 2, false, None).unwrap();
    assert_eq!(text3, "x: 150000000000000000000");
}

#[test]
fn non_numeric_float_text_degrades_to_null() {
    let v = Value::Object(vec![(chars_of("x"), Value::Float(chars_of("zzz")))]);
    let text = serialize(&v, Delimiter::Comma, 2, false, None).unwrap();
    assert_eq!(text, "x: null");
    let w = Value::Object(vec![(chars_of("x"), Value::Float(chars_of("2e0")))]);
    let text2 = serialize(&w, Delimiter::Comma, 2, false, None).unwrap();
    assert_eq!(text2, "x: null");
}
