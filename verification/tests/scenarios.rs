use toons::decode::deserialize;
use toons::encode::serialize;
use toons::value::Delimiter;
use toons::value::ExpandPaths;
use toons::value::ToonError;
use toons::value::Value;

fn cs(s: &str) -> Vec<char> {
    s.chars().collect()
}

fn enc_default(v: &Value) -> String {
    serialize(v, Delimiter::Comma, 2, false, None).unwrap()
}

fn dec_default(s: &str) -> Result<Value, ToonError> {
    deserialize(s, true, ExpandPaths::Off, None)
}

#[test]
fn flat_object_encodes_line_per_field() {
    let v = Value::Object(vec![
        (cs("name"), Value::Str(cs("Alice"))),
        (cs("age"), Value::Int(30)),
    ]);
    assert_eq!(enc_default(&v), "name: Alice\nage: 30");
}

#[test]
fn inline_array_field() {
    let v = Value::Object(vec![(
        cs("tags"),
        Value::Array(vec![Value::Str(cs("admin")), Value::Str(cs("user"))]),
    )]);
    assert_eq!(enc_default(&v), "tags[2]: admin,user");
}

#[test]
fn strict_length_violation() {
    assert_eq!(dec_default("items[3]: a,b"), Err(ToonError::LengthMismatch));
}

#[test]
fn tab_delimited_root_header() {
    let decoded = dec_default("[2\t]: a\tb").unwrap();
    assert_eq!(
        decoded,
        Value::Array(vec![Value::Str(cs("a")), Value::Str(cs("b"))])
    );
    let reencoded = serialize(&decoded, Delimiter::Tab, 2, false, None).unwrap();
    assert_eq!(reencoded, "[2\t]: a\tb");
}

#[test]
fn pipe_delimited_inline_array() {
    let v = Value::Array(vec![Value::Int(1), Value::Int(2), Value::Int(3)]);
    let text = serialize(&v, Delimiter::Pipe, 2, false, None).unwrap();
    assert_eq!(text, "[3|]: 1|2|3");
    assert_eq!(deserialize(&text, true, ExpandPaths::Off, None).unwrap(), v);
}

#[test]
fn tabular_array_of_uniform_objects() {
    let v = Value::Object(vec![(
        cs("users"),
        Value::Array(vec![
            Value::Object(vec![
                (cs("id"), Value::Int(1)),
                (cs("name"), Value::Str(cs("ada"))),
            ]),
            Value::Object(vec![
                (cs("id"), Value::Int(2)),
                (cs("name"), Value::Str(cs("bob"))),
            ]),
        ]),
    )]);
    let text = enc_default(&v);
    assert_eq!(text, "users[2]{id,name}:\n  1,ada\n  2,bob");
    assert_eq!(dec_default(&text).unwrap(), v);
}

#[test]
fn expanded_array_of_mixed_items() {
    let v = Value::Object(vec![(
        cs("items"),
        Value::Array(vec![
            Value::Int(1),
            Value::Str(cs("two")),
            Value::Array(vec![Value::Int(3), Value::Int(4)]),
        ]),
    )]);
    let text = enc_default(&v);
    assert_eq!(text, "items[3]:\n  - 1\n  - two\n  - [2]: 3,4");
    assert_eq!(dec_default(&text).unwrap(), v);
}

#[test]
fn list_item_objects_carry_first_field_on_hyphen() {
    let v = Value::Object(vec![(
        cs("rows"),
        Value::Array(vec![
            Value::Object(vec![
                (cs("a"), Value::Int(1)),
                (cs("b"), Value::Array(vec![Value::Int(2)])),
            ]),
            Value::Object(vec![]),
        ]),
    )]);
    let text = enc_default(&v);
    assert_eq!(text, "rows[2]:\n  - a: 1\n    b[1]: 2\n  -");
    assert_eq!(dec_default(&text).unwrap(), v);
}

#[test]
fn empty_document_is_empty_object() {
    assert_eq!(dec_default("").unwrap(), Value::Object(vec![]));
    assert_eq!(enc_default(&Value::Object(vec![])), "");
}

#[test]
fn empty_array_roundtrip() {
    let v = Value::Object(vec![(cs("xs"), Value::Array(vec![]))]);
    let text = enc_default(&v);
    assert_eq!(text, "xs[0]:");
    assert_eq!(dec_default(&text).unwrap(), v);
}

#[test]
fn nested_object_roundtrip() {
    let v = Value::Object(vec![(
        cs("outer"),
        Value::Object(vec![
            (cs("inner"), Value::Int(7)),
            (cs("empty"), Value::Object(vec![])),
        ]),
    )]);
    let text = enc_default(&v);
    assert_eq!(text, "outer:\n  inner: 7\n  empty:");
    assert_eq!(dec_default(&text).unwrap(), v);
}

#[test]
fn indent_auto_detection_with_four_spaces() {
    let text = "outer:\n    inner: 7";
    let v = deserialize(text, true, ExpandPaths::Off, None).unwrap();
    assert_eq!(
        v,
        Value::Object(vec![(
            cs("outer"),
            Value::Object(vec![(cs("inner"), Value::Int(7))])
        )])
    );
}

#[test]
fn explicit_indent_overrides_detection() {
    let text = "outer:\n  inner: 7";
    let v = deserialize(text, true, ExpandPaths::Off, Some(2)).unwrap();
    assert_eq!(
        v,
        Value::Object(vec![(
            cs("outer"),
            Value::Object(vec![(cs("inner"), Value::Int(7))])
        )])
    );
}

#[test]
fn crlf_lines_are_accepted() {
    let v = dec_default("a: 1\r\nb: 2").unwrap();
    assert_eq!(
        v,
        Value::Object(vec![(cs("a"), Value::Int(1)), (cs("b"), Value::Int(2))])
    );
}

#[test]
fn tabular_row_with_quoted_cell() {
    let v = Value::Object(vec![(
        cs("rows"),
        Value::Array(vec![
            Value::Object(vec![
                (cs("a"), Value::Str(cs("x,y"))),
                (cs("b"), Value::Int(1)),
            ]),
            Value::Object(vec![
                (cs("a"), Value::Str(cs("plain"))),
                (cs("b"), Value::Int(2)),
            ]),
        ]),
    )]);
    let text = enc_default(&v);
    assert_eq!(text, "rows[2]{a,b}:\n  \"x,y\",1\n  plain,2");
    assert_eq!(dec_default(&text).unwrap(), v);
}

#[test]
fn latin1_symbols_force_quoting() {
    let copyright = Value::Str(cs("note\u{a9}"));
    let text = enc_default(&copyright);
    assert!(text.starts_with('"'));
    assert_eq!(dec_default(&text).unwrap(), copyright);
    let accented = Value::Str(cs("caf\u{e9}"));
    assert_eq!(enc_default(&accented), "caf\u{e9}");
}

#[test]
fn trailing_delimiter_yields_empty_last_element() {
    let v = dec_default("xs[3]: a,b,").unwrap();
    assert_eq!(
        v,
        Value::Object(vec![(
            cs("xs"),
            Value::Array(vec![
                Value::Str(cs("a")),
                Value::Str(cs("b")),
                Value::Str(cs("")),
            ])
        )])
    );
}

#[test]
fn list_item_with_array_first_field() {
    let v = Value::Object(vec![(
        cs("rows"),
        Value::Array(vec![Value::Object(vec![
            (cs("xs"), Value::Array(vec![Value::Int(1), Value::Int(2)])),
            (cs("b"), Value::Int(3)),
        ])]),
    )]);
    let text = enc_default(&v);
    assert_eq!(text, "rows[1]:\n  - xs[2]: 1,2\n    b: 3");
    assert_eq!(dec_default(&text).unwrap(), v);
}

#[test]
fn lenient_mode_tolerates_uneven_nesting() {
    let text = "outer:\n   inner: 1";
    assert_eq!(
        deserialize(text, true, ExpandPaths::Off, Some(2)),
        Err(ToonError::IndentNotMultiple)
    );
    let v = deserialize(text, false, ExpandPaths::Off, Some(2)).unwrap();
    assert_eq!(
        v,
        Value::Object(vec![(
            cs("outer"),
            Value::Object(vec![(cs("inner"), Value::Int(1))])
        )])
    );
}

#[test]
fn floats_in_tabular_rows() {
    let v = Value::Object(vec![(
        cs("m"),
        Value::Array(vec![
            Value::Object(vec![(cs("x"), Value::Float(cs("1.5")))]),
            Value::Object(vec![(cs("x"), Value::Float(cs("-0.25")))]),
        ]),
    )]);
    let text = enc_default(&v);
    assert_eq!(text, "m[2]{x}:\n  1.5\n  -0.25");
    assert_eq!(dec_default(&text).unwrap(), v);
}

#[test]
fn root_tabular_array() {
    let text = "[2]{x,y}:\n  1,2\n  3,4";
    let v = dec_default(text).unwrap();
    assert_eq!(
        v,
        Value::Array(vec![
            Value::Object(vec![(cs("x"), Value::Int(1)), (cs("y"), Value::Int(2))]),
            Value::Object(vec![(cs("x"), Value::Int(3)), (cs("y"), Value::Int(4))]),
        ])
    );
    assert_eq!(enc_default(&v), text);
}
