use toons::decode::deserialize;
use toons::encode::serialize;
use toons::value::Delimiter;
use toons::value::ExpandPaths;
use toons::value::ToonError;
use toons::value::Value;

fn dec_strict(s: &str) -> Result<Value, ToonError> {
    deserialize(s, true, ExpandPaths::Off, None)
}

#[test]
fn missing_colon() {
    assert_eq!(dec_strict("a: 1\njust words"), Err(ToonError::MissingColon));
}

#[test]
fn invalid_header_length() {
    assert_eq!(dec_strict("items[x]: a"), Err(ToonError::InvalidHeader));
}

#[test]
fn legacy_hash_header() {
    assert_eq!(dec_strict("items[#2]: a,b"), Err(ToonError::LegacyHeader));
}

#[test]
fn missing_field_list_brace() {
    assert_eq!(dec_strict("items[2]{a,b:\n  1,2"), Err(ToonError::InvalidHeader));
}

#[test]
fn row_width_mismatch() {
    assert_eq!(
        dec_strict("items[2]{a,b}:\n  1,2\n  3"),
        Err(ToonError::RowWidthMismatch)
    );
}

#[test]
fn expanded_length_mismatch() {
    assert_eq!(
        dec_strict("items[3]:\n  - a\n  - b"),
        Err(ToonError::LengthMismatch)
    );
}

#[test]
fn unterminated_string() {
    assert_eq!(dec_strict("k: \"abc"), Err(ToonError::UnterminatedString));
}

#[test]
fn invalid_escape() {
    assert_eq!(dec_strict("k: \"a\\qb\""), Err(ToonError::InvalidEscape));
}

#[test]
fn dangling_escape() {
    assert_eq!(dec_strict("k: \"a\\\""), Err(ToonError::InvalidEscape));
}

#[test]
fn tab_in_indentation() {
    assert_eq!(dec_strict("a:\n\tb: 1"), Err(ToonError::TabInIndent));
}

#[test]
fn indentation_not_multiple_of_unit() {
    assert_eq!(
        deserialize("a:\n   b: 1\n c: 2", true, ExpandPaths::Off, Some(2)),
        Err(ToonError::IndentNotMultiple)
    );
}

#[test]
fn blank_line_inside_array_is_strict_error() {
    assert_eq!(
        dec_strict("items[2]:\n  - a\n\n  - b"),
        Err(ToonError::BlankLineInArray)
    );
}

#[test]
fn blank_line_inside_array_allowed_when_lenient() {
    let v = deserialize("items[2]:\n  - a\n\n  - b", false, ExpandPaths::Off, None).unwrap();
    let items: Vec<char> = "items".chars().collect();
    let a: Vec<char> = "a".chars().collect();
    let b: Vec<char> = "b".chars().collect();
    assert_eq!(
        v,
        Value::Object(vec![(
            items,
            Value::Array(vec![Value::Str(a), Value::Str(b)])
        )])
    );
}

#[test]
fn indent_below_two_is_refused() {
    let v = Value::Object(vec![]);
    assert_eq!(
        serialize(&v, Delimiter::Comma, 1, false, None),
        Err(ToonError::IndentTooSmall)
    );
    assert_eq!(
        serialize(&v, Delimiter::Comma, 0, false, None),
        Err(ToonError::IndentTooSmall)
    );
    assert!(serialize(&v, Delimiter::Comma, 2, false, None).is_ok());
}

#[test]
fn error_descriptions_are_stable() {
    assert_eq!(
        ToonError::MissingColon.describe(),
        "missing colon in field line"
    );
    assert_eq!(
        ToonError::IndentTooSmall.describe(),
        "indent must be at least 2"
    );
}

#[test]
fn short_row_tolerated_when_lenient() {
    let v = deserialize(
        "items[2]{a,b}:\n  1,2\n  3",
        false,
        ExpandPaths::Off,
        None,
    )
    .unwrap();
    let items: Vec<char> = "items".chars().collect();
    let a: Vec<char> = "a".chars().collect();
    let b: Vec<char> = "b".chars().collect();
    assert_eq!(
        v,
        Value::Object(vec![(
            items,
            Value::Array(vec![
                Value::Object(vec![
                    (a.clone(), Value::Int(1)),
                    (b, Value::Int(2)),
                ]),
                Value::Object(vec![(a, Value::Int(3))]),
            ])
        )])
    );
}
