use toons::decode::deserialize;
use toons::encode::serialize;
use toons::value::Delimiter;
use toons::value::ExpandPaths;
use toons::value::ToonError;
use toons::value::Value;

fn key(s: &str) -> Vec<char> {
    s.chars().collect()
}

#[test]
fn folding_collapses_single_key_chain() {
    let v = Value::Object(vec![(
        key("a"),
        Value::Object(vec![(
            key("b"),
            Value::Object(vec![(key("c"), Value::Int(1))]),
        )]),
    )]);
    let text = serialize(&v, Delimiter::Comma, 2, true, None).unwrap();
    assert_eq!(text, "a.b.c: 1");
}

#[test]
fn expansion_undoes_folding() {
    let expected = Value::Object(vec![(
        key("a"),
        Value::Object(vec![(
            key("b"),
            Value::Object(vec![(key("c"), Value::Int(1))]),
        )]),
    )]);
    for mode in [ExpandPaths::Safe, ExpandPaths::Always] {
        assert_eq!(deserialize("a.b.c: 1", true, mode, None).unwrap(), expected);
    }
}

#[test]
fn expansion_off_keeps_dotted_key_literal() {
    assert_eq!(
        deserialize("a.b.c: 1", true, ExpandPaths::Off, None).unwrap(),
        Value::Object(vec![(key("a.b.c"), Value::Int(1))])
    );
}

#[test]
fn safe_mode_keeps_quoted_dotted_key_literal() {
    assert_eq!(
        deserialize("\"a.b\": 1", true, ExpandPaths::Safe, None).unwrap(),
        Value::Object(vec![(key("a.b"), Value::Int(1))])
    );
    assert_eq!(
        deserialize("\"a.b\": 1", true, ExpandPaths::Always, None).unwrap(),
        Value::Object(vec![(
            key("a"),
            Value::Object(vec![(key("b"), Value::Int(1))])
        )])
    );
}

#[test]
fn folding_stops_at_multi_key_object() {
    let v = Value::Object(vec![(
        key("a"),
        Value::Object(vec![
            (key("b"), Value::Int(1)),
            (key("c"), Value::Int(2)),
        ]),
    )]);
    let text = serialize(&v, Delimiter::Comma, 2, true, None).unwrap();
    assert_eq!(text, "a:\n  b: 1\n  c: 2");
}

#[test]
fn folding_respects_depth_bound() {
    let v = Value::Object(vec![(
        key("a"),
        Value::Object(vec![(
            key("b"),
            Value::Object(vec![(key("c"), Value::Int(1))]),
        )]),
    )]);
    let text = serialize(&v, Delimiter::Comma, 2, true, Some(2)).unwrap();
    assert_eq!(text, "a.b:\n  c: 1");
    let off = serialize(&v, Delimiter::Comma, 2, true, Some(1)).unwrap();
    assert_eq!(off, "a:\n  b:\n    c: 1");
}

#[test]
fn folding_avoids_collision_with_sibling() {
    let v = Value::Object(vec![
        (
            key("a"),
            Value::Object(vec![(key("b"), Value::Int(1))]),
        ),
        (key("a.b"), Value::Int(2)),
    ]);
    let text = serialize(&v, Delimiter::Comma, 2, true, None).unwrap();
    assert_eq!(text, "a:\n  b: 1\na.b: 2");
}

#[test]
fn folding_skips_quoted_segments() {
    let v = Value::Object(vec![(
        key("a b"),
        Value::Object(vec![(key("c"), Value::Int(1))]),
    )]);
    let text = serialize(&v, Delimiter::Comma, 2, true, None).unwrap();
    assert_eq!(text, "\"a b\":\n  c: 1");
}

#[test]
fn folded_array_value() {
    let v = Value::Object(vec![(
        key("a"),
        Value::Object(vec![(
            key("b"),
            Value::Array(vec![Value::Int(1), Value::Int(2)]),
        )]),
    )]);
    let text = serialize(&v, Delimiter::Comma, 2, true, None).unwrap();
    assert_eq!(text, "a.b[2]: 1,2");
}

#[test]
fn deep_merge_conflict_is_strict_error() {
    assert_eq!(
        deserialize("a: 1\na.b: 2", true, ExpandPaths::Always, None),
        Err(ToonError::PathConflict)
    );
}

#[test]
fn deep_merge_overwrites_in_lenient_mode() {
    let v = deserialize("a: 1\na.b: 2", false, ExpandPaths::Always, None).unwrap();
    assert_eq!(
        v,
        Value::Object(vec![(
            key("a"),
            Value::Object(vec![(key("b"), Value::Int(2))])
        )])
    );
}

#[test]
fn deep_merge_merges_sibling_paths() {
    let v = deserialize("a.b: 1\na.c: 2", true, ExpandPaths::Always, None).unwrap();
    assert_eq!(
        v,
        Value::Object(vec![(
            key("a"),
            Value::Object(vec![
                (key("b"), Value::Int(1)),
                (key("c"), Value::Int(2)),
            ])
        )])
    );
}

#[test]
fn invalid_segment_keeps_key_literal() {
    let v = deserialize("a..b: 1", true, ExpandPaths::Always, None).unwrap();
    assert_eq!(v, Value::Object(vec![(key("a..b"), Value::Int(1))]));
}
