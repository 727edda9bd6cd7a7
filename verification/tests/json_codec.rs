use minimodal_rs::codec::parse_json_text;
use minimodal_rs::codec::to_json_text;
use minimodal_rs::json::JsonValue;

fn obj(fields: Vec<(&str, JsonValue)>) -> JsonValue {
    JsonValue::Obj(fields.into_iter().map(|(k, v)| (k.to_string(), v)).collect())
}

#[test]
fn test_serialize_scalars() {
    assert_eq!(to_json_text(&JsonValue::Null), "null");
    assert_eq!(to_json_text(&JsonValue::Bool(true)), "true");
    assert_eq!(to_json_text(&JsonValue::Bool(false)), "false");
    assert_eq!(to_json_text(&JsonValue::Int(0)), "0");
    assert_eq!(to_json_text(&JsonValue::Int(42)), "42");
    assert_eq!(to_json_text(&JsonValue::Int(-7)), "-7");
    assert_eq!(to_json_text(&JsonValue::Int(i64::MAX)), "9223372036854775807");
    assert_eq!(to_json_text(&JsonValue::Int(i64::MIN)), "-9223372036854775808");
}

#[test]
fn test_serialize_strings_escape() {
    assert_eq!(to_json_text(&JsonValue::Str("hello".to_string())), "\"hello\"");
    assert_eq!(
        to_json_text(&JsonValue::Str("a\"b\\c\nd\re\tf".to_string())),
        "\"a\\\"b\\\\c\\nd\\re\\tf\""
    );
    assert_eq!(to_json_text(&JsonValue::Str("héllo".to_string())), "\"héllo\"");
}

#[test]
fn test_serialize_composites() {
    let v = JsonValue::Arr(vec![JsonValue::Int(1), JsonValue::Int(2), JsonValue::Int(3)]);
    assert_eq!(to_json_text(&v), "[1,2,3]");
    let o = obj(vec![("a", JsonValue::Int(1)), ("s", JsonValue::Str("x".to_string()))]);
    assert_eq!(to_json_text(&o), "{\"a\":1,\"s\":\"x\"}");
    assert_eq!(to_json_text(&JsonValue::Arr(vec![])), "[]");
    assert_eq!(to_json_text(&obj(vec![])), "{}");
}

#[test]
fn test_parse_scalars() {
    assert!(matches!(parse_json_text("null"), Some(JsonValue::Null)));
    assert!(matches!(parse_json_text("true"), Some(JsonValue::Bool(true))));
    assert!(matches!(parse_json_text("false"), Some(JsonValue::Bool(false))));
    assert!(matches!(parse_json_text("42"), Some(JsonValue::Int(42))));
    assert!(matches!(parse_json_text("-7"), Some(JsonValue::Int(-7))));
    assert!(matches!(
        parse_json_text("-9223372036854775808"),
        Some(JsonValue::Int(i64::MIN))
    ));
    assert!(matches!(
        parse_json_text("9223372036854775807"),
        Some(JsonValue::Int(i64::MAX))
    ));
}

#[test]
fn test_parse_rejects() {
    assert!(parse_json_text("").is_none());
    assert!(parse_json_text("tru").is_none());
    assert!(parse_json_text("nulll").is_none());
    assert!(parse_json_text("42 ").is_none());
    assert!(parse_json_text("[1,]").is_none());
    assert!(parse_json_text("{\"a\":}").is_none());
    assert!(parse_json_text("\"open").is_none());
    // numbers must fit a signed 64-bit integer
    assert!(parse_json_text("9223372036854775808").is_none());
    assert!(parse_json_text("-9223372036854775809").is_none());
}

#[test]
fn test_round_trip_nested() {
    let v = obj(vec![
        ("name", JsonValue::Str("line1\nline2".to_string())),
        ("xs", JsonValue::Arr(vec![JsonValue::Int(-1), JsonValue::Null, JsonValue::Bool(true)])),
        ("inner", obj(vec![("k", JsonValue::Str("\"quoted\"".to_string()))])),
    ]);
    let text = to_json_text(&v);
    let back = parse_json_text(&text).expect("round trip should parse");
    assert_eq!(to_json_text(&back), text);
}

#[test]
fn test_codec_agrees_with_serde_json() {
    let v = obj(vec![
        ("a", JsonValue::Int(1)),
        ("s", JsonValue::Str("x\n\"y\"".to_string())),
        ("l", JsonValue::Arr(vec![JsonValue::Bool(false), JsonValue::Null])),
    ]);
    let text = to_json_text(&v);
    let parsed: serde_json::Value = serde_json::from_str(&text).expect("serde_json should accept");
    let mut expected = serde_json::Map::new();
    expected.insert("a".to_string(), serde_json::Value::from(1i64));
    expected.insert("s".to_string(), serde_json::Value::from("x\n\"y\""));
    expected.insert(
        "l".to_string(),
        serde_json::Value::Array(vec![serde_json::Value::from(false), serde_json::Value::Null]),
    );
    assert_eq!(parsed, serde_json::Value::Object(expected));
    // and a serde_json rendering parses back into the same document
    let serde_text = serde_json::to_string(&parsed).expect("serde_json should render");
    let back = parse_json_text(&serde_text).expect("compact serde output should parse");
    assert_eq!(to_json_text(&back), serde_text);
}
