use hypr_tools::{hyprctl_json, Json, JsonNumber};

fn doc(text: &str) -> Json {
    hyprctl_json(true, text.as_bytes())
}

fn integer(i: i64) -> Json {
    Json::Number(JsonNumber { as_i64: Some(i), text: i.to_string() })
}

#[test]
fn parse_builds_objects_arrays_and_numbers() {
    let v = doc(r#"{"b": [1, 2.5, "x", true, null], "a": -3}"#);
    let expected = Json::Object(vec![
        ("a".to_string(), integer(-3)),
        (
            "b".to_string(),
            Json::Array(vec![
                integer(1),
                Json::Number(JsonNumber { as_i64: None, text: "2.5".to_string() }),
                Json::Str("x".to_string()),
                Json::Bool(true),
                Json::Null,
            ]),
        ),
    ]);
    assert_eq!(v, expected);
}

#[test]
fn parse_keeps_last_of_duplicate_keys_once() {
    let v = doc(r#"{"k": 1, "k": 2}"#);
    assert_eq!(v, Json::Object(vec![("k".to_string(), integer(2))]));
}

#[test]
fn parse_big_unsigned_has_no_i64() {
    let v = doc("18446744073709551615");
    assert_eq!(v, Json::Number(JsonNumber { as_i64: None, text: "18446744073709551615".to_string() }));
}

#[test]
fn parse_rejects_garbage() {
    assert_eq!(hyprctl_json(true, b"{not json"), Json::Null);
    assert_eq!(hyprctl_json(true, b""), Json::Null);
    assert_eq!(hyprctl_json(true, b"null"), Json::Null);
    assert_eq!(hyprctl_json(true, b" true "), Json::Bool(true));
}

#[test]
fn hyprctl_json_falls_back_to_null() {
    assert_eq!(hyprctl_json(true, br#"{"x":1}"#), Json::Object(vec![("x".to_string(), integer(1))]));
    assert_eq!(hyprctl_json(false, br#"{"x":1}"#), Json::Null);
    assert_eq!(hyprctl_json(true, b"oops"), Json::Null);
}

#[test]
fn get_and_typed_accessors() {
    let v = doc(r#"{"s": "hi", "b": false, "n": 7, "f": 1.5, "a": [1]}"#);
    assert_eq!(v.get("s").and_then(|x| x.as_str()).map(|s| s.as_str()), Some("hi"));
    assert_eq!(v.get("b").and_then(|x| x.as_bool()), Some(false));
    assert_eq!(v.get("n").and_then(|x| x.as_i64()), Some(7));
    assert_eq!(v.get("f").and_then(|x| x.as_i64()), None);
    assert_eq!(v.get("a").and_then(|x| x.as_array()).map(|a| a.len()), Some(1));
    assert!(v.get("missing").is_none());
    assert!(integer(3).get("s").is_none());
    assert!(v.as_object().is_some());
}
