use mediastore::doc::Doc;

fn val(s: &str) -> Doc {
    Doc::Val(s.to_string())
}

fn obj(entries: Vec<(&str, Doc)>) -> Doc {
    Doc::Obj(entries.into_iter().map(|(k, d)| (k.to_string(), d)).collect())
}

fn round_trips(d: &Doc) {
    let text = d.emit();
    let back = Doc::from_str(&text).expect("the encoding of a document parses");
    assert_eq!(back.emit(), text);
}

#[test]
fn round_trip_leaf() {
    round_trips(&val("hello"));
    round_trips(&val(""));
}

#[test]
fn round_trip_empty_object() {
    round_trips(&obj(vec![]));
}

#[test]
fn round_trip_nested() {
    round_trips(&obj(vec![
        ("empty", obj(vec![])),
        ("leaf", val("v")),
        ("nest", obj(vec![("in", obj(vec![("deep", val("x"))]))])),
    ]));
}

#[test]
fn round_trip_escapes() {
    round_trips(&val("quote \" and backslash \\ together"));
    round_trips(&obj(vec![("key\"with\\both", val("\\\""))]));
}

#[test]
fn parse_exact_text() {
    let d = Doc::from_str("{\"a\":\"1\",\"b\":{\"c\":\"2\"}}").unwrap();
    assert_eq!(d.get("a").unwrap().into_val(), "1");
    assert_eq!(d.get("b.c").unwrap().into_val(), "2");
}

#[test]
fn parse_rejects_trailing_input() {
    assert!(Doc::from_str("\"x\"tail").is_none());
    assert!(Doc::from_str("{}{}").is_none());
}

#[test]
fn parse_rejects_malformed_input() {
    assert!(Doc::from_str("").is_none());
    assert!(Doc::from_str("plain").is_none());
    assert!(Doc::from_str("\"open").is_none());
    assert!(Doc::from_str("{\"k\":}").is_none());
    assert!(Doc::from_str("{\"k\"\"v\"}").is_none());
    assert!(Doc::from_str("{\"k\":\"v\"").is_none());
    assert!(Doc::from_str("[1]").is_none());
}

#[test]
fn parse_preserves_stored_order() {
    let d = Doc::from_str("{\"z\":\"1\",\"a\":\"2\"}").unwrap();
    assert_eq!(d.emit(), "{\"z\":\"1\",\"a\":\"2\"}");
}
