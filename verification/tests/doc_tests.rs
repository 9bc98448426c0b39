use mediastore::doc::Doc;

fn val(s: &str) -> Doc {
    Doc::Val(s.to_string())
}

fn obj(entries: Vec<(&str, Doc)>) -> Doc {
    Doc::Obj(entries.into_iter().map(|(k, d)| (k.to_string(), d)).collect())
}

#[test]
fn merge_identical_is_identity() {
    let a = obj(vec![
        ("author", val("me")),
        ("title", obj(vec![("long", val("x")), ("short", val("y"))])),
    ]);
    let b = a.duplicate();
    let m = a.merge(&b);
    assert_eq!(m.emit(), a.emit());
}

#[test]
fn merge_identical_leaf() {
    let a = val("plain");
    let m = a.merge(&a.duplicate());
    assert_eq!(m.emit(), "\"plain\"");
}

#[test]
fn merge_disjoint_keys_is_union() {
    let a = obj(vec![("alpha", val("1")), ("gamma", val("3"))]);
    let b = obj(vec![("beta", val("2")), ("delta", val("4"))]);
    let m = a.merge(&b);
    assert_eq!(
        m.emit(),
        "{\"alpha\":\"1\",\"beta\":\"2\",\"delta\":\"4\",\"gamma\":\"3\"}"
    );
    assert_eq!(m.get("alpha").unwrap().into_val(), "1");
    assert_eq!(m.get("beta").unwrap().into_val(), "2");
    assert_eq!(m.get("gamma").unwrap().into_val(), "3");
    assert_eq!(m.get("delta").unwrap().into_val(), "4");
}

#[test]
fn merge_shared_key_maps_recurse() {
    let a = obj(vec![("meta", obj(vec![("x", val("1"))]))]);
    let b = obj(vec![("meta", obj(vec![("y", val("2"))]))]);
    let m = a.merge(&b);
    assert_eq!(m.get("meta.x").unwrap().into_val(), "1");
    assert_eq!(m.get("meta.y").unwrap().into_val(), "2");
}

#[test]
fn merge_shared_key_left_bias() {
    let a = obj(vec![("title", val("mine"))]);
    let b = obj(vec![("title", val("theirs"))]);
    let m = a.merge(&b);
    assert_eq!(m.get("title").unwrap().into_val(), "mine");

    // value vs map: the left side wins outright, no recursion
    let c = obj(vec![("title", val("leaf"))]);
    let d = obj(vec![("title", obj(vec![("inner", val("z"))]))]);
    let m2 = c.merge(&d);
    assert_eq!(m2.get("title").unwrap().into_val(), "leaf");
    let m3 = d.merge(&c);
    assert_eq!(m3.get("title.inner").unwrap().into_val(), "z");
}

#[test]
fn merge_of_leaf_and_map_keeps_left() {
    let a = val("leaf");
    let b = obj(vec![("k", val("v"))]);
    assert_eq!(a.merge(&b).emit(), "\"leaf\"");
    assert_eq!(b.merge(&a).emit(), "{\"k\":\"v\"}");
}

#[test]
fn get_empty_path_returns_self() {
    let a = val("x");
    assert_eq!(a.get("").unwrap().into_val(), "x");
    let b = obj(vec![("k", val("v"))]);
    assert_eq!(b.get("").unwrap().emit(), "{\"k\":\"v\"}");
}

#[test]
fn get_traverses_dotted_path() {
    let d = obj(vec![(
        "a",
        obj(vec![("b", obj(vec![("c", val("deep"))]))]),
    )]);
    assert_eq!(d.get("a.b.c").unwrap().into_val(), "deep");
    assert_eq!(d.get("a.b").unwrap().emit(), "{\"c\":\"deep\"}");
}

#[test]
fn get_fails_on_missing_segment() {
    let d = obj(vec![("a", obj(vec![("b", val("x"))]))]);
    assert!(d.get("a.z").is_none());
    assert!(d.get("z").is_none());
    assert!(d.get("z.b").is_none());
}

#[test]
fn get_fails_when_traversing_a_value() {
    let d = obj(vec![("a", val("leaf"))]);
    assert!(d.get("a.b").is_none());
    let v = val("leaf");
    assert!(v.get("a").is_none());
}

#[test]
fn emit_sorted_object() {
    let d = obj(vec![("k1", val("a")), ("k2", val("b"))]);
    assert_eq!(d.emit(), "{\"k1\":\"a\",\"k2\":\"b\"}");
    assert_eq!(obj(vec![]).emit(), "{}");
}

#[test]
fn emit_escapes_quotes_and_backslashes() {
    let d = val("a\"b\\c");
    assert_eq!(d.emit(), "\"a\\\"b\\\\c\"");
}

#[test]
fn emit_pretty_lists_entries_line_by_line() {
    let d = obj(vec![("k1", val("a")), ("k2", val("b"))]);
    assert_eq!(d.emit_pretty(), "{\n  \"k1\": \"a\",\n  \"k2\": \"b\"\n}");
    assert_eq!(obj(vec![("only", val("x"))]).emit_pretty(), "{\n  \"only\": \"x\"\n}");
    assert_eq!(val("x").emit_pretty(), "\"x\"");
}

#[test]
fn emit_pretty_is_emit_plus_whitespace() {
    // for whitespace-free keys and leaves, removing the inserted
    // spaces and newlines from the indented rendering gives the
    // compact encoding back, byte for byte
    let d = obj(vec![
        ("k1", val("a")),
        ("k2", obj(vec![("in", val("b")), ("out", val("c"))])),
        ("k3", obj(vec![])),
    ]);
    let stripped: String = d
        .emit_pretty()
        .chars()
        .filter(|c| *c != ' ' && *c != '\n')
        .collect();
    assert_eq!(stripped, d.emit());
}

#[test]
fn into_val_unwraps_leaf() {
    let d = val("inner");
    assert_eq!(d.into_val(), "inner");
}
