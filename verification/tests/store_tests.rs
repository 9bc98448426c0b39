use mediastore::doc::Doc;
use mediastore::ident::ID;
use mediastore::storage::{Storage, StringStore};
use mediastore::store::{drop, get, list, put, update};

fn val(s: &str) -> Doc {
    Doc::Val(s.to_string())
}

fn obj(entries: Vec<(&str, Doc)>) -> Doc {
    Doc::Obj(entries.into_iter().map(|(k, d)| (k.to_string(), d)).collect())
}

#[test]
fn put_content_addresses() {
    let mut s = StringStore::new();
    let d = obj(vec![("title", val("x"))]);
    let id = put(&mut s, &d);
    // base64 of the SHA-256 digest of the bytes of {"title":"x"}
    assert_eq!(id.as_str(), "J1A8i1XWzdklYFPX+E6tMNUCRnoe0R9kBxqjTDodDiU=");
    let back = get(&s, &id).expect("the stored document is there");
    assert_eq!(back.emit(), "{\"title\":\"x\"}");
}

#[test]
fn put_identical_content_collides_to_one_key() {
    let mut s = StringStore::new();
    let id1 = put(&mut s, &obj(vec![("title", val("x"))]));
    let id2 = put(&mut s, &obj(vec![("title", val("x"))]));
    assert_eq!(id1, id2);
    assert_eq!(list(&s).len(), 1);
}

#[test]
fn update_merges_and_writes_under_a_new_id() {
    let mut s = StringStore::new();
    let h = put(&mut s, &obj(vec![("title", val("x"))]));
    // the patch adds a key, so the merged content differs
    let h2 = update(&mut s, &h, &obj(vec![("subtitle", val("y"))]))
        .expect("updating a present record answers the new identifier");
    assert!(h != h2);
    assert_eq!(h2.as_str(), "GSjMybmpftPGRfb7kOMLYV3XctOdsAyrMq8g0WiCkGA=");
    // the merged record is under the new identifier
    let merged = get(&s, &h2).unwrap();
    assert_eq!(merged.emit(), "{\"subtitle\":\"y\",\"title\":\"x\"}");
    // the original entry remains unchanged under the old identifier
    let original = get(&s, &h).unwrap();
    assert_eq!(original.emit(), "{\"title\":\"x\"}");
}

#[test]
fn update_with_conflicting_leaf_keeps_the_stored_side() {
    let mut s = StringStore::new();
    let h = put(&mut s, &obj(vec![("title", val("x"))]));
    // the stored side wins on a leaf conflict, so the merged content,
    // and with it the content-derived identifier, stay the same
    let h2 = update(&mut s, &h, &obj(vec![("title", val("y"))])).unwrap();
    assert_eq!(h, h2);
    assert_eq!(get(&s, &h).unwrap().emit(), "{\"title\":\"x\"}");
    assert_eq!(list(&s).len(), 1);
}

#[test]
fn update_of_absent_id_is_a_no_op() {
    let mut s = StringStore::new();
    let stranger = ID::from("nobody".to_string());
    assert!(update(&mut s, &stranger, &obj(vec![("k", val("v"))])).is_none());
    assert_eq!(list(&s).len(), 0);
}

#[test]
fn drop_removes_and_is_idempotent() {
    let mut s = StringStore::new();
    let id = put(&mut s, &val("data"));
    drop(&mut s, &id);
    assert!(get(&s, &id).is_none());
    drop(&mut s, &id);
    assert!(get(&s, &id).is_none());
}

#[test]
fn corrupt_entries_degrade_to_absent() {
    let mut s = StringStore::new();
    s.set_item("broken", "not a document");
    let id = ID::from("broken".to_string());
    assert!(get(&s, &id).is_none());
    assert_eq!(list(&s).len(), 0);
    // a decodable neighbour is still listed
    put(&mut s, &val("fine"));
    assert_eq!(list(&s).len(), 1);
}

#[test]
fn string_store_operations() {
    let mut s = StringStore::new();
    assert!(!s.has_key("k"));
    s.set_item("k", "v1");
    assert!(s.has_key("k"));
    assert_eq!(s.get_item("k").unwrap(), "v1");
    s.set_item("k", "v2");
    assert_eq!(s.get_item("k").unwrap(), "v2");
    s.set_item("other", "x");
    assert_eq!(s.items().len(), 2);
    s.remove_item("k");
    assert!(!s.has_key("k"));
    assert_eq!(s.items().len(), 1);
}
