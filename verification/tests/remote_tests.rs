use mediastore::remote::{RemoteStorage, StoreError};

#[test]
fn request_targets() {
    let r = RemoteStorage::new("https://media.example".to_string());
    assert_eq!(r.url_for("abc"), "https://media.example/api/media/abc");
    assert_eq!(r.list_url(), "https://media.example/api/media");
}

#[test]
fn fetch_outcomes() {
    assert_eq!(
        RemoteStorage::interpret_get(200, Some("\"v\"".to_string())),
        Ok(Some("\"v\"".to_string()))
    );
    assert_eq!(RemoteStorage::interpret_get(404, None), Ok(None));
    assert_eq!(
        RemoteStorage::interpret_get(500, None),
        Err(StoreError::RequestFailed)
    );
    // a success status without a body is a failed request too
    assert_eq!(
        RemoteStorage::interpret_get(200, None),
        Err(StoreError::RequestFailed)
    );
}

#[test]
fn store_outcomes() {
    assert_eq!(RemoteStorage::interpret_set(202), Ok(()));
    assert_eq!(
        RemoteStorage::interpret_set(200),
        Err(StoreError::RequestFailed)
    );
}

#[test]
fn removal_outcomes() {
    assert_eq!(RemoteStorage::interpret_remove(204), Ok(()));
    assert_eq!(
        RemoteStorage::interpret_remove(404),
        Err(StoreError::RequestFailed)
    );
}

#[test]
fn presence_outcomes() {
    assert_eq!(RemoteStorage::interpret_has(200), Ok(true));
    assert_eq!(RemoteStorage::interpret_has(404), Ok(false));
    assert_eq!(
        RemoteStorage::interpret_has(503),
        Err(StoreError::RequestFailed)
    );
}

#[test]
fn store_request_body() {
    assert_eq!(
        RemoteStorage::encode_key_value("k1", "value"),
        "{\"key\":\"k1\",\"val\":\"value\"}"
    );
    // the body escapes like any document
    assert_eq!(
        RemoteStorage::encode_key_value("a\"b", "c\\d"),
        "{\"key\":\"a\\\"b\",\"val\":\"c\\\\d\"}"
    );
}
