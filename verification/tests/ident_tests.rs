use mediastore::ident::ID;

#[test]
fn gen_is_deterministic() {
    let a = ID::gen("hello");
    let b = ID::gen("hello");
    assert_eq!(a, b);
    assert_eq!(a.as_str(), b.as_str());
}

#[test]
fn gen_matches_known_digest() {
    // base64 of the SHA-256 digest of the UTF-8 bytes of "hello"
    let a = ID::gen("hello");
    assert_eq!(a.as_str(), "LPJNul+wow4m6DsqxbninhsWHlwfp0JecwQzYpOLmCQ=");
    let b = ID::gen("world");
    assert_eq!(b.as_str(), "SG6kYiTRu0+2gPNPfJrZao8k7Ii+c+qOWmxlJg6cuKc=");
}

#[test]
fn gen_yields_forty_four_base64_characters() {
    for input in ["", "x", "a longer serialized record value"] {
        let id = ID::gen(input);
        let s = id.as_str();
        assert_eq!(s.chars().count(), 44);
        assert!(s.chars().all(|c| {
            c.is_ascii_uppercase()
                || c.is_ascii_lowercase()
                || c.is_ascii_digit()
                || c == '+'
                || c == '/'
                || c == '='
        }));
    }
}

#[test]
fn gen_differs_on_different_input() {
    let a = ID::gen("hello");
    let b = ID::gen("world");
    assert!(a != b);
}

#[test]
fn caller_supplied_ids_pass_through() {
    let a = ID::from("entity-17".to_string());
    assert_eq!(a.as_str(), "entity-17");
    let s: String = a.into();
    assert_eq!(s, "entity-17");
    let b = ID::from_string("entity-17".to_string());
    assert_eq!(b.as_str(), "entity-17");
    // the contracted way out of an identifier is lossless too
    let out = b.into_string();
    assert_eq!(out, "entity-17");
}

#[test]
fn duplicate_keeps_the_characters() {
    let a = ID::gen("hello");
    let b = a.duplicate();
    assert_eq!(a, b);
}
