use mediastore::media::{Field, MediaItem};
use mediastore::record::Record;

fn item(title: &str, format: &str) -> MediaItem {
    MediaItem {
        id: "7".to_string(),
        url: "https://media.example/7".to_string(),
        title: title.to_string(),
        format: format.to_string(),
    }
}

#[test]
fn kind_of_video_formats() {
    for f in ["mkv", "mp4", "ogg", "webm"] {
        assert_eq!(item("t", f).kind(), "video");
    }
}

#[test]
fn kind_of_image_formats() {
    for f in ["jpeg", "jpg", "png", "webp"] {
        assert_eq!(item("t", f).kind(), "image");
    }
}

#[test]
fn kind_of_anything_else_is_unknown() {
    assert_eq!(item("t", "pdf").kind(), "unknown");
    assert_eq!(item("t", "").kind(), "unknown");
}

#[test]
fn update_title_keeps_other_fields() {
    let mut m = item("Old", "webm");
    m.update(Field::Title("New".to_string()));
    assert_eq!(m.title, "New");
    assert_eq!(m.format, "webm");
    assert_eq!(m.id, "7");
}

#[test]
fn update_format_keeps_other_fields() {
    let mut m = item("Stays", "webm");
    m.update(Field::Format("mp4".to_string()));
    assert_eq!(m.format, "mp4");
    assert_eq!(m.title, "Stays");
}

#[test]
fn download_name_appends_the_format() {
    assert_eq!(item("clip", "webm").download_name(), "clip.webm");
    // the tail from the last dot on includes the dot, so a plain
    // extension never matches and the format is appended again
    assert_eq!(item("clip.webm", "webm").download_name(), "clip.webm.webm");
    // only a title whose tail with its dot equals the format is kept
    assert_eq!(item("clip.webm", ".webm").download_name(), "clip.webm");
    assert_eq!(item("no-dot", "mp4").download_name(), "no-dot.mp4");
}

#[test]
fn record_round_trip() {
    let m = item("A \"quoted\" title", "webm");
    let text = m.encode();
    let back = MediaItem::decode(&text).expect("the encoding of a record decodes");
    assert_eq!(back.id, m.id);
    assert_eq!(back.url, m.url);
    assert_eq!(back.title, m.title);
    assert_eq!(back.format, m.format);
}

#[test]
fn record_encoding_is_a_sorted_document() {
    let m = item("t", "webm");
    assert_eq!(
        m.encode(),
        "{\"format\":\"webm\",\"id\":\"7\",\"title\":\"t\",\"url\":\"https://media.example/7\"}"
    );
}

#[test]
fn decode_rejects_foreign_shapes() {
    assert!(MediaItem::decode("\"just a string\"").is_none());
    assert!(MediaItem::decode("{}").is_none());
    assert!(MediaItem::decode("{\"id\":\"1\"}").is_none());
    assert!(MediaItem::decode("not a document at all").is_none());
    // an extra key makes the shape foreign
    assert!(MediaItem::decode(
        "{\"extra\":\"x\",\"format\":\"webm\",\"id\":\"1\",\"title\":\"t\",\"url\":\"u\"}"
    )
    .is_none());
}
