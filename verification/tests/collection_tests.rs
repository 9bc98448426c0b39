use mediastore::collection::{Collection, StorageEvent};
use mediastore::ident::ID;
use mediastore::media::MediaItem;

fn item(id: &str, title: &str) -> MediaItem {
    MediaItem {
        id: id.to_string(),
        url: format!("https://media.example/{}", id),
        title: title.to_string(),
        format: "webm".to_string(),
    }
}

#[test]
fn set_then_get_returns_the_record() {
    let mut c: Collection<MediaItem> = Collection::new("media/");
    let id1 = ID::from("1".to_string());
    let v1 = item("1", "First");
    c.set(&id1, &v1);
    let got = c.get(&id1).expect("the stored record is there");
    assert_eq!(got.title, "First");
    assert_eq!(got.id, "1");
}

#[test]
fn drop_then_get_is_absent() {
    let mut c: Collection<MediaItem> = Collection::new("media/");
    let id1 = ID::from("1".to_string());
    c.set(&id1, &item("1", "First"));
    c.drop(&id1);
    assert!(c.get(&id1).is_none());
    // dropping again is idempotent
    c.drop(&id1);
    assert!(c.get(&id1).is_none());
}

#[test]
fn set_overwrites_in_place() {
    let mut c: Collection<MediaItem> = Collection::new("media/");
    let id1 = ID::from("1".to_string());
    c.set(&id1, &item("1", "First"));
    c.set(&id1, &item("1", "Second"));
    assert_eq!(c.get(&id1).unwrap().title, "Second");
    assert_eq!(c.list().len(), 1);
}

#[test]
fn list_strips_the_prefix() {
    let mut c: Collection<MediaItem> = Collection::new("media/");
    c.set(&ID::from("a".to_string()), &item("a", "A"));
    c.set(&ID::from("b".to_string()), &item("b", "B"));
    let all = c.list();
    assert_eq!(all.len(), 2);
    assert_eq!(all[0].0.as_str(), "a");
    assert_eq!(all[0].1.title, "A");
    assert_eq!(all[1].0.as_str(), "b");
    let ids = c.ids();
    assert_eq!(ids.len(), 2);
    assert_eq!(ids[0].as_str(), "a");
    assert_eq!(ids[1].as_str(), "b");
}

#[test]
fn subscription_sees_create_once() {
    let mut c: Collection<MediaItem> = Collection::new("media/");
    let h = c.subscribe();
    let id1 = ID::from("1".to_string());
    c.set(&id1, &item("1", "First"));
    let events = c.take_events(h);
    assert_eq!(events.len(), 1);
    match &events[0] {
        StorageEvent::Assign(id, t) => {
            assert_eq!(id.as_str(), "1");
            assert_eq!(t.title, "First");
        }
        StorageEvent::Delete(_) => panic!("a create delivers an assignment"),
    }
    // a second set on the now-present key notifies nobody
    c.set(&id1, &item("1", "Second"));
    assert_eq!(c.take_events(h).len(), 0);
}

#[test]
fn subscription_sees_delete_of_present_record() {
    let mut c: Collection<MediaItem> = Collection::new("media/");
    let id1 = ID::from("1".to_string());
    c.set(&id1, &item("1", "First"));
    let h = c.subscribe();
    c.drop(&id1);
    let events = c.take_events(h);
    assert_eq!(events.len(), 1);
    match &events[0] {
        StorageEvent::Delete(id) => assert_eq!(id.as_str(), "1"),
        StorageEvent::Assign(_, _) => panic!("a removal delivers a delete"),
    }
    // dropping an absent record notifies nobody
    c.drop(&id1);
    assert_eq!(c.take_events(h).len(), 0);
}

#[test]
fn no_replay_for_late_subscribers() {
    let mut c: Collection<MediaItem> = Collection::new("media/");
    c.set(&ID::from("1".to_string()), &item("1", "First"));
    let h = c.subscribe();
    assert_eq!(c.take_events(h).len(), 0);
}

#[test]
fn each_subscriber_gets_its_own_copy() {
    let mut c: Collection<MediaItem> = Collection::new("media/");
    let h1 = c.subscribe();
    let h2 = c.subscribe();
    c.set(&ID::from("1".to_string()), &item("1", "First"));
    assert_eq!(c.take_events(h1).len(), 1);
    assert_eq!(c.take_events(h2).len(), 1);
}

#[test]
fn unsubscribe_stops_delivery() {
    let mut c: Collection<MediaItem> = Collection::new("media/");
    let h = c.subscribe();
    c.unsubscribe(h);
    c.set(&ID::from("1".to_string()), &item("1", "First"));
    assert_eq!(c.take_events(h).len(), 0);
}

#[test]
fn sync_overwrites_local_records() {
    let mut c: Collection<MediaItem> = Collection::new("media/");
    c.set(&ID::from("1".to_string()), &item("1", "Old"));
    let remote = vec![
        (ID::from("1".to_string()), item("1", "New")),
        (ID::from("2".to_string()), item("2", "Added")),
    ];
    c.sync(remote);
    assert_eq!(c.get(&ID::from("1".to_string())).unwrap().title, "New");
    assert_eq!(c.get(&ID::from("2".to_string())).unwrap().title, "Added");
}
