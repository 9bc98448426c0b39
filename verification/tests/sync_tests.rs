use mediastore::collection::Collection;
use mediastore::ident::ID;
use mediastore::media::MediaItem;
use mediastore::sync::reconcile;

fn item(id: &str, title: &str) -> MediaItem {
    MediaItem {
        id: id.to_string(),
        url: format!("https://media.example/{}", id),
        title: title.to_string(),
        format: "webm".to_string(),
    }
}

#[test]
fn reconcile_computes_the_asymmetric_diff() {
    // local has {A, B}; remote has {B, C}
    let mut local: Collection<MediaItem> = Collection::new("media/");
    local.set(&ID::from("A".to_string()), &item("A", "a"));
    local.set(&ID::from("B".to_string()), &item("B", "local b"));
    let mut remote: Collection<MediaItem> = Collection::new("media/");
    remote.set(&ID::from("B".to_string()), &item("B", "remote b"));
    remote.set(&ID::from("C".to_string()), &item("C", "c"));

    let resp = reconcile(&local.ids(), &remote);
    assert_eq!(resp.missing.len(), 1);
    assert_eq!(resp.missing[0].0.as_str(), "C");
    assert_eq!(resp.missing[0].1.title, "c");
    assert_eq!(resp.unknown.len(), 1);
    assert_eq!(resp.unknown[0].as_str(), "A");
}

#[test]
fn applying_the_answer_converges_on_the_remote_id_set() {
    let mut local: Collection<MediaItem> = Collection::new("media/");
    local.set(&ID::from("A".to_string()), &item("A", "a"));
    local.set(&ID::from("B".to_string()), &item("B", "local b"));
    let mut remote: Collection<MediaItem> = Collection::new("media/");
    remote.set(&ID::from("B".to_string()), &item("B", "remote b"));
    remote.set(&ID::from("C".to_string()), &item("C", "c"));

    let resp = reconcile(&local.ids(), &remote);
    local.apply_sync(resp);

    let ids: Vec<String> = local.ids().iter().map(|i| i.as_str().to_string()).collect();
    assert_eq!(ids, vec!["B".to_string(), "C".to_string()]);
    // a record both sides held keeps the local value on this path
    assert_eq!(local.get(&ID::from("B".to_string())).unwrap().title, "local b");
    // a pulled-in record carries the remote value
    assert_eq!(local.get(&ID::from("C".to_string())).unwrap().title, "c");
    assert!(local.get(&ID::from("A".to_string())).is_none());
}

#[test]
fn reconcile_against_an_equal_replica_changes_nothing() {
    let mut local: Collection<MediaItem> = Collection::new("media/");
    local.set(&ID::from("A".to_string()), &item("A", "a"));
    let mut remote: Collection<MediaItem> = Collection::new("media/");
    remote.set(&ID::from("A".to_string()), &item("A", "a"));
    let resp = reconcile(&local.ids(), &remote);
    assert_eq!(resp.missing.len(), 0);
    assert_eq!(resp.unknown.len(), 0);
    local.apply_sync(resp);
    assert_eq!(local.list().len(), 1);
}

#[test]
fn a_second_run_completes_convergence() {
    // the first run is cut short after the pull: only the drop is
    // left, and a fresh reconciliation still converges
    let mut local: Collection<MediaItem> = Collection::new("media/");
    local.set(&ID::from("A".to_string()), &item("A", "a"));
    let mut remote: Collection<MediaItem> = Collection::new("media/");
    remote.set(&ID::from("C".to_string()), &item("C", "c"));

    let resp = reconcile(&local.ids(), &remote);
    local.sync(resp.missing);
    // the unknown ids were never dropped; reconcile again
    let resp2 = reconcile(&local.ids(), &remote);
    local.apply_sync(resp2);
    let ids: Vec<String> = local.ids().iter().map(|i| i.as_str().to_string()).collect();
    assert_eq!(ids, vec!["C".to_string()]);
}
