use mymesi::protocol::Cache;
use mymesi::protocol::Event;
use mymesi::protocol::Status;

fn entry(status: Status) -> Cache {
    Cache::new("k".to_string(), "v".to_string(), status)
}

#[test]
fn remote_read_downgrades_to_shared() {
    let read = Event::RemoteRead("k".to_string());

    let mut c = entry(Status::Modified);
    assert!(!c.handle(&read));
    assert_eq!(c.status, Status::Shared);

    let mut c = entry(Status::Exclusive);
    assert!(!c.handle(&read));
    assert_eq!(c.status, Status::Shared);

    let mut c = entry(Status::Shared);
    assert!(!c.handle(&read));
    assert_eq!(c.status, Status::Shared);
}

#[test]
fn remote_write_invalidates() {
    let write = Event::RemoteWrite("k".to_string());

    let mut c = entry(Status::Modified);
    assert!(c.handle(&write));
    assert_eq!(c.status, Status::Invalid);

    let mut c = entry(Status::Exclusive);
    assert!(c.handle(&write));
    assert_eq!(c.status, Status::Invalid);

    let mut c = entry(Status::Shared);
    assert!(c.handle(&write));
    assert_eq!(c.status, Status::Invalid);
}

#[test]
fn invalid_entry_reports_eviction() {
    let read = Event::RemoteRead("k".to_string());
    let mut c = entry(Status::Invalid);
    assert!(c.handle(&read));
    assert_eq!(c.status, Status::Invalid);
}

#[test]
fn event_carries_its_key() {
    let read = Event::RemoteRead("abc".to_string());
    assert_eq!(read.get_id(), "abc");
    let write = Event::RemoteWrite("xyz".to_string());
    assert_eq!(write.get_id(), "xyz");
}

#[test]
fn cache_accessors() {
    let mut c = Cache::new("id1".to_string(), "v1".to_string(), Status::Exclusive);
    assert!(c.is(&"id1".to_string()));
    assert!(!c.is(&"id2".to_string()));
    assert_eq!(c.get(), "v1");
    c.set("v2".to_string());
    assert_eq!(c.get(), "v2");
    assert_eq!(c.id, "id1");
    assert_eq!(c.status, Status::Exclusive);
}
