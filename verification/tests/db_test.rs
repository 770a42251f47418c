use mymesi::db::DbSession;

#[test]
fn test_string() {
    let session = DbSession::new(&"/tmp/mymesi/db_test".to_string());
    session.set("key".to_string(), "val_redrock".to_string());
    let val: String = session.get("key".to_string());

    println!("{val}");
    assert_eq!(val, "val_redrock")
}
