use weaver::db::DB;
use weaver::entry::Entry;
use weaver::store::Store;
use weaver::DBError;

fn fresh_db() -> DB {
    let store = Store::new("data".to_string(), true, Vec::new(), None, 0).unwrap();
    DB::new(store).unwrap()
}

fn reopen(db: &DB) -> Result<DB, DBError> {
    let st = db.store();
    let mut segments = Vec::new();
    let mut i = 0;
    while i < st.segment_count() {
        let s = st.segment_at(i);
        segments.push(weaver::store::Segment { ts: s.ts, data: s.data.clone() });
        i += 1;
    }
    let wal = st.wal_data().cloned();
    let store = Store::new("data".to_string(), true, segments, wal, 0)?;
    DB::new(store)
}

#[test]
fn roundtrip_set_get_delete_get() {
    let mut db = fresh_db();

    // Set a value
    db.put(b"key1".to_vec(), b"value1".to_vec()).unwrap();

    // Get it back
    assert_eq!(db.get(&b"key1".to_vec()), Some(&b"value1".to_vec()));

    // Delete it
    db.delete(b"key1".to_vec()).unwrap();

    // Verify it's gone
    assert_eq!(db.get(&b"key1".to_vec()), None);
}

#[test]
fn recovery_after_reopen() {
    // Set some values and close
    let db = {
        let mut db = fresh_db();
        db.put(b"key1".to_vec(), b"value1".to_vec()).unwrap();
        db.put(b"key2".to_vec(), b"value2".to_vec()).unwrap();
        db.delete(b"key1".to_vec()).unwrap();
        db
    };

    // Reopen from the on-disk state and verify data recovered
    let db2 = reopen(&db).unwrap();
    assert_eq!(db2.get(&b"key1".to_vec()), None, "key1 should be deleted");
    assert_eq!(
        db2.get(&b"key2".to_vec()),
        Some(&b"value2".to_vec()),
        "key2 should persist"
    );
}

#[test]
fn ttl_expiry() {
    // Set with 1 second TTL at time 100
    let entry = Entry::new(b"value1".to_vec(), Some(1), 100);

    // Should exist immediately
    assert_eq!(entry.get_data(100), Some(b"value1".to_vec()));

    // Two seconds later it should be gone
    let entry = Entry::new(b"value1".to_vec(), Some(1), 100);
    assert_eq!(entry.get_data(102), None, "key should have expired");
}

#[test]
fn corrupted_file_handling() {
    // A WAL holding garbage bytes
    let store = Store::new(
        "data".to_string(),
        true,
        Vec::new(),
        Some(b"not a valid record".to_vec()),
        0,
    )
    .unwrap();

    // Opening should fail with corruption error
    let result = DB::new(store);
    match result {
        Err(DBError::CorruptedFile) => {} // expected
        Err(e) => panic!("expected CorruptedFile error, got {:?}", e),
        Ok(_) => panic!("expected error, got Ok"),
    }
}
