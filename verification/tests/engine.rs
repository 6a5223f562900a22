use weaver::db::DB;
use weaver::entry::Entry;
use weaver::record::{Action, Record};
use weaver::store::{segment_ts_of, Segment, Store};
use weaver::DBError;

fn frame_of(action: Action, key: &[u8], value: &[u8]) -> Vec<u8> {
    Record::new(action, key.to_vec(), value.to_vec()).encode()
}

fn fresh_store() -> Store {
    Store::new("data".to_string(), true, Vec::new(), None, 0).unwrap()
}

#[test]
fn frame_layout_is_exact() {
    // body = 1 tag byte + 8 key-length bytes + key + value
    let frame = frame_of(Action::Put, b"abc", b"xy");
    assert_eq!(frame.len(), 4 + 9 + 3 + 2);
    // little-endian length prefix: 14 = 9 + 3 + 2
    assert_eq!(&frame[0..4], &[14, 0, 0, 0]);
    // tag 0 for the set action, then the key length
    assert_eq!(frame[4], 0);
    assert_eq!(&frame[5..13], &[3, 0, 0, 0, 0, 0, 0, 0]);
    assert_eq!(&frame[13..16], b"abc");
    assert_eq!(&frame[16..18], b"xy");

    // delete uses tag 1 and an empty value
    let tomb = frame_of(Action::Delete, b"k", b"");
    assert_eq!(tomb[4], 1);
    assert_eq!(tomb.len(), 4 + 9 + 1);
}

#[test]
fn decode_roundtrip_and_errors() {
    let frame = frame_of(Action::Put, b"key", b"value");
    let rec = Record::decode(&frame[4..]).unwrap();
    assert!(matches!(rec.action, Action::Put));
    assert_eq!(rec.key, b"key".to_vec());
    assert_eq!(rec.value, b"value".to_vec());

    // too short for the body header
    assert_eq!(Record::decode(&[0u8; 5]).unwrap_err(), DBError::Decode);
    // unrecognized action tag
    let mut bad_tag = frame[4..].to_vec();
    bad_tag[0] = 7;
    assert_eq!(Record::decode(&bad_tag).unwrap_err(), DBError::CorruptedFile);
    // declared key length overruns the body
    let mut bad_len = frame[4..].to_vec();
    bad_len[1] = 0xff;
    assert_eq!(Record::decode(&bad_len).unwrap_err(), DBError::Decode);
}

#[test]
fn iter_all_is_in_age_order() {
    // two frozen segments and an active WAL, one record each
    let seg1 = Segment { ts: 10, data: frame_of(Action::Put, b"a", b"1") };
    let seg2 = Segment { ts: 20, data: frame_of(Action::Put, b"b", b"2") };
    let wal = frame_of(Action::Put, b"c", b"3");
    // handed over in the wrong order: the store sorts by timestamp
    let store = Store::new("data".to_string(), true, vec![seg2, seg1], Some(wal), 30).unwrap();

    let mut iter = store.iter_all();
    let keys: Vec<Vec<u8>> = {
        let mut ks = Vec::new();
        while let Some(item) = iter.next() {
            let (rec, len) = item.unwrap();
            assert_eq!(len as usize, 4 + 9 + 1 + 1);
            ks.push(rec.key);
        }
        ks
    };
    assert_eq!(keys, vec![b"a".to_vec(), b"b".to_vec(), b"c".to_vec()]);
}

#[test]
fn rotation_freezes_the_wal() {
    let mut store = fresh_store();
    store.set(b"key1".to_vec(), b"value1".to_vec()).unwrap();
    let wal_before = store.wal_data().unwrap().clone();

    store.rotate_wal().unwrap();

    // wal.log is gone until the next append; its bytes are in a segment
    assert!(store.wal_data().is_none());
    assert_eq!(store.segment_count(), 1);
    assert_eq!(store.segment_at(0).data, wal_before);

    // the next append starts a fresh WAL holding only the new record
    store.set(b"key2".to_vec(), b"value2".to_vec()).unwrap();
    let frame2 = frame_of(Action::Put, b"key2", b"value2");
    assert_eq!(store.wal_data().unwrap(), &frame2);
}

#[test]
fn oversized_append_rotates_first() {
    // a single record close to the WAL size cap, then a small one:
    // the second append must rotate the first into a segment
    let big = vec![7u8; 10 * 1024 * 1024];
    let mut db = {
        let store = fresh_store();
        DB::new(store).unwrap()
    };
    db.put(b"big".to_vec(), big.clone()).unwrap();
    assert_eq!(db.store().segment_count(), 0);
    db.put(b"small".to_vec(), b"v".to_vec()).unwrap();
    assert_eq!(db.store().segment_count(), 1);
    // the active WAL holds only the record written after rotation
    let frame = frame_of(Action::Put, b"small", b"v");
    assert_eq!(db.store().wal_data().unwrap(), &frame);
    // both records are still readable, in write order
    let mut iter = db.store().iter_all();
    let (r1, _) = iter.next().unwrap().unwrap();
    assert_eq!(r1.key, b"big".to_vec());
    let (r2, _) = iter.next().unwrap().unwrap();
    assert_eq!(r2.key, b"small".to_vec());
    assert!(iter.next().is_none());
}

#[test]
fn compaction_discards_tombstones_and_is_idempotent() {
    let mut db = {
        let store = fresh_store();
        DB::new(store).unwrap()
    };
    db.put(b"a".to_vec(), b"1".to_vec()).unwrap();
    db.put(b"b".to_vec(), b"2".to_vec()).unwrap();
    db.put(b"c".to_vec(), b"3".to_vec()).unwrap();
    db.put(b"a".to_vec(), b"1x".to_vec()).unwrap();
    db.delete(b"b".to_vec()).unwrap();

    db.run_compaction().unwrap();
    let first = db.store().wal_data().unwrap().clone();
    assert_eq!(db.store().segment_count(), 0);

    // exactly two records remain, both sets, with the live values
    let mut iter = db.store().iter_all();
    let mut live = Vec::new();
    while let Some(item) = iter.next() {
        let (rec, _) = item.unwrap();
        assert!(matches!(rec.action, Action::Put));
        live.push((rec.key, rec.value));
    }
    live.sort();
    assert_eq!(
        live,
        vec![(b"a".to_vec(), b"1x".to_vec()), (b"c".to_vec(), b"3".to_vec())]
    );

    // compacting again produces a byte-identical file
    db.run_compaction().unwrap();
    assert_eq!(db.store().wal_data().unwrap(), &first);

    // and the visible state is unchanged
    assert_eq!(db.get(&b"a".to_vec()), Some(&b"1x".to_vec()));
    assert_eq!(db.get(&b"b".to_vec()), None);
    assert_eq!(db.get(&b"c".to_vec()), Some(&b"3".to_vec()));
}

#[test]
fn oversized_frame_is_corruption() {
    // a declared length beyond the record-size cap: 0xffffffff
    let wal = vec![0xff, 0xff, 0xff, 0xff, 0, 0];
    let store = Store::new("data".to_string(), true, Vec::new(), Some(wal), 0).unwrap();
    let mut iter = store.iter_all();
    assert_eq!(iter.next().unwrap().unwrap_err(), DBError::CorruptedFile);
}

#[test]
fn truncated_tail_fails_replay() {
    // one good frame, then a torn tail
    let mut wal = frame_of(Action::Put, b"k", b"v");
    wal.extend_from_slice(&[1, 2, 3]);
    let store = Store::new("data".to_string(), true, Vec::new(), Some(wal), 0).unwrap();
    match DB::new(store) {
        Err(DBError::CorruptedFile) => {}
        other => panic!("expected CorruptedFile, got {:?}", other.map(|_| ())),
    }
}

#[test]
fn invalid_path_is_rejected() {
    match Store::new("data".to_string(), false, Vec::new(), None, 0) {
        Err(DBError::InvalidPath) => {}
        other => panic!("expected InvalidPath, got {:?}", other.map(|_| ())),
    }
}

#[test]
fn exhausted_segment_counter_reports_other() {
    // a segment already at the largest issuable timestamp: rotation has no
    // fresh name left
    let seg = Segment { ts: u64::MAX - 1, data: frame_of(Action::Put, b"a", b"1") };
    let wal = frame_of(Action::Put, b"b", b"2");
    let mut store = Store::new("data".to_string(), true, vec![seg], Some(wal), 0).unwrap();
    assert_eq!(store.rotate_wal().unwrap_err(), DBError::Other);
}

#[test]
fn entry_without_ttl_never_expires() {
    let entry = Entry::new(b"v".to_vec(), None, 5);
    assert_eq!(entry.get_data(u64::MAX), Some(b"v".to_vec()));
    // an entry is still visible at its exact expiry instant
    let entry = Entry::new(b"v".to_vec(), Some(1), 100);
    assert_eq!(entry.get_data(101), Some(b"v".to_vec()));
}

fn reopen(db: &DB) -> Result<DB, DBError> {
    let st = db.store();
    let mut segments = Vec::new();
    for i in 0..st.segment_count() {
        let s = st.segment_at(i);
        segments.push(Segment { ts: s.ts, data: s.data.clone() });
    }
    let store = Store::new("data".to_string(), true, segments, st.wal_data().cloned(), 0)?;
    DB::new(store)
}

#[test]
fn empty_wal_opens_empty() {
    let store = Store::new("data".to_string(), true, Vec::new(), Some(Vec::new()), 0).unwrap();
    let db = DB::new(store).unwrap();
    assert_eq!(db.get(&b"k".to_vec()), None);
}

#[test]
fn recovery_spans_rotated_segments() {
    let mut db = {
        let store = fresh_store();
        DB::new(store).unwrap()
    };
    // the first record fills the WAL past its cap, so the second rotates it
    db.put(b"big".to_vec(), vec![7u8; 10 * 1024 * 1024]).unwrap();
    db.put(b"small".to_vec(), b"v".to_vec()).unwrap();
    db.delete(b"big".to_vec()).unwrap();
    assert_eq!(db.store().segment_count(), 1);

    // replaying segment then WAL rebuilds the same state
    let db2 = reopen(&db).unwrap();
    assert_eq!(db2.get(&b"big".to_vec()), None);
    assert_eq!(db2.get(&b"small".to_vec()), Some(&b"v".to_vec()));
}

#[test]
fn segment_names_are_recognized() {
    assert_eq!(segment_ts_of(b"segment_123.log"), Some(123));
    assert_eq!(segment_ts_of(b"segment_0.log"), Some(0));
    assert_eq!(segment_ts_of(b"segment_007.log"), Some(7));
    assert_eq!(segment_ts_of(b"segment_18446744073709551615.log"), Some(u64::MAX));
    // too large for a timestamp
    assert_eq!(segment_ts_of(b"segment_18446744073709551616.log"), None);
    assert_eq!(segment_ts_of(b"wal.log"), None);
    assert_eq!(segment_ts_of(b"segment_.log"), None);
    assert_eq!(segment_ts_of(b"segment_12a.log"), None);
    assert_eq!(segment_ts_of(b"segment_12.txt"), None);
}

#[test]
fn file_names_follow_the_layout() {
    let store = fresh_store();
    assert_eq!(store.wal_path(), "data/wal.log");
    assert_eq!(store.segment_path(1234567890123), "data/segment_1234567890123.log");
    assert_eq!(store.segment_path(0), "data/segment_0.log");
}
