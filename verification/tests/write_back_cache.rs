use crabkv::CrabKv;

const T0: u64 = 1_700_000_000;

#[test]
fn write_back_cache_with_flush() {
    let mut db = CrabKv::builder()
        .cache_capacity(100)
        .write_back_cache(true)
        .build(Vec::new())
        .unwrap();

    db.put("key1".into(), "value1".into(), T0).unwrap();
    db.put("key2".into(), "value2".into(), T0).unwrap();
    db.put("key3".into(), "value3".into(), T0).unwrap();

    assert_eq!(db.get("key1", T0), Some("value1".into()));
    assert_eq!(db.get("key2", T0), Some("value2".into()));
    assert_eq!(db.get("key3", T0), Some("value3".into()));

    // Drop and reopen without a flush: the buffered writes never reached the
    // log and must not persist.
    let log = db.wal_bytes().clone();
    drop(db);
    let mut db = CrabKv::builder()
        .cache_capacity(100)
        .write_back_cache(false)
        .build(log)
        .unwrap();

    assert_eq!(db.get("key1", T0), None);
    assert_eq!(db.get("key2", T0), None);
    assert_eq!(db.get("key3", T0), None);

    let log = db.wal_bytes().clone();
    drop(db);

    // A new session that flushes before closing.
    let mut db = CrabKv::builder()
        .cache_capacity(100)
        .write_back_cache(true)
        .build(log)
        .unwrap();

    db.put("key4".into(), "value4".into(), T0).unwrap();
    db.put("key5".into(), "value5".into(), T0).unwrap();

    db.flush().unwrap();

    let log = db.wal_bytes().clone();
    drop(db);
    let mut db = CrabKv::builder()
        .cache_capacity(100)
        .write_back_cache(false)
        .build(log)
        .unwrap();

    assert_eq!(db.get("key4", T0), Some("value4".into()));
    assert_eq!(db.get("key5", T0), Some("value5".into()));
}

#[test]
fn write_back_cache_with_ttl() {
    let mut db = CrabKv::builder()
        .cache_capacity(100)
        .write_back_cache(true)
        .build(Vec::new())
        .unwrap();

    db.put_with_ttl("temp_key".into(), "temp_value".into(), Some(1), T0)
        .unwrap();

    assert_eq!(db.get("temp_key", T0), Some("temp_value".into()));

    // Past the deadline the buffered entry has expired in memory without
    // ever reaching the log.
    assert_eq!(db.get("temp_key", T0 + 1), None);
    assert_eq!(db.wal_bytes().len(), 0);
}

#[test]
fn write_back_cache_update_overwrites_buffer() {
    let mut db = CrabKv::builder()
        .cache_capacity(100)
        .write_back_cache(true)
        .build(Vec::new())
        .unwrap();

    db.put("key".into(), "value1".into(), T0).unwrap();
    assert_eq!(db.get("key", T0), Some("value1".into()));

    db.put("key".into(), "value2".into(), T0).unwrap();
    assert_eq!(db.get("key", T0), Some("value2".into()));

    db.flush().unwrap();
    assert_eq!(db.get("key", T0), Some("value2".into()));
}

#[test]
fn write_back_delete_clears_buffer() {
    let mut db = CrabKv::builder()
        .cache_capacity(100)
        .write_back_cache(true)
        .build(Vec::new())
        .unwrap();
    db.put("k".into(), "v".into(), T0).unwrap();
    db.delete("k", T0).unwrap();
    assert_eq!(db.get("k", T0), None);
    db.flush().unwrap();
    assert_eq!(db.get("k", T0), None);
}
