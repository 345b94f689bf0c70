use crabkv::CrabKv;

const T0: u64 = 1_700_000_000;

#[test]
fn put_get_delete_cycle() {
    let mut engine = CrabKv::open(Vec::new()).unwrap();

    engine.put("alpha".into(), "1".into(), T0).unwrap();
    assert_eq!(engine.get("alpha", T0), Some("1".into()));

    engine.put("alpha".into(), "2".into(), T0).unwrap();
    assert_eq!(engine.get("alpha", T0), Some("2".into()));

    engine.delete("alpha", T0).unwrap();
    assert_eq!(engine.get("alpha", T0), None);

    let log = engine.wal_bytes().clone();
    drop(engine);
    let mut engine = CrabKv::open(log).unwrap();
    assert_eq!(engine.get("alpha", T0), None);

    engine.put("beta".into(), "fresh".into(), T0).unwrap();
    assert_eq!(engine.get("beta", T0), Some("fresh".into()));

    engine.compact(T0).unwrap();
    assert_eq!(engine.get("beta", T0), Some("fresh".into()));
}

#[test]
fn ttl_expiration() {
    let mut engine = CrabKv::builder().default_ttl(10).build(Vec::new()).unwrap();

    engine
        .put_with_ttl("session".into(), "value".into(), Some(1), T0)
        .unwrap();
    assert_eq!(engine.get("session", T0), Some("value".into()));

    // One second later the deadline has been reached.
    assert_eq!(engine.get("session", T0 + 1), None);

    // A reopen does not resurrect the expired key.
    let log = engine.wal_bytes().clone();
    drop(engine);
    let mut engine = CrabKv::open(log).unwrap();
    assert_eq!(engine.get("session", T0 + 1), None);
}

#[test]
fn default_ttl_applies_to_put() {
    let mut engine = CrabKv::builder().default_ttl(10).build(Vec::new()).unwrap();
    engine.put("k".into(), "v".into(), T0).unwrap();
    assert_eq!(engine.get("k", T0 + 9), Some("v".into()));
    assert_eq!(engine.get("k", T0 + 10), None);
}

#[test]
fn expiry_boundary_is_inclusive() {
    // The condition is `now >= expires_at`: reaching the deadline exactly at
    // read time already returns none.
    let mut engine = CrabKv::open(Vec::new()).unwrap();
    engine
        .put_with_ttl("k".into(), "v".into(), Some(5), T0)
        .unwrap();
    assert_eq!(engine.get("k", T0 + 4), Some("v".into()));
    assert_eq!(engine.get("k", T0 + 5), None);
}

#[test]
fn put_after_delete_after_put_returns_latest() {
    let mut engine = CrabKv::open(Vec::new()).unwrap();
    engine.put("k".into(), "first".into(), T0).unwrap();
    engine.delete("k", T0).unwrap();
    engine.put("k".into(), "second".into(), T0).unwrap();
    assert_eq!(engine.get("k", T0), Some("second".into()));
}

#[test]
fn durability_after_reopen() {
    let mut engine = CrabKv::open(Vec::new()).unwrap();
    engine.put("k".into(), "v".into(), T0).unwrap();
    let log = engine.wal_bytes().clone();
    drop(engine);
    let mut engine = CrabKv::open(log).unwrap();
    assert_eq!(engine.get("k", T0), Some("v".into()));
}

#[test]
fn empty_value_round_trips() {
    let mut engine = CrabKv::open(Vec::new()).unwrap();
    engine.put("k".into(), String::new(), T0).unwrap();
    assert_eq!(engine.get("k", T0), Some(String::new()));
    let log = engine.wal_bytes().clone();
    let mut engine = CrabKv::open(log).unwrap();
    assert_eq!(engine.get("k", T0), Some(String::new()));
}

#[test]
fn cached_reads_return_stored_values() {
    let mut engine = CrabKv::builder().cache_capacity(4).build(Vec::new()).unwrap();
    engine.put("a".into(), "1".into(), T0).unwrap();
    engine.put("b".into(), "2".into(), T0).unwrap();
    // The first read populates the cache, the second is served from it.
    assert_eq!(engine.get("a", T0), Some("1".into()));
    assert_eq!(engine.get("a", T0), Some("1".into()));
    assert_eq!(engine.get("b", T0), Some("2".into()));
    // Eviction beyond the capacity must never change results.
    engine.put("c".into(), "3".into(), T0).unwrap();
    engine.put("d".into(), "4".into(), T0).unwrap();
    engine.put("e".into(), "5".into(), T0).unwrap();
    assert_eq!(engine.get("a", T0), Some("1".into()));
    assert_eq!(engine.get("e", T0), Some("5".into()));
}
