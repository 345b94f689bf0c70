use crabkv::compaction::should_compact;
use crabkv::codec::{decode_record_at, WalEntry};
use crabkv::CrabKv;

const T0: u64 = 1_700_000_000;

#[test]
fn policy_thresholds() {
    // An empty log never compacts.
    assert!(!should_compact(0, 0));
    // A third stale fires only past the 1 MiB gate.
    assert!(!should_compact(1_048_576, 1_048_576));
    assert!(should_compact(1_048_577, 1_048_577));
    assert!(should_compact(3_000_000, 1_000_000));
    assert!(!should_compact(3_000_001, 990_000));
    // Past 8 MiB stale the ratio no longer matters.
    assert!(!should_compact(100_000_000, 8_388_608));
    assert!(should_compact(100_000_000, 8_388_609));
}

#[test]
fn compaction_on_all_deleted_log_empties_it() {
    let mut engine = CrabKv::open(Vec::new()).unwrap();
    engine.put("a".into(), "1".into(), T0).unwrap();
    engine.put("b".into(), "2".into(), T0).unwrap();
    engine.delete("a", T0).unwrap();
    engine.delete("b", T0).unwrap();
    engine.compact(T0).unwrap();
    assert_eq!(engine.wal_bytes().len(), 0);
    assert_eq!(engine.total_bytes(), 0);
    assert_eq!(engine.stale_bytes(), 0);
}

#[test]
fn compaction_preserves_reads_and_sizes_the_log() {
    let mut engine = CrabKv::open(Vec::new()).unwrap();
    engine.put("a".into(), "old".into(), T0).unwrap();
    engine.put("a".into(), "new".into(), T0).unwrap();
    engine.put("b".into(), "kept".into(), T0).unwrap();
    engine
        .put_with_ttl("gone".into(), "soon".into(), Some(1), T0)
        .unwrap();
    let now = T0 + 5;
    engine.compact(now).unwrap();
    assert_eq!(engine.get("a", now), Some("new".into()));
    assert_eq!(engine.get("b", now), Some("kept".into()));
    assert_eq!(engine.get("gone", now), None);
    assert_eq!(engine.stale_bytes(), 0);
    // After a rewrite the file holds exactly the retained records.
    let retained = (18 + 1 + 3) + (18 + 1 + 4);
    assert_eq!(engine.total_bytes(), retained);
    assert_eq!(engine.wal_bytes().len() as u64, retained);
}

#[test]
fn compaction_determinism() {
    let mut engine = CrabKv::open(Vec::new()).unwrap();
    for i in 0..2000u32 {
        engine
            .put(format!("k{i}"), format!("v{i}"), T0)
            .unwrap();
    }
    for i in (0..2000u32).step_by(2) {
        engine.delete(&format!("k{i}"), T0).unwrap();
    }
    engine.compact(T0).unwrap();
    assert_eq!(engine.stale_bytes(), 0);

    // Scan the rewritten log: only Put records, keys strictly ascending.
    let log = engine.wal_bytes().clone();
    let mut offset = 0usize;
    let mut keys: Vec<String> = Vec::new();
    while offset < log.len() {
        let rec = decode_record_at(&log, offset, false).unwrap();
        match rec.entry {
            WalEntry::Put { key, .. } => keys.push(key),
            WalEntry::Delete { .. } => panic!("tombstone survived compaction"),
        }
        offset += rec.record_len as usize;
    }
    assert_eq!(keys.len(), 1000);
    for w in keys.windows(2) {
        assert!(w[0].as_bytes() < w[1].as_bytes());
    }
    for key in &keys {
        let i: u32 = key[1..].parse().unwrap();
        assert_eq!(i % 2, 1);
    }
}

#[test]
fn compressed_engine_round_trips_through_compaction() {
    let mut engine = CrabKv::builder().compression(true).build(Vec::new()).unwrap();
    let long = "wave ".repeat(300);
    engine.put("a".into(), long.clone(), T0).unwrap();
    engine.put("a".into(), long.clone(), T0).unwrap();
    engine.put("b".into(), "tiny".into(), T0).unwrap();
    engine.compact(T0).unwrap();
    assert_eq!(engine.get("a", T0), Some(long.clone()));
    assert_eq!(engine.get("b", T0), Some("tiny".into()));
    let log = engine.wal_bytes().clone();
    let mut engine = CrabKv::builder().compression(true).build(log).unwrap();
    assert_eq!(engine.get("a", T0), Some(long));
}
