use crabkv::codec::{WalError, HEADER_SIZE};
use crabkv::wal::should_sync;
use crabkv::CrabKv;

const T0: u64 = 1_700_000_000;

fn record_len(key: &str, value: &str) -> u64 {
    (HEADER_SIZE + key.len() + value.len()) as u64
}

#[test]
fn repeated_put_accounts_prior_record_as_stale() {
    let mut engine = CrabKv::open(Vec::new()).unwrap();
    engine.put("k".into(), "first".into(), T0).unwrap();
    assert_eq!(engine.stale_bytes(), 0);
    engine.put("k".into(), "second-and-longer".into(), T0).unwrap();
    // The prior record's length is credited, never the new one's.
    assert_eq!(engine.stale_bytes(), record_len("k", "first"));
    engine.put("k".into(), "x".into(), T0).unwrap();
    assert_eq!(
        engine.stale_bytes(),
        record_len("k", "first") + record_len("k", "second-and-longer")
    );
}

#[test]
fn delete_accounts_prior_record_as_stale() {
    let mut engine = CrabKv::open(Vec::new()).unwrap();
    engine.put("k".into(), "value".into(), T0).unwrap();
    engine.delete("k", T0).unwrap();
    assert_eq!(engine.stale_bytes(), record_len("k", "value"));
    // A delete of an absent key credits nothing.
    engine.delete("other", T0).unwrap();
    assert_eq!(engine.stale_bytes(), record_len("k", "value"));
}

#[test]
fn batch_increments_total_by_sum_of_record_lengths() {
    let mut engine = CrabKv::open(Vec::new()).unwrap();
    let before = engine.total_bytes();
    let entries = vec![
        ("k1".to_string(), "v1".to_string(), None),
        ("k2".to_string(), "v2".to_string(), None),
        ("k3".to_string(), "v3".to_string(), Some(60u64)),
    ];
    engine.put_batch(&entries, T0).unwrap();
    let expected = record_len("k1", "v1") + record_len("k2", "v2") + record_len("k3", "v3");
    assert_eq!(engine.total_bytes(), before + expected);
    assert_eq!(engine.get("k1", T0), Some("v1".into()));
    assert_eq!(engine.get("k2", T0), Some("v2".into()));
    assert_eq!(engine.get("k3", T0), Some("v3".into()));
    assert_eq!(engine.get("k3", T0 + 60), None);
}

#[test]
fn batch_later_entry_wins_for_same_key() {
    let mut engine = CrabKv::open(Vec::new()).unwrap();
    let entries = vec![
        ("k".to_string(), "first".to_string(), None),
        ("k".to_string(), "last".to_string(), None),
    ];
    engine.put_batch(&entries, T0).unwrap();
    assert_eq!(engine.get("k", T0), Some("last".into()));
}

#[test]
fn empty_batch_is_a_no_op() {
    let mut engine = CrabKv::open(Vec::new()).unwrap();
    let before = engine.total_bytes();
    engine.put_batch(&Vec::new(), T0).unwrap();
    assert_eq!(engine.total_bytes(), before);
}

#[test]
fn total_bytes_tracks_log_size() {
    let mut engine = CrabKv::open(Vec::new()).unwrap();
    assert_eq!(engine.total_bytes(), 0);
    engine.put("k".into(), "v".into(), T0).unwrap();
    assert_eq!(engine.total_bytes(), record_len("k", "v"));
    assert_eq!(engine.log_size(), record_len("k", "v"));
    engine.delete("k", T0).unwrap();
    assert_eq!(engine.total_bytes(), record_len("k", "v") + record_len("k", ""));
}

#[test]
fn lazy_expiry_writes_a_tombstone() {
    let mut engine = CrabKv::open(Vec::new()).unwrap();
    engine
        .put_with_ttl("k".into(), "v".into(), Some(1), T0)
        .unwrap();
    let before = engine.log_size();
    assert_eq!(engine.get("k", T0 + 1), None);
    // The expired entry was removed and a tombstone appended.
    assert_eq!(engine.log_size(), before + record_len("k", ""));
    assert_eq!(engine.stale_bytes(), record_len("k", "v"));
    // A reopen agrees: the key is gone.
    let log = engine.wal_bytes().clone();
    let mut engine = CrabKv::open(log).unwrap();
    assert_eq!(engine.get("k", T0 + 1), None);
}

#[test]
fn background_mode_records_a_request_instead_of_compacting() {
    let mut engine = CrabKv::builder().async_compaction(true).build(Vec::new()).unwrap();
    assert!(!engine.take_compaction_request());
    // Push the counters past the absolute stale threshold.
    let big = "x".repeat(700_000);
    for _ in 0..14 {
        engine.put("big".into(), big.clone(), T0).unwrap();
    }
    assert!(engine.take_compaction_request());
    assert!(!engine.take_compaction_request());
    // The worker then runs the compaction itself.
    engine.compact(T0).unwrap();
    assert_eq!(engine.stale_bytes(), 0);
    assert_eq!(engine.get("big", T0), Some(big));
}

#[test]
fn inline_compaction_fires_on_stale_threshold() {
    let mut engine = CrabKv::open(Vec::new()).unwrap();
    let big = "x".repeat(700_000);
    for _ in 0..14 {
        engine.put("big".into(), big.clone(), T0).unwrap();
    }
    // The stale threshold was crossed and compaction ran inline.
    assert_eq!(engine.stale_bytes(), 0);
    assert_eq!(engine.total_bytes(), record_len("big", &big));
    assert_eq!(engine.get("big", T0), Some(big));
}

#[test]
fn opening_a_corrupt_log_reports_the_decode_error() {
    assert!(matches!(CrabKv::open(vec![9u8]), Err(WalError::UnknownOpcode)));
    assert!(matches!(CrabKv::open(vec![1u8, 0, 0]), Err(WalError::UnexpectedEof)));
}

#[test]
fn sync_policy_matches_the_interval() {
    // No interval: sync on every append.
    assert!(should_sync(None, 0));
    // With an interval, only once that much time has elapsed.
    assert!(!should_sync(Some(5), 4));
    assert!(should_sync(Some(5), 5));
    assert!(should_sync(Some(5), 6));
}
