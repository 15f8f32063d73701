//! The storage engine: map semantics, the append-only log, persistence
//! across close and reopen, and compaction.

use kvs::engines::kvs::KvStore;
use kvs::engines::KvsEngine;
use kvs::error::KvsError;

/// A stand-in for the log file: applies each flush batch the way the
/// caller of the engine applies it to disk.
fn apply_flush(file: &mut Vec<u8>, store: &mut KvStore) {
    let batch = store.flush();
    if batch.rewrite {
        file.clear();
    }
    file.extend_from_slice(batch.bytes.as_slice());
}

#[test]
fn set_then_get() {
    let mut store = KvStore::new();
    store.set("a".to_string(), "1".to_string()).unwrap();
    assert_eq!(store.get("a".to_string()).unwrap(), Some("1".to_string()));
}

#[test]
fn set_overwrites() {
    let mut store = KvStore::new();
    store.set("a".to_string(), "1".to_string()).unwrap();
    store.set("a".to_string(), "2".to_string()).unwrap();
    assert_eq!(store.get("a".to_string()).unwrap(), Some("2".to_string()));
}

#[test]
fn get_missing_is_none() {
    let store = KvStore::new();
    assert_eq!(store.get("missing".to_string()).unwrap(), None);
}

#[test]
fn remove_erases() {
    let mut store = KvStore::new();
    store.set("a".to_string(), "1".to_string()).unwrap();
    store.remove("a".to_string()).unwrap();
    assert_eq!(store.get("a".to_string()).unwrap(), None);
}

#[test]
fn remove_missing_is_key_not_found() {
    let mut store = KvStore::new();
    assert_eq!(
        store.remove("missing".to_string()),
        Err(KvsError::KeyNotFound)
    );
}

#[test]
fn engine_name_is_kvs() {
    let store = KvStore::new();
    assert_eq!(store.engine_name(), "kvs".to_string());
}

#[test]
fn default_is_empty() {
    let store = KvStore::default();
    assert_eq!(store.key_count(), 0);
}

#[test]
fn log_line_is_exact_json() {
    let mut store = KvStore::new();
    store.set("a".to_string(), "1".to_string()).unwrap();
    let batch = store.flush();
    assert!(!batch.rewrite);
    assert_eq!(batch.bytes, b"{\"Set\":{\"key\":\"a\",\"value\":\"1\"}}\n".to_vec());
}

#[test]
fn flush_hands_out_only_new_bytes() {
    let mut store = KvStore::new();
    store.set("a".to_string(), "1".to_string()).unwrap();
    let first = store.flush();
    store.set("b".to_string(), "2".to_string()).unwrap();
    let second = store.flush();
    assert_eq!(first.bytes, b"{\"Set\":{\"key\":\"a\",\"value\":\"1\"}}\n".to_vec());
    assert_eq!(second.bytes, b"{\"Set\":{\"key\":\"b\",\"value\":\"2\"}}\n".to_vec());
}

#[test]
fn tombstone_is_logged_even_for_missing_key() {
    let mut store = KvStore::new();
    let _ = store.remove("ghost".to_string());
    let batch = store.flush();
    assert_eq!(batch.bytes, b"{\"Remove\":{\"key\":\"ghost\"}}\n".to_vec());
}

#[test]
fn reopen_recovers_state() {
    let mut file: Vec<u8> = Vec::new();
    let mut store = KvStore::new();
    store.set("a".to_string(), "1".to_string()).unwrap();
    store.set("b".to_string(), "2".to_string()).unwrap();
    store.remove("a".to_string()).unwrap();
    store.set("c".to_string(), "3".to_string()).unwrap();
    apply_flush(&mut file, &mut store);
    drop(store);

    let mut reopened = KvStore::new();
    reopened.init_from_file_text(file.as_slice()).unwrap();
    assert_eq!(reopened.get("a".to_string()).unwrap(), None);
    assert_eq!(reopened.get("b".to_string()).unwrap(), Some("2".to_string()));
    assert_eq!(reopened.get("c".to_string()).unwrap(), Some("3".to_string()));
}

#[test]
fn reopen_recovers_many_keys() {
    let mut file: Vec<u8> = Vec::new();
    let mut store = KvStore::new();
    for i in 0..3000 {
        store.set(format!("key{}", i), format!("value{}", i)).unwrap();
    }
    apply_flush(&mut file, &mut store);
    drop(store);

    let mut reopened = KvStore::new();
    reopened.init_from_file_text(file.as_slice()).unwrap();
    for i in 0..3000 {
        assert_eq!(
            reopened.get(format!("key{}", i)).unwrap(),
            Some(format!("value{}", i)),
            "key{} lost across reopen",
            i
        );
    }
}

#[test]
fn reads_logs_written_by_standard_serializers() {
    let text = b"{\"Set\":{\"key\":\"a\",\"value\":\"1\"}}\n{\"Get\":{\"key\":\"a\"}}\n{\"Set\":{\"key\":\"b\",\"value\":\"x\\ny\"}}\n{\"Remove\":{\"key\":\"a\"}}\n";
    let mut store = KvStore::new();
    store.init_from_file_text(text).unwrap();
    assert_eq!(store.get("a".to_string()).unwrap(), None);
    assert_eq!(store.get("b".to_string()).unwrap(), Some("x\ny".to_string()));
}

#[test]
fn final_line_without_line_feed_is_accepted() {
    let text = b"{\"Set\":{\"key\":\"a\",\"value\":\"1\"}}";
    let mut store = KvStore::new();
    store.init_from_file_text(text).unwrap();
    assert_eq!(store.get("a".to_string()).unwrap(), Some("1".to_string()));
    // later appends still land on their own lines
    store.set("b".to_string(), "2".to_string()).unwrap();
    let mut file: Vec<u8> = Vec::new();
    apply_flush(&mut file, &mut store);
    assert_eq!(file, b"\n{\"Set\":{\"key\":\"b\",\"value\":\"2\"}}\n".to_vec());
}

#[test]
fn corrupt_line_aborts_load() {
    let text = b"{\"Set\":{\"key\":\"a\",\"value\":\"1\"}}\nnot a record\n";
    let mut store = KvStore::new();
    assert_eq!(
        store.init_from_file_text(text),
        Err(KvsError::Corruption)
    );
}

#[test]
fn compaction_preserves_every_binding() {
    let mut store = KvStore::new();
    for i in 0..50 {
        store.set("churn".to_string(), format!("v{}", i)).unwrap();
        store.set(format!("stable{}", i), "s".to_string()).unwrap();
    }
    store.remove("stable0".to_string()).unwrap();
    store.compact().unwrap();
    assert_eq!(store.get("churn".to_string()).unwrap(), Some("v49".to_string()));
    assert_eq!(store.get("stable0".to_string()).unwrap(), None);
    for i in 1..50 {
        assert_eq!(
            store.get(format!("stable{}", i)).unwrap(),
            Some("s".to_string())
        );
    }
}

#[test]
fn compaction_drops_superseded_records() {
    let mut file: Vec<u8> = Vec::new();
    let mut store = KvStore::new();
    for i in 0..100 {
        store.set("a".to_string(), format!("v{}", i)).unwrap();
    }
    apply_flush(&mut file, &mut store);
    let grown = file.len();
    store.compact().unwrap();
    apply_flush(&mut file, &mut store);
    assert!(file.len() < grown);
    assert_eq!(file, b"{\"Set\":{\"key\":\"a\",\"value\":\"v99\"}}\n".to_vec());

    // the rewritten file reopens to the same state
    let mut reopened = KvStore::new();
    reopened.init_from_file_text(file.as_slice()).unwrap();
    assert_eq!(reopened.get("a".to_string()).unwrap(), Some("v99".to_string()));
}

#[test]
fn automatic_compaction_after_threshold() {
    // the operation counter compacts every 2048 writes; state survives
    let mut file: Vec<u8> = Vec::new();
    let mut store = KvStore::new();
    for i in 0..2100 {
        store.set("k".to_string(), format!("v{}", i)).unwrap();
        apply_flush(&mut file, &mut store);
    }
    assert_eq!(store.get("k".to_string()).unwrap(), Some("v2099".to_string()));
    let mut reopened = KvStore::new();
    reopened.init_from_file_text(file.as_slice()).unwrap();
    assert_eq!(reopened.get("k".to_string()).unwrap(), Some("v2099".to_string()));
}

#[test]
fn compaction_fires_exactly_on_the_threshold() {
    let mut store = KvStore::new();
    for i in 0..2047 {
        store.set("k".to_string(), format!("v{}", i)).unwrap();
    }
    let batch = store.flush();
    assert!(!batch.rewrite, "no compaction before the 2048th operation");
    store.set("k".to_string(), "last".to_string()).unwrap();
    let batch = store.flush();
    assert!(batch.rewrite, "the 2048th operation compacts");
    assert_eq!(
        batch.bytes,
        b"{\"Set\":{\"key\":\"k\",\"value\":\"last\"}}\n".to_vec()
    );
}

#[test]
fn non_ascii_keys_and_values_survive() {
    let mut file: Vec<u8> = Vec::new();
    let mut store = KvStore::new();
    store.set("clé".to_string(), "日本語\u{1f600}".to_string()).unwrap();
    store.set("tricky\"\\\n".to_string(), "\u{0}\u{1f}".to_string()).unwrap();
    store.compact().unwrap();
    assert_eq!(
        store.get("clé".to_string()).unwrap(),
        Some("日本語\u{1f600}".to_string())
    );
    apply_flush(&mut file, &mut store);
    let mut reopened = KvStore::new();
    reopened.init_from_file_text(file.as_slice()).unwrap();
    assert_eq!(
        reopened.get("tricky\"\\\n".to_string()).unwrap(),
        Some("\u{0}\u{1f}".to_string())
    );
}

#[test]
fn key_count_tracks_live_keys() {
    let mut store = KvStore::new();
    store.set("a".to_string(), "1".to_string()).unwrap();
    store.set("b".to_string(), "2".to_string()).unwrap();
    store.set("a".to_string(), "3".to_string()).unwrap();
    assert_eq!(store.key_count(), 2);
    store.remove("b".to_string()).unwrap();
    assert_eq!(store.key_count(), 1);
}
