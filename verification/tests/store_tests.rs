//! End-to-end behavior of the storage engine.

use kvs::{KvStore, KvsError, COMPACTION_THRESHOLD};

fn fresh() -> KvStore {
    KvStore::open(Vec::new()).expect("opening an empty directory succeeds")
}

fn total_disk_bytes(store: &KvStore) -> u64 {
    let mut total: u64 = 0;
    for (_, data) in store.files_snapshot() {
        total += data.len() as u64;
    }
    total
}

#[test]
fn open_empty_directory_succeeds() {
    let store = fresh();
    assert_eq!(store.current_generation(), 1);
    assert_eq!(store.get("anything".to_owned()).unwrap(), None);
    assert_eq!(store.get(String::new()).unwrap(), None);
}

#[test]
fn set_then_get() {
    let mut store = fresh();
    store.set("key1".to_owned(), "value1".to_owned()).unwrap();
    assert_eq!(store.get("key1".to_owned()).unwrap(), Some("value1".to_owned()));
}

#[test]
fn overwrite_returns_latest() {
    let mut store = fresh();
    store.set("key1".to_owned(), "value1".to_owned()).unwrap();
    store.set("key1".to_owned(), "value2".to_owned()).unwrap();
    assert_eq!(store.get("key1".to_owned()).unwrap(), Some("value2".to_owned()));
}

#[test]
fn get_missing_key_misses() {
    let store = fresh();
    assert_eq!(store.get("missing".to_owned()).unwrap(), None);
    assert_eq!(KvsError::KeyNotFound.message(), "Key not found");
}

#[test]
fn remove_then_get_misses_and_second_remove_fails() {
    let mut store = fresh();
    store.set("k".to_owned(), "v".to_owned()).unwrap();
    store.remove("k".to_owned()).unwrap();
    assert_eq!(store.get("k".to_owned()).unwrap(), None);
    assert_eq!(store.remove("k".to_owned()), Err(KvsError::KeyNotFound));
}

#[test]
fn set_record_bytes_are_the_tagged_json_value() {
    let mut store = fresh();
    store.set("key1".to_owned(), "value1".to_owned()).unwrap();
    let files = store.files_snapshot();
    assert_eq!(files.len(), 1);
    assert_eq!(files[0].0, 1);
    assert_eq!(files[0].1, b"{\"Set\":{\"key\":\"key1\",\"value\":\"value1\"}}".to_vec());
}

#[test]
fn remove_appends_a_tombstone_record() {
    let mut store = fresh();
    store.set("k".to_owned(), "v".to_owned()).unwrap();
    store.remove("k".to_owned()).unwrap();
    let files = store.files_snapshot();
    let expected = b"{\"Set\":{\"key\":\"k\",\"value\":\"v\"}}{\"Remove\":{\"key\":\"k\"}}".to_vec();
    assert_eq!(files[0].1, expected);
}

#[test]
fn idempotent_set_grows_dead_bytes_by_one_record() {
    let mut store = fresh();
    store.set("key1".to_owned(), "value1".to_owned()).unwrap();
    let record_len = total_disk_bytes(&store);
    assert_eq!(store.uncompacted_bytes(), 0);
    store.set("key1".to_owned(), "value1".to_owned()).unwrap();
    assert_eq!(store.uncompacted_bytes(), record_len);
    assert_eq!(store.get("key1".to_owned()).unwrap(), Some("value1".to_owned()));
}

#[test]
fn reopen_preserves_every_binding() {
    let mut store = fresh();
    store.set("a".to_owned(), "1".to_owned()).unwrap();
    store.set("b".to_owned(), "2".to_owned()).unwrap();
    store.set("a".to_owned(), "3".to_owned()).unwrap();
    store.set("c".to_owned(), "4".to_owned()).unwrap();
    store.remove("b".to_owned()).unwrap();
    let reopened = KvStore::open(store.files_snapshot()).unwrap();
    assert_eq!(reopened.get("a".to_owned()).unwrap(), Some("3".to_owned()));
    assert_eq!(reopened.get("b".to_owned()).unwrap(), None);
    assert_eq!(reopened.get("c".to_owned()).unwrap(), Some("4".to_owned()));
}

#[test]
fn reopen_rejects_a_corrupt_log() {
    let files = vec![(1u64, b"{\"Set\":{\"key\":\"a\"".to_vec())];
    assert!(KvStore::open(files).is_err());
}

#[test]
fn reopen_rejects_trailing_garbage() {
    let mut data = b"{\"Set\":{\"key\":\"a\",\"value\":\"b\"}}".to_vec();
    data.extend_from_slice(b"   ");
    assert!(KvStore::open(vec![(1u64, data)]).is_err());
}

#[test]
fn overwrites_past_threshold_trigger_exactly_one_compaction() {
    let mut store = fresh();
    let value = "x".repeat(4096);
    let gen_before = store.current_generation();
    let mut writes: u64 = 0;
    while store.current_generation() == gen_before {
        store.set("key".to_owned(), value.clone()).unwrap();
        writes += 1;
        assert!(writes < 10_000, "compaction never triggered");
    }
    // one compaction advances the active generation by exactly two
    assert_eq!(store.current_generation(), gen_before + 2);
    assert_eq!(store.uncompacted_bytes(), 0);
    assert_eq!(store.get("key".to_owned()).unwrap(), Some(value));
}

#[test]
fn many_overwrites_stay_bounded_and_keep_the_last_value() {
    let mut store = fresh();
    let mut compactions: u64 = 0;
    let mut last_gen = store.current_generation();
    let mut last_value = String::new();
    for i in 0..2000u64 {
        let value = format!("{i:01024}");
        store.set("k".to_owned(), value.clone()).unwrap();
        last_value = value;
        let gen = store.current_generation();
        if gen != last_gen {
            assert_eq!(gen, last_gen + 2);
            compactions += 1;
            last_gen = gen;
        }
    }
    assert!(compactions >= 1, "a compaction must have occurred");
    assert_eq!(store.get("k".to_owned()).unwrap(), Some(last_value));
    // a record is roughly a kibibyte; after compactions the live data is one record
    assert!(total_disk_bytes(&store) <= 2 * COMPACTION_THRESHOLD + 2048);
}

#[test]
fn many_keys_survive_reopen() {
    let mut store = fresh();
    for i in 0..2000u64 {
        store.set(format!("key{i}"), format!("value{i}")).unwrap();
    }
    for i in 0..2000u64 {
        assert_eq!(store.get(format!("key{i}")).unwrap(), Some(format!("value{i}")));
    }
    let reopened = KvStore::open(store.files_snapshot()).unwrap();
    for i in 0..2000u64 {
        assert_eq!(reopened.get(format!("key{i}")).unwrap(), Some(format!("value{i}")));
    }
}

#[test]
fn compaction_keeps_only_live_records() {
    let mut store = fresh();
    let value = "y".repeat(1024);
    for i in 0..64u64 {
        store.set(format!("key{i}"), value.clone()).unwrap();
    }
    for i in 0..32u64 {
        store.remove(format!("key{i}")).unwrap();
    }
    store.compact().unwrap();
    assert_eq!(store.uncompacted_bytes(), 0);
    let total = total_disk_bytes(&store);
    // 32 live records of about a kibibyte each, nothing else
    assert!(total >= 32 * 1024);
    assert!(total <= 32 * 1200);
    for i in 0..32u64 {
        assert_eq!(store.get(format!("key{i}")).unwrap(), None);
    }
    for i in 32..64u64 {
        assert_eq!(store.get(format!("key{i}")).unwrap(), Some(value.clone()));
    }
}
