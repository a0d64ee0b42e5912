use kvs::error::KvsError;
use kvs::kv::{KvStore, COMPACTION_THRESHOLD};
use kvs::log::Generation;
use kvs::record::Command;

fn text(s: &str) -> String {
    s.to_string()
}

fn pair(key: &str, value: &str) -> (String, String) {
    (text(key), text(value))
}

fn put(key: &str, value: &str) -> Vec<u8> {
    Command::set(text(key), text(value)).encode().unwrap()
}

fn rm(key: &str) -> Vec<u8> {
    Command::remove(text(key)).encode().unwrap()
}

#[test]
fn scenario_set_overwrite_remove() {
    let mut store = KvStore::open(Vec::new()).unwrap();
    store.set(text("a"), text("1")).unwrap();
    store.set(text("b"), text("2")).unwrap();
    store.set(text("a"), text("3")).unwrap();
    store.remove(text("b")).unwrap();
    assert_eq!(store.get(text("a")).unwrap(), Some(text("3")));
    assert_eq!(store.get(text("b")).unwrap(), None);
    assert_eq!(store.entries().unwrap(), vec![pair("a", "3")]);
}

#[test]
fn open_without_generations_starts_an_empty_first_one() {
    let store = KvStore::open(Vec::new()).unwrap();
    assert_eq!(store.generations(), &vec![Generation { id: 0, bytes: Vec::new() }]);
    assert_eq!(store.current_gen(), 0);
    assert_eq!(store.uncompacted(), 0);
    assert_eq!(store.total_bytes(), 0);
    assert_eq!(store.len(), 0);
    assert_eq!(store.entries().unwrap(), Vec::new());
}

#[test]
fn round_trip() {
    let mut store = KvStore::open(Vec::new()).unwrap();
    assert_eq!(store.get(text("k")).unwrap(), None);
    store.set(text("k"), text("v")).unwrap();
    assert_eq!(store.get(text("k")).unwrap(), Some(text("v")));
}

#[test]
fn round_trip_of_awkward_text() {
    let mut store = KvStore::open(Vec::new()).unwrap();
    let key = "set:a:b\nrm:\u{0}";
    let value = "x:y:z\n\"{}\"\u{1F980} \u{00e9}";
    store.set(text(key), text(value)).unwrap();
    store.set(text(""), text("")).unwrap();
    assert_eq!(store.get(text(key)).unwrap(), Some(text(value)));
    assert_eq!(store.get(text("")).unwrap(), Some(text("")));
    let reopened = KvStore::open(store.generations().clone()).unwrap();
    assert_eq!(reopened.get(text(key)).unwrap(), Some(text(value)));
    assert_eq!(reopened.entries().unwrap(), vec![pair(key, value), pair("", "")]);
}

#[test]
fn overwrite_gives_the_later_value() {
    let mut store = KvStore::open(Vec::new()).unwrap();
    store.set(text("k"), text("v1")).unwrap();
    store.set(text("k"), text("v2")).unwrap();
    assert_eq!(store.get(text("k")).unwrap(), Some(text("v2")));
    assert_eq!(store.len(), 1);
}

#[test]
fn delete_then_second_remove_fails() {
    let mut store = KvStore::open(Vec::new()).unwrap();
    store.set(text("k"), text("v")).unwrap();
    assert_eq!(store.remove(text("k")), Ok(()));
    assert_eq!(store.get(text("k")).unwrap(), None);
    let bytes = store.total_bytes();
    assert_eq!(store.remove(text("k")), Err(KvsError::NotFound(text("k"))));
    assert_eq!(store.total_bytes(), bytes);
}

#[test]
fn remove_of_a_key_never_set_writes_nothing() {
    let mut store = KvStore::open(Vec::new()).unwrap();
    assert_eq!(store.remove(text("nobody")), Err(KvsError::NotFound(text("nobody"))));
    assert_eq!(store.total_bytes(), 0);
    assert_eq!(store.generations()[0].bytes, Vec::<u8>::new());
}

#[test]
fn the_log_holds_the_records_in_the_order_written() {
    let mut store = KvStore::open(Vec::new()).unwrap();
    store.set(text("a"), text("1")).unwrap();
    store.remove(text("a")).unwrap();
    store.set(text("b"), text("22")).unwrap();
    let mut expected = put("a", "1");
    expected.extend(rm("a"));
    expected.extend(put("b", "22"));
    assert_eq!(store.generations(), &vec![Generation { id: 0, bytes: expected }]);
}

#[test]
fn stale_bytes_are_counted_as_replay_counts_them() {
    let mut store = KvStore::open(Vec::new()).unwrap();
    store.set(text("a"), text("1")).unwrap();
    assert_eq!(store.uncompacted(), 0);
    assert_eq!(store.total_bytes(), 11);
    store.set(text("a"), text("22")).unwrap();
    assert_eq!(store.uncompacted(), 11);
    assert_eq!(store.total_bytes(), 23);
    store.remove(text("a")).unwrap();
    assert_eq!(store.uncompacted(), 23);
    assert_eq!(store.total_bytes(), 29);
}

#[test]
fn a_remove_record_of_an_unbound_key_is_itself_stale() {
    let mut bytes = rm("ghost");
    bytes.extend(put("a", "1"));
    let store = KvStore::open(vec![Generation { id: 7, bytes }]).unwrap();
    assert_eq!(store.uncompacted(), 10);
    assert_eq!(store.entries().unwrap(), vec![pair("a", "1")]);
    assert_eq!(store.current_gen(), 7);
}

#[test]
fn reopening_gives_the_same_store() {
    let mut store = KvStore::open(Vec::new()).unwrap();
    store.set(text("a"), text("1")).unwrap();
    store.set(text("b"), text("2")).unwrap();
    store.remove(text("a")).unwrap();
    store.set(text("c"), text("3")).unwrap();
    store.set(text("a"), text("4")).unwrap();
    store.set(text("b"), text("5")).unwrap();
    let reopened = KvStore::open(store.generations().clone()).unwrap();
    assert_eq!(reopened.entries().unwrap(), store.entries().unwrap());
    assert_eq!(reopened.uncompacted(), store.uncompacted());
    assert_eq!(reopened.total_bytes(), store.total_bytes());
    assert_eq!(reopened.current_gen(), store.current_gen());
    assert_eq!(reopened.generations(), store.generations());
}

#[test]
fn entries_come_in_the_order_of_first_binding() {
    let mut store = KvStore::open(Vec::new()).unwrap();
    store.set(text("z"), text("1")).unwrap();
    store.set(text("a"), text("2")).unwrap();
    store.set(text("m"), text("3")).unwrap();
    store.set(text("z"), text("4")).unwrap();
    assert_eq!(store.entries().unwrap(), vec![pair("z", "4"), pair("a", "2"), pair("m", "3")]);
    store.remove(text("z")).unwrap();
    store.set(text("z"), text("5")).unwrap();
    assert_eq!(store.entries().unwrap(), vec![pair("a", "2"), pair("m", "3"), pair("z", "5")]);
}

#[test]
fn replay_spans_generations_oldest_first() {
    let mut older = put("a", "old");
    older.extend(put("b", "2"));
    let mut newer = put("a", "new");
    newer.extend(rm("b"));
    let store = KvStore::open(vec![
        Generation { id: 3, bytes: older },
        Generation { id: 9, bytes: newer },
    ]).unwrap();
    assert_eq!(store.entries().unwrap(), vec![pair("a", "new")]);
    assert_eq!(store.current_gen(), 9);
    assert_eq!(store.uncompacted(), 13 + 11);
}

#[test]
fn writes_go_to_the_last_generation() {
    let mut store = KvStore::open(vec![
        Generation { id: 1, bytes: put("a", "1") },
        Generation { id: 2, bytes: Vec::new() },
    ]).unwrap();
    store.set(text("b"), text("2")).unwrap();
    assert_eq!(store.generations()[0], Generation { id: 1, bytes: put("a", "1") });
    assert_eq!(store.generations()[1], Generation { id: 2, bytes: put("b", "2") });
}

#[test]
fn compaction_keeps_the_live_keys_and_drops_the_stale_bytes() {
    let mut store = KvStore::open(Vec::new()).unwrap();
    store.set(text("a"), text("1")).unwrap();
    store.set(text("b"), text("2")).unwrap();
    store.set(text("a"), text("3")).unwrap();
    store.remove(text("b")).unwrap();
    store.set(text("c"), text("4")).unwrap();
    let before = store.entries().unwrap();
    let bytes_before = store.total_bytes();
    assert_eq!(bytes_before, 11 * 4 + 6);
    assert_eq!(store.uncompacted(), 22);
    assert_eq!(store.compact(), Ok(()));
    assert_eq!(store.entries().unwrap(), before);
    assert_eq!(store.get(text("a")).unwrap(), Some(text("3")));
    assert_eq!(store.get(text("b")).unwrap(), None);
    assert_eq!(store.get(text("c")).unwrap(), Some(text("4")));
    assert_eq!(store.uncompacted(), 0);
    assert_eq!(store.total_bytes(), 22);
    assert!(store.total_bytes() < bytes_before);
    assert_eq!(store.current_gen(), 1);
    let mut expected = put("a", "3");
    expected.extend(put("c", "4"));
    assert_eq!(store.generations(), &vec![Generation { id: 1, bytes: expected }]);
}

#[test]
fn compaction_of_a_log_without_stale_bytes_keeps_its_size() {
    let mut store = KvStore::open(Vec::new()).unwrap();
    store.set(text("a"), text("1")).unwrap();
    store.set(text("b"), text("2")).unwrap();
    store.compact().unwrap();
    assert_eq!(store.total_bytes(), 22);
    assert_eq!(store.entries().unwrap(), vec![pair("a", "1"), pair("b", "2")]);
}

#[test]
fn writes_after_compaction_are_kept() {
    let mut store = KvStore::open(Vec::new()).unwrap();
    store.set(text("a"), text("1")).unwrap();
    store.set(text("a"), text("2")).unwrap();
    store.compact().unwrap();
    store.set(text("b"), text("3")).unwrap();
    store.set(text("a"), text("4")).unwrap();
    assert_eq!(store.entries().unwrap(), vec![pair("a", "4"), pair("b", "3")]);
    let reopened = KvStore::open(store.generations().clone()).unwrap();
    assert_eq!(reopened.entries().unwrap(), store.entries().unwrap());
    assert_eq!(reopened.uncompacted(), 11);
}

#[test]
fn a_write_compacts_once_the_threshold_is_passed() {
    let mut store = KvStore::open_with(Vec::new(), 11).unwrap();
    store.set(text("a"), text("1")).unwrap();
    store.set(text("a"), text("2")).unwrap();
    assert_eq!(store.uncompacted(), 11);
    assert_eq!(store.current_gen(), 0);
    store.set(text("a"), text("3")).unwrap();
    assert_eq!(store.uncompacted(), 0);
    assert_eq!(store.current_gen(), 1);
    assert_eq!(store.generations(), &vec![Generation { id: 1, bytes: put("a", "3") }]);
    assert_eq!(store.get(text("a")).unwrap(), Some(text("3")));
}

#[test]
fn a_remove_compacts_once_the_threshold_is_passed() {
    let mut store = KvStore::open_with(Vec::new(), 8).unwrap();
    store.set(text("a"), text("1")).unwrap();
    store.set(text("b"), text("2")).unwrap();
    store.remove(text("a")).unwrap();
    assert_eq!(store.current_gen(), 1);
    assert_eq!(store.generations(), &vec![Generation { id: 1, bytes: put("b", "2") }]);
    assert_eq!(store.remove(text("a")), Err(KvsError::NotFound(text("a"))));
}

#[test]
fn the_default_threshold_is_a_mebibyte() {
    assert_eq!(COMPACTION_THRESHOLD, 1024 * 1024);
    let mut store = KvStore::open(Vec::new()).unwrap();
    let value = "v".repeat(600_000);
    store.set(text("a"), value.clone()).unwrap();
    store.set(text("a"), value.clone()).unwrap();
    assert_eq!(store.current_gen(), 0);
    store.set(text("a"), value.clone()).unwrap();
    assert_eq!(store.current_gen(), 1);
    assert_eq!(store.uncompacted(), 0);
    assert_eq!(store.get(text("a")).unwrap(), Some(value));
}

#[test]
fn a_crash_in_the_middle_of_compaction_loses_nothing() {
    let mut store = KvStore::open(Vec::new()).unwrap();
    store.set(text("a"), text("1")).unwrap();
    store.set(text("b"), text("2")).unwrap();
    store.set(text("a"), text("3")).unwrap();
    store.remove(text("b")).unwrap();
    let before = store.entries().unwrap();
    let older = store.generations().clone();
    store.compact().unwrap();
    let from_older = KvStore::open(older.clone()).unwrap();
    assert_eq!(from_older.entries().unwrap(), before);
    let mut both = older;
    both.extend(store.generations().clone());
    let from_both = KvStore::open(both).unwrap();
    assert_eq!(from_both.entries().unwrap(), before);
    assert_eq!(from_both.current_gen(), 1);
}

#[test]
fn compaction_fails_where_no_generation_number_is_left() {
    let mut store = KvStore::open(vec![Generation { id: u64::MAX, bytes: put("a", "1") }]).unwrap();
    store.set(text("a"), text("2")).unwrap();
    assert_eq!(
        store.compact(),
        Err(KvsError::Generic(text("generation numbers exhausted")))
    );
    assert_eq!(store.get(text("a")).unwrap(), Some(text("2")));
    assert_eq!(store.uncompacted(), 11);
}

#[test]
fn a_truncated_record_refuses_to_open() {
    let mut bytes = put("a", "1");
    bytes.extend(put("b", "2"));
    bytes.pop();
    assert_eq!(
        KvStore::open(vec![Generation { id: 0, bytes }]).err(),
        Some(KvsError::CorruptLog)
    );
}

#[test]
fn an_unknown_tag_refuses_to_open() {
    let mut bytes = put("a", "1");
    bytes.extend(vec![3u8, 1, 0, 0, 0, b'x']);
    assert_eq!(
        KvStore::open(vec![Generation { id: 0, bytes }]).err(),
        Some(KvsError::CorruptLog)
    );
}

#[test]
fn corruption_in_an_older_generation_refuses_to_open() {
    let result = KvStore::open(vec![
        Generation { id: 0, bytes: vec![1u8] },
        Generation { id: 1, bytes: put("a", "1") },
    ]);
    assert_eq!(result.err(), Some(KvsError::CorruptLog));
}

#[test]
fn generations_out_of_order_refuse_to_open() {
    let result = KvStore::open(vec![
        Generation { id: 2, bytes: Vec::new() },
        Generation { id: 1, bytes: Vec::new() },
    ]);
    assert_eq!(result.err(), Some(KvsError::Generic(text("generations out of order"))));
    let twice = KvStore::open(vec![
        Generation { id: 1, bytes: Vec::new() },
        Generation { id: 1, bytes: Vec::new() },
    ]);
    assert_eq!(twice.err(), Some(KvsError::Generic(text("generations out of order"))));
}

#[test]
fn long_keys_and_values_are_kept() {
    let mut store = KvStore::open(Vec::new()).unwrap();
    let key = "k".repeat(70000);
    let value = "v".repeat(300000);
    assert_eq!(store.set(key.clone(), value.clone()), Ok(()));
    assert_eq!(store.get(key.clone()).unwrap(), Some(value.clone()));
    assert_eq!(store.total_bytes(), 1 + 4 + 70000 + 4 + 300000);
    let reopened = KvStore::open(store.generations().clone()).unwrap();
    assert_eq!(reopened.entries().unwrap(), vec![(key.clone(), value)]);
    assert_eq!(store.remove(key.clone()), Ok(()));
    assert_eq!(store.get(key).unwrap(), None);
}
