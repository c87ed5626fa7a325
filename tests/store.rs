use kvs::codec::{decode_at, encode, Command};
use kvs::{KvError, KvStore, Persist, MAX_LOG_SIZE};

fn s(x: &str) -> String {
    x.to_string()
}

fn fresh() -> KvStore {
    KvStore::open(Vec::new()).unwrap()
}

fn reopen(store: &KvStore) -> KvStore {
    KvStore::open(store.log_bytes().clone()).unwrap()
}

#[test]
fn example_scenario_and_reopen() {
    let mut store = fresh();
    store.set(s("a"), s("1"));
    store.set(s("b"), s("2"));
    store.set(s("a"), s("3"));
    store.remove(s("b")).unwrap();
    assert_eq!(store.get(s("a")).unwrap(), Some(s("3")));
    assert_eq!(store.get(s("b")).unwrap(), None);
    let again = reopen(&store);
    assert_eq!(again.get(s("a")).unwrap(), Some(s("3")));
    assert_eq!(again.get(s("b")).unwrap(), None);
}

#[test]
fn set_then_get_returns_value() {
    let mut store = fresh();
    store.set(s("key"), s("value"));
    assert_eq!(store.get(s("key")).unwrap(), Some(s("value")));
    store.set(s(""), s(""));
    assert_eq!(store.get(s("")).unwrap(), Some(s("")));
    store.set(s("κλειδί"), s("värde ✓"));
    assert_eq!(store.get(s("κλειδί")).unwrap(), Some(s("värde ✓")));
}

#[test]
fn get_missing_key_is_none() {
    let store = fresh();
    assert_eq!(store.get(s("nothing")).unwrap(), None);
}

#[test]
fn overwrite_keeps_both_writes() {
    let mut store = fresh();
    let len0 = store.log_bytes().len();
    store.set(s("k"), s("v1"));
    let len1 = store.log_bytes().len();
    store.set(s("k"), s("v2"));
    let len2 = store.log_bytes().len();
    assert!(len0 < len1 && len1 < len2);
    assert_eq!(store.get(s("k")).unwrap(), Some(s("v2")));
    let log = store.log_bytes().clone();
    match decode_at(&log, 0) {
        Some((Command::Put { key, value }, end)) => {
            assert_eq!(key, s("k"));
            assert_eq!(value, s("v1"));
            assert_eq!(end, len1);
        }
        _ => panic!("first record is not the first write"),
    }
    match decode_at(&log, len1) {
        Some((Command::Put { key, value }, end)) => {
            assert_eq!(key, s("k"));
            assert_eq!(value, s("v2"));
            assert_eq!(end, len2);
        }
        _ => panic!("second record is not the second write"),
    }
}

#[test]
fn delete_then_get_and_remove_again() {
    let mut store = fresh();
    store.set(s("k"), s("v"));
    assert!(store.remove(s("k")).is_ok());
    assert_eq!(store.get(s("k")).unwrap(), None);
    assert_eq!(store.remove(s("k")).err(), Some(KvError::KeyNotFound));
}

#[test]
fn remove_absent_key_on_fresh_store() {
    let mut store = fresh();
    let before = store.log_bytes().clone();
    assert_eq!(store.remove(s("missing")).err(), Some(KvError::KeyNotFound));
    assert_eq!(store.log_bytes(), &before);
    assert!(before.is_empty());
    assert_eq!(store.get(s("missing")).unwrap(), None);
}

#[test]
fn set_reports_the_record_to_append() {
    let mut store = fresh();
    let p = store.set(s("a"), s("1"));
    let expected = encode(&Command::Put { key: s("a"), value: s("1") });
    match p {
        Persist::Append(bytes) => {
            assert_eq!(bytes, expected);
            assert_eq!(store.log_bytes(), &expected);
        }
        Persist::Rewrite => panic!("a small log was compacted"),
    }
    let r = store.remove(s("a")).unwrap();
    let rec = encode(&Command::Remove { key: s("a") });
    match r {
        Persist::Append(bytes) => assert_eq!(bytes, rec),
        Persist::Rewrite => panic!("a small log was compacted"),
    }
}

#[test]
fn reopen_after_many_operations() {
    let mut store = fresh();
    for i in 0..50u32 {
        store.set(format!("key{}", i % 7), format!("value{}", i));
        if i % 5 == 0 {
            let _ = store.remove(format!("key{}", (i + 3) % 7));
        }
    }
    let again = reopen(&store);
    for i in 0..7u32 {
        let k = format!("key{}", i);
        assert_eq!(store.get(k.clone()).unwrap(), again.get(k).unwrap());
    }
}

#[test]
fn compaction_preserves_visible_state() {
    let mut store = KvStore::open_with_threshold(Vec::new(), 200).unwrap();
    let mut rewrites = 0;
    for i in 0..200u32 {
        let p = store.set(format!("k{}", i % 10), format!("v{}", i));
        if matches!(p, Persist::Rewrite) {
            rewrites += 1;
        }
        if i % 9 == 0 {
            let _ = store.remove(format!("k{}", (i + 1) % 10));
        }
    }
    assert!(rewrites > 0);
    let mut model: std::collections::BTreeMap<String, String> = std::collections::BTreeMap::new();
    for i in 0..200u32 {
        model.insert(format!("k{}", i % 10), format!("v{}", i));
        if i % 9 == 0 {
            model.remove(&format!("k{}", (i + 1) % 10));
        }
    }
    let again = reopen(&store);
    for j in 0..10u32 {
        let k = format!("k{}", j);
        let want = model.get(&k).cloned();
        assert_eq!(store.get(k.clone()).unwrap(), want);
        assert_eq!(again.get(k).unwrap(), want);
    }
}

#[test]
fn compaction_drops_obsolete_records() {
    let mut store = KvStore::open_with_threshold(Vec::new(), 100).unwrap();
    let mut last = Persist::Append(Vec::new());
    for i in 0..20u32 {
        last = store.set(s("only"), format!("{}", i));
        if matches!(last, Persist::Rewrite) {
            break;
        }
    }
    assert!(matches!(last, Persist::Rewrite));
    let one = encode(&Command::Put { key: s("only"), value: store.get(s("only")).unwrap().unwrap() });
    assert_eq!(store.log_bytes(), &one);
}

#[test]
fn default_threshold_is_one_mebibyte() {
    assert_eq!(MAX_LOG_SIZE, 1024 * 1024);
}

#[test]
fn encode_put_exact_bytes() {
    let b = encode(&Command::Put { key: s("a"), value: s("bc") });
    assert_eq!(b, vec![0, 1, 0, 0, 0, 0, 0, 0, 0, b'a', 2, 0, 0, 0, 0, 0, 0, 0, b'b', b'c']);
}

#[test]
fn encode_remove_exact_bytes() {
    let b = encode(&Command::Remove { key: s("é") });
    assert_eq!(b, vec![1, 2, 0, 0, 0, 0, 0, 0, 0, 0xC3, 0xA9]);
}

#[test]
fn decode_reads_back_records_in_sequence() {
    let mut log = encode(&Command::Put { key: s("x"), value: s("ÿ") });
    let first = log.len();
    log.extend(encode(&Command::Remove { key: s("x") }));
    match decode_at(&log, 0) {
        Some((Command::Put { key, value }, end)) => {
            assert_eq!((key.as_str(), value.as_str(), end), ("x", "ÿ", first));
        }
        _ => panic!("bad first record"),
    }
    match decode_at(&log, first) {
        Some((Command::Remove { key }, end)) => {
            assert_eq!((key.as_str(), end), ("x", log.len()));
        }
        _ => panic!("bad second record"),
    }
    assert!(decode_at(&log, log.len()).is_none());
}

#[test]
fn decode_rejects_invalid_utf8() {
    let log = vec![1, 1, 0, 0, 0, 0, 0, 0, 0, 0xFF];
    assert!(decode_at(&log, 0).is_none());
}

#[test]
fn decode_rejects_bad_tag_and_truncation() {
    assert!(decode_at(&vec![7, 0, 0, 0, 0, 0, 0, 0, 0], 0).is_none());
    assert!(decode_at(&vec![1, 5, 0, 0, 0, 0, 0, 0, 0, b'a'], 0).is_none());
    assert!(decode_at(&vec![0, 0, 0], 0).is_none());
}

#[test]
fn open_rejects_corrupt_log() {
    let mut log = encode(&Command::Put { key: s("a"), value: s("1") });
    log.push(9);
    assert_eq!(KvStore::open(log).err(), Some(KvError::Corruption));
    let mut cut = encode(&Command::Put { key: s("a"), value: s("1") });
    cut.pop();
    assert_eq!(KvStore::open(cut).err(), Some(KvError::Corruption));
}

#[test]
fn open_replays_removes() {
    let mut log = encode(&Command::Put { key: s("a"), value: s("1") });
    log.extend(encode(&Command::Put { key: s("b"), value: s("2") }));
    log.extend(encode(&Command::Remove { key: s("a") }));
    log.extend(encode(&Command::Remove { key: s("zz") }));
    let store = KvStore::open(log).unwrap();
    assert_eq!(store.get(s("a")).unwrap(), None);
    assert_eq!(store.get(s("b")).unwrap(), Some(s("2")));
}

#[test]
fn set_points_index_at_old_log_length() {
    let mut store = fresh();
    store.set(s("a"), s("1"));
    store.set(s("b"), s("2"));
    let b_off = store.offset_of(&s("b"));
    let len = store.log_bytes().len() as u64;
    store.set(s("a"), s("1"));
    assert_eq!(store.offset_of(&s("a")), Some(len));
    assert_eq!(store.offset_of(&s("b")), b_off);
    assert_eq!(store.offset_of(&s("c")), None);
}

#[test]
fn remove_drops_only_that_key_from_index() {
    let mut store = fresh();
    store.set(s("a"), s("1"));
    store.set(s("b"), s("2"));
    let a_off = store.offset_of(&s("a"));
    store.remove(s("b")).unwrap();
    assert_eq!(store.offset_of(&s("b")), None);
    assert_eq!(store.offset_of(&s("a")), a_off);
    assert_eq!(a_off, Some(0));
}

#[test]
fn open_index_points_at_latest_put() {
    let mut log = encode(&Command::Put { key: s("a"), value: s("1") });
    log.extend(encode(&Command::Put { key: s("b"), value: s("2") }));
    let third = log.len() as u64;
    log.extend(encode(&Command::Put { key: s("a"), value: s("1") }));
    log.extend(encode(&Command::Remove { key: s("b") }));
    let store = KvStore::open(log.clone()).unwrap();
    assert_eq!(store.offset_of(&s("a")), Some(third));
    assert_eq!(store.offset_of(&s("b")), None);
    let again = KvStore::open(log).unwrap();
    assert_eq!(again.offset_of(&s("a")), store.offset_of(&s("a")));
}

#[test]
fn compaction_on_every_write_keeps_values_and_offsets() {
    let mut store = KvStore::open_with_threshold(Vec::new(), 0).unwrap();
    for i in 0..12u32 {
        let p = store.set(format!("k{}", i % 4), format!("v{}", i));
        assert!(matches!(p, Persist::Rewrite));
    }
    for j in 0..4u32 {
        let k = format!("k{}", j);
        let want = format!("v{}", 8 + j);
        assert_eq!(store.get(k.clone()).unwrap(), Some(want.clone()));
        let off = store.offset_of(&k).unwrap() as usize;
        match decode_at(store.log_bytes(), off) {
            Some((Command::Put { key, value }, _)) => {
                assert_eq!(key, k);
                assert_eq!(value, want);
            }
            _ => panic!("index does not point at a Put of the key"),
        }
    }
    let again = reopen(&store);
    for j in 0..4u32 {
        let k = format!("k{}", j);
        assert_eq!(again.offset_of(&k), store.offset_of(&k));
    }
}

#[test]
fn explicit_compact_keeps_state() {
    let mut store = fresh();
    store.set(s("x"), s("1"));
    store.set(s("y"), s("2"));
    store.set(s("x"), s("3"));
    store.remove(s("y")).unwrap();
    let before = store.log_bytes().len();
    store.compact();
    assert!(store.log_bytes().len() < before);
    assert_eq!(store.get(s("x")).unwrap(), Some(s("3")));
    assert_eq!(store.get(s("y")).unwrap(), None);
    assert_eq!(store.offset_of(&s("x")), Some(0));
    assert_eq!(store.log_bytes(), &encode(&Command::Put { key: s("x"), value: s("3") }));
}
