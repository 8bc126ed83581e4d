use std::path::PathBuf;

use kvdb::{
    load_index, write_remove_record, write_set_record, Config, KvDb, KvError, OpType, ValueCache,
    DEFAULT_GC_THRESHOLD, MAX_CACHE_SIZE,
};

fn test_config(dir: &str) -> Config {
    Config { path: PathBuf::from(dir), gc_threshold: 1024 * 1024 }
}

fn setup_test_db() -> KvDb {
    KvDb::open(test_config("test_db"), Vec::new()).unwrap()
}

fn reopen(db: &KvDb, config: Config) -> KvDb {
    KvDb::open(config, db.log_bytes().to_vec()).unwrap()
}

#[test]
fn test_set_get() {
    let mut db = setup_test_db();

    assert_eq!(db.set(1, "value1").unwrap(), None);
    assert_eq!(db.get(1).unwrap(), Some("value1".to_string()));

    assert_eq!(db.set(1, "value2").unwrap(), Some("value1".to_string()));
    assert_eq!(db.get(1).unwrap(), Some("value2".to_string()));
}

#[test]
fn test_remove() {
    let mut db = KvDb::open(test_config("test_remove_db"), Vec::new()).unwrap();

    assert_eq!(db.set(1, "value1").unwrap(), None);
    assert_eq!(db.get(1).unwrap(), Some("value1".to_string()));

    let remove_result = db.remove(1).unwrap();
    assert_eq!(remove_result, Some("value1".to_string()));
    assert_eq!(db.get(1).unwrap(), None);

    assert_eq!(db.remove(2).unwrap(), None);
}

#[test]
fn test_persistence() {
    let config = test_config("test_persistence");
    let log = {
        let mut db = KvDb::open(config.clone(), Vec::new()).unwrap();
        db.set(1, "value1").unwrap();
        db.set(2, "value2").unwrap();
        db.remove(1).unwrap();
        db.log_bytes().to_vec()
    };
    {
        let mut db = KvDb::open(config, log).unwrap();
        assert_eq!(db.get(1).unwrap(), None);
        assert_eq!(db.get(2).unwrap(), Some("value2".to_string()));
    }
}

#[test]
fn scenario_set_then_get_on_empty_store() {
    let mut db = setup_test_db();
    assert_eq!(db.set(1, "a").unwrap(), None);
    assert_eq!(db.get(1).unwrap(), Some("a".to_string()));
}

#[test]
fn scenario_overwrite_returns_previous() {
    let mut db = setup_test_db();
    db.set(1, "a").unwrap();
    assert_eq!(db.set(1, "b").unwrap(), Some("a".to_string()));
    assert_eq!(db.get(1).unwrap(), Some("b".to_string()));
}

#[test]
fn scenario_remove_then_remove_again() {
    let mut db = setup_test_db();
    db.set(1, "a").unwrap();
    assert_eq!(db.remove(1).unwrap(), Some("a".to_string()));
    assert_eq!(db.get(1).unwrap(), None);
    let size = db.file_size();
    assert_eq!(db.remove(1).unwrap(), None);
    assert_eq!(db.file_size(), size);
}

#[test]
fn scenario_close_and_reopen() {
    let config = test_config("reopen");
    let mut db = KvDb::open(config.clone(), Vec::new()).unwrap();
    db.set(1, "a").unwrap();
    db.set(2, "b").unwrap();
    db.close().unwrap();
    let mut again = reopen(&db, config);
    assert_eq!(again.get(1).unwrap(), Some("a".to_string()));
    assert_eq!(again.get(2).unwrap(), Some("b".to_string()));
}

#[test]
fn compaction_keeps_only_the_last_value() {
    let config = Config { path: PathBuf::from("gc"), gc_threshold: 10 * 1024 };
    let mut db = KvDb::open(config, Vec::new()).unwrap();
    let mut last = String::new();
    let mut round: u32 = 0;
    loop {
        let ch = char::from(b'a' + (round % 26) as u8);
        last = std::iter::repeat(ch).take(1024).collect();
        let before = db.compactions();
        db.set(1, &last).unwrap();
        round += 1;
        if db.compactions() != before {
            break;
        }
        assert!(round < 100);
    }
    assert_eq!(db.file_size(), 17 + 1024);
    assert_eq!(db.get(1).unwrap(), Some(last));
}

#[test]
fn compaction_drops_removed_keys() {
    let config = Config { path: PathBuf::from("gc_half"), gc_threshold: u64::MAX };
    let mut db = KvDb::open(config.clone(), Vec::new()).unwrap();
    for k in 0..100_000i64 {
        db.set(k, "x").unwrap();
    }
    for k in (0..100_000i64).step_by(2) {
        assert_eq!(db.remove(k).unwrap(), Some("x".to_string()));
    }
    db.garbage_collect();
    assert_eq!(db.file_size(), 50_000 * 18);
    let log = db.log_bytes();
    let mut pos = 0usize;
    let mut seen = 0;
    while pos < log.len() {
        assert_eq!(log[pos], 0);
        let key = i64::from_le_bytes(log[pos + 1..pos + 9].try_into().unwrap());
        assert_eq!(key % 2, 1);
        pos += 18;
        seen += 1;
    }
    assert_eq!(seen, 50_000);
    assert_eq!(db.get(3).unwrap(), Some("x".to_string()));
    assert_eq!(db.get(4).unwrap(), None);
    let mut again = reopen(&db, config);
    assert_eq!(again.get(3).unwrap(), Some("x".to_string()));
    assert_eq!(again.get(4).unwrap(), None);
}

#[test]
fn empty_value_round_trips() {
    let mut db = setup_test_db();
    assert_eq!(db.set(7, "").unwrap(), None);
    assert_eq!(db.get(7).unwrap(), Some(String::new()));
    let log = db.log_bytes();
    assert_eq!(log.len(), 17);
    assert_eq!(&log[9..17], &[0u8; 8]);
}

#[test]
fn invalid_utf8_is_decoded_lossily() {
    let mut log = Vec::new();
    write_set_record(&mut log, 5, &[b'a', 0xff, b'b']);
    let mut db = KvDb::open(test_config("lossy"), log).unwrap();
    assert_eq!(db.get(5).unwrap(), Some("a\u{FFFD}b".to_string()));
    assert_eq!(db.get(5).unwrap(), Some("a\u{FFFD}b".to_string()));
}

#[test]
fn open_empty_log_gives_empty_store() {
    let mut db = setup_test_db();
    assert_eq!(db.file_size(), 0);
    assert_eq!(db.get(1).unwrap(), None);
    let (index, keys) = load_index(&[]).unwrap();
    assert!(index.is_empty());
    assert!(keys.is_empty());
}

#[test]
fn open_truncated_log_fails() {
    let mut log = Vec::new();
    write_set_record(&mut log, 1, b"hello");
    log.pop();
    assert!(matches!(KvDb::open(test_config("t"), log), Err(KvError::InvalidFormat)));
    let mut short = Vec::new();
    write_remove_record(&mut short, 1);
    short.truncate(5);
    assert!(matches!(KvDb::open(test_config("t"), short), Err(KvError::InvalidFormat)));
}

#[test]
fn open_unknown_tag_fails() {
    let log = vec![2u8; 9];
    assert!(matches!(KvDb::open(test_config("t"), log), Err(KvError::InvalidFormat)));
}

#[test]
fn closed_store_refuses_operations() {
    let mut db = setup_test_db();
    db.set(1, "a").unwrap();
    db.close().unwrap();
    db.close().unwrap();
    assert!(db.is_closed());
    assert!(matches!(db.get(1), Err(KvError::DbClosed)));
    assert!(matches!(db.set(1, "b"), Err(KvError::DbClosed)));
    assert!(matches!(db.remove(1), Err(KvError::DbClosed)));
}

#[test]
fn record_bytes_are_little_endian() {
    let mut log = Vec::new();
    write_set_record(&mut log, 0x0102, b"ab");
    assert_eq!(log, vec![0, 2, 1, 0, 0, 0, 0, 0, 0, 2, 0, 0, 0, 0, 0, 0, 0, b'a', b'b']);
    let mut rem = Vec::new();
    write_remove_record(&mut rem, -1);
    assert_eq!(rem, vec![1, 255, 255, 255, 255, 255, 255, 255, 255]);
}

#[test]
fn load_index_points_at_payloads() {
    let mut log = Vec::new();
    write_set_record(&mut log, -3, b"xyz");
    write_set_record(&mut log, 4, b"q");
    write_remove_record(&mut log, 4);
    let (index, keys) = load_index(&log).unwrap();
    assert_eq!(keys, vec![-3, 4]);
    let pos = index.get(&-3).unwrap().unwrap();
    assert_eq!((pos.offset, pos.size), (17, 3));
    assert!(index.get(&4).unwrap().is_none());
}

#[test]
fn op_type_from_tag() {
    assert_eq!(OpType::from_u8(0).unwrap(), OpType::SetValue);
    assert_eq!(OpType::from_u8(1).unwrap(), OpType::Remove);
    assert!(matches!(OpType::from_u8(7), Err(KvError::InvalidFormat)));
}

#[test]
fn cache_counts_key_and_value_bytes() {
    let mut cache = ValueCache::new();
    cache.insert(1, "abc".to_string());
    assert_eq!(cache.size(), 11);
    cache.insert(2, "\u{e9}".to_string());
    assert_eq!(cache.size(), 21);
    assert_eq!(cache.get(1), Some("abc".to_string()));
    cache.remove(1);
    assert_eq!(cache.size(), 10);
    assert_eq!(cache.get(1), None);
}

#[test]
fn cache_value_near_budget_evicts_everything() {
    let mut cache = ValueCache::new();
    cache.insert(1, "a".to_string());
    cache.insert(2, "b".to_string());
    let big: String = std::iter::repeat('z').take(MAX_CACHE_SIZE - 8).collect();
    cache.insert(3, big);
    assert_eq!(cache.size(), MAX_CACHE_SIZE as u128);
    assert_eq!(cache.get(1), None);
    assert_eq!(cache.get(2), None);
    assert!(cache.get(3).is_some());
}

#[test]
fn cache_evicts_least_recently_used_first() {
    let mut cache = ValueCache::new();
    let half: String = std::iter::repeat('h').take(MAX_CACHE_SIZE / 2 - 8).collect();
    cache.insert(1, half.clone());
    cache.insert(2, half.clone());
    assert!(cache.get(1).is_some());
    cache.insert(3, "c".to_string());
    assert!(cache.get(2).is_none());
    assert!(cache.get(1).is_some());
    assert!(cache.get(3).is_some());
}

#[test]
fn cache_stays_within_budget() {
    let mut db = setup_test_db();
    let chunk: String = std::iter::repeat('v').take(1024 * 1024).collect();
    let config = Config { path: PathBuf::from("budget"), gc_threshold: u64::MAX };
    let mut big = KvDb::open(config, Vec::new()).unwrap();
    for k in 0..20i64 {
        big.set(k, &chunk).unwrap();
        assert!(big.cache_size() <= MAX_CACHE_SIZE as u128);
    }
    assert_eq!(big.cache_size(), 15 * (8 + 1024 * 1024));
    assert_eq!(big.get(0).unwrap(), Some(chunk.clone()));
    assert!(big.cache_size() <= MAX_CACHE_SIZE as u128);
    assert_eq!(db.set(1, "x").unwrap(), None);
}

#[test]
fn default_config() {
    let config = Config::default();
    assert_eq!(config.gc_threshold, 100 * 1024 * 1024);
    assert_eq!(DEFAULT_GC_THRESHOLD, 100 * 1024 * 1024);
    assert_eq!(config.path, PathBuf::from("db"));
}

#[test]
fn error_messages() {
    assert_eq!(KvError::DbClosed.message(), "Database is closed");
    assert_eq!(KvError::InvalidFormat.message(), "Invalid data format");
    assert_eq!(KvError::KeyNotFound.message(), "Key not found");
}

#[test]
fn compaction_twice_keeps_records_and_size() {
    let config = Config { path: PathBuf::from("gc_twice"), gc_threshold: u64::MAX };
    let mut db = KvDb::open(config, Vec::new()).unwrap();
    db.set(1, "one").unwrap();
    db.set(2, "two").unwrap();
    db.set(1, "uno").unwrap();
    db.remove(2).unwrap();
    let before = db.compactions();
    db.garbage_collect();
    assert_ne!(db.compactions(), before);
    let first = db.log_bytes().to_vec();
    assert_eq!(first.len(), 17 + 3);
    db.garbage_collect();
    assert_eq!(db.log_bytes(), &first[..]);
    assert_eq!(db.get(1).unwrap(), Some("uno".to_string()));
    assert_eq!(db.get(2).unwrap(), None);
}
