use lsm_db::common::KVIterItem;
use lsm_db::config::Config;
use lsm_db::db::DbCore;
use lsm_db::key::Key;
use lsm_db::level::LevelChange;
use lsm_db::value::Value;

fn value_of(db: &DbCore, k: &str) -> Option<Vec<u8>> {
    db.get(&Key::new(k)).unwrap().map(|v| v.data().to_vec())
}

fn has_tombstone(entries: &Vec<KVIterItem>) -> bool {
    entries.iter().any(|e| e.1.is_none())
}

#[test]
fn empty_db_put_get() {
    let mut db = DbCore::open(Config::new());
    db.put(Key::new("a"), Value::new("1")).unwrap();
    assert_eq!(value_of(&db, "a"), Some(b"1".to_vec()));
    assert_eq!(value_of(&db, "b"), None);
}

#[test]
fn overwrite_then_flush_reads_newest() {
    let mut db = DbCore::open(Config::new());
    db.put(Key::new("k"), Value::new("v1")).unwrap();
    db.put(Key::new("k"), Value::new("v2")).unwrap();
    let c = db.flush().unwrap();
    assert!(matches!(c, Some(LevelChange::MemtableCompact { .. })));
    assert_eq!(value_of(&db, "k"), Some(b"v2".to_vec()));
    assert_eq!(db.depth(), 1);
}

#[test]
fn put_twice_same_value() {
    let mut db = DbCore::open(Config::new());
    assert!(db.put(Key::new("k"), Value::new("v")).is_ok());
    assert!(db.put(Key::new("k"), Value::new("v")).is_ok());
    assert_eq!(value_of(&db, "k"), Some(b"v".to_vec()));
}

#[test]
fn put_then_delete_is_absent() {
    let mut db = DbCore::open(Config::new());
    db.put(Key::new("k"), Value::new("v")).unwrap();
    db.delete(Key::new("k")).unwrap();
    assert_eq!(value_of(&db, "k"), None);
    db.flush().unwrap();
    assert_eq!(value_of(&db, "k"), None);
}

#[test]
fn empty_memtable_flush_makes_no_table() {
    let mut db = DbCore::open(Config::new());
    assert!(db.flush().unwrap().is_none());
    assert_eq!(db.depth(), 0);
    assert!(db.all_file_ids().is_empty());
}

#[test]
fn invalid_values_are_rejected() {
    let mut db = DbCore::open(Config::new());
    assert_eq!(db.put(Key::new("k"), Value::new("")), Err(lsm_db::common::MyError::EmptyValue));
    let big = vec![b'x'; 1025];
    assert_eq!(db.put(Key::new("k"), Value::from_u8(&big)), Err(lsm_db::common::MyError::ValueTooLarge));
    assert_eq!(value_of(&db, "k"), None);
}

#[test]
fn many_small_memtables_reach_two_levels() {
    let mut config = Config::new();
    config.memtable_size_limit = 10;
    config.level_0_file_limit = 1;
    let mut db = DbCore::open(config);
    for i in 0..200 {
        let s = i.to_string();
        db.put(Key::new(&s), Value::new(&s)).unwrap();
        db.maintain(1000).unwrap();
    }
    for i in 0..200 {
        let s = i.to_string();
        assert_eq!(value_of(&db, &s), Some(s.as_bytes().to_vec()));
    }
    assert!(db.depth() >= 2);
}

#[test]
fn deleted_key_gone_after_deeper_compaction() {
    let mut config = Config::new();
    config.level_0_file_limit = 0;
    let mut db = DbCore::open(config);
    for k in ["1", "2", "3"] {
        db.put(Key::new(k), Value::new(k)).unwrap();
    }
    db.delete(Key::new("2")).unwrap();
    db.flush().unwrap();
    while db.compact_step().unwrap().is_some() {}
    assert_eq!(value_of(&db, "1"), Some(b"1".to_vec()));
    assert_eq!(value_of(&db, "2"), None);
    assert_eq!(value_of(&db, "3"), Some(b"3".to_vec()));
    let deepest = db.depth() - 1;
    assert!(deepest >= 1);
    assert!(!has_tombstone(&db.level_entries(deepest)));
}

#[test]
fn bottom_level_drops_tombstone_of_first_key() {
    let mut config = Config::new();
    config.memtable_size_limit = 400;
    config.level_0_file_limit = 1;
    let mut db = DbCore::open(config);
    db.delete(Key::new("0")).unwrap();
    for i in 1..400 {
        let s = i.to_string();
        db.put(Key::new(&s), Value::new(&s)).unwrap();
        db.maintain(1000).unwrap();
    }
    db.flush().unwrap();
    while db.compact_step().unwrap().is_some() {}
    assert!(db.depth() >= 2);
    let level1 = db.level_entries(1);
    assert!(!level1.iter().any(|e| e.0.data() == b"0" && e.1.is_none()));
    assert_eq!(value_of(&db, "0"), None);
    assert_eq!(value_of(&db, "399"), Some(b"399".to_vec()));
}

#[test]
fn reopen_reads_back_all_entries() {
    let mut config = Config::new();
    config.memtable_size_limit = 2000;
    config.level_0_file_limit = 2;
    config.sstable_file_limit = 4096;
    let mut db = DbCore::open(config.clone());
    let mut manifest: Vec<LevelChange> = Vec::new();
    for i in 0..2000 {
        let s = i.to_string();
        db.put(Key::new(&s), Value::new(&s)).unwrap();
        manifest.extend(db.maintain(1000).unwrap());
    }
    assert!(db.depth() >= 2);
    let tables: Vec<(u64, Vec<u8>)> =
        db.all_file_ids().into_iter().map(|id| (id, db.table_bytes(id).unwrap())).collect();
    let wal = db.memtable_entries();
    let reopened = DbCore::recover(config, &manifest, &tables, &vec![], &wal).unwrap();
    for i in 0..2000 {
        let s = i.to_string();
        assert_eq!(value_of(&reopened, &s), Some(s.as_bytes().to_vec()));
    }
}

#[test]
fn recover_rejects_change_without_its_tables() {
    let mut db = DbCore::open(Config::new());
    db.put(Key::new("a"), Value::new("1")).unwrap();
    let c = db.flush().unwrap().unwrap();
    let r = DbCore::recover(Config::new(), &vec![c], &vec![], &vec![], &vec![]);
    assert_eq!(r.err(), Some(lsm_db::common::MyError::Corruption));
}
