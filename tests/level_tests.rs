use lsm_db::common::KVIterItem;
use lsm_db::config::Config;
use lsm_db::key::Key;
use lsm_db::level::{CompactSStableResult, FileStorageManager, Level, LevelChange, SStableFileMeta, TableStore};
use lsm_db::reclaimer::FileReclaimer;
use lsm_db::sstable::SSTable;
use lsm_db::value::Value;
use lsm_db::version::Version;
use std::collections::HashMap;
use std::str::from_utf8;

fn table_with_values(start: usize, end: usize, special: &HashMap<usize, Option<Value>>) -> SSTable {
    let mut data: Vec<KVIterItem> = Vec::new();
    for i in start..end {
        let v = match special.get(&i) {
            Some(v) => v.clone(),
            None => Some(Value::new(&i.to_string())),
        };
        data.push((Key::new(&i.to_string()), v));
    }
    SSTable::from_iter(&data, 0).0.unwrap()
}

fn table(start: usize, end: usize) -> SSTable {
    table_with_values(start, end, &HashMap::new())
}

fn show(t: &SSTable) -> String {
    let mut res = String::new();
    for (k, v) in t.iter().unwrap() {
        let v_string = match v {
            Some(v) => from_utf8(v.data()).unwrap().to_string(),
            None => String::from("None"),
        };
        res.push_str(&format!("(key: {},value: {})", from_utf8(k.data()).unwrap(), v_string));
    }
    res
}

fn put(store: &mut TableStore, t: SSTable, id: u64) -> SStableFileMeta {
    let meta = SStableFileMeta::from(&t, id);
    store.insert(id, t);
    meta
}

// [100-200),[205-300),[305-400)
fn build_level() -> (Level, TableStore) {
    let mut store = TableStore::new();
    let a = put(&mut store, table(100, 200), 0);
    let b = put(&mut store, table(205, 300), 1);
    let c = put(&mut store, table(305, 400), 2);
    (Level::new(vec![a, b, c]), store)
}

#[test]
fn test_find_oldest_sstable() {
    let (level, _) = build_level();
    let res = level.find_oldest_sstable();
    assert_eq!(res.file_id(), 0);
    assert_eq!(res.start_key(), Key::new("100"));
    let res = level.pick_file_to_compact();
    assert_eq!(res.start_key(), Key::new("100"));
}

#[test]
fn test_key_overlap() {
    let (level, _) = build_level();
    let res = level.key_overlap(&Key::new("050"), &Key::new("080"));
    assert!(res.is_none());
    let res = level.key_overlap(&Key::new("050"), &Key::new("100")).unwrap().0;
    assert_eq!(res.len(), 1);
    assert_eq!(res.get(0).unwrap().last_key(), Key::new("199"));
    let res = level.key_overlap(&Key::new("399"), &Key::new("480")).unwrap().0;
    assert_eq!(res.len(), 1);
    assert_eq!(res.get(0).unwrap().last_key(), Key::new("399"));
    let res = level.key_overlap(&Key::new("450"), &Key::new("480"));
    assert!(res.is_none());
    let res = level.key_overlap(&Key::new("120"), &Key::new("280")).unwrap();
    let metas = res.0;
    assert_eq!(metas.len(), 2);
    assert_eq!(metas.get(1).unwrap().last_key(), Key::new("299"));
    assert_eq!(res.1, 0);
    let res = level.key_overlap(&Key::new("090"), &Key::new("380")).unwrap().0;
    assert_eq!(res.len(), 3);
    let res = level.key_overlap(&Key::new("199"), &Key::new("280")).unwrap().0;
    assert_eq!(res.len(), 2);
    let res = level.key_overlap(&Key::new("200"), &Key::new("305")).unwrap();
    assert_eq!(res.0.len(), 2);
    assert_eq!(res.1, 1);
    let res = level.key_overlap(&Key::new("199"), &Key::new("305")).unwrap().0;
    assert_eq!(res.len(), 3);
}

#[test]
fn key_overlap_in_a_gap_is_empty() {
    let (level, _) = build_level();
    assert!(level.key_overlap(&Key::new("200"), &Key::new("204")).is_none());
    assert_eq!(level.partition_last_lt(&Key::new("200")), 1);
}

#[test]
fn level_test_get() {
    let (level, store) = build_level();
    assert_eq!(level.get(&Key::new("126"), &store).unwrap().unwrap().unwrap(), Value::new("126"));
    assert_eq!(level.get(&Key::new("226"), &store).unwrap().unwrap().unwrap(), Value::new("226"));
    assert_eq!(level.get(&Key::new("399"), &store).unwrap().unwrap().unwrap(), Value::new("399"));
    assert!(level.get(&Key::new("303"), &store).unwrap().is_none());
    assert!(level.get(&Key::new("400"), &store).unwrap().is_none());
    assert!(Level::new(vec![]).get(&Key::new("1"), &store).unwrap().is_none());
}

#[test]
fn test_all_file_id() {
    let (level, _) = build_level();
    let ids = level.get_all_file_id();
    assert!(ids.contains(&0));
    assert!(ids.contains(&1));
    assert!(ids.contains(&2));
    assert_eq!(ids.len(), 3);
}

#[test]
fn level_test_compact() {
    let mut store = TableStore::new();
    let mut special = HashMap::new();
    special.insert(109, None);
    special.insert(105, Some(Value::new("X")));
    let a = put(&mut store, table_with_values(100, 110, &special), 0);
    let mut special = HashMap::new();
    special.insert(109, Some(Value::new("Z")));
    special.insert(113, Some(Value::new("Z")));
    let b = put(&mut store, table_with_values(108, 115, &special), 1);
    let c = put(&mut store, table(105, 108), 2);
    let mut special = HashMap::new();
    special.insert(112, Some(Value::new("Y")));
    let d = put(&mut store, table_with_values(110, 115, &special), 3);
    let e = put(&mut store, table(122, 124), 4);
    let level = Level::new(vec![c, d, e]);
    let mut files = FileStorageManager::new(5);
    let (res, mut tables) = level.compact_sstable(vec![a, b], false, &store, &mut files).unwrap();
    assert_eq!(res.add_sstables.len(), 1);
    assert_eq!(res.remove_sstables.len(), 2);
    assert_eq!(res.position, 0);
    let (id, t) = tables.pop().unwrap();
    assert_eq!(id, 5);
    let expect = "(key: 100,value: 100)(key: 101,value: 101)(key: 102,value: 102)(key: 103,value: 103)(key: 104,value: 104)(key: 105,value: X)(key: 106,value: 106)(key: 107,value: 107)(key: 108,value: 108)(key: 109,value: None)(key: 110,value: 110)(key: 111,value: 111)(key: 112,value: 112)(key: 113,value: Z)(key: 114,value: 114)";
    assert_eq!(show(&t), expect);
}

#[test]
fn compaction_into_deepest_level_drops_tombstones() {
    let mut store = TableStore::new();
    let mut special = HashMap::new();
    special.insert(103, None);
    let a = put(&mut store, table_with_values(100, 106, &special), 0);
    let c = put(&mut store, table(104, 108), 1);
    let level = Level::new(vec![c]);
    let mut files = FileStorageManager::new(2);
    let (_, tables) = level.compact_sstable(vec![a], true, &store, &mut files).unwrap();
    let t = &tables[0].1;
    assert!(t.iter().unwrap().iter().all(|e| e.1.is_some()));
    assert!(t.get(&Key::new("103")).unwrap().is_none());
    assert_eq!(t.iter().unwrap().len(), 7);
}

#[test]
fn test_write_memtable_to_sstable() {
    let mut memtable = lsm_db::memtable::Memtable::new();
    for i in 0..10 {
        memtable.insert(&Key::from(i.to_string().as_bytes()), &Value::new(&i.to_string()));
    }
    let version = Version::new(Config::new());
    let mut files = FileStorageManager::new(0);
    let (c, id, t) = version.add_memtable_to_level_0(&memtable, &mut files).unwrap().unwrap();
    assert_eq!(id, 0);
    assert!(matches!(c, LevelChange::MemtableCompact { .. }));
    assert_eq!(show(&t), "(key: 0,value: 0)(key: 1,value: 1)(key: 2,value: 2)(key: 3,value: 3)(key: 4,value: 4)(key: 5,value: 5)(key: 6,value: 6)(key: 7,value: 7)(key: 8,value: 8)(key: 9,value: 9)");
}

// level 0: sstable_a[12,18),sstable_b[15,20)
// level 1:sstable_c[11,15),sstable_d[17,21)
fn build_version() -> (Version, TableStore, Vec<LevelChange>) {
    let mut store = TableStore::new();
    let c_meta = put(&mut store, table(11, 15), 0);
    let d_meta = put(&mut store, table(17, 21), 1);
    let mut map = HashMap::new();
    map.insert(16, Some(Value::new("b")));
    map.insert(18, Some(Value::new("b")));
    let b_meta = put(&mut store, table_with_values(15, 20, &map), 2);
    let mut map = HashMap::new();
    map.insert(16, Some(Value::new("a")));
    let a_meta = put(&mut store, table_with_values(12, 18, &map), 3);
    let changes = vec![
        LevelChange::MemtableCompact { sstable_file_metas: b_meta },
        LevelChange::MemtableCompact { sstable_file_metas: a_meta },
        LevelChange::MemtableCompact { sstable_file_metas: c_meta.clone() },
        LevelChange::MemtableCompact { sstable_file_metas: d_meta.clone() },
        LevelChange::LevelCompact {
            compact_from_level: 0,
            compact_sstable: c_meta.clone(),
            compact_result: CompactSStableResult { remove_sstables: vec![], add_sstables: vec![c_meta], position: 0 },
        },
        LevelChange::LevelCompact {
            compact_from_level: 0,
            compact_sstable: d_meta.clone(),
            compact_result: CompactSStableResult { remove_sstables: vec![], add_sstables: vec![d_meta], position: 1 },
        },
    ];
    let version = Version::from(&changes, Config::new()).unwrap();
    (version, store, changes)
}

#[test]
fn version_test_get() {
    let (version, store, _) = build_version();
    assert!(version.check_consistent(&store));
    let res = version.get(&Key::new("0"), &store).unwrap();
    assert!(res.is_none());
    let res = version.get(&Key::new("99"), &store).unwrap();
    assert!(res.is_none());
    let res = version.get(&Key::new("16"), &store).unwrap();
    assert_eq!(res, Some(Value::new("a")));
    let res = version.get(&Key::new("18"), &store).unwrap();
    assert_eq!(res, Some(Value::new("b")));
    let res = version.get(&Key::new("19"), &store).unwrap();
    assert_eq!(res, Some(Value::new("19")))
}

#[test]
fn test_depth() {
    let (version, _, _) = build_version();
    assert_eq!(version.depth(), 2);
    let empty_version = Version::from(&vec![], Config::new()).unwrap();
    assert_eq!(empty_version.depth(), 0);
}

#[test]
fn replay_matches_step_by_step_apply() {
    let (replayed, _, changes) = build_version();
    let mut v = Version::new(Config::new());
    for c in &changes {
        assert!(v.can_apply(c));
        v = v.apply_change(c);
    }
    assert_eq!(v.depth(), replayed.depth());
    let mut a = v.all_file_ids();
    let mut b = replayed.all_file_ids();
    a.sort();
    b.sort();
    assert_eq!(a, b);
    assert_eq!(a, vec![0, 1, 2, 3]);
}

#[test]
fn inapplicable_change_is_corruption() {
    let meta = SStableFileMeta::new(Key::new("a"), Key::new("b"), 7);
    let bad = LevelChange::LevelCompact {
        compact_from_level: 0,
        compact_sstable: meta,
        compact_result: CompactSStableResult { remove_sstables: vec![], add_sstables: vec![], position: 3 },
    };
    assert_eq!(Version::from(&vec![bad], Config::new()).err(), Some(lsm_db::common::MyError::Corruption));
}

#[test]
fn reclaimer_deletes_each_file_once() {
    let mut r = FileReclaimer::new();
    r.increment(&vec![1, 2]);
    r.increment(&vec![2, 3]);
    assert_eq!(r.decrement(&vec![1, 2]), vec![1]);
    assert_eq!(r.decrement(&vec![2, 3]), vec![2, 3]);
    assert!(r.decrement(&vec![2, 3]).is_empty());
}

#[test]
fn file_ids_increase() {
    let mut f = FileStorageManager::from(&vec![3, 9, 4]);
    assert_eq!(f.new_file().unwrap(), 10);
    assert_eq!(f.new_file().unwrap(), 11);
    let mut last = FileStorageManager::new(u64::MAX);
    assert!(last.new_file().is_err());
}

#[test]
fn test_get_in_level_0() {
    // a:[11,20) b[15,25) c[26,30)
    let mut store = TableStore::new();
    let mut map = HashMap::new();
    map.insert(16, Some(Value::new("a")));
    let a = put(&mut store, table_with_values(11, 20, &map), 0);
    let b = put(&mut store, table(15, 25), 1);
    let c = put(&mut store, table(26, 30), 2);
    let level = Level::new(vec![a, b, c]);
    let res = level.get_in_level_0(&Key::new("12"), &store).unwrap();
    assert_eq!(res, Some(Some(Value::new("12"))));
    let res = level.get_in_level_0(&Key::new("16"), &store).unwrap();
    assert_eq!(res, Some(Some(Value::new("a"))));
    let res = level.get_in_level_0(&Key::new("19"), &store).unwrap();
    assert_eq!(res, Some(Some(Value::new("19"))));
    let res = level.get_in_level_0(&Key::new("29"), &store).unwrap();
    assert_eq!(res, Some(Some(Value::new("29"))));
    let res = level.get_in_level_0(&Key::new("1"), &store).unwrap();
    assert!(res.is_none());
}

#[test]
fn test_stable_last_key_start_key() {
    let sstable = table(100, 200);
    assert_eq!(sstable.last_key(), Key::new("199"));
    assert_eq!(sstable.start_key(), Key::new("100"));
}

#[test]
fn test_stable_meta_last_key() {
    let data: Vec<KVIterItem> =
        (1..10).step_by(2).map(|i| (Key::new(&i.to_string()), Some(Value::new(&i.to_string())))).collect();
    let sstable_1 = SSTable::from_iter(&data, 0).0.unwrap();
    assert_eq!(sstable_1.block_metadata().last_key(), Key::new("9"));
    assert_eq!(sstable_1.block_metadata().first_key(), Key::new("1"));
}

#[test]
fn test_build_sstable() {
    let number = 100;
    let mut keys: Vec<String> = (0..number).map(|i: i32| i.to_string()).collect();
    keys.sort();
    let data: Vec<KVIterItem> = keys.iter().map(|k| (Key::new(k), Some(Value::new(k)))).collect();
    let sstable = SSTable::from_iter(&data, 0).0.unwrap();
    for i in 0..number {
        assert_eq!(sstable.get(&Key::new(&i.to_string())).unwrap().unwrap().unwrap(), Value::new(&i.to_string()));
    }
}

#[test]
fn test_create_file() {
    let mut manager = FileStorageManager::new(0);
    assert_eq!(manager.new_file().unwrap(), 0);
    assert_eq!(manager.new_file().unwrap(), 1);
}

#[test]
fn test_build_manager_from_exiting_dir() {
    let mut manager = FileStorageManager::from(&vec![0, 1, 2]);
    assert_eq!(manager.new_file().unwrap(), 3);
    let mut empty = FileStorageManager::from(&vec![]);
    assert_eq!(empty.new_file().unwrap(), 1);
}

#[test]
fn test_add_memtable() {
    let (version, mut store, _) = build_version();
    let mut memtable = lsm_db::memtable::Memtable::new();
    memtable.insert(&Key::new("12"), &Value::new("mem"));
    memtable.insert(&Key::new("7"), &Value::new("mem"));
    let mut files = FileStorageManager::new(4);
    let (c, id, t) = version.add_memtable_to_level_0(&memtable, &mut files).unwrap().unwrap();
    store.insert(id, t);
    let new_version = version.apply_change(&c);
    assert!(new_version.check_consistent(&store));
    assert_eq!(version.get(&Key::new("17"), &store).unwrap(), Some(Value::new("17")));
    assert_eq!(new_version.get(&Key::new("12"), &store).unwrap(), Some(Value::new("mem")));
    assert_eq!(new_version.get(&Key::new("7"), &store).unwrap(), Some(Value::new("mem")));
}

#[test]
fn test_compact_sstable() {
    let (version_0, mut store, _) = build_version();
    assert_eq!(version_0.get(&Key::new("18"), &store).unwrap().unwrap(), Value::new("b"));
    assert_eq!(version_0.get(&Key::new("16"), &store).unwrap().unwrap(), Value::new("a"));
    let mut config = Config::new();
    config.level_0_file_limit = 1;
    config.level_size_expand_factor = 1;
    let mut version_0 = version_0;
    version_0.set_config(config);
    let mut files = FileStorageManager::new(4);
    let (c, tables) = version_0.compact_one_level(&store, &mut files).unwrap().unwrap();
    for (id, t) in tables {
        store.insert(id, t);
    }
    let version_1 = version_0.apply_change(&c);
    assert!(version_1.check_consistent(&store));
    assert_eq!(version_1.level_file_ids(0), vec![3]);
    assert_eq!(version_1.level_file_ids(1), vec![0, 4]);
    assert_eq!(version_1.get(&Key::new("16"), &store).unwrap().unwrap(), Value::new("a"));
    let (c, tables) = version_1.compact_one_level(&store, &mut files).unwrap().unwrap();
    for (id, t) in tables {
        store.insert(id, t);
    }
    let version_2 = version_1.apply_change(&c);
    assert!(version_2.check_consistent(&store));
    assert_eq!(version_2.level_file_ids(0), vec![3]);
    assert_eq!(version_2.level_file_ids(1), vec![4]);
    assert_eq!(version_2.level_len(2), 1);
    for k in 11..21 {
        let expect = match k {
            16 => Value::new("a"),
            18 => Value::new("b"),
            _ => Value::new(&k.to_string()),
        };
        assert_eq!(version_2.get(&Key::new(&k.to_string()), &store).unwrap().unwrap(), expect);
    }
}
