use lsm_db::block::{Block, BlockBuilder, BlockMeta};
use lsm_db::common::KVIterItem;
use lsm_db::key::Key;
use lsm_db::log::{encode_wal_record, frame_record, read_records, replay_wal};
use lsm_db::memtable::Memtable;
use lsm_db::merge::SortedKVIter;
use lsm_db::sstable::SSTable;
use lsm_db::value::Value;
use std::str::from_utf8;

// true if is deleted
fn create_block(input: &Vec<(u32, bool)>) -> Block {
    let mut b_builder = BlockBuilder::new();
    let mut content: Vec<u8> = Vec::new();
    for (number, is_deleted) in input {
        let number_string = number.to_string();
        let value = if *is_deleted { None } else { Some(Value::new(&number_string)) };
        b_builder.append(&Key::new(&number_string), &value);
    }
    b_builder.flush(&mut content);
    assert_eq!(b_builder.len(), 0);
    let size = content.len();
    Block::new(content, size)
}

fn items(start: usize, end: usize) -> Vec<KVIterItem> {
    let mut keys: Vec<String> = (start..end).map(|i| format!("{:06}", i)).collect();
    keys.sort();
    keys.iter().map(|k| (Key::new(k), Some(Value::new(k)))).collect()
}

#[test]
fn test_block_builder_and_read() {
    let data = vec![(1, false), (2, false), (3, true), (6, false), (7, false)];
    let block = create_block(&data);
    let number = data.len();
    for (key, is_deleted) in data.iter() {
        let res = block.find(&Key::new(&key.to_string()), number).unwrap();
        if *is_deleted {
            assert!(res.unwrap().is_none());
        } else {
            assert_eq!(res.unwrap().unwrap(), Value::new(&key.to_string()))
        }
    }
}

#[test]
fn test_block_meta_builder_and_read() {
    let mut content = Vec::new();
    let b1 = BlockMeta::new(Key::new("a"), Key::new("x"), 10, 1, 0);
    let b2 = BlockMeta::new(Key::new("a"), Key::new("b"), 5, 2, 100);
    b1.write_to_binary(&mut content);
    b2.write_to_binary(&mut content);
    let block_metas = BlockMeta::build_block_metas(&content, 0, 2).unwrap().0;
    assert_eq!(block_metas[0].start_key(), &Key::new("a"));
    assert_eq!(block_metas[0].last_key(), &Key::new("x"));
    assert_eq!(block_metas[0].entry_size(), 10);
    assert_eq!(block_metas[0].size(), 1);
    assert_eq!(block_metas[0].block_offset(), 0);
    assert_eq!(block_metas[1].start_key(), &Key::new("a"));
    assert_eq!(block_metas[1].last_key(), &Key::new("b"));
    assert_eq!(block_metas[1].size(), 2);
    assert_eq!(block_metas[1].block_offset(), 100);
    assert_eq!(block_metas[1].entry_size(), 5);
}

#[test]
fn test_block_iter() {
    let data = vec![(1, false), (2, false), (3, true), (6, false), (7, false)];
    let block = create_block(&data);
    let mut res = Vec::new();
    for (key, value) in block.into_iter().unwrap() {
        if value.is_some() {
            assert_eq!(key.data(), value.unwrap().data());
            res.push((key, false));
        } else {
            res.push((key, true));
        }
    }
    for (i, key) in data.iter().enumerate() {
        assert_eq!(res[i].0.data(), key.0.to_string().as_bytes())
    }
}

#[test]
fn block_entry_bytes_are_little_endian() {
    let mut b = BlockBuilder::new();
    b.append(&Key::new("ab"), &Some(Value::new("xyz")));
    b.append(&Key::new("c"), &None);
    let mut out = Vec::new();
    b.flush(&mut out);
    assert_eq!(out, vec![2, 0, b'a', b'b', 3, 0, b'x', b'y', b'z', 1, 0, b'c', 0, 0]);
}

#[test]
fn truncated_block_is_corrupt() {
    let block = Block::new(vec![5, 0, b'a'], 3);
    assert!(block.into_iter().is_err());
}

#[test]
fn test_sorted_kv_iter() {
    let mk = |v: &[(&str, &str)]| -> Vec<KVIterItem> {
        v.iter().map(|(k, x)| (Key::new(k), Some(Value::new(x)))).collect()
    };
    let a = mk(&[("a", "a1"), ("b", "b1"), ("c", "c1"), ("f", "f1")]);
    let b = mk(&[("a", "a2"), ("b", "b2"), ("e", "e2")]);
    let c = mk(&[("b", "b3"), ("d", "d3"), ("e", "e3")]);
    let mut kv_iter = SortedKVIter::new(vec![a, b, c]);
    let mut s = String::new();
    while let Some((_, value)) = kv_iter.next() {
        s.push_str(from_utf8(value.unwrap().data()).unwrap());
    }
    assert_eq!(s, "a1b1c1d3e2f1");
}

#[test]
fn test_sorted_kv_iter_top() {
    let a = vec![(Key::new("a"), Some(Value::new("a1"))), (Key::new("b"), Some(Value::new("b1")))];
    let mut kv_iter = SortedKVIter::new(vec![a]);
    kv_iter.next();
    assert!(kv_iter.has_next());
    kv_iter.next();
    assert!(!kv_iter.has_next());
}

#[test]
fn test_memtable_get_set_delete() {
    let mut memtable = Memtable::new();
    memtable.insert(&Key::new("a"), &Value::new("a"));
    memtable.insert(&Key::new("b"), &Value::new("b"));
    memtable.insert(&Key::new("c"), &Value::new("c"));
    assert_eq!(memtable.get(&Key::new("a")).unwrap().unwrap(), Value::new("a"));
    assert_eq!(memtable.get(&Key::new("b")).unwrap().unwrap(), Value::new("b"));
    memtable.insert(&Key::new("a"), &Value::new("aa"));
    assert_eq!(memtable.get(&Key::new("a")).unwrap().unwrap(), Value::new("aa"));
    assert_eq!(memtable.delete(&Key::new("c")).unwrap(), Value::new("c"));
    assert!(memtable.get(&Key::new("c")).unwrap().is_none());
}

#[test]
fn test_memtable_iter() {
    let mut memtable = Memtable::new();
    memtable.insert(&Key::new("a"), &Value::new("a"));
    memtable.insert(&Key::new("c"), &Value::new("c"));
    memtable.insert(&Key::new("b"), &Value::new("b"));
    let mut it = memtable.iter();
    assert!(it.has_next());
    let mut s = String::new();
    while it.has_next() {
        let i = it.next().unwrap();
        s.push_str(&i.0.to_string())
    }
    assert_eq!(s, "abc");
}

#[test]
fn table_round_trip_in_order() {
    let kv = items(0, 2000);
    let (t, more, next) = SSTable::from_iter_with_file_limit(&kv, 0, 0);
    assert!(!more);
    assert_eq!(next, kv.len());
    let t = t.unwrap();
    let back = t.iter().unwrap();
    assert_eq!(back.len(), kv.len());
    for (a, b) in back.iter().zip(kv.iter()) {
        assert_eq!(a.0, b.0);
        assert_eq!(a.1, b.1);
    }
    assert!(t.block_metadata().len() > 1);
    assert_eq!(t.entry_number(), 2000);
}

#[test]
fn table_lookup_at_block_boundaries() {
    let kv = items(0, 2000);
    let (t, _, _) = SSTable::from_iter_with_file_limit(&kv, 0, 0);
    let t = t.unwrap();
    let metas = t.block_metadata();
    assert!(metas.len() > 1);
    // each block's last key resolves in that block
    for i in 0..2000 {
        let k = format!("{:06}", i);
        assert_eq!(t.get(&Key::new(&k)).unwrap().unwrap().unwrap(), Value::new(&k));
    }
    assert!(t.get(&Key::new("999999")).unwrap().is_none());
    assert!(t.get(&Key::new("0000005")).unwrap().is_none());
    assert_eq!(t.start_key(), Key::new("000000"));
    assert_eq!(t.last_key(), Key::new("001999"));
}

#[test]
fn table_size_limit_splits_input() {
    let kv = items(0, 2000);
    let (t, more, next) = SSTable::from_iter_with_file_limit(&kv, 0, 5000);
    assert!(more);
    assert!(next < kv.len());
    let t = t.unwrap();
    assert_eq!(t.iter().unwrap().len(), next);
    let (none, more2, same) = SSTable::from_iter_with_file_limit(&kv, kv.len(), 5000);
    assert!(none.is_none() && !more2 && same == kv.len());
}

#[test]
fn wal_replay_stops_at_cut_record() {
    let mut log = Vec::new();
    log.extend(encode_wal_record(&Key::new("a"), &Some(Value::new("1"))));
    log.extend(encode_wal_record(&Key::new("b"), &None));
    let full = encode_wal_record(&Key::new("c"), &Some(Value::new("3")));
    log.extend(&full[..full.len() - 1]);
    let back = replay_wal(&log);
    assert_eq!(back.len(), 2);
    assert_eq!(back[0].0, Key::new("a"));
    assert_eq!(back[0].1, Some(Value::new("1")));
    assert_eq!(back[1].0, Key::new("b"));
    assert!(back[1].1.is_none());
}

#[test]
fn manifest_frames_round_trip() {
    let mut log = Vec::new();
    log.extend(frame_record(b"first"));
    log.extend(frame_record(b""));
    log.extend(frame_record(b"third"));
    assert_eq!(&log[0..8], &[5, 0, 0, 0, 0, 0, 0, 0]);
    let back = read_records(&log).unwrap();
    assert_eq!(back, vec![b"first".to_vec(), b"".to_vec(), b"third".to_vec()]);
    let cut = &log[..log.len() - 2];
    assert_eq!(read_records(cut), Err(lsm_db::common::MyError::Corruption));
    assert_eq!(read_records(&log[..3]), Err(lsm_db::common::MyError::Corruption));
}

#[test]
fn table_file_loads_back() {
    let kv = items(0, 700);
    let (t, _, _) = SSTable::from_iter_with_file_limit(&kv, 0, 0);
    let t = t.unwrap();
    let loaded = SSTable::from_file(t.data()).unwrap();
    assert_eq!(loaded.data(), t.data());
    assert_eq!(loaded.iter().unwrap().len(), 700);
    let mut broken = t.data().to_vec();
    let n = broken.len();
    broken[n - 1] ^= 0xff;
    assert!(SSTable::from_file(&broken).is_err());
}
