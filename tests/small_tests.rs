use lsm_db::config::Config;
use lsm_db::key::{Key, KeySlice};
use lsm_db::rand::Rand;
use lsm_db::skip_list::max_level;
use lsm_db::skip_list_imp::SkipListImp;
use lsm_db::skip_list_imp::max_level as imp_max_level;
use lsm_db::value::{Value, ValueSlice};
use lsm_db::version::Version;
use lsm_db::write_batch::WriteBatch;
use std::cmp::Ordering;

#[test]
fn rand_test() {
    let mut r = Rand::new();
    assert_eq!(r.next(), 705905);
    assert_eq!(r.next(), 1126727116);
    assert_eq!(r.next(), 391848195);
}

#[test]
fn test_key_slice_display() {
    let key = Key::new("123");
    let key_slice = KeySlice::new(key.data());
    assert_eq!(key_slice.to_string(), "123");
}

#[test]
fn test_display() {
    let v = Value::new("123");
    let v_slice = ValueSlice::new(v.data());
    assert_eq!(v_slice.to_string(), "123");
}

#[test]
fn test_key_slice_compare() {
    let a = Key::new("abc");
    let b = Key::new("abd");
    let a_key_slice = KeySlice::new(a.data());
    let b_key_slice = KeySlice::new(b.data());
    assert!(!a_key_slice.eq(&b_key_slice));
    assert_eq!(a_key_slice.cmp(&b_key_slice), Ordering::Less);
    let a = Key::new("abc");
    let b = Key::new("abc");
    let a_key_slice = KeySlice::new(a.data());
    let b_key_slice = KeySlice::new(b.data());
    assert!(a_key_slice.eq(&b_key_slice));
    assert_eq!(a_key_slice.cmp(&b_key_slice), Ordering::Equal);
    let a = Key::new("bc");
    let b = Key::new("abc");
    let a_key_slice = KeySlice::new(a.data());
    let b_key_slice = KeySlice::new(b.data());
    assert!(!a_key_slice.eq(&b_key_slice));
    assert_eq!(a_key_slice.cmp(&b_key_slice), Ordering::Greater);
}

#[test]
fn key_compare_matches_byte_order() {
    assert_eq!(Key::new("abc").compare(&Key::new("abd")), -1);
    assert_eq!(Key::new("b").compare(&Key::new("abc")), 1);
    assert_eq!(Key::new("ab").compare(&Key::new("abc")), -1);
    assert_eq!(Key::new("abc").compare(&Key::new("abc")), 0);
    assert_eq!(Key::from_u32(0).data(), b"0");
    assert_eq!(Key::from_u32(4294967295).data(), b"4294967295");
}

#[test]
fn version_test_compact() {}

#[test]
fn test_level_size_limit() {
    let config = Config::new();
    assert_eq!(Version::level_file_number_limit(0, &config), 4);
    assert_eq!(Version::level_file_number_limit(1, &config), 5);
    assert_eq!(Version::level_file_number_limit(2, &config), 50);
}

#[test]
fn level_size_limit_caps_at_usize_max() {
    let config = Config::new();
    assert_eq!(Version::level_file_number_limit(40, &config), usize::MAX);
}

#[test]
fn skip_list_test_max_level() {
    assert_eq!(max_level(0), 0);
    assert_eq!(max_level(1), 0);
    assert_eq!(max_level(2), 1);
    assert_eq!(max_level(64), 6);
}

#[test]
fn skip_list_imp_test_max_level() {
    assert_eq!(imp_max_level(1), 0);
    assert_eq!(imp_max_level(2), 1);
    assert_eq!(imp_max_level(3), 1);
    assert_eq!(imp_max_level(8), 3);
    assert_eq!(imp_max_level(165525), 16);
}

#[test]
fn test_random_level() {
    let l: SkipListImp<i32, i32> = SkipListImp::new();
    assert_eq!(l.random_level(3, 100), 0);
    assert_eq!(l.random_level(0, 100), 0);
    assert_eq!(l.random_level(256, 100), 4);
}

#[test]
fn test_get_empty() {
    let sk: SkipListImp<i32, i32> = SkipListImp::new();
    assert_eq!(sk.len(), 0);
    assert!(sk.get(3).is_none());
}

#[test]
fn test_one_level_add_get() {
    let mut sk = SkipListImp::new();
    sk.add(1, 1, 0);
    let res = sk.get(1).unwrap();
    assert_eq!(res, 1);
    sk.add(2, 2, 0);
    let res = sk.get(2).unwrap();
    assert_eq!(res, 2);
    // overwrite
    sk.add(2, 3, 0);
    let res = sk.get(2).unwrap();
    assert_eq!(res, 3);
}

#[test]
fn write_batch_size_counts_keys_and_values() {
    let mut b = WriteBatch::new();
    assert_eq!(b.size(), 0);
    b.put(Key::new("ab"), Value::new("xyz"));
    b.delete(Key::new("k"));
    assert_eq!(b.size(), 6);
    assert_eq!(b.to_opertions().len(), 2);
}
