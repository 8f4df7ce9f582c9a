use lsm_db::lru::Lru;

#[test]
fn test_set_and_get() {
    let mut lru: Lru<i32, i32> = Lru::new(10);
    assert!(lru.get(10).is_none());
    lru.set(10, 10);
    assert_eq!(*lru.get(10).unwrap(), 10);
}

#[test]
fn test_lru_evict() {
    let mut lru: Lru<i32, i32> = Lru::new(2);
    lru.set(1, 1);
    lru.set(2, 2);
    lru.set(3, 3);
    assert_eq!(*lru.get(2).unwrap(), 2);
    assert_eq!(*lru.get(3).unwrap(), 3);
    assert!(lru.get(1).is_none());
}

#[test]
fn test_lru_overwrite() {
    let mut lru: Lru<i32, i32> = Lru::new(2);
    lru.set(1, 1);
    assert_eq!(*lru.get(1).unwrap(), 1);
    lru.set(1, 3);
    assert_eq!(*lru.get(1).unwrap(), 3);
}

#[test]
fn test_lru_delete() {
    let mut lru: Lru<i32, i32> = Lru::new(3);
    assert!(lru.delete(3).is_none());
    lru.set(1, 2);
    lru.set(3, 4);
    assert_eq!(lru.delete(1).unwrap(), 2);
    assert!(lru.delete(1).is_none());
    assert_eq!(*lru.get(3).unwrap(), 4)
}

#[test]
fn lru_overwrite_keeps_capacity_room() {
    let mut lru: Lru<u64, u64> = Lru::new(2);
    lru.set(1, 1);
    lru.set(2, 2);
    lru.set(1, 5);
    lru.set(3, 3);
    // 2 was set longest ago once 1 was set again
    assert!(lru.get(2).is_none());
    assert_eq!(*lru.get(1).unwrap(), 5);
    assert_eq!(*lru.get(3).unwrap(), 3);
}
