use resp_kv::store::{Store, StoreError};

#[test]
fn a_new_store_is_empty() {
    let mut store = Store::new();
    assert_eq!(store.get(b"k", 0), None);
}

#[test]
fn get_returns_what_set_wrote() {
    let mut store = Store::new();
    assert_eq!(store.set(b"foo".to_vec(), b"bar".to_vec(), None, 5), Ok(()));
    assert_eq!(store.get(b"foo", 5), Some(b"bar".to_vec()));
    assert_eq!(store.get(b"foo", u64::MAX), Some(b"bar".to_vec()));
    assert_eq!(store.get(b"fo", 5), None);
}

#[test]
fn set_writes_over_the_old_entry() {
    let mut store = Store::new();
    assert_eq!(store.set(b"k".to_vec(), b"1".to_vec(), Some(10), 0), Ok(()));
    assert_eq!(store.set(b"k".to_vec(), b"2".to_vec(), None, 1), Ok(()));
    assert_eq!(store.get(b"k", 1_000_000), Some(b"2".to_vec()));
}

#[test]
fn keys_are_bytes() {
    let mut store = Store::new();
    assert_eq!(store.set(vec![0, 255], vec![1], None, 0), Ok(()));
    assert_eq!(store.set(Vec::new(), vec![2], None, 0), Ok(()));
    assert_eq!(store.get(&[0, 255], 0), Some(vec![1]));
    assert_eq!(store.get(&[], 0), Some(vec![2]));
    assert_eq!(store.get(&[0], 0), None);
}

#[test]
fn an_entry_is_alive_up_to_its_deadline_and_gone_after() {
    let mut store = Store::new();
    assert_eq!(store.set(b"k".to_vec(), b"v".to_vec(), Some(100), 1000), Ok(()));
    assert_eq!(store.get(b"k", 1010), Some(b"v".to_vec()));
    assert_eq!(store.get(b"k", 1100), Some(b"v".to_vec()));
    assert_eq!(store.get(b"k", 1101), None);
    assert_eq!(store.get(b"k", 1010), None);
}

#[test]
fn a_zero_time_to_live_expires_at_the_next_instant() {
    let mut store = Store::new();
    assert_eq!(store.set(b"k".to_vec(), b"v".to_vec(), Some(0), 7), Ok(()));
    assert_eq!(store.get(b"k", 8), None);
}

#[test]
fn a_deadline_that_overflows_is_refused_and_nothing_changes() {
    let mut store = Store::new();
    assert_eq!(store.set(b"k".to_vec(), b"old".to_vec(), None, 0), Ok(()));
    assert_eq!(
        store.set(b"k".to_vec(), b"new".to_vec(), Some(u64::MAX), 1),
        Err(StoreError::Overflow)
    );
    assert_eq!(
        store.set(b"k".to_vec(), b"new".to_vec(), Some(1), u64::MAX),
        Err(StoreError::Overflow)
    );
    assert_eq!(store.get(b"k", 5), Some(b"old".to_vec()));
    assert_eq!(store.set(b"j".to_vec(), b"edge".to_vec(), Some(u64::MAX - 1), 1), Ok(()));
    assert_eq!(store.get(b"j", u64::MAX), Some(b"edge".to_vec()));
}

#[test]
fn sweep_removes_what_has_expired_and_nothing_else() {
    let mut store = Store::new();
    assert_eq!(store.set(b"a".to_vec(), b"1".to_vec(), Some(10), 0), Ok(()));
    assert_eq!(store.set(b"b".to_vec(), b"2".to_vec(), Some(20), 0), Ok(()));
    assert_eq!(store.set(b"c".to_vec(), b"3".to_vec(), None, 0), Ok(()));
    assert_eq!(store.set(b"d".to_vec(), b"4".to_vec(), Some(5), 0), Ok(()));
    store.sweep(15);
    assert_eq!(store.get(b"a", 0), None);
    assert_eq!(store.get(b"d", 0), None);
    assert_eq!(store.get(b"b", 15), Some(b"2".to_vec()));
    assert_eq!(store.get(b"c", 15), Some(b"3".to_vec()));
}

#[test]
fn the_last_set_of_a_key_wins_among_many() {
    let mut store = Store::new();
    for round in 0..5u8 {
        for key in 0..10u8 {
            assert_eq!(store.set(vec![key], vec![round, key], None, round as u64), Ok(()));
        }
    }
    for key in 0..10u8 {
        assert_eq!(store.get(&[key], 100), Some(vec![4, key]));
    }
}
