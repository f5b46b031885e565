use redis_core::store::Store;

#[test]
fn get_of_an_absent_key_finds_nothing() {
    let mut store = Store::new();
    assert_eq!(store.get(b"k", 0), None);
}

#[test]
fn get_returns_what_was_set() {
    let mut store = Store::new();
    store.set(b"k".to_vec(), b"v".to_vec(), None, 5);
    assert_eq!(store.get(b"k", 5), Some(b"v".to_vec()));
    assert_eq!(store.get(b"k", 0), Some(b"v".to_vec()));
    assert_eq!(store.get(b"k", u64::MAX), Some(b"v".to_vec()));
}

#[test]
fn bytes_are_stored_as_they_are() {
    let mut store = Store::new();
    let value: Vec<u8> = (0u8..=255).collect();
    store.set(vec![0, 13, 10, 255], value.clone(), None, 0);
    assert_eq!(store.get(&[0, 13, 10, 255], 1), Some(value));
    assert_eq!(store.get(&[0, 13, 10], 1), None);
}

#[test]
fn set_replaces_what_was_there() {
    let mut store = Store::new();
    store.set(b"k".to_vec(), b"one".to_vec(), None, 0);
    store.set(b"k".to_vec(), b"two".to_vec(), None, 0);
    assert_eq!(store.get(b"k", 0), Some(b"two".to_vec()));
}

#[test]
fn set_replaces_the_expiry_too() {
    let mut store = Store::new();
    store.set(b"k".to_vec(), b"one".to_vec(), Some(10), 0);
    store.set(b"k".to_vec(), b"two".to_vec(), None, 5);
    assert_eq!(store.get(b"k", 1000), Some(b"two".to_vec()));
    store.set(b"k".to_vec(), b"three".to_vec(), Some(10), 1000);
    assert_eq!(store.get(b"k", 1010), Some(b"three".to_vec()));
    assert_eq!(store.get(b"k", 1011), None);
}

#[test]
fn keys_are_kept_apart() {
    let mut store = Store::new();
    store.set(b"a".to_vec(), b"1".to_vec(), None, 0);
    store.set(b"b".to_vec(), b"2".to_vec(), Some(10), 0);
    store.set(b"c".to_vec(), b"3".to_vec(), None, 0);
    store.set(b"A".to_vec(), b"4".to_vec(), None, 0);
    assert_eq!(store.get(b"a", 1), Some(b"1".to_vec()));
    assert_eq!(store.get(b"b", 1), Some(b"2".to_vec()));
    assert_eq!(store.get(b"c", 1), Some(b"3".to_vec()));
    assert_eq!(store.get(b"A", 1), Some(b"4".to_vec()));
    assert_eq!(store.get(b"d", 1), None);
    assert_eq!(store.get(b"", 1), None);
}

#[test]
fn an_entry_is_read_up_to_its_last_millisecond() {
    let mut store = Store::new();
    store.set(b"k".to_vec(), b"v".to_vec(), Some(10), 100);
    assert_eq!(store.get(b"k", 100), Some(b"v".to_vec()));
    assert_eq!(store.get(b"k", 109), Some(b"v".to_vec()));
    assert_eq!(store.get(b"k", 110), Some(b"v".to_vec()));
    assert_eq!(store.get(b"k", 111), None);
}

#[test]
fn an_entry_that_has_ended_is_gone_for_good() {
    let mut store = Store::new();
    store.set(b"k".to_vec(), b"v".to_vec(), Some(10), 100);
    assert_eq!(store.get(b"k", 120), None);
    assert_eq!(store.get(b"k", 105), None);
}

#[test]
fn an_entry_that_ends_at_once_is_read_in_its_millisecond_only() {
    let mut store = Store::new();
    store.set(b"k".to_vec(), b"v".to_vec(), Some(0), 7);
    assert_eq!(store.get(b"k", 7), Some(b"v".to_vec()));
    assert_eq!(store.get(b"k", 8), None);
}

#[test]
fn the_end_of_one_entry_leaves_the_others() {
    let mut store = Store::new();
    store.set(b"a".to_vec(), b"1".to_vec(), None, 0);
    store.set(b"b".to_vec(), b"2".to_vec(), Some(1), 0);
    store.set(b"c".to_vec(), b"3".to_vec(), None, 0);
    store.set(b"d".to_vec(), b"4".to_vec(), Some(1), 0);
    assert_eq!(store.get(b"b", 5), None);
    assert_eq!(store.get(b"a", 5), Some(b"1".to_vec()));
    assert_eq!(store.get(b"c", 5), Some(b"3".to_vec()));
    assert_eq!(store.get(b"d", 5), None);
    assert_eq!(store.get(b"a", 5), Some(b"1".to_vec()));
    assert_eq!(store.get(b"c", 5), Some(b"3".to_vec()));
    store.set(b"b".to_vec(), b"5".to_vec(), None, 6);
    assert_eq!(store.get(b"b", 7), Some(b"5".to_vec()));
}

#[test]
fn an_expiry_past_the_end_of_the_clock_never_comes() {
    let mut store = Store::new();
    store.set(b"k".to_vec(), b"v".to_vec(), Some(u64::MAX), 1);
    assert_eq!(store.get(b"k", u64::MAX), Some(b"v".to_vec()));
    store.set(b"j".to_vec(), b"w".to_vec(), Some(2), u64::MAX - 1);
    assert_eq!(store.get(b"j", u64::MAX), Some(b"w".to_vec()));
}

#[test]
fn many_keys_are_kept_apart() {
    let mut store = Store::new();
    for n in 0u32..2000 {
        let key = format!("key:{}", n).into_bytes();
        let value = format!("value:{}", n).into_bytes();
        let expire = if n % 3 == 0 { Some(10) } else { None };
        store.set(key, value, expire, 100);
    }
    for n in 0u32..2000 {
        let key = format!("key:{}", n).into_bytes();
        let value = format!("value:{}", n).into_bytes();
        assert_eq!(store.get(&key, 110), Some(value));
    }
    for n in 0u32..2000 {
        let key = format!("key:{}", n).into_bytes();
        let value = format!("value:{}", n).into_bytes();
        let expected = if n % 3 == 0 { None } else { Some(value) };
        assert_eq!(store.get(&key, 111), expected);
    }
    for n in 0u32..2000 {
        let key = format!("key:{}", n).into_bytes();
        let value = format!("value:{}", n).into_bytes();
        let expected = if n % 3 == 0 { None } else { Some(value) };
        assert_eq!(store.get(&key, 0), expected);
    }
    assert_eq!(store.get(b"key:2000", 0), None);
}

#[test]
fn a_key_that_ended_can_be_set_again() {
    let mut store = Store::new();
    store.set(b"k".to_vec(), b"one".to_vec(), Some(1), 0);
    assert_eq!(store.get(b"k", 2), None);
    store.set(b"k".to_vec(), b"two".to_vec(), Some(1), 2);
    assert_eq!(store.get(b"k", 3), Some(b"two".to_vec()));
    assert_eq!(store.get(b"k", 4), None);
}

#[test]
fn the_empty_key_is_a_key() {
    let mut store = Store::new();
    store.set(Vec::new(), b"v".to_vec(), None, 0);
    assert_eq!(store.get(b"", 0), Some(b"v".to_vec()));
    assert_eq!(store.get(b"\0", 0), None);
}

#[test]
fn the_empty_value_is_a_value() {
    let mut store = Store::new();
    store.set(b"k".to_vec(), Vec::new(), None, 0);
    assert_eq!(store.get(b"k", 0), Some(Vec::new()));
}
