use lsm::memtable::Memtable;
use lsm::sstable::ToBytes;

#[test]
fn put_and_get() {
    let mut m: Memtable<String, String> = Memtable::new(10);

    let key = "Thanas".to_string();
    let value = "Papa".to_string();

    m.put(key.clone(), value.clone());

    let returned = m.get(&key);

    assert_eq!(returned, Some(Some(value)).as_ref());
}

#[test]
fn put_wrong_and_get() {
    let mut m: Memtable<String, String> = Memtable::new(10);

    let key = "Thanas".to_string();
    let wrong_key = "Thanas2".to_string();
    let value = "Papa".to_string();

    m.put(key, value.clone());

    let returned = m.get(&wrong_key);

    assert_ne!(returned, Some(Some(value)).as_ref());
    assert_eq!(returned, None);
}

#[test]
fn put_and_rm_and_get() {
    let mut m: Memtable<String, String> = Memtable::new(10);

    let key = "Thanas".to_string();
    let value = "Papa".to_string();

    m.put(key.clone(), value);
    m.delete(key.clone());

    match m.get(&key).expect("Value could not be found") {
        Some(_) => panic!("Value should have not been found because it was deleted"),
        _ => {}
    };
}

#[test]
fn put_returns_replaced_value() {
    let mut m: Memtable<usize, usize> = Memtable::new(10);
    assert_eq!(m.put(1, 10), None);
    assert_eq!(m.put(1, 11), Some(10));
    assert_eq!(m.delete(1), Some(11));
    assert_eq!(m.delete(1), None);
    assert_eq!(m.put(1, 12), None);
    assert_eq!(m.get(&1), Some(&Some(12)));
}

#[test]
fn len_is_empty_and_clear() {
    let mut m: Memtable<usize, usize> = Memtable::new(3);
    assert!(m.is_empty());
    m.put(5, 50);
    m.delete(6);
    m.put(5, 51);
    assert_eq!(m.len(), 2);
    assert!(!m.is_empty());
    m.clear();
    assert_eq!(m.len(), 0);
    assert_eq!(m.get(&5), None);
    assert_eq!(m.max_size, 3);
}

#[test]
fn entries_in_key_order() {
    let mut m: Memtable<usize, usize> = Memtable::new(10);
    m.put(30, 3);
    m.put(10, 1);
    m.delete(20);
    let entries = m.entries();
    let keys: Vec<usize> = entries.iter().map(|(k, _)| **k).collect();
    assert_eq!(keys, vec![10, 20, 30]);
    assert_eq!(*entries[1].1, None);
    assert_eq!(*entries[2].1, Some(3));
}

fn wal_bytes(writes: &[(usize, Option<usize>)]) -> Vec<u8> {
    let mut log = Vec::new();
    for (k, v) in writes {
        log.extend(lsm::lsm::wal_entry(k, v.as_ref()));
    }
    log
}

#[test]
fn from_wal_replays_writes_in_order() {
    let log = wal_bytes(&[(1, Some(100)), (2, Some(200)), (1, None), (3, Some(300)), (2, Some(201))]);
    let m: Memtable<usize, usize> = Memtable::from_wal(log, 7);
    assert_eq!(m.max_size, 7);
    assert_eq!(m.len(), 3);
    assert_eq!(m.get(&1), Some(&None));
    assert_eq!(m.get(&2), Some(&Some(201)));
    assert_eq!(m.get(&3), Some(&Some(300)));
}

#[test]
fn from_wal_drops_a_write_cut_short() {
    let mut log = wal_bytes(&[(1, Some(100)), (2, Some(200))]);
    log.truncate(log.len() - 3);
    let m: Memtable<usize, usize> = Memtable::from_wal(log, 7);
    assert_eq!(m.len(), 1);
    assert_eq!(m.get(&1), Some(&Some(100)));
    assert_eq!(m.get(&2), None);
}

#[test]
fn wal_entry_layout() {
    let bytes = lsm::lsm::wal_entry(&"ab".to_string(), Some(&"xyz".to_string()));
    let mut expected = vec![2, 0, 0, 0, 0, 0, 0, 0, b'a', b'b'];
    expected.extend([3, 0, 0, 0, 0, 0, 0, 0, b'x', b'y', b'z']);
    assert_eq!(bytes, expected);
    let tomb = lsm::lsm::wal_entry::<usize, usize>(&7, None);
    assert_eq!(tomb, vec![8, 0, 0, 0, 0, 0, 0, 0, 7, 0, 0, 0, 0, 0, 0, 0, 0, 0, 0, 0, 0, 0, 0, 0]);
}

#[test]
fn usize_and_string_bytes() {
    assert_eq!(5usize.serialize(), vec![5, 0, 0, 0, 0, 0, 0, 0]);
    assert_eq!(5usize.bytes_len(), 8);
    assert_eq!(usize::deserialize(&[1, 1, 0, 0, 0, 0, 0, 0]), 257);
    assert!(usize::is_deserializable(&[0; 8]));
    assert!(!usize::is_deserializable(&[0; 7]));
    let s = "héllo".to_string();
    assert_eq!(s.serialize(), "héllo".as_bytes().to_vec());
    assert_eq!(s.bytes_len(), 6);
    assert_eq!(String::deserialize("héllo".as_bytes()), s);
    assert_eq!(String::deserialize(&[0x66, 0xff, 0x6f]), "f\u{fffd}o".to_string());
}
