use lsm::wal::{WalError, WalReader, frame_record};

#[test]
fn append_and_read_data() {
    let data: Vec<Vec<u8>> = vec![vec![0, 1, 1, 0], vec![1, 0, 0, 1]];
    let mut log = Vec::new();
    for d in &data {
        log.extend(frame_record(d));
    }
    let mut reader = WalReader::from_bytes(log);
    for d in &data {
        let got = reader.next().expect("Wal Iterator returned None").unwrap();
        assert_eq!(&got, d, "Data {:?} is not the same as in wal {:?}", d, got);
    }
    assert!(reader.next().is_none());
}

#[test]
fn empty_and_binary_records() {
    let data: Vec<Vec<u8>> = vec![b"first".to_vec(), Vec::new(), vec![0u8, 1, 2, 255]];
    let mut log = Vec::new();
    for d in &data {
        log.extend(frame_record(d));
    }
    let mut reader = WalReader::from_bytes(log);
    for d in &data {
        assert_eq!(reader.next(), Some(Ok(d.clone())));
    }
    assert_eq!(reader.next(), None);
}

#[test]
fn record_framing() {
    assert_eq!(frame_record(b"ab"), vec![2, 0, 0, 0, b'a', b'b']);
    assert_eq!(frame_record(&[]), vec![0, 0, 0, 0]);
}

#[test]
fn truncated_record() {
    let mut log = frame_record(b"hello");
    log.truncate(6);
    let mut reader = WalReader::from_bytes(log);
    assert_eq!(reader.next(), Some(Err(WalError::UnexpectedEof)));
    assert_eq!(reader.next(), None);
}

#[test]
fn short_tail_ends_the_log() {
    let mut log = frame_record(b"x");
    log.extend([1u8, 2]);
    let mut reader = WalReader::from_bytes(log);
    assert_eq!(reader.next(), Some(Ok(b"x".to_vec())));
    assert_eq!(reader.next(), None);
}

#[test]
fn wal_record_reads_key_then_value() {
    let mut data = Vec::new();
    lsm::traits::Encode::encode_into(&5usize, &mut data);
    lsm::traits::Encode::encode_into(&7u32, &mut data);
    let r: Result<(usize, u32), lsm::traits::SSTableError> = lsm::wal::decode_wal_record(&data);
    assert_eq!(r.ok(), Some((5, 7)));
}

#[test]
fn wal_record_with_bad_value() {
    let mut data = Vec::new();
    lsm::traits::Encode::encode_into(&5usize, &mut data);
    data.extend([1u8, 0, 0, 0, 0, 0, 0, 0, 0xff]);
    let r: Result<(usize, String), lsm::traits::SSTableError> = lsm::wal::decode_wal_record(&data);
    assert_eq!(r.err(), Some(lsm::traits::SSTableError::CorruptData));
}
