use lsm::traits::{Decode, Encode, SSTableError};

#[test]
fn numbers_encode_little_endian() {
    let mut buf = Vec::new();
    7u32.encode_into(&mut buf);
    0x0102030405060708u64.encode_into(&mut buf);
    (-2i32).encode_into(&mut buf);
    9usize.encode_into(&mut buf);
    assert_eq!(
        buf,
        vec![7, 0, 0, 0, 8, 7, 6, 5, 4, 3, 2, 1, 0xfe, 0xff, 0xff, 0xff, 9, 0, 0, 0, 0, 0, 0, 0]
    );
    assert_eq!(7u32.encode_len(), 4);
    assert_eq!(1u64.encode_len(), 8);
    assert_eq!((-2i32).encode_len(), 4);
    assert_eq!(9usize.encode_len(), 8);
}

#[test]
fn str_encodes_its_bytes() {
    let mut buf = Vec::new();
    "añb".encode_into(&mut buf);
    assert_eq!(buf, "añb".as_bytes().to_vec());
    assert_eq!("añb".encode_len(), 4);
}

#[test]
fn numbers_decode_and_advance() {
    let bytes = vec![7u8, 0, 0, 0, 8, 7, 6, 5, 4, 3, 2, 1, 0xfe, 0xff, 0xff, 0xff, 9, 0, 0, 0, 0, 0, 0, 0, 42];
    let mut buf: &[u8] = &bytes;
    assert_eq!(u32::decode_from(&mut buf).unwrap(), 7);
    assert_eq!(u64::decode_from(&mut buf).unwrap(), 0x0102030405060708);
    assert_eq!(i32::decode_from(&mut buf).unwrap(), -2);
    assert_eq!(usize::decode_from(&mut buf).unwrap(), 9);
    assert_eq!(buf, &[42u8][..]);
}

#[test]
fn string_decodes_with_length_prefix() {
    let mut bytes = vec![3u8, 0, 0, 0, 0, 0, 0, 0];
    bytes.extend(b"abcXY");
    let mut buf: &[u8] = &bytes;
    assert_eq!(String::decode_from(&mut buf).unwrap(), "abc".to_string());
    assert_eq!(buf, b"XY");
}

#[test]
fn string_decode_rejects_invalid_utf8() {
    let bytes = vec![2u8, 0, 0, 0, 0, 0, 0, 0, 0xff, 0xfe];
    let mut buf: &[u8] = &bytes;
    assert_eq!(String::decode_from(&mut buf).err().map(|e| e == SSTableError::CorruptData), Some(true));
}
