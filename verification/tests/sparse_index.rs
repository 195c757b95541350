use lsm::sparse_index::SparseIndex;

#[test]
fn get_offset() {
    let mut sparse_index = SparseIndex::new();
    let keys: Vec<usize> = vec![2, 3, 4, 6, 7, 8];
    let offsets: Vec<u64> = vec![1, 2, 3, 4, 5, 6];

    // Put them all
    for (k, v) in keys.into_iter().zip(offsets.into_iter()) {
        sparse_index.add_pair(k, v);
    }

    // simple checks first
    assert_eq!((0, 1), sparse_index.get_offset(&2).unwrap());
    assert_eq!((1, 2), sparse_index.get_offset(&3).unwrap());

    // key is missing checks
    // first
    assert_eq!(None, sparse_index.get_offset(&1));
    // middle
    assert_eq!((2, 3), sparse_index.get_offset(&5).unwrap());
    // last
    assert_eq!((5, 6), sparse_index.get_offset(&8).unwrap());
}

#[test]
fn index_bytes_round_trip() {
    let mut index: SparseIndex<usize> = SparseIndex::new();
    index.add_pair(2, 10);
    index.add_pair(9, 25);
    let buf = index.to_buf();
    let mut expected = vec![2u8, 0, 0, 0, 0, 0, 0, 0];
    expected.extend([8u8, 0, 0, 0, 0, 0, 0, 0, 2, 0, 0, 0, 0, 0, 0, 0]);
    expected.extend([8u8, 0, 0, 0, 0, 0, 0, 0, 9, 0, 0, 0, 0, 0, 0, 0]);
    expected.extend([10u8, 0, 0, 0, 0, 0, 0, 0, 25, 0, 0, 0, 0, 0, 0, 0]);
    assert_eq!(buf, expected);
    let back: SparseIndex<usize> = SparseIndex::from_buf(buf).unwrap();
    assert_eq!(back.len(), 2);
    assert_eq!(back.last_offset(), Some(&25));
    assert_eq!(back.get_offset(&5), Some((0, 10)));
    assert_eq!(back.get_offset(&9), Some((10, 25)));
}

#[test]
fn index_from_bad_bytes() {
    let short: Result<SparseIndex<usize>, lsm::traits::SSTableError> = SparseIndex::from_buf(vec![1, 2]);
    assert_eq!(short.err(), Some(lsm::traits::SSTableError::CorruptData));
    let mut cut = vec![1u8, 0, 0, 0, 0, 0, 0, 0, 8, 0, 0, 0, 0, 0, 0, 0];
    cut.extend([1u8, 2, 3]);
    let cut: Result<SparseIndex<usize>, lsm::traits::SSTableError> = SparseIndex::from_buf(cut);
    assert_eq!(cut.err(), Some(lsm::traits::SSTableError::CorruptData));
}

#[test]
fn index_iterates_blocks_in_order() {
    let mut index: SparseIndex<usize> = SparseIndex::with_capacity(2);
    index.add_pair(3, 7);
    index.add_pair(8, 19);
    assert_eq!(index.block_ranges(), vec![(0, 7), (7, 19)]);
    let mut it = index.into_iter();
    assert_eq!(it.next(), Some((3, (0, 7))));
    assert_eq!(it.next(), Some((8, (7, 19))));
    assert_eq!(it.next(), None);
}

#[test]
fn empty_index() {
    let index: SparseIndex<usize> = SparseIndex::default();
    assert_eq!(index.len(), 0);
    assert_eq!(index.last_offset(), Some(&0));
    assert_eq!(index.get_offset(&1), None);
    assert_eq!(index.to_buf(), vec![0u8; 8]);
}
