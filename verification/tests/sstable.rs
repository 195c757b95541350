use std::collections::BTreeMap;

use lsm::sparse_index::SparseIndex;
use lsm::sstable::compaction::TableFiles;
use lsm::sstable::layout::{TableSlots, flatten_slots, parse_name_number};
use lsm::sstable::{Bloom, BuiltTable, SSTable};
use lsm::sstable_entry::SSTableEntry;
use lsm::traits::SSTableError;

fn new_bloom(n: usize) -> Bloom {
    Bloom {
        filter: fastbloom::BloomFilter::with_false_pos(0.01).expected_items(n.max(1)),
    }
}

fn build(map: &BTreeMap<usize, Option<usize>>) -> BuiltTable<usize, usize> {
    let entries: Vec<(&usize, &Option<usize>)> = map.iter().collect();
    SSTable::build(&entries, new_bloom(entries.len())).unwrap()
}

#[test]
fn search() {
    let mut pairs = Vec::new();
    for i in 0..1000 {
        pairs.push((i * 2, i * 2 + 1));
    }

    let mut map = BTreeMap::new();
    for (k, v) in pairs.clone() {
        map.insert(k, Some(v));
    }

    let built = build(&map);
    for (k, v) in pairs.clone() {
        match built.table.get(&built.heap, &k) {
            Ok(result) => match result {
                Some(value) => assert_eq!(v, value.expect("value should have been found")),
                None => panic!("SSTable returned None when it should have returned Some"),
            },
            Err(err) => panic!("{:?}", err),
        }
    }
}

#[test]
fn build_cuts_blocks_of_a_hundred() {
    let mut map = BTreeMap::new();
    for i in 0..250usize {
        map.insert(i, Some(i));
    }
    let built = build(&map);
    let ranges = built.table.block_ranges();
    assert_eq!(ranges.len(), 3);
    assert_eq!(ranges[0].0, 0);
    assert_eq!(ranges[1].0, ranges[0].1);
    assert_eq!(ranges[2].0, ranges[1].1);
    assert_eq!(ranges[2].1 as usize, built.heap.len());
    let block = zstd::decode_all(&built.heap[ranges[1].0 as usize..ranges[1].1 as usize]).unwrap();
    let entry: SSTableEntry<usize, usize> = SSTableEntry::from_buf(block);
    let pairs = entry.into_iter();
    assert_eq!(pairs.len(), 100);
    assert_eq!(pairs[0], (100, Some(100)));
    assert_eq!(pairs[99], (199, Some(199)));
}

#[test]
fn missing_keys_and_tombstones() {
    let mut map = BTreeMap::new();
    map.insert(10usize, Some(1usize));
    map.insert(20, None);
    map.insert(30, Some(3));
    let built = build(&map);
    assert_eq!(built.table.get(&built.heap, &20), Ok(Some(None)));
    assert_eq!(built.table.get(&built.heap, &30), Ok(Some(Some(3))));
    assert_eq!(built.table.get(&built.heap, &5), Ok(None));
    assert_eq!(built.table.get(&built.heap, &25), Ok(None));
}

#[test]
fn get_reports_corrupt_heap() {
    let mut map = BTreeMap::new();
    map.insert(1usize, Some(1usize));
    let built = build(&map);
    assert_eq!(built.table.get(&built.heap[..2], &1), Err(SSTableError::CorruptData));
    let garbage = vec![0u8; built.heap.len()];
    assert_eq!(built.table.get(&garbage, &1), Err(SSTableError::IO));
}

#[test]
fn load_reads_back_a_built_table() {
    let mut map = BTreeMap::new();
    for i in 0..150usize {
        map.insert(i * 3, Some(i));
    }
    let built = build(&map);
    let loaded: SSTable<usize, usize> = SSTable::load(&built.index_file, &built.bloom_file).unwrap();
    assert_eq!(loaded.block_ranges(), built.table.block_ranges());
    assert_eq!(loaded.get(&built.heap, &300), Ok(Some(Some(100))));
    assert_eq!(loaded.get(&built.heap, &301), Ok(None));
}

#[test]
fn load_errors() {
    let mut map = BTreeMap::new();
    map.insert(1usize, Some(1usize));
    let built = build(&map);
    let bad: Result<SSTable<usize, usize>, SSTableError> = SSTable::load(&[1, 2, 3], &built.bloom_file);
    assert_eq!(bad.err(), Some(SSTableError::IO));
    let short_index = zstd::encode_all(&[1u8, 0, 0][..], 3).unwrap();
    let bad: Result<SSTable<usize, usize>, SSTableError> = SSTable::load(&short_index, &built.bloom_file);
    assert_eq!(bad.err(), Some(SSTableError::CorruptData));
    let mut one_key = vec![1u8, 0, 0, 0, 0, 0, 0, 0, 8, 0, 0, 0, 0, 0, 0, 0];
    one_key.extend([5u8, 0, 0, 0, 0, 0, 0, 0]);
    let no_offsets = zstd::encode_all(one_key.as_slice(), 3).unwrap();
    let bad: Result<SSTable<usize, usize>, SSTableError> = SSTable::load(&no_offsets, &built.bloom_file);
    assert_eq!(bad.err(), Some(SSTableError::CorruptData));
    let not_bloom = zstd::encode_all(&[9u8][..], 3).unwrap();
    let bad: Result<SSTable<usize, usize>, SSTableError> = SSTable::load(&built.index_file, &not_bloom);
    assert_eq!(bad.err(), Some(SSTableError::Bloom));
}

#[test]
fn load_index_reads_keys_and_offsets() {
    let mut index: SparseIndex<usize> = SparseIndex::new();
    index.add_pair(4, 17);
    let file = zstd::encode_all(index.to_buf().as_slice(), 3).unwrap();
    let back: SparseIndex<usize> = SSTable::<usize, usize>::load_index(&file).unwrap();
    assert_eq!(back.len(), 1);
    assert_eq!(back.get_offset(&9), Some((0, 17)));
}

#[test]
fn compact_merges_tables_and_drops_tombstones() {
    let mut old = BTreeMap::new();
    for i in 0..120usize {
        old.insert(i, if i % 2 == 0 { Some(i) } else { None });
    }
    let mut newer = BTreeMap::new();
    newer.insert(500usize, Some(5usize));
    newer.insert(501, None);
    let a = build(&old);
    let b = build(&newer);
    let heaps = vec![a.heap.clone(), b.heap.clone()];
    let mut tables = vec![a.table, b.table];
    let files: TableFiles = SSTable::compact(&mut tables, &heaps, new_bloom(3)).unwrap();
    assert_eq!(tables.len(), 1);
    let table = &tables[0];
    // Block one of the old table has 50 values, block two 10, the newer table 1.
    assert_eq!(table.block_ranges().len(), 3);
    for i in 0..120usize {
        let got = table.get(&files.heap, &i).unwrap();
        if i % 2 == 0 {
            assert_eq!(got, Some(Some(i)));
        } else {
            assert_eq!(got, None);
        }
    }
    assert_eq!(table.get(&files.heap, &500), Ok(Some(Some(5))));
    let loaded: SSTable<usize, usize> = SSTable::load(&files.index_file, &files.bloom_file).unwrap();
    assert_eq!(loaded.block_ranges(), table.block_ranges());
}

#[test]
fn compact_keeps_tables_on_corrupt_heap() {
    let mut map = BTreeMap::new();
    map.insert(1usize, Some(1usize));
    let a = build(&map);
    let heaps = vec![vec![0u8; 1]];
    let mut tables = vec![a.table];
    let r = SSTable::compact(&mut tables, &heaps, new_bloom(1));
    assert_eq!(r.err(), Some(SSTableError::CorruptData));
    assert_eq!(tables.len(), 1);
}

#[test]
fn compact_of_only_tombstones_writes_an_empty_chunk() {
    let mut map = BTreeMap::new();
    map.insert(1usize, None::<usize>);
    let a = build(&map);
    let heaps = vec![a.heap.clone()];
    let mut tables = vec![a.table];
    let files = SSTable::compact(&mut tables, &heaps, new_bloom(1)).unwrap();
    assert_eq!(tables[0].block_ranges().len(), 0);
    let empty_frame = zstd::encode_all(&[][..], zstd::DEFAULT_COMPRESSION_LEVEL).unwrap();
    assert_eq!(files.heap, empty_frame);
    assert_eq!(tables[0].get(&files.heap, &1), Ok(None));
}

#[test]
fn name_numbers() {
    assert_eq!(parse_name_number("0"), Some(0));
    assert_eq!(parse_name_number("42"), Some(42));
    assert_eq!(parse_name_number("+7"), Some(7));
    assert_eq!(parse_name_number(""), None);
    assert_eq!(parse_name_number("+"), None);
    assert_eq!(parse_name_number("-1"), None);
    assert_eq!(parse_name_number("1a"), None);
    assert_eq!(parse_name_number("99999999999999999999999"), None);
    assert_eq!(parse_name_number(&usize::MAX.to_string()), Some(usize::MAX));
}

#[test]
fn table_slots_pair_files_by_number() {
    let heaps = vec!["1".to_string(), "junk".to_string(), "0".to_string()];
    let blooms = vec!["0".to_string(), "1".to_string(), "2".to_string(), "x".to_string()];
    let slots = TableSlots::new(3, &heaps, &blooms);
    assert_eq!(slots.pair("0"), Some((0, 2, 0)));
    assert_eq!(slots.pair("1"), Some((1, 0, 1)));
    assert_eq!(slots.pair("2"), None);
    assert_eq!(slots.pair("3"), None);
    assert_eq!(slots.pair("a"), None);
}

#[test]
fn flatten_keeps_filled_slots_in_order() {
    assert_eq!(flatten_slots(vec![None, Some(3), Some(1), None, Some(2)]), vec![3, 1, 2]);
    assert_eq!(flatten_slots::<u8>(vec![None, None]), Vec::<u8>::new());
}

#[test]
fn cut_off_entry_is_left_out() {
    let k1 = 1usize;
    let v1 = Some(10usize);
    let k2 = 2usize;
    let v2 = Some(20usize);
    let whole = SSTableEntry::<usize, usize>::to_buf(&vec![(&k1, &v1)]);
    let next = SSTableEntry::<usize, usize>::to_buf(&vec![(&k2, &v2)]);
    for cut in 0..next.len() {
        let mut bytes = whole.clone();
        bytes.extend_from_slice(&next[..cut]);
        let entry: SSTableEntry<usize, usize> = SSTableEntry::from_buf(bytes);
        assert_eq!(entry.into_iter(), vec![(1, Some(10))]);
    }
}
