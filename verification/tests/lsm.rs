use lsm::lsm::{LSM, LookupStep, MEMTABLE_MAX_SIZE, wal_entry};
use lsm::memtable::Memtable;
use lsm::sstable::{Bloom, SSTable, ToBytes};

/// A tree held in memory: the tree, and the files a tree on disk would
/// hold: the heap, index and Bloom filter of each table, and the log.
struct Tree<K: Ord + ToBytes + Clone, V: ToBytes + Clone> {
    lsm: LSM<K, V>,
    heaps: Vec<Vec<u8>>,
    index_files: Vec<Vec<u8>>,
    bloom_files: Vec<Vec<u8>>,
    log: Vec<u8>,
}

fn bloom(n: usize) -> Bloom {
    Bloom {
        filter: fastbloom::BloomFilter::with_false_pos(0.01).expected_items(n.max(1)),
    }
}

impl<K: Ord + ToBytes + Clone, V: ToBytes + Clone> Tree<K, V> {
    fn new() -> Self {
        Tree {
            lsm: LSM::new_empty("mem".to_string()),
            heaps: Vec::new(),
            index_files: Vec::new(),
            bloom_files: Vec::new(),
            log: Vec::new(),
        }
    }

    /// The tree read back from its files: the tables from their index and
    /// filter files, the memtable from the log.
    fn reopen(&self) -> Self {
        let mut tables = Vec::new();
        for (index_file, bloom_file) in self.index_files.iter().zip(self.bloom_files.iter()) {
            tables.push(SSTable::load(index_file, bloom_file).unwrap());
        }
        let memtable = Memtable::from_wal(self.log.clone(), MEMTABLE_MAX_SIZE);
        Tree {
            lsm: LSM::from_parts(memtable, tables, "mem".to_string()),
            heaps: self.heaps.clone(),
            index_files: self.index_files.clone(),
            bloom_files: self.bloom_files.clone(),
            log: self.log.clone(),
        }
    }

    fn put(&mut self, k: K, v: V) -> Option<V> {
        self.log.extend(wal_entry(&k, Some(&v)));
        let (old, full) = self.lsm.put(k, v);
        if full {
            self.flush();
        }
        old
    }

    fn flush(&mut self) {
        self.log.clear();
        let built = self.lsm.flush(bloom(MEMTABLE_MAX_SIZE)).unwrap();
        self.heaps.push(built.heap);
        self.index_files.push(built.index_file);
        self.bloom_files.push(built.bloom_file);
        self.lsm.install(built.table);
    }

    fn delete(&mut self, k: K) -> Option<V> {
        self.log.extend(wal_entry::<K, V>(&k, None));
        self.lsm.delete(k)
    }

    fn get(&self, k: &K) -> Option<V> {
        let mut step = self.lsm.lookup_start(k);
        loop {
            match step {
                LookupStep::Done(v) => return v,
                LookupStep::ReadBlock(t, start, end) => {
                    let block = &self.heaps[t][start as usize..end as usize];
                    let found = SSTable::<K, V>::read_block(block, k).unwrap();
                    step = self.lsm.lookup_continue(k, t, found);
                }
            }
        }
    }
}

#[test]
fn tree_gets_what_was_put() {
    let mut tree: Tree<usize, usize> = Tree::new();
    let n = 2 * MEMTABLE_MAX_SIZE + 500;
    for i in 0..n {
        tree.put(i * 2, i * 2 + 1);
    }
    assert_eq!(tree.lsm.table_count(), 2);
    for i in 0..n {
        assert_eq!(tree.get(&(i * 2)), Some(i * 2 + 1), "lsm get returned None when it should have been Some");
    }
    assert_eq!(tree.get(&1), None);
}

#[test]
fn tree_with_strings() {
    let mut tree: Tree<String, String> = Tree::new();
    let n = MEMTABLE_MAX_SIZE + 10;
    for i in 0..n {
        tree.put(format!("key{}", i), format!("value{}", i));
    }
    assert_eq!(tree.lsm.table_count(), 1);
    for i in 0..n {
        assert_eq!(tree.get(&format!("key{}", i)), Some(format!("value{}", i)));
    }
}

#[test]
fn tree_deletes_shadow_older_tables() {
    let mut tree: Tree<usize, usize> = Tree::new();
    for i in 0..MEMTABLE_MAX_SIZE {
        tree.put(i, i + 7);
    }
    assert_eq!(tree.lsm.table_count(), 1);
    assert_eq!(tree.delete(5), None);
    assert_eq!(tree.get(&5), None);
    assert_eq!(tree.get(&6), Some(13));
    assert_eq!(tree.put(6, 1), None);
    assert_eq!(tree.get(&6), Some(1));
    assert_eq!(tree.put(6, 2), Some(1));
    tree.lsm.clear();
    assert_eq!(tree.get(&6), Some(13));
    assert_eq!(tree.get(&5), Some(12));
}

#[test]
fn newer_table_wins() {
    let mut tree: Tree<usize, usize> = Tree::new();
    tree.put(1, 10);
    tree.flush();
    tree.put(1, 20);
    tree.delete(2);
    tree.flush();
    assert_eq!(tree.lsm.table_count(), 2);
    assert_eq!(tree.get(&1), Some(20));
    assert_eq!(tree.get(&2), None);
}

#[test]
fn tree_reopens_from_its_files() {
    let mut tree: Tree<String, String> = Tree::new();
    let n = MEMTABLE_MAX_SIZE + 50;
    for i in 0..n {
        tree.put(format!("key{}", i), format!("value{}", i));
    }
    tree.delete("key3".to_string());
    tree.delete(format!("key{}", n - 1));
    let reopened = tree.reopen();
    assert_eq!(reopened.lsm.table_count(), 1);
    for i in 0..n {
        let expected = if i == 3 || i == n - 1 { None } else { Some(format!("value{}", i)) };
        assert_eq!(reopened.get(&format!("key{}", i)), expected);
    }
}
