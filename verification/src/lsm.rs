//! The tree itself, and the byte formats of its built-in key and value types.
pub mod config;

use crate::byte_format::{append_bytes, append_len, len_prefix, lemma_len_prefix, prefix_value};
use crate::memtable::{Memtable, in_key_order};
use crate::search::{key_model, strictly_sorted, total_order};
use crate::sstable::{block_holds, Bloom, BuiltTable, SSTable, ToBytes, block_read, bloom_bits, bloom_items, built_from, found_view, heap_range, lemma_absent_block, lemma_block_finds, lemma_built_block, lemma_load_serves, load_outcome, pair_keys};
use crate::sstable_entry::{entries_bytes, entries_fit, entry_bytes, lemma_entries_roundtrip, opt_view, parse_entries, stored_entries, stored_value};
use crate::traits::SSTableError;
use vstd::bytes::*;
use vstd::prelude::*;
use vstd::slice::*;
use vstd::utf8::*;

verus! {

broadcast use vstd::utf8::group_utf8_lib;

impl ToBytes for usize {
    open spec fn spec_serialize(v: usize) -> Seq<u8> {
        len_prefix(v as nat)
    }

    open spec fn spec_deserializable(bytes: Seq<u8>) -> bool {
        bytes.len() == 8 && prefix_value(bytes) <= usize::MAX
    }

    open spec fn spec_deserialize(bytes: Seq<u8>) -> usize {
        prefix_value(bytes) as usize
    }

    fn serialize(&self) -> (r: Vec<u8>) {
        u64_to_le_bytes(*self as u64)
    }

    fn deserialize(v: &[u8]) -> (r: usize) {
        let x = u64_from_le_bytes(v);
        x as usize
    }

    fn bytes_len(&self) -> (r: usize) {
        proof {
            lemma_len_prefix(*self as nat);
        }
        8
    }

    fn is_deserializable(v: &[u8]) -> (r: bool) {
        if v.len() != 8 {
            return false;
        }
        let x = u64_from_le_bytes(v);
        x <= usize::MAX as u64
    }

    proof fn lemma_serialize_roundtrip(v: usize) {
        lemma_len_prefix(v as nat);
    }
}

/// The characters that `String::from_utf8_lossy` makes of bytes that are not
/// UTF-8 (each malformed sequence becomes U+FFFD).
pub uninterp spec fn utf8_lossy(bytes: Seq<u8>) -> Seq<char>;

/// The characters of a byte string read as UTF-8, malformed sequences
/// replaced.
pub open spec fn lossy_chars(bytes: Seq<u8>) -> Seq<char> {
    if valid_utf8(bytes) {
        decode_utf8(bytes)
    } else {
        utf8_lossy(bytes)
    }
}

/// `String::from_utf8_lossy`, owned: on UTF-8 input the characters the bytes
/// encode; on other input the replacement result, named `utf8_lossy`.
#[verifier::external_body]
fn string_from_utf8_lossy(v: &[u8]) -> (r: String)
    ensures
        r@ == (if valid_utf8(v@) {
            decode_utf8(v@)
        } else {
            utf8_lossy(v@)
        }),
{
    String::from_utf8_lossy(v).to_string()
}

impl ToBytes for String {
    open spec fn spec_serialize(v: Seq<char>) -> Seq<u8> {
        encode_utf8(v)
    }

    open spec fn spec_deserializable(bytes: Seq<u8>) -> bool {
        true
    }

    open spec fn spec_deserialize(bytes: Seq<u8>) -> Seq<char> {
        lossy_chars(bytes)
    }

    fn serialize(&self) -> (r: Vec<u8>) {
        slice_to_vec(self.as_str().as_bytes())
    }

    fn deserialize(v: &[u8]) -> (r: String) {
        string_from_utf8_lossy(v)
    }

    fn bytes_len(&self) -> (r: usize) {
        self.as_str().as_bytes().len()
    }

    fn is_deserializable(v: &[u8]) -> (r: bool) {
        true
    }

    proof fn lemma_serialize_roundtrip(v: Seq<char>) {
        encode_utf8_valid_utf8(v);
        encode_utf8_decode_utf8(v);
    }
}

/// The number of keys at which the memtable is flushed to a table.
pub const MEMTABLE_MAX_SIZE: usize = 10000;

/// The file name of the write-ahead log in the data directory.
pub const WAL_PATH: &'static str = "wal.txt";

/// The directory of table heaps in the data directory.
pub const HEAP_DIR: &'static str = "heap";

/// The directory of sparse indexes in the data directory.
pub const SPARSE_INDEX_DIR: &'static str = "sparse_index";

/// The bytes a write adds to the write-ahead log: the key, then the value or,
/// for a deletion, a zero length; the same layout as a block entry.
pub fn wal_entry<K: ToBytes, V: ToBytes>(key: &K, value: Option<&V>) -> (r: Vec<u8>)
    ensures
        r@ == entry_bytes::<K, V>(
            key@,
            match value {
                Some(v) => Some(v@),
                None => None,
            },
        ),
{
    let mut buf: Vec<u8> = Vec::new();
    let kb = key.serialize();
    append_len(&mut buf, key.bytes_len());
    append_bytes(&mut buf, kb.as_slice());
    match value {
        Some(v) => {
            let vb = v.serialize();
            append_len(&mut buf, v.bytes_len());
            append_bytes(&mut buf, vb.as_slice());
        },
        None => {
            append_len(&mut buf, 0);
        },
    }
    buf
}

/// Log replay law: a write-ahead log made of the entries of writes `s`, one
/// after another, reads back as those writes, each value as it is stored (a
/// value whose bytes are empty reads back as a deletion).
pub proof fn lemma_log_replay<K: ToBytes, V: ToBytes>(s: Seq<(K::V, Option<V::V>)>, log: Seq<Seq<u8>>)
    requires
        log.len() == s.len(),
        forall|i: int| 0 <= i < s.len() ==> #[trigger] log[i] == entry_bytes::<K, V>(s[i].0, s[i].1),
        entries_fit::<K, V>(s),
    ensures
        parse_entries::<K, V>(log.flatten()) == stored_entries::<K, V>(s),
{
    lemma_log_bytes::<K, V>(s, log);
    lemma_entries_roundtrip::<K, V>(s);
}

/// The entries of writes, one after another, are the bytes of the run.
proof fn lemma_log_bytes<K: ToBytes, V: ToBytes>(s: Seq<(K::V, Option<V::V>)>, log: Seq<Seq<u8>>)
    requires
        log.len() == s.len(),
        forall|i: int| 0 <= i < s.len() ==> #[trigger] log[i] == entry_bytes::<K, V>(s[i].0, s[i].1),
    ensures
        log.flatten() == entries_bytes::<K, V>(s),
    decreases s.len(),
{
    if s.len() > 0 {
        let t = s.drop_first();
        let l = log.drop_first();
        assert forall|i: int| 0 <= i < t.len() implies #[trigger] l[i] == entry_bytes::<K, V>(t[i].0, t[i].1) by {
            assert(l[i] == log[i + 1]);
            assert(t[i] == s[i + 1]);
        }
        lemma_log_bytes::<K, V>(t, l);
        assert(log.first() == log[0]);
    }
}

/// The next step of a lookup.
pub enum LookupStep<V> {
    /// The lookup is over: the value, or none for a key never written or
    /// deleted.
    Done(Option<V>),
    /// Read the block with this byte range from the heap of this table, and
    /// go on with what it gives.
    ReadBlock(usize, u64, u64),
}

/// What starting a lookup of `key` gives: the memtable's write of the key
/// when it has one (a clone of the value, or none for a deletion);
/// otherwise the block of the newest table that may hold the key, every newer
/// table ruling the key out, or none when every table rules it out.
pub open spec fn start_outcome<K: Ord + ToBytes + Clone, V: ToBytes + Clone>(lsm: &LSM<K, V>, key: K, r: LookupStep<V>) -> bool {
    let contents = lsm.memtable().contents();
    if contents.contains_key(key) {
        match contents[key] {
            Some(x) => r matches LookupStep::Done(Some(y)) && cloned(x, y),
            None => r == LookupStep::<V>::Done(None),
        }
    } else {
        match r {
            LookupStep::ReadBlock(t, start, end) => {
                &&& t < lsm.sstables().len()
                &&& strictly_sorted(lsm.sstables()[t as int].index().keys()) ==> lsm.sstables()[t as int].index().block_at(key) == Some((start, end))
                &&& forall|u: int| t < u < lsm.sstables().len() ==> #[trigger] lsm.sstables()[u].rules_out(key)
            },
            LookupStep::Done(v) => v is None && forall|u: int|
                0 <= u < lsm.sstables().len() ==> #[trigger] lsm.sstables()[u].rules_out(key),
        }
    }
}

/// Read-your-writes law of the tree: after a write of `value` for `key`, a
/// lookup of `key` is decided by the memtable and gives a clone of the value.
pub proof fn lemma_put_then_lookup<K: Ord + ToBytes + Clone, V: ToBytes + Clone>(
    after: LSM<K, V>,
    before: Map<K, Option<V>>,
    key: K,
    value: V,
    r: LookupStep<V>,
)
    requires
        after.memtable().contents() == before.insert(key, Some(value)),
        start_outcome(&after, key, r),
    ensures
        r matches LookupStep::Done(Some(y)) && cloned(value, y),
{
}

/// After a deletion of `key`, a lookup of `key` gives none, whatever the
/// tables hold.
pub proof fn lemma_delete_then_lookup<K: Ord + ToBytes + Clone, V: ToBytes + Clone>(
    after: LSM<K, V>,
    before: Map<K, Option<V>>,
    key: K,
    r: LookupStep<V>,
)
    requires
        after.memtable().contents() == before.insert(key, None),
        start_outcome(&after, key, r),
    ensures
        r == LookupStep::<V>::Done(None),
{
}

/// What going on with a lookup of `key` after reading its block in table
/// `table` gives: a block that holds the key decides; otherwise the block of
/// the newest older table that may hold the key, every table between ruling
/// it out, or none when every older table rules it out.
pub open spec fn continue_outcome<K: Ord + ToBytes + Clone, V: ToBytes + Clone>(
    lsm: &LSM<K, V>,
    key: K,
    table: int,
    found: Option<Option<V>>,
    r: LookupStep<V>,
) -> bool {
    match found {
        Some(v) => r == LookupStep::Done(v),
        None => match r {
            LookupStep::ReadBlock(t, start, end) => {
                &&& t < table
                &&& strictly_sorted(lsm.sstables()[t as int].index().keys()) ==> lsm.sstables()[t as int].index().block_at(key) == Some((start, end))
                &&& forall|u: int| t < u < table ==> #[trigger] lsm.sstables()[u].rules_out(key)
            },
            LookupStep::Done(v) => v is None && forall|u: int| 0 <= u < table ==> #[trigger] lsm.sstables()[u].rules_out(key),
        },
    }
}

/// A log-structured merge tree: a memtable of the latest writes over tables
/// flushed from earlier memtables, oldest first.
pub struct LSM<K: Ord + ToBytes, V: ToBytes + Clone> {
    memtable: Memtable<K, V>,
    sstables: Vec<SSTable<K, V>>,
    data_dir: String,
}

impl<K: Ord + ToBytes + Clone, V: ToBytes + Clone> LSM<K, V> {
    /// The memtable.
    pub closed spec fn memtable(&self) -> Memtable<K, V> {
        self.memtable
    }

    /// The tables, oldest first.
    pub closed spec fn sstables(&self) -> Seq<SSTable<K, V>> {
        self.sstables@
    }

    /// The data directory.
    pub closed spec fn data_dir(&self) -> Seq<char> {
        self.data_dir@
    }

    /// Every table can be looked up.
    pub open spec fn wf(&self) -> bool {
        forall|t: int| 0 <= t < self.sstables().len() ==> (#[trigger] self.sstables()[t]).wf()
    }

    /// A tree with an empty memtable of capacity `MEMTABLE_MAX_SIZE` and no
    /// tables.
    pub fn new_empty(data_dir: String) -> (r: Self)
        ensures
            r.wf(),
            r.memtable().contents() == Map::<K, Option<V>>::empty(),
            r.memtable().max_size == MEMTABLE_MAX_SIZE,
            r.sstables() == Seq::<SSTable<K, V>>::empty(),
            r.data_dir() == data_dir@,
    {
        LSM { memtable: Memtable::new(MEMTABLE_MAX_SIZE), sstables: Vec::new(), data_dir }
    }

    /// A tree over a memtable and tables read back from disk.
    pub fn from_parts(memtable: Memtable<K, V>, sstables: Vec<SSTable<K, V>>, data_dir: String) -> (r: Self)
        ensures
            r.memtable() == memtable,
            r.sstables() == sstables@,
            r.data_dir() == data_dir@,
    {
        LSM { memtable, sstables, data_dir }
    }

    /// The number of tables.
    pub fn table_count(&self) -> (r: usize)
        ensures
            r == self.sstables().len(),
    {
        self.sstables.len()
    }

    /// The table at position `t`.
    pub fn table(&self, t: usize) -> (r: &SSTable<K, V>)
        requires
            t < self.sstables().len(),
        ensures
            *r == self.sstables()[t as int],
    {
        &self.sstables[t]
    }

    /// The data directory.
    pub fn data_dir_name(&self) -> (r: &String)
        ensures
            r@ == self.data_dir(),
    {
        &self.data_dir
    }

    /// Looks for the newest table below position `below` that may hold `key`.
    fn next_candidate(&self, key: &K, below: usize) -> (r: LookupStep<V>)
        requires
            total_order::<K>(),
            self.wf(),
            below <= self.sstables().len(),
        ensures
            match r {
                LookupStep::ReadBlock(t, start, end) => {
                    &&& t < below
                    &&& strictly_sorted(self.sstables()[t as int].index().keys()) ==> self.sstables()[t as int].index().block_at(*key) == Some((start, end))
                    &&& forall|u: int| t < u < below ==> #[trigger] self.sstables()[u].rules_out(*key)
                },
                LookupStep::Done(v) => v is None && forall|u: int| 0 <= u < below ==> #[trigger] self.sstables()[u].rules_out(*key),
            },
    {
        let mut t = below;
        while t > 0
            invariant
                total_order::<K>(),
                self.wf(),
                t <= below <= self.sstables().len(),
                forall|u: int| t <= u < below ==> #[trigger] self.sstables()[u].rules_out(*key),
            decreases t,
        {
            t = t - 1;
            assert(self.sstables()[t as int].wf());
            match self.sstables[t].locate(key) {
                Some((start, end)) => {
                    return LookupStep::ReadBlock(t, start, end);
                },
                None => {},
            }
        }
        LookupStep::Done(None)
    }

    /// Starts a lookup of `key`: the memtable decides when it holds the key
    /// (a deletion gives none); otherwise the newest table that may hold the
    /// key is read next.
    pub fn lookup_start(&self, key: &K) -> (r: LookupStep<V>)
        requires
            total_order::<K>(),
            self.wf(),
        ensures
            start_outcome(self, *key, r),
    {
        match self.memtable.get(key) {
            Some(v) => match v {
                Some(x) => LookupStep::Done(Some(x.clone())),
                None => LookupStep::Done(None),
            },
            None => self.next_candidate(key, self.sstables.len()),
        }
    }

    /// Goes on with a lookup of `key` after reading its block in table
    /// `table`: a block that holds the key decides (a tombstone gives none);
    /// otherwise the next older table that may hold the key is read.
    pub fn lookup_continue(&self, key: &K, table: usize, found: Option<Option<V>>) -> (r: LookupStep<V>)
        requires
            total_order::<K>(),
            self.wf(),
            table <= self.sstables().len(),
        ensures
            continue_outcome(self, *key, table as int, found, r),
    {
        match found {
            Some(v) => LookupStep::Done(v),
            None => self.next_candidate(key, table),
        }
    }

    /// Writes `value` for `key` to the memtable; gives the value it replaces
    /// in the memtable, and whether the memtable is now full and must be
    /// flushed.
    pub fn put(&mut self, key: K, value: V) -> (r: (Option<V>, bool))
        requires
            total_order::<K>(),
        ensures
            final(self).memtable().contents() == old(self).memtable().contents().insert(key, Some(value)),
            final(self).memtable().max_size == old(self).memtable().max_size,
            final(self).sstables() == old(self).sstables(),
            final(self).data_dir() == old(self).data_dir(),
            r.0 == (if old(self).memtable().contents().contains_key(key) {
                old(self).memtable().contents()[key]
            } else {
                None
            }),
            r.1 == (final(self).memtable().contents().len() >= final(self).memtable().max_size),
    {
        let val = self.memtable.put(key, value);
        let full = self.memtable.len() >= self.memtable.max_size;
        (val, full)
    }

    /// Writes a tombstone for `key` to the memtable; gives the value it
    /// replaces in the memtable.
    pub fn delete(&mut self, key: K) -> (r: Option<V>)
        requires
            total_order::<K>(),
        ensures
            final(self).memtable().contents() == old(self).memtable().contents().insert(key, None),
            final(self).memtable().max_size == old(self).memtable().max_size,
            final(self).sstables() == old(self).sstables(),
            final(self).data_dir() == old(self).data_dir(),
            r == (if old(self).memtable().contents().contains_key(key) {
                old(self).memtable().contents()[key]
            } else {
                None
            }),
    {
        self.memtable.delete(key)
    }

    /// Empties the memtable.
    pub fn clear(&mut self)
        ensures
            final(self).memtable().contents() == Map::<K, Option<V>>::empty(),
            final(self).memtable().max_size == old(self).memtable().max_size,
            final(self).sstables() == old(self).sstables(),
            final(self).data_dir() == old(self).data_dir(),
    {
        self.memtable.clear()
    }

    /// Builds the table of the memtable, as `SSTable::build` does with the
    /// memtable's writes in key order.
    pub fn flush(&self, bloom: Bloom) -> (r: Result<BuiltTable<K, V>, SSTableError>)
        requires
            total_order::<K>(),
        ensures
            r matches Ok(b) ==> exists|es: Seq<(&K, &Option<V>)>|
                in_key_order(self.memtable().contents(), es) && #[trigger] built_from(es, b),
            r is Ok <==> bloom_bits(bloom) > 0,
            r matches Err(e) ==> e == SSTableError::Bloom,
    {
        let entries = self.memtable.entries();
        SSTable::build(&entries, bloom)
    }

    /// Puts a flushed table after the others and empties the memtable.
    pub fn install(&mut self, table: SSTable<K, V>)
        requires
            old(self).wf(),
            table.wf(),
        ensures
            final(self).wf(),
            final(self).sstables() == old(self).sstables().push(table),
            final(self).memtable().contents() == Map::<K, Option<V>>::empty(),
            final(self).memtable().max_size == old(self).memtable().max_size,
            final(self).data_dir() == old(self).data_dir(),
    {
        self.sstables.push(table);
        self.memtable.clear();
        assert forall|t: int| 0 <= t < self.sstables().len() implies (#[trigger] self.sstables()[t]).wf() by {
            if t < old(self).sstables().len() {
                assert(self.sstables()[t] == old(self).sstables()[t]);
            }
        }
    }
}

/// Persistence law: after the memtable's writes are flushed to a table and
/// the table is installed as the newest, a lookup of a key that was written,
/// while the memtable holds no newer write of it, reads the key's block from
/// the new table, and reading that block gives the key's value or tombstone
/// as stored (a value whose bytes are empty is stored as a tombstone). Keys
/// must be cloned faithfully, as the index holds clones of them.
pub proof fn lemma_flush_then_lookup<K: Ord + ToBytes + Clone, V: ToBytes + Clone>(
    tree: LSM<K, V>,
    flushed: Map<K, Option<V>>,
    es: Seq<(&K, &Option<V>)>,
    b: BuiltTable<K, V>,
    key: K,
    r: LookupStep<V>,
    read: Result<Option<Option<V>>, SSTableError>,
)
    requires
        key_model::<K>(),
        forall|x: K, y: K| #[trigger] cloned(x, y) ==> x == y,
        in_key_order(flushed, es),
        built_from(es, b),
        flushed.contains_key(key),
        tree.sstables().len() > 0,
        tree.sstables().last() == b.table,
        !tree.memtable().contents().contains_key(key),
        start_outcome(&tree, key, r),
        r matches LookupStep::ReadBlock(t, start, end) ==> (t == tree.sstables().len() - 1 ==> (heap_range(
            b.heap@,
            start,
            end,
        ) matches Some(c) && block_read::<K, V>(c, key@, read))),
    ensures
        r matches LookupStep::ReadBlock(t, start, end) && t == tree.sstables().len() - 1 && heap_range(
            b.heap@,
            start,
            end,
        ) is Some,
        read matches Ok(found) && found_view(found) == Some(stored_value::<V>(opt_view(flushed[key]))),
{
    let i = choose|i: int| 0 <= i < es.len() && *es[i].0 == key;
    assert(flushed[*es[i].0] == *es[i].1);
    assert(pair_keys(es) =~= Seq::new(es.len(), |j: int| *es[j].0));
    let range = lemma_built_block(es, b, i);
    let last = (tree.sstables().len() - 1) as int;
    assert(tree.sstables()[last] == b.table);
    assert(!tree.sstables()[last].rules_out(key));
    match r {
        LookupStep::ReadBlock(t, start, end) => {
            if t < last {
                assert(tree.sstables()[last].rules_out(key));
            }
            assert((start, end) == range);
            let c = heap_range(b.heap@, start, end)->0;
            lemma_block_finds::<K, V>(c, key@, stored_value::<V>(opt_view(*es[i].1)), read);
        },
        LookupStep::Done(_) => {
            assert(tree.sstables()[last].rules_out(key));
        },
    }
}

/// Whether entries hold key `k`.
pub open spec fn holds_key<K, V>(es: Seq<(&K, &Option<V>)>, k: K) -> bool {
    exists|i: int| 0 <= i < es.len() && *es[i].0 == k
}

/// The value or tombstone that entries hold for `k`, as it is stored.
pub open spec fn stored_in<K, V: ToBytes>(es: Seq<(&K, &Option<V>)>, k: K) -> Option<V::V> {
    let i = choose|i: int| 0 <= i < es.len() && *es[i].0 == k;
    stored_value::<V>(opt_view(*es[i].1))
}

/// The stored write of `k` in the newest of the first `n` tables whose
/// entries hold it; none where none of them does.
pub open spec fn newest_write<K, V: ToBytes>(es: Seq<Seq<(&K, &Option<V>)>>, k: K, n: nat) -> Option<Option<V::V>>
    decreases n,
{
    if n == 0 {
        None
    } else if holds_key(es[n - 1], k) {
        Some(stored_in::<K, V>(es[n - 1], k))
    } else {
        newest_write(es, k, (n - 1) as nat)
    }
}

/// What a tree whose tables were built from the entries `es` holds for
/// `k`: the memtable's write when it has one, else the write in the newest
/// table that holds the key, else none.
pub open spec fn tree_value<K: Ord + ToBytes + Clone, V: ToBytes + Clone>(
    lsm: &LSM<K, V>,
    es: Seq<Seq<(&K, &Option<V>)>>,
    k: K,
) -> Option<V::V> {
    if lsm.memtable().contents().contains_key(k) {
        opt_view(lsm.memtable().contents()[k])
    } else {
        match newest_write(es, k, es.len()) {
            Some(v) => v,
            None => None,
        }
    }
}

/// Whether each table of the tree was built, as `bs[t]`, from the entries
/// `es[t]` in strictly increasing key order, or loaded back from its files.
pub open spec fn tables_built<K: Ord + ToBytes + Clone, V: ToBytes + Clone>(
    lsm: &LSM<K, V>,
    es: Seq<Seq<(&K, &Option<V>)>>,
    bs: Seq<BuiltTable<K, V>>,
) -> bool {
    &&& es.len() == lsm.sstables().len()
    &&& bs.len() == es.len()
    &&& forall|t: int| 0 <= t < es.len() ==> #[trigger] built_from(es[t], bs[t])
    &&& forall|t: int| 0 <= t < es.len() ==> strictly_sorted(#[trigger] pair_keys(es[t]))
    &&& forall|t: int| 0 <= t < es.len() ==> serves_as(lsm.sstables()[t], (#[trigger] bs[t]).table)
}

/// Whether table `t` answers lookups as the built table `b` does: the same
/// index, and a Bloom filter that holds at least what `b`'s holds (as a
/// table loaded back from `b`'s files does).
pub open spec fn serves_as<K: Ord + ToBytes, V: ToBytes>(t: SSTable<K, V>, b: SSTable<K, V>) -> bool {
    &&& t.index().keys() == b.index().keys()
    &&& t.index().offsets() == b.index().offsets()
    &&& bloom_items(b.bloom()).subset_of(bloom_items(t.bloom()))
}

/// Whether a step of a lookup of `k` is on track: done with what the tree
/// holds for `k`, or about to read the key's block in a table newer than
/// which no table holds the key, while the memtable lacks it.
pub open spec fn on_track<K: Ord + ToBytes + Clone, V: ToBytes + Clone>(
    lsm: &LSM<K, V>,
    es: Seq<Seq<(&K, &Option<V>)>>,
    bs: Seq<BuiltTable<K, V>>,
    k: K,
    step: LookupStep<V>,
) -> bool {
    match step {
        LookupStep::Done(v) => opt_view(v) == tree_value(lsm, es, k),
        LookupStep::ReadBlock(t, start, end) => {
            &&& t < es.len()
            &&& !lsm.memtable().contents().contains_key(k)
            &&& bs[t as int].table.index().block_at(k) == Some((start, end))
            &&& forall|u: int| t < u < es.len() ==> !holds_key(#[trigger] es[u], k)
        },
    }
}

/// The first keys of a built table are in strictly increasing order.
proof fn lemma_built_sorted<K: Ord + ToBytes + Clone, V: ToBytes>(es: Seq<(&K, &Option<V>)>, b: BuiltTable<K, V>)
    requires
        key_model::<K>(),
        forall|x: K, y: K| #[trigger] cloned(x, y) ==> x == y,
        strictly_sorted(pair_keys(es)),
        built_from(es, b),
    ensures
        strictly_sorted(b.table.index().keys()),
{
    if es.len() > 0 {
        lemma_built_block(es, b, 0);
    } else {
        assert(b.table.index().keys().len() == 0);
    }
}

/// A table that answers as a built table and rules a key out does not hold
/// it.
proof fn lemma_ruled_out_not_held<K: Ord + ToBytes + Clone, V: ToBytes>(
    es: Seq<(&K, &Option<V>)>,
    b: BuiltTable<K, V>,
    table: SSTable<K, V>,
    k: K,
)
    requires
        key_model::<K>(),
        forall|x: K, y: K| #[trigger] cloned(x, y) ==> x == y,
        strictly_sorted(pair_keys(es)),
        built_from(es, b),
        serves_as(table, b.table),
        table.rules_out(k),
    ensures
        !holds_key(es, k),
{
    if holds_key(es, k) {
        let i = choose|i: int| 0 <= i < es.len() && *es[i].0 == k;
        lemma_built_block(es, b, i);
    }
}

/// Where no table from `m` up to `n` holds `k`, the newest write among the
/// first `n` is the newest among the first `m`.
proof fn lemma_newest_skip<K, V: ToBytes>(es: Seq<Seq<(&K, &Option<V>)>>, k: K, m: nat, n: nat)
    requires
        m <= n,
        forall|u: int| m <= u < n ==> !holds_key(#[trigger] es[u], k),
    ensures
        newest_write(es, k, n) == newest_write(es, k, m),
    decreases n,
{
    if n > m {
        assert(!holds_key(es[n - 1], k));
        lemma_newest_skip(es, k, m, (n - 1) as nat);
    }
}

/// Latest-write law, first step: a lookup starts on track; the memtable's
/// write of the key decides, and otherwise the block read next is in a table
/// newer than which no table holds the key. Keys and values must be cloned
/// faithfully.
pub proof fn lemma_lookup_start_on_track<K: Ord + ToBytes + Clone, V: ToBytes + Clone>(
    lsm: LSM<K, V>,
    es: Seq<Seq<(&K, &Option<V>)>>,
    bs: Seq<BuiltTable<K, V>>,
    k: K,
    r: LookupStep<V>,
)
    requires
        key_model::<K>(),
        forall|x: K, y: K| #[trigger] cloned(x, y) ==> x == y,
        forall|x: V, y: V| #[trigger] cloned(x, y) ==> x == y,
        tables_built(&lsm, es, bs),
        start_outcome(&lsm, k, r),
    ensures
        on_track(&lsm, es, bs, k, r),
{
    let n = es.len();
    if !lsm.memtable().contents().contains_key(k) {
        match r {
            LookupStep::ReadBlock(t, start, end) => {
                assert(built_from(es[t as int], bs[t as int]));
                assert(strictly_sorted(pair_keys(es[t as int])));
                assert(serves_as(lsm.sstables()[t as int], bs[t as int].table));
                lemma_built_sorted(es[t as int], bs[t as int]);
                assert forall|u: int| t < u < n implies !holds_key(#[trigger] es[u], k) by {
                    assert(lsm.sstables()[u].rules_out(k));
                    assert(built_from(es[u], bs[u]));
                    assert(strictly_sorted(pair_keys(es[u])));
                    assert(serves_as(lsm.sstables()[u], bs[u].table));
                    lemma_ruled_out_not_held(es[u], bs[u], lsm.sstables()[u], k);
                }
            },
            LookupStep::Done(v) => {
                assert forall|u: int| 0 <= u < n implies !holds_key(#[trigger] es[u], k) by {
                    assert(lsm.sstables()[u].rules_out(k));
                    assert(built_from(es[u], bs[u]));
                    assert(strictly_sorted(pair_keys(es[u])));
                    assert(serves_as(lsm.sstables()[u], bs[u].table));
                    lemma_ruled_out_not_held(es[u], bs[u], lsm.sstables()[u], k);
                }
                lemma_newest_skip(es, k, 0, n);
            },
        }
    } else {
        match lsm.memtable().contents()[k] {
            Some(x) => {
                let y = r->Done_0->0;
                assert(cloned(x, y));
            },
            None => {},
        }
    }
}

/// Reading the block of a key from a built table that holds the key gives
/// its stored write.
proof fn lemma_read_held<K: Ord + ToBytes + Clone, V: ToBytes>(
    e: Seq<(&K, &Option<V>)>,
    b: BuiltTable<K, V>,
    k: K,
    start: u64,
    end: u64,
    read: Result<Option<Option<V>>, SSTableError>,
)
    requires
        key_model::<K>(),
        forall|x: K, y: K| #[trigger] cloned(x, y) ==> x == y,
        strictly_sorted(pair_keys(e)),
        built_from(e, b),
        holds_key(e, k),
        b.table.index().block_at(k) == Some((start, end)),
        heap_range(b.heap@, start, end) matches Some(c) && block_read::<K, V>(c, k@, read),
    ensures
        read matches Ok(found) && found_view(found) == Some(stored_in::<K, V>(e, k)),
{
    let i = choose|i: int| 0 <= i < e.len() && *e[i].0 == k;
    lemma_built_block(e, b, i);
    let c = heap_range(b.heap@, start, end)->0;
    lemma_block_finds::<K, V>(c, k@, stored_value::<V>(opt_view(*e[i].1)), read);
}

/// Reading the block of a key from a built table that does not hold the
/// key gives none.
proof fn lemma_read_absent<K: Ord + ToBytes + Clone, V: ToBytes>(
    e: Seq<(&K, &Option<V>)>,
    b: BuiltTable<K, V>,
    k: K,
    start: u64,
    end: u64,
    read: Result<Option<Option<V>>, SSTableError>,
)
    requires
        key_model::<K>(),
        built_from(e, b),
        !holds_key(e, k),
        b.table.index().block_at(k) == Some((start, end)),
        heap_range(b.heap@, start, end) matches Some(c) && block_read::<K, V>(c, k@, read),
    ensures
        read == Ok::<Option<Option<V>>, SSTableError>(None),
{
    assert forall|i: int| 0 <= i < e.len() implies *(#[trigger] e[i]).0 != k by {}
    let bytes = lemma_absent_block(e, b, k, (start, end));
    let p = parse_entries::<K, V>(bytes);
    match read {
        Ok(found) => {
            match found_view(found) {
                Some(w) => {
                    assert(block_holds::<K, V>(p, k@, w));
                    let x = choose|x: int| 0 <= x < p.len() && p[x].0 == k@ && p[x].1 == w;
                    assert(p[x].0 != k@);
                },
                None => {},
            }
        },
        Err(_) => {},
    }
}

/// Going on after a block that lacks the key, from a table no newer one of
/// which holds the key, stays on track.
proof fn lemma_after_miss<K: Ord + ToBytes + Clone, V: ToBytes + Clone>(
    lsm: LSM<K, V>,
    es: Seq<Seq<(&K, &Option<V>)>>,
    bs: Seq<BuiltTable<K, V>>,
    k: K,
    t: int,
    r: LookupStep<V>,
)
    requires
        key_model::<K>(),
        forall|x: K, y: K| #[trigger] cloned(x, y) ==> x == y,
        tables_built(&lsm, es, bs),
        0 <= t < es.len(),
        !lsm.memtable().contents().contains_key(k),
        forall|u: int| t <= u < es.len() ==> !holds_key(#[trigger] es[u], k),
        continue_outcome(&lsm, k, t, None, r),
    ensures
        on_track(&lsm, es, bs, k, r),
{
    let n = es.len();
    match r {
        LookupStep::ReadBlock(t2, s2, e2) => {
            assert(built_from(es[t2 as int], bs[t2 as int]));
            assert(strictly_sorted(pair_keys(es[t2 as int])));
            assert(serves_as(lsm.sstables()[t2 as int], bs[t2 as int].table));
            lemma_built_sorted(es[t2 as int], bs[t2 as int]);
            assert forall|u: int| t2 < u < n implies !holds_key(#[trigger] es[u], k) by {
                if u < t {
                    assert(lsm.sstables()[u].rules_out(k));
                    assert(built_from(es[u], bs[u]));
                    assert(strictly_sorted(pair_keys(es[u])));
                    assert(serves_as(lsm.sstables()[u], bs[u].table));
                    lemma_ruled_out_not_held(es[u], bs[u], lsm.sstables()[u], k);
                }
            }
        },
        LookupStep::Done(v) => {
            assert forall|u: int| 0 <= u < n implies !holds_key(#[trigger] es[u], k) by {
                if u < t {
                    assert(lsm.sstables()[u].rules_out(k));
                    assert(built_from(es[u], bs[u]));
                    assert(strictly_sorted(pair_keys(es[u])));
                    assert(serves_as(lsm.sstables()[u], bs[u].table));
                    lemma_ruled_out_not_held(es[u], bs[u], lsm.sstables()[u], k);
                }
            }
            lemma_newest_skip(es, k, 0, n);
        },
    }
}

/// Latest-write law, each further step: reading the block of a step on
/// track gives the key's stored write when that table holds the key, and
/// none otherwise; going on from there stays on track. So the lookup loop,
/// which reads an older table at every step, ends with what the tree holds
/// for the key: the newest write wins, and a tombstone hides every older
/// value. Keys and values must be cloned faithfully.
#[verifier::spinoff_prover]
#[verifier::rlimit(60)]
pub proof fn lemma_lookup_continue_on_track<K: Ord + ToBytes + Clone, V: ToBytes + Clone>(
    lsm: LSM<K, V>,
    es: Seq<Seq<(&K, &Option<V>)>>,
    bs: Seq<BuiltTable<K, V>>,
    k: K,
    t: usize,
    start: u64,
    end: u64,
    read: Result<Option<Option<V>>, SSTableError>,
    r: LookupStep<V>,
)
    requires
        key_model::<K>(),
        forall|x: K, y: K| #[trigger] cloned(x, y) ==> x == y,
        forall|x: V, y: V| #[trigger] cloned(x, y) ==> x == y,
        tables_built(&lsm, es, bs),
        on_track(&lsm, es, bs, k, LookupStep::ReadBlock(t, start, end)),
        heap_range(bs[t as int].heap@, start, end) matches Some(c) && block_read::<K, V>(c, k@, read),
        read matches Ok(found) ==> continue_outcome(&lsm, k, t as int, found, r),
    ensures
        read is Ok,
        on_track(&lsm, es, bs, k, r),
{
    let n = es.len();
    let e = es[t as int];
    let b = bs[t as int];
    assert(built_from(e, b));
    assert(strictly_sorted(pair_keys(e)));
    if holds_key(e, k) {
        lemma_read_held(e, b, k, start, end, read);
        lemma_newest_skip(es, k, (t + 1) as nat, n);
        assert(newest_write(es, k, (t + 1) as nat) == Some(stored_in::<K, V>(e, k)));
    } else {
        lemma_read_absent(e, b, k, start, end, read);
        lemma_after_miss(lsm, es, bs, k, t as int, r);
    }
}

/// Reopening law, for a tree: a tree whose tables were each loaded back from
/// the index and filter files of a table built from entries in strictly
/// increasing key order is a tree of those built tables, so that lookups in
/// it, over the saved heaps, follow the latest-write law. Keys must be known
/// by their views.
pub proof fn lemma_reopened_tables_built<K: Ord + ToBytes + Clone, V: ToBytes + Clone>(
    lsm: LSM<K, V>,
    es: Seq<Seq<(&K, &Option<V>)>>,
    bs: Seq<BuiltTable<K, V>>,
)
    requires
        key_model::<K>(),
        es.len() == lsm.sstables().len(),
        bs.len() == es.len(),
        forall|t: int| 0 <= t < es.len() ==> #[trigger] built_from(es[t], bs[t]),
        forall|t: int| 0 <= t < es.len() ==> strictly_sorted(#[trigger] pair_keys(es[t])),
        forall|t: int|
            0 <= t < es.len() ==> load_outcome(
                (#[trigger] bs[t]).index_file@,
                bs[t].bloom_file@,
                Ok::<SSTable<K, V>, SSTableError>(lsm.sstables()[t]),
            ),
    ensures
        tables_built(&lsm, es, bs),
{
    assert forall|t: int| 0 <= t < es.len() implies serves_as(lsm.sstables()[t], (#[trigger] bs[t]).table) by {
        assert(built_from(es[t], bs[t]));
        lemma_load_serves(es[t], bs[t], Ok::<SSTable<K, V>, SSTableError>(lsm.sstables()[t]));
    }
}

} // verus!
