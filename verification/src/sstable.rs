//! Sorted string tables: immutable, sorted runs of entries cut into blocks,
//! found again through a sparse index and a Bloom filter.
pub mod compaction;
pub mod config;
pub mod layout;

use crate::sparse_index::{SparseIndex, keys_view};
use crate::sstable_entry::{SSTableEntry, entries_bytes, entries_fit, opt_view, pairs_view, parse_entries, zip_view};
use crate::search::{key_eq, key_lt, key_model, strictly_sorted, total_order};
use crate::traits::SSTableError;
use core::marker::PhantomData;
use vstd::prelude::*;
use vstd::slice::slice_subrange;

verus! {

/// A value that can be written to and read back from bytes.
///
/// The format of a value is given by `spec_serialize`; `spec_deserialize`
/// reads it back, and an implementation proves that reading back what was
/// written gives the value again.
pub trait ToBytes: Sized + View {
    /// The bytes that stand for a value.
    spec fn spec_serialize(v: Self::V) -> Seq<u8>;

    /// Whether a byte string stands for some value.
    spec fn spec_deserializable(bytes: Seq<u8>) -> bool;

    /// The value that a byte string stands for.
    spec fn spec_deserialize(bytes: Seq<u8>) -> Self::V;

    fn serialize(&self) -> (r: Vec<u8>)
        ensures
            r@ == Self::spec_serialize(self@),
    ;

    fn deserialize(v: &[u8]) -> (r: Self)
        requires
            Self::spec_deserializable(v@),
        ensures
            r@ == Self::spec_deserialize(v@),
    ;

    fn bytes_len(&self) -> (r: usize)
        ensures
            r as nat == Self::spec_serialize(self@).len(),
    ;

    /// Tells whether `deserialize` accepts the bytes.
    fn is_deserializable(v: &[u8]) -> (r: bool)
        ensures
            r == Self::spec_deserializable(v@),
    ;

    /// What is written can be read back.
    proof fn lemma_serialize_roundtrip(v: Self::V)
        ensures
            Self::spec_deserializable(Self::spec_serialize(v)),
            Self::spec_deserialize(Self::spec_serialize(v)) == v,
    ;
}

/// Whether a run of entries holds `key` with the value or tombstone `v`.
pub open spec fn block_holds<K: ToBytes, V: ToBytes>(p: Seq<(K::V, Option<V::V>)>, key: K::V, v: Option<V::V>) -> bool {
    exists|i: int| 0 <= i < p.len() && p[i].0 == key && p[i].1 == v
}

/// Whether a run of entries lacks `key`.
pub open spec fn block_lacks<K: ToBytes, V: ToBytes>(p: Seq<(K::V, Option<V::V>)>, key: K::V) -> bool {
    forall|i: int| 0 <= i < p.len() ==> p[i].0 != key
}

/// The keys of a run of entries.
pub open spec fn entry_keys<K: ToBytes, V: ToBytes>(p: Seq<(K::V, Option<V::V>)>) -> Seq<K::V> {
    Seq::new(p.len(), |i: int| p[i].0)
}

/// Whether keys with these views are in strictly increasing order.
pub open spec fn views_sorted<K: Ord + View>(ks: Seq<K::V>) -> bool {
    forall|a: Seq<K>| keys_view(a) == ks ==> strictly_sorted(a)
}

/// The number of entries in a block.
pub const SPARSITY: usize = 100;

/// The zstd frame that `zstd::encode_all` makes of some bytes at the crate's
/// default level.
pub uninterp spec fn zstd_frame(data: Seq<u8>) -> Seq<u8>;

/// The bytes that `zstd::decode_all` reads from a frame, if it can.
pub uninterp spec fn zstd_content(frame: Seq<u8>) -> Option<Seq<u8>>;

/// `zstd::encode_all` at `zstd::DEFAULT_COMPRESSION_LEVEL`: the frame of the
/// bytes, named `zstd_frame`, from which `zstd::decode_all` gives the bytes
/// back (the compression is lossless). On a slice at the default level it
/// fails only where zstd cannot allocate its context, which is not modelled.
#[verifier::external_body]
fn compress(data: &[u8]) -> (r: Option<Vec<u8>>)
    ensures
        r is Some,
        r matches Some(c) ==> c@ == zstd_frame(data@),
        r matches Some(c) ==> zstd_content(c@) == Some(data@),
{
    zstd::encode_all(data, zstd::DEFAULT_COMPRESSION_LEVEL).ok()
}

/// `zstd::decode_all`: the content of a frame, named `zstd_content`;
/// decompressing the frame of some bytes gives those bytes back.
#[verifier::external_body]
fn decompress(data: &[u8]) -> (r: Option<Vec<u8>>)
    ensures
        r matches Some(v) ==> zstd_content(data@) == Some(v@),
        r is None ==> zstd_content(data@) is None,
        r is None ==> forall|d: Seq<u8>| data@ != #[trigger] zstd_frame(d),
        r matches Some(v) ==> forall|d: Seq<u8>| data@ == #[trigger] zstd_frame(d) ==> v@ == d,
{
    zstd::decode_all(data).ok()
}

/// A Bloom filter of `fastbloom`, over byte strings. The filter is held in a
/// struct of its own: its default hasher type is private to `fastbloom`, so
/// the filter type cannot be declared directly. A filter without bits cannot
/// be queried (`fastbloom` indexes its first word); the library checks the
/// number of bits wherever a filter comes in.
#[verifier::external_body]
pub struct Bloom {
    pub filter: fastbloom::BloomFilter,
}

/// The byte strings for which the bits of a Bloom filter answer yes: every
/// string inserted, and the false positives that the bits set for them let
/// through.
pub uninterp spec fn bloom_items(b: Bloom) -> Set<Seq<u8>>;

/// The number of bits of a Bloom filter, fixed when it is made.
pub uninterp spec fn bloom_bits(b: Bloom) -> nat;

/// `BloomFilter::num_bits`.
#[verifier::external_body]
fn bloom_bit_count(b: &Bloom) -> (r: usize)
    ensures
        r == bloom_bits(*b),
{
    b.filter.num_bits()
}

/// `BloomFilter::insert`: sets bits, so that the filter answers yes for the
/// bytes and for everything it answered yes for before (and maybe for more);
/// the number of bits stays.
#[verifier::external_body]
fn bloom_insert(b: &mut Bloom, item: &[u8])
    requires
        bloom_bits(*old(b)) > 0,
    ensures
        bloom_items(*old(b)).insert(item@).subset_of(bloom_items(*final(b))),
        bloom_bits(*final(b)) == bloom_bits(*old(b)),
{
    b.filter.insert(item);
}

/// `BloomFilter::contains`: whether the filter's bits answer yes for the
/// bytes.
#[verifier::external_body]
fn bloom_contains(b: &Bloom, item: &[u8]) -> (r: bool)
    requires
        bloom_bits(*b) > 0,
    ensures
        r == bloom_items(*b).contains(item@),
{
    b.filter.contains(item)
}

/// What `bincode::deserialize` reads from bytes as a Bloom filter: the items
/// and number of bits of the filter, or none where bincode refuses the bytes.
pub uninterp spec fn bloom_decoded(bytes: Seq<u8>) -> Option<(Set<Seq<u8>>, nat)>;

/// Whether bytes read back as a filter with the bits of `b` that holds every
/// item `b` holds.
pub open spec fn bloom_saved_from(bytes: Seq<u8>, b: Bloom) -> bool {
    bloom_decoded(bytes) matches Some((items, bits)) && bloom_items(b).subset_of(items) && bits == bloom_bits(b)
}

/// `bincode::serialize` of the filter, which cannot fail for it: bytes that
/// read back as a filter with the same bits and hasher, so holding every
/// item this one holds. The bytes themselves (they hold a randomly seeded
/// hasher) are not stated.
#[verifier::external_body]
fn bloom_to_bytes(b: &Bloom) -> (r: Option<Vec<u8>>)
    ensures
        r is Some,
        r matches Some(v) ==> bloom_saved_from(v@, *b),
{
    bincode::serialize(&b.filter).ok()
}

/// `bincode::deserialize` into a filter: a filter exactly where bincode
/// accepts the bytes, holding what the bytes were written from.
#[verifier::external_body]
fn bloom_from_bytes(bytes: &[u8]) -> (r: Option<Bloom>)
    ensures
        r is Some <==> bloom_decoded(bytes@) is Some,
        r matches Some(f) ==> bloom_decoded(bytes@) == Some((bloom_items(f), bloom_bits(f))),
{
    match bincode::deserialize(bytes) {
        Ok(filter) => Some(Bloom { filter }),
        Err(_) => None,
    }
}

/// The entries of block `c` of a run: up to `SPARSITY` entries from
/// position `c * SPARSITY` on.
pub open spec fn block_entries<T>(s: Seq<T>, c: nat) -> Seq<T> {
    let start = (c * 100) as int;
    let end = if start + 100 <= s.len() {
        start + 100
    } else {
        s.len() as int
    };
    s.subrange(start, end)
}

/// The number of blocks of a run of `n` entries.
pub open spec fn block_count(n: nat) -> nat {
    ((n + 99) / 100) as nat
}

/// The heap of a table after its first `c` blocks: each block's entries in
/// the block format, compressed.
pub open spec fn heap_bytes<K: ToBytes, V: ToBytes>(s: Seq<(K::V, Option<V::V>)>, c: nat) -> Seq<u8>
    decreases c,
{
    if c == 0 {
        Seq::empty()
    } else {
        heap_bytes::<K, V>(s, (c - 1) as nat) + zstd_frame(entries_bytes::<K, V>(block_entries(s, (c - 1) as nat)))
    }
}

/// The offsets of a table with `c` blocks: where each block starts, then
/// where the last ends.
pub open spec fn heap_offsets<K: ToBytes, V: ToBytes>(s: Seq<(K::V, Option<V::V>)>, c: nat) -> Seq<u64> {
    Seq::new(c + 1, |j: int| heap_bytes::<K, V>(s, j as nat).len() as u64)
}

/// Whether each of the first `c` blocks of a run decompresses from its frame
/// to its bytes again.
pub open spec fn blocks_decode<K: ToBytes, V: ToBytes>(s: Seq<(K::V, Option<V::V>)>, c: nat) -> bool {
    forall|j: nat|
        j < c ==> zstd_content(zstd_frame(#[trigger] entries_bytes::<K, V>(block_entries(s, j)))) == Some(
            entries_bytes::<K, V>(block_entries(s, j)),
        )
}

/// A sorted string table: the sparse index of its blocks and a Bloom filter
/// of its keys. The blocks live in a heap of bytes kept elsewhere.
pub struct SSTable<K: Ord + ToBytes, V: ToBytes> {
    index: SparseIndex<K>,
    bloom: Bloom,
    _marker: PhantomData<V>,
}

/// A table as built: the table, and the bytes of its heap, index file and
/// Bloom filter file.
pub struct BuiltTable<K: Ord + ToBytes, V: ToBytes> {
    pub table: SSTable<K, V>,
    pub heap: Vec<u8>,
    pub index_file: Vec<u8>,
    pub bloom_file: Vec<u8>,
}

impl<K: Ord + ToBytes, V: ToBytes> SSTable<K, V> {
    /// The sparse index.
    pub closed spec fn index(&self) -> SparseIndex<K> {
        self.index
    }

    /// The Bloom filter.
    pub closed spec fn bloom(&self) -> Bloom {
        self.bloom
    }

    pub fn new(index: SparseIndex<K>, bloom: Bloom) -> (r: Self)
        ensures
            r.index() == index,
            r.bloom() == bloom,
    {
        SSTable { index, bloom, _marker: PhantomData }
    }

    /// The byte range of the block that may hold `key`; none where the Bloom
    /// filter or the index rules the key out.
    pub fn locate(&self, key: &K) -> (r: Option<(u64, u64)>)
        requires
            total_order::<K>(),
            self.wf(),
        ensures
            strictly_sorted(self.index().keys()) ==> {
                &&& r is Some ==> r == self.index().block_at(*key)
                &&& r is None ==> self.index().block_at(*key) is None || !bloom_items(
                    self.bloom(),
                ).contains(K::spec_serialize(key@))
            },
    {
        let kb = key.serialize();
        if !bloom_contains(&self.bloom, kb.as_slice()) {
            return None;
        }
        self.index.get_offset(key)
    }

    /// Reads `key` from a compressed block: its value or tombstone, or none
    /// where the block does not hold it.
    pub fn read_block(compressed: &[u8], key: &K) -> (r: Result<Option<Option<V>>, SSTableError>)
        requires
            key_model::<K>(),
        ensures
            block_read::<K, V>(compressed@, key@, r),
    {
        let data = match decompress(compressed) {
            Some(d) => d,
            None => return Err(SSTableError::IO),
        };
        let ghost p = parse_entries::<K, V>(data@);
        let entry: SSTableEntry<K, V> = SSTableEntry::from_buf(data);
        let ghost ks = entry.keys();
        let ghost vs = entry.values();
        assert(entry.entries() == p);
        let found = entry.take(key);
        proof {
            match &found {
                Some(v) => {
                    let i = choose|i: int| 0 <= i < ks.len() && key_eq(#[trigger] ks[i], *key) && *v == vs[i];
                    assert(p[i] == zip_view(ks, vs)[i]);
                },
                None => {
                    if views_sorted::<K>(entry_keys::<K, V>(p)) {
                        assert(keys_view(ks) =~= entry_keys::<K, V>(p));
                        assert forall|i: int| 0 <= i < p.len() implies p[i].0 != key@ by {
                            assert(p[i] == zip_view(ks, vs)[i]);
                            assert(!key_eq(ks[i], *key));
                        }
                    }
                },
            }
        }
        Ok(found)
    }
}

/// The bytes of the heap between two offsets, when they are in order and in
/// range.
pub open spec fn heap_range(heap: Seq<u8>, start: u64, end: u64) -> Option<Seq<u8>> {
    if start <= end <= heap.len() {
        Some(heap.subrange(start as int, end as int))
    } else {
        None
    }
}

/// Whether reading `key` from a compressed block gives `found`: the block
/// decompresses, and holds the key with that value or tombstone, or lacks it
/// (where its keys are sorted).
pub open spec fn block_gives<K: Ord + ToBytes, V: ToBytes>(compressed: Seq<u8>, key: K::V, found: Option<Option<V::V>>) -> bool {
    match zstd_content(compressed) {
        Some(block) => match found {
            Some(v) => block_holds::<K, V>(parse_entries::<K, V>(block), key, v),
            None => views_sorted::<K>(entry_keys::<K, V>(parse_entries::<K, V>(block))) ==> block_lacks::<K, V>(
                parse_entries::<K, V>(block),
                key,
            ),
        },
        None => false,
    }
}

/// What reading a key from a compressed block may give: what the block
/// gives, or an I/O error where it does not decompress.
pub open spec fn block_read<K: Ord + ToBytes, V: ToBytes>(
    compressed: Seq<u8>,
    key: K::V,
    r: Result<Option<Option<V>>, SSTableError>,
) -> bool {
    match r {
        Ok(found) => block_gives::<K, V>(compressed, key, found_view(found)),
        Err(e) => e == SSTableError::IO && zstd_content(compressed) is None,
    }
}

/// The view of what a lookup found.
pub open spec fn found_view<V: View>(f: Option<Option<V>>) -> Option<Option<V::V>> {
    match f {
        Some(v) => Some(opt_view(v)),
        None => None,
    }
}

/// What a lookup of `key` in a table with heap `heap` may give, where the
/// table's first keys are sorted: where the index has no block for the key,
/// none; where it has one, none when the Bloom filter rules the key out, or
/// what the block read from the heap gives; the block's range out of the
/// heap is corrupt data, and a block that does not decompress an I/O error.
pub open spec fn get_outcome<K: Ord + ToBytes, V: ToBytes>(
    table: &SSTable<K, V>,
    heap: Seq<u8>,
    key: K,
    r: Result<Option<Option<V>>, SSTableError>,
) -> bool {
    match r {
        Ok(found) => match table.index().block_at(key) {
            Some((start, end)) => (found is None && !bloom_items(table.bloom()).contains(K::spec_serialize(key@)))
                || (heap_range(heap, start, end) matches Some(c) && block_gives::<K, V>(c, key@, found_view(found))),
            None => found is None,
        },
        Err(e) => match table.index().block_at(key) {
            Some((start, end)) => match heap_range(heap, start, end) {
                Some(c) => e == SSTableError::IO && zstd_content(c) is None,
                None => e == SSTableError::CorruptData,
            },
            None => false,
        },
    }
}

impl<K: Ord + ToBytes, V: ToBytes> SSTable<K, V> {
    /// Reads `key` from a table whose heap is `heap`: finds the block that may
    /// hold it and reads the key from the block.
    pub fn get(&self, heap: &[u8], key: &K) -> (r: Result<Option<Option<V>>, SSTableError>)
        requires
            key_model::<K>(),
            self.wf(),
        ensures
            strictly_sorted(self.index().keys()) ==> get_outcome(self, heap@, *key, r),
    {
        let (start, end) = match self.locate(key) {
            Some(range) => range,
            None => return Ok(None),
        };
        let n = heap.len();
        if start > end || end > n as u64 {
            return Err(SSTableError::CorruptData);
        }
        let block = slice_subrange(heap, start as usize, end as usize);
        Self::read_block(block, key)
    }
}

/// What building a table from `entries` gives: the heap holds each block of
/// `SPARSITY` entries compressed, the index has the first key of each block
/// (cloned) and the offsets where the blocks end, every key is in the Bloom
/// filter, the index file is the index compressed, and each block
/// decompresses to its bytes again.
pub open spec fn built_from<K: Ord + ToBytes + Clone, V: ToBytes>(entries: Seq<(&K, &Option<V>)>, b: BuiltTable<K, V>) -> bool {
    let s = pairs_view(entries);
    let c = block_count(entries.len());
    &&& b.heap@ == heap_bytes::<K, V>(s, c)
    &&& b.table.index().offsets() == heap_offsets::<K, V>(s, c)
    &&& b.table.index().keys().len() == c
    &&& forall|j: int| 0 <= j < c ==> cloned(*entries[j * 100].0, #[trigger] b.table.index().keys()[j])
    &&& forall|i: int| 0 <= i < entries.len() ==> bloom_items(b.table.bloom()).contains(
        K::spec_serialize((#[trigger] entries[i]).0@),
    )
    &&& b.index_file@ == zstd_frame(
        crate::sparse_index::index_bytes::<K>(keys_view(b.table.index().keys()), b.table.index().offsets()),
    )
    &&& zstd_content(b.index_file@) == Some(
        crate::sparse_index::index_bytes::<K>(keys_view(b.table.index().keys()), b.table.index().offsets()),
    )
    &&& crate::sparse_index::keys_fit::<K>(keys_view(b.table.index().keys()))
    &&& bloom_bits(b.table.bloom()) > 0
    &&& zstd_content(b.bloom_file@) matches Some(bb) && bloom_saved_from(bb, b.table.bloom())
    &&& entries_fit::<K, V>(s)
    &&& blocks_decode::<K, V>(s, c)
}

impl<K: Ord + ToBytes + Clone, V: ToBytes> SSTable<K, V> {
    /// Builds a table from entries in key order: cuts them into blocks of
    /// `SPARSITY` entries, writes each block in the block format and
    /// compresses it onto the heap, records the first key and end offset of
    /// each block in the index, and adds every key to the Bloom filter. Gives
    /// the table with its heap, its compressed index and its compressed filter.
    /// It fails, with `Bloom`, exactly where the filter given has no bits.
    pub fn build(entries: &Vec<(&K, &Option<V>)>, bloom: Bloom) -> (r: Result<BuiltTable<K, V>, SSTableError>)
        ensures
            r is Ok <==> bloom_bits(bloom) > 0,
            r matches Ok(b) ==> built_from(entries@, b),
            r matches Err(e) ==> e == SSTableError::Bloom,
    {
        if bloom_bit_count(&bloom) == 0 {
            return Err(SSTableError::Bloom);
        }
        let ghost bits = bloom_bits(bloom);
        let ghost s = pairs_view(entries@);
        let n = entries.len();
        let mut index: SparseIndex<K> = SparseIndex::new();
        let mut heap: Vec<u8> = Vec::new();
        let mut bloom = bloom;
        let mut c: usize = 0;
        let mut i: usize = 0;
        assert(heap_offsets::<K, V>(s, 0) =~= seq![0u64]);
        while i < n
            invariant
                n == entries@.len(),
                s == pairs_view(entries@),
                bits > 0,
                bloom_bits(bloom) == bits,
                i <= n,
                i < n ==> i == c * 100,
                c == block_count(i as nat),
                heap@ == heap_bytes::<K, V>(s, c as nat),
                index.offsets() == heap_offsets::<K, V>(s, c as nat),
                index.keys().len() == c,
                forall|j: int| 0 <= j < c ==> cloned(*entries@[j * 100].0, #[trigger] index.keys()[j]),
                forall|k: int| 0 <= k < i ==> bloom_items(bloom).contains(
                    K::spec_serialize((#[trigger] entries@[k]).0@),
                ),
                entries_fit::<K, V>(s.take(i as int)),
                blocks_decode::<K, V>(s, c as nat),
            decreases n - i,
        {
            let end = if n - i > 100 {
                i + 100
            } else {
                n
            };
            let mut block: Vec<(&K, &Option<V>)> = Vec::new();
            let mut j = i;
            while j < end
                invariant
                    i <= j <= end <= n,
                    n == entries@.len(),
                    bits > 0,
                    bloom_bits(bloom) == bits,
                    block@ == entries@.subrange(i as int, j as int),
                    forall|k: int| 0 <= k < j ==> bloom_items(bloom).contains(
                        K::spec_serialize((#[trigger] entries@[k]).0@),
                    ),
                decreases end - j,
            {
                let pair = entries[j];
                let kb = pair.0.serialize();
                bloom_insert(&mut bloom, kb.as_slice());
                block.push(pair);
                j = j + 1;
            }
            assert(pairs_view(block@) =~= block_entries(s, c as nat));
            let buf = SSTableEntry::to_buf(&block);
            let compressed = match compress(buf.as_slice()) {
                Some(cb) => cb,
                None => return Err(SSTableError::IO),
            };
            assert(entries_fit::<K, V>(s.take(end as int))) by {
                let blk = block_entries(s, c as nat);
                assert(blk =~= s.subrange(i as int, end as int));
                assert(entries_fit::<K, V>(blk));
                assert forall|k: int| 0 <= k < end implies {
                    &&& K::spec_serialize(#[trigger] s.take(end as int)[k].0).len() <= u64::MAX
                    &&& match s.take(end as int)[k].1 {
                        Some(x) => V::spec_serialize(x).len() <= u64::MAX,
                        None => true,
                    }
                } by {
                    if k < i {
                        assert(s.take(end as int)[k] == s.take(i as int)[k]);
                    } else {
                        assert(s.take(end as int)[k] == blk[k - i]);
                        assert(K::spec_serialize(blk[k - i].0).len() <= u64::MAX);
                    }
                }
            }
            assert(blocks_decode::<K, V>(s, (c + 1) as nat));
            let last = match index.last_offset() {
                Some(o) => *o,
                None => 0,
            };
            let ghost old_heap = heap@;
            let mut cb = compressed;
            let added = cb.len();
            heap.append(&mut cb);
            let heap_len = heap.len();
            assert(last == old_heap.len() as u64);
            let first = entries[i].0.clone();
            index.add_pair(first, heap_len as u64);
            assert(index.offsets() =~= heap_offsets::<K, V>(s, (c + 1) as nat));
            c = c + 1;
            i = end;
        }
        assert(s.take(n as int) =~= s);
        let index_buf = index.to_buf();
        let index_file = match compress(index_buf.as_slice()) {
            Some(f) => f,
            None => return Err(SSTableError::IO),
        };
        let bloom_buf = match bloom_to_bytes(&bloom) {
            Some(b) => b,
            None => return Err(SSTableError::Bloom),
        };
        let bloom_file = match compress(bloom_buf.as_slice()) {
            Some(f) => f,
            None => return Err(SSTableError::IO),
        };
        Ok(BuiltTable { table: SSTable::new(index, bloom), heap, index_file, bloom_file })
    }
}

/// What loading a table from its index and filter files gives: the first
/// failure among the index not decompressing (`IO`), not parsing or lacking
/// an offset after its last key (`CorruptData`), the filter not
/// decompressing (`IO`), bincode refusing it or it having no bits (`Bloom`);
/// otherwise the table with the keys and offsets of the index and the items
/// and bits of the filter.
pub open spec fn load_outcome<K: Ord + ToBytes, V: ToBytes>(
    index_file: Seq<u8>,
    bloom_file: Seq<u8>,
    r: Result<SSTable<K, V>, SSTableError>,
) -> bool {
    match zstd_content(index_file) {
        None => r matches Err(e) && e == SSTableError::IO,
        Some(ib) => match crate::sparse_index::parse_index::<K>(ib) {
            None => r matches Err(e) && e == SSTableError::CorruptData,
            Some((ks, os)) => if os.len() <= ks.len() {
                r matches Err(e) && e == SSTableError::CorruptData
            } else {
                match zstd_content(bloom_file) {
                    None => r matches Err(e) && e == SSTableError::IO,
                    Some(bb) => match bloom_decoded(bb) {
                        None => r matches Err(e) && e == SSTableError::Bloom,
                        Some((items, bits)) => if bits == 0 {
                            r matches Err(e) && e == SSTableError::Bloom
                        } else {
                            r matches Ok(t) && keys_view(t.index().keys()) == ks && t.index().offsets() == os
                                && bloom_items(t.bloom()) == items && bloom_bits(t.bloom()) == bits
                        },
                    },
                }
            },
        },
    }
}

impl<K: Ord + ToBytes, V: ToBytes> SSTable<K, V> {
    /// Whether lookups in the table are defined: an offset after each key, and
    /// a Bloom filter with bits.
    pub open spec fn wf(&self) -> bool {
        &&& self.index().offsets().len() > self.index().keys().len()
        &&& bloom_bits(self.bloom()) > 0
    }

    /// The table cannot hold `key`: its index has no block for it, or the key
    /// is not in its Bloom filter (where its first keys are sorted).
    pub open spec fn rules_out(&self, key: K) -> bool {
        strictly_sorted(self.index().keys()) ==> (self.index().block_at(key) is None || !bloom_items(
            self.bloom(),
        ).contains(K::spec_serialize(key@)))
    }

    /// Reads a table's index back from its compressed file.
    pub fn load_index(index_file: &[u8]) -> (r: Result<SparseIndex<K>, SSTableError>)
        ensures
            match r {
                Ok(i) => zstd_content(index_file@) matches Some(b) && crate::sparse_index::parse_index::<K>(b) == Some(
                    (keys_view(i.keys()), i.offsets()),
                ),
                Err(e) => match zstd_content(index_file@) {
                    None => e == SSTableError::IO,
                    Some(b) => e == SSTableError::CorruptData && crate::sparse_index::parse_index::<K>(b) is None,
                },
            },
    {
        let index_buf = match decompress(index_file) {
            Some(b) => b,
            None => return Err(SSTableError::IO),
        };
        SparseIndex::from_buf(index_buf)
    }

    /// Loads a table from its compressed index and compressed Bloom filter.
    /// An index with no offset after its last key is corrupt; a filter that
    /// bincode refuses, or that has no bits, is a `Bloom` error.
    pub fn load(index_file: &[u8], bloom_file: &[u8]) -> (r: Result<Self, SSTableError>)
        ensures
            load_outcome(index_file@, bloom_file@, r),
            r matches Ok(t) ==> t.wf(),
    {
        let index = match Self::load_index(index_file) {
            Ok(i) => i,
            Err(e) => return Err(e),
        };
        if index.offsets_len() <= index.len() {
            return Err(SSTableError::CorruptData);
        }
        let bloom_buf = match decompress(bloom_file) {
            Some(b) => b,
            None => return Err(SSTableError::IO),
        };
        let bloom = match bloom_from_bytes(bloom_buf.as_slice()) {
            Some(b) => b,
            None => return Err(SSTableError::Bloom),
        };
        if bloom_bit_count(&bloom) == 0 {
            return Err(SSTableError::Bloom);
        }
        Ok(SSTable::new(index, bloom))
    }

    /// The byte ranges of the blocks, in order.
    pub fn block_ranges(&self) -> (r: Vec<(u64, u64)>)
        requires
            self.wf(),
        ensures
            r@.len() == self.index().keys().len(),
            forall|i: int|
                0 <= i < r@.len() ==> #[trigger] r@[i] == (self.index().offsets()[i], self.index().offsets()[i
                    + 1]),
    {
        self.index.block_ranges()
    }
}

/// The keys of borrowed pairs.
pub open spec fn pair_keys<K, V>(p: Seq<(&K, &Option<V>)>) -> Seq<K> {
    Seq::new(p.len(), |i: int| *p[i].0)
}

/// The heap after `k` blocks is the start of the heap after `c` blocks.
proof fn lemma_heap_prefix<K: ToBytes, V: ToBytes>(s: Seq<(K::V, Option<V::V>)>, k: nat, c: nat)
    requires
        k <= c,
    ensures
        heap_bytes::<K, V>(s, k).len() <= heap_bytes::<K, V>(s, c).len(),
        heap_bytes::<K, V>(s, c).subrange(0, heap_bytes::<K, V>(s, k).len() as int) == heap_bytes::<K, V>(s, k),
    decreases c,
{
    if k < c {
        lemma_heap_prefix::<K, V>(s, k, (c - 1) as nat);
        let prev = heap_bytes::<K, V>(s, (c - 1) as nat);
        let hk = heap_bytes::<K, V>(s, k);
        assert(heap_bytes::<K, V>(s, c).subrange(0, hk.len() as int) =~= prev.subrange(0, hk.len() as int));
    } else {
        assert(heap_bytes::<K, V>(s, c).subrange(0, heap_bytes::<K, V>(s, c).len() as int) =~= heap_bytes::<K, V>(s, c));
    }
}

/// Whether a compressed block decompresses to entries, in key order, that
/// hold `key` once, with `v`.
pub open spec fn holds_once<K: Ord + ToBytes, V: ToBytes>(c: Seq<u8>, key: K::V, v: Option<V::V>) -> bool {
    match zstd_content(c) {
        Some(bytes) => entries_hold_once::<K, V>(parse_entries::<K, V>(bytes), key, v),
        None => false,
    }
}

/// Whether entries in key order hold `key` once, with `v`.
pub open spec fn entries_hold_once<K: Ord + ToBytes, V: ToBytes>(p: Seq<(K::V, Option<V::V>)>, key: K::V, v: Option<V::V>) -> bool {
    &&& views_sorted::<K>(entry_keys::<K, V>(p))
    &&& exists|pos: int| 0 <= pos < p.len() && p[pos] == (key, v)
    &&& forall|t: int, u: int| 0 <= t < p.len() && 0 <= u < p.len() && p[t].0 == p[u].0 ==> t == u
}

/// A block holds a key once when it decompresses to entries in key order
/// that hold the key at some position and no key twice.
proof fn lemma_holds_once_intro<K: Ord + ToBytes, V: ToBytes>(c: Seq<u8>, bytes: Seq<u8>, pos: int, key: K::V, v: Option<V::V>)
    requires
        zstd_content(c) == Some(bytes),
        views_sorted::<K>(entry_keys::<K, V>(parse_entries::<K, V>(bytes))),
        0 <= pos < parse_entries::<K, V>(bytes).len(),
        parse_entries::<K, V>(bytes)[pos] == (key, v),
        forall|t: int, u: int|
            0 <= t < parse_entries::<K, V>(bytes).len() && 0 <= u < parse_entries::<K, V>(bytes).len()
                && parse_entries::<K, V>(bytes)[t].0 == parse_entries::<K, V>(bytes)[u].0 ==> t == u,
    ensures
        holds_once::<K, V>(c, key, v),
{
    let p = parse_entries::<K, V>(bytes);
    assert(p[pos] == (key, v));
    assert(entries_hold_once::<K, V>(p, key, v));
}

/// Where an entry of a built table is found again: the index sends its key
/// to a block whose range of the heap decompresses to bytes that hold the
/// entry, as stored, at one place only, with the keys in order; and the key
/// is in the Bloom filter.
#[verifier::spinoff_prover]
pub proof fn lemma_built_block<K: Ord + ToBytes + Clone, V: ToBytes>(
    entries: Seq<(&K, &Option<V>)>,
    b: BuiltTable<K, V>,
    i: int,
) -> (range: (u64, u64))
    requires
        key_model::<K>(),
        forall|x: K, y: K| #[trigger] cloned(x, y) ==> x == y,
        strictly_sorted(pair_keys(entries)),
        built_from(entries, b),
        0 <= i < entries.len(),
    ensures
        b.table.index().block_at(*entries[i].0) == Some(range),
        strictly_sorted(b.table.index().keys()),
        bloom_items(b.table.bloom()).contains(K::spec_serialize(entries[i].0@)),
        heap_range(b.heap@, range.0, range.1) matches Some(c) && holds_once::<K, V>(
            c,
            entries[i].0@,
            crate::sstable_entry::stored_value::<V>(opt_view(*entries[i].1)),
        ),
{
    let s = pairs_view(entries);
    let n = entries.len();
    let c = block_count(n);
    let ks = pair_keys(entries);
    let key = *entries[i].0;
    let index = b.table.index();
    let j: int = i / 100;
    assert(0 <= j < c);
    assert(j * 100 <= i < j * 100 + 100);
    // The index keys are the first keys of the blocks.
    assert forall|t: int| 0 <= t < c implies #[trigger] index.keys()[t] == ks[t * 100] by {
        assert(cloned(*entries[t * 100].0, index.keys()[t]));
        assert(t * 100 < n) by (nonlinear_arith)
            requires
                0 <= t < c,
                c == (n + 99) / 100,
        ;
    }
    assert(strictly_sorted(index.keys())) by {
        assert forall|x: int, y: int| 0 <= x < y < index.keys().len() implies key_lt(
            #[trigger] index.keys()[x],
            #[trigger] index.keys()[y],
        ) by {
            assert(x * 100 < y * 100) by (nonlinear_arith)
                requires
                    x < y,
            ;
            assert(y * 100 < n) by (nonlinear_arith)
                requires
                    0 <= y < c,
                    c == (n + 99) / 100,
            ;
            assert(key_lt(ks[x * 100], ks[y * 100]));
        }
    }
    // The key falls in block `j`.
    assert(key_eq(key, key));
    assert(!key_lt(key, index.keys()[j])) by {
        if j * 100 < i {
            assert(key_lt(ks[j * 100], ks[i]));
            crate::search::lemma_lt_asymmetric(ks[j * 100], ks[i]);
        }
    }
    assert(j + 1 == index.keys().len() || key_lt(key, index.keys()[j + 1])) by {
        if j + 1 < c {
            assert((j + 1) * 100 < n) by (nonlinear_arith)
                requires
                    0 <= j + 1 < c,
                    c == (n + 99) / 100,
            ;
            assert(key_lt(ks[i], ks[(j + 1) * 100]));
        }
    }
    index.lemma_block_unique(key, j);
    let start = index.offsets()[j];
    let end = index.offsets()[j + 1];
    assert(index.block_at(key) == Some((start, end)));
    // The block's range of the heap is its frame, which reads back as the
    // block's entries as stored.
    lemma_block_frame(entries, b, j);
    let blk = block_entries(s, j as nat);
    let frame = heap_range(b.heap@, start, end)->0;
    let bytes = zstd_content(frame)->0;
    let p = parse_entries::<K, V>(bytes);
    assert(p == crate::sstable_entry::stored_entries::<K, V>(blk));
    let lo = j * 100;
    let pos = i - lo;
    assert(0 <= pos < p.len());
    assert(p[pos].0 == key@);
    // Each key's view is held once in the block.
    assert forall|t: int, u: int| 0 <= t < p.len() && 0 <= u < p.len() && p[t].0 == p[u].0 implies t == u by {
        assert(p[t].0 == blk[t].0 && blk[t].0 == ks[lo + t]@);
        assert(p[u].0 == blk[u].0 && blk[u].0 == ks[lo + u]@);
        assert(ks[lo + t]@ == ks[lo + u]@);
        assert(ks[lo + t] == ks[lo + u]);
        assert(key_eq(ks[lo + t], ks[lo + t]));
        if t < u {
            assert(key_lt(ks[lo + t], ks[lo + u]));
        } else if u < t {
            assert(key_lt(ks[lo + u], ks[lo + t]));
        }
    }
    assert(views_sorted::<K>(entry_keys::<K, V>(p))) by {
        assert forall|a: Seq<K>| keys_view(a) == entry_keys::<K, V>(p) implies strictly_sorted(a) by {
            assert forall|x: int, y: int| 0 <= x < y < a.len() implies key_lt(#[trigger] a[x], #[trigger] a[y]) by {
                assert(keys_view(a).len() == entry_keys::<K, V>(p).len());
                assert(a.len() == p.len());
                assert(keys_view(a)[x] == entry_keys::<K, V>(p)[x]);
                assert(keys_view(a)[y] == entry_keys::<K, V>(p)[y]);
                assert(p[x].0 == blk[x].0);
                assert(p[y].0 == blk[y].0);
                assert(a[x]@ == (*entries[lo + x].0)@);
                assert(a[y]@ == (*entries[lo + y].0)@);
                assert(key_lt(ks[lo + x], ks[lo + y]));
            }
        }
    }
    assert(p[pos] == (entries[i].0@, crate::sstable_entry::stored_value::<V>(opt_view(*entries[i].1))));
    lemma_holds_once_intro::<K, V>(frame, bytes, pos, key@, crate::sstable_entry::stored_value::<V>(opt_view(*entries[i].1)));
    assert(bloom_items(b.table.bloom()).contains(K::spec_serialize(entries[i].0@)));
    (start, end)
}

/// Lookup law: every entry of a table built from entries in strictly
/// increasing key order is found again by a lookup in the built table and its
/// heap, with its value or tombstone as it is stored (a value whose bytes are
/// empty is stored as a tombstone). Keys must be cloned faithfully, as the
/// index holds clones of them.
pub proof fn lemma_build_then_get<K: Ord + ToBytes + Clone, V: ToBytes>(
    entries: Seq<(&K, &Option<V>)>,
    b: BuiltTable<K, V>,
    i: int,
    r: Result<Option<Option<V>>, SSTableError>,
)
    requires
        key_model::<K>(),
        forall|x: K, y: K| #[trigger] cloned(x, y) ==> x == y,
        strictly_sorted(pair_keys(entries)),
        built_from(entries, b),
        0 <= i < entries.len(),
        get_outcome(&b.table, b.heap@, *entries[i].0, r),
    ensures
        r matches Ok(found) && found_view(found) == Some(
            crate::sstable_entry::stored_value::<V>(opt_view(*entries[i].1)),
        ),
{
    let range = lemma_built_block(entries, b, i);
    let key = *entries[i].0;
    let c = heap_range(b.heap@, range.0, range.1)->0;
    assert(b.table.index().block_at(key) == Some(range));
    assert(heap_range(b.heap@, range.0, range.1) == Some(c));
    lemma_block_finds::<K, V>(c, entries[i].0@, crate::sstable_entry::stored_value::<V>(opt_view(*entries[i].1)), r);
}

/// A block that holds a key once, with its keys in order, gives that key's
/// value or tombstone.
pub proof fn lemma_block_finds<K: Ord + ToBytes, V: ToBytes>(
    c: Seq<u8>,
    key: K::V,
    v: Option<V::V>,
    r: Result<Option<Option<V>>, SSTableError>,
)
    requires
        holds_once::<K, V>(c, key, v),
        r matches Ok(found) ==> block_gives::<K, V>(c, key, found_view(found)),
        r is Err ==> zstd_content(c) is None,
    ensures
        r matches Ok(found) && found_view(found) == Some(v),
{
    let p = parse_entries::<K, V>(zstd_content(c)->0);
    let pos = choose|pos: int| 0 <= pos < p.len() && p[pos] == (key, v);
    match r {
        Ok(found) => {
            match found_view(found) {
                Some(w) => {
                    assert(block_holds::<K, V>(p, key, w));
                    let t = choose|t: int| 0 <= t < p.len() && p[t].0 == key && p[t].1 == w;
                    assert(p[t].0 == p[pos].0);
                },
                None => {
                    assert(block_lacks::<K, V>(p, key));
                    assert(p[pos].0 != key);
                },
            }
        },
        Err(e) => {},
    }
}
/// Reopening law, for one table: the index and filter files saved by a
/// build load back into a table with the built table's first keys and
/// offsets, and a filter that answers yes for whatever the built one does.
/// Keys must be known by their views, as the index file holds those.
pub proof fn lemma_load_serves<K: Ord + ToBytes + Clone, V: ToBytes>(
    entries: Seq<(&K, &Option<V>)>,
    b: BuiltTable<K, V>,
    loaded: Result<SSTable<K, V>, SSTableError>,
)
    requires
        key_model::<K>(),
        built_from(entries, b),
        load_outcome(b.index_file@, b.bloom_file@, loaded),
    ensures
        loaded matches Ok(t) && t.index().keys() == b.table.index().keys() && t.index().offsets()
            == b.table.index().offsets() && bloom_items(b.table.bloom()).subset_of(bloom_items(t.bloom())),
{
    let ks = b.table.index().keys();
    let kv = keys_view(ks);
    let os = b.table.index().offsets();
    let s = pairs_view(entries);
    assert(os[0] == 0) by {
        assert(heap_bytes::<K, V>(s, 0).len() == 0);
    }
    crate::sparse_index::lemma_index_roundtrip::<K>(kv, os);
    match loaded {
        Ok(t) => {
            assert(keys_view(t.index().keys()) == kv);
            assert(t.index().keys() =~= ks) by {
                assert forall|j: int| 0 <= j < ks.len() implies t.index().keys()[j] == ks[j] by {
                    assert(keys_view(t.index().keys())[j] == kv[j]);
                }
            }
        },
        Err(_) => {},
    }
}

/// Reopening law: a table built from entries in strictly increasing key
/// order, saved as its index and filter files, loads back, and every entry
/// is found by a lookup in the loaded table and the saved heap, with its
/// value or tombstone as stored. Keys must be cloned faithfully, as the index
/// holds clones of them.
pub proof fn lemma_load_then_get<K: Ord + ToBytes + Clone, V: ToBytes>(
    entries: Seq<(&K, &Option<V>)>,
    b: BuiltTable<K, V>,
    loaded: Result<SSTable<K, V>, SSTableError>,
    i: int,
    r: Result<Option<Option<V>>, SSTableError>,
)
    requires
        key_model::<K>(),
        forall|x: K, y: K| #[trigger] cloned(x, y) ==> x == y,
        strictly_sorted(pair_keys(entries)),
        built_from(entries, b),
        load_outcome(b.index_file@, b.bloom_file@, loaded),
        0 <= i < entries.len(),
        loaded matches Ok(t) ==> get_outcome(&t, b.heap@, *entries[i].0, r),
    ensures
        loaded matches Ok(t) && t.index().keys() == b.table.index().keys() && t.index().offsets()
            == b.table.index().offsets() && bloom_items(b.table.bloom()).subset_of(bloom_items(t.bloom())),
        r matches Ok(found) && found_view(found) == Some(
            crate::sstable_entry::stored_value::<V>(opt_view(*entries[i].1)),
        ),
{
    lemma_load_serves(entries, b, loaded);
    let range = lemma_built_block(entries, b, i);
    let t = loaded->Ok_0;
    let key = *entries[i].0;
    assert(t.index().block_at(key) == b.table.index().block_at(key));
    let c2 = heap_range(b.heap@, range.0, range.1)->0;
    assert(bloom_items(t.bloom()).contains(K::spec_serialize(key@)));
    lemma_block_finds::<K, V>(c2, key@, crate::sstable_entry::stored_value::<V>(opt_view(*entries[i].1)), r);
}

/// The range of block `j` of a built heap holds the block's frame, which
/// decompresses to the block's entries as stored.
proof fn lemma_block_frame<K: Ord + ToBytes + Clone, V: ToBytes>(
    entries: Seq<(&K, &Option<V>)>,
    b: BuiltTable<K, V>,
    j: int,
)
    requires
        built_from(entries, b),
        0 <= j < block_count(entries.len()),
    ensures
        heap_range(b.heap@, b.table.index().offsets()[j], b.table.index().offsets()[j + 1]) matches Some(c)
            && zstd_content(c) matches Some(bytes) && parse_entries::<K, V>(bytes)
            == crate::sstable_entry::stored_entries::<K, V>(block_entries(pairs_view(entries), j as nat)),
        forall|t: int|
            0 <= t < block_entries(pairs_view(entries), j as nat).len() ==> j * 100 + t < entries.len()
                && #[trigger] block_entries(pairs_view(entries), j as nat)[t] == pairs_view(entries)[j * 100 + t]
                && block_entries(pairs_view(entries), j as nat)[t].0 == (*entries[j * 100 + t].0)@,
{
    let s = pairs_view(entries);
    let n = entries.len();
    let c = block_count(n);
    let index = b.table.index();
    let start = index.offsets()[j];
    let end = index.offsets()[j + 1];
    let blk = block_entries(s, j as nat);
    let bytes = entries_bytes::<K, V>(blk);
    let frame = zstd_frame(bytes);
    lemma_heap_prefix::<K, V>(s, j as nat, c);
    lemma_heap_prefix::<K, V>(s, (j + 1) as nat, c);
    let hj = heap_bytes::<K, V>(s, j as nat);
    let hj1 = heap_bytes::<K, V>(s, (j + 1) as nat);
    assert(hj1 == hj + frame);
    assert(b.heap@.len() == b.heap.len());
    assert(start == hj.len() && end == hj1.len());
    assert(b.heap@.subrange(start as int, end as int) =~= frame) by {
        assert(b.heap@.subrange(0, hj1.len() as int) == hj1);
        assert forall|x: int| 0 <= x < frame.len() implies #[trigger] b.heap@.subrange(
            start as int,
            end as int,
        )[x] == frame[x] by {
            assert(b.heap@[start + x] == b.heap@.subrange(0, hj1.len() as int)[start + x]);
            assert(hj1[hj.len() + x] == frame[x]);
        }
    }
    assert(heap_range(b.heap@, start, end) == Some(frame));
    assert(zstd_content(frame) == Some(bytes)) by {
        assert(blocks_decode::<K, V>(s, c));
        let jn = j as nat;
        assert(zstd_content(zstd_frame(entries_bytes::<K, V>(block_entries(s, jn)))) == Some(
            entries_bytes::<K, V>(block_entries(s, jn)),
        ));
    }
    let lo = j * 100;
    let hi = if lo + 100 <= n {
        lo + 100
    } else {
        n as int
    };
    assert(lo < n) by (nonlinear_arith)
        requires
            lo == j * 100,
            0 <= j < c,
            c == (n + 99) / 100,
    ;
    assert(blk == s.subrange(lo, hi));
    assert(crate::sstable_entry::entries_fit::<K, V>(blk)) by {
        assert forall|t: int| 0 <= t < blk.len() implies {
            &&& K::spec_serialize(#[trigger] blk[t].0).len() <= u64::MAX
            &&& match blk[t].1 {
                Some(x) => V::spec_serialize(x).len() <= u64::MAX,
                None => true,
            }
        } by {
            assert(blk[t] == s[lo + t]);
            assert(K::spec_serialize(s[lo + t].0).len() <= u64::MAX);
        }
    }
    crate::sstable_entry::lemma_entries_roundtrip::<K, V>(blk);
    assert forall|t: int| 0 <= t < blk.len() implies j * 100 + t < entries.len() && #[trigger] blk[t] == s[j * 100
        + t] && blk[t].0 == (*entries[j * 100 + t].0)@ by {
        assert(blk[t] == s[lo + t]);
    }
}

/// Where some first key is not after `key`, there is a last such key
/// before a first key after `key`: the block of `key` is one of the blocks.
proof fn lemma_block_exists<K: Ord>(ks: Seq<K>, key: K, n: int)
    requires
        0 <= n <= ks.len(),
        exists|i: int| 0 <= i < n && !key_lt(key, #[trigger] ks[i]),
    ensures
        exists|i: int|
            0 <= i < n && !key_lt(key, #[trigger] ks[i]) && (i + 1 == n || key_lt(key, ks[i + 1])),
    decreases n,
{
    if !key_lt(key, ks[n - 1]) {
        assert(!key_lt(key, ks[n - 1]) && (n - 1 + 1 == n || key_lt(key, ks[n])));
    } else {
        let i0 = choose|i: int| 0 <= i < n && !key_lt(key, #[trigger] ks[i]);
        assert(i0 < n - 1);
        lemma_block_exists(ks, key, n - 1);
        let i = choose|i: int|
            0 <= i < n - 1 && !key_lt(key, #[trigger] ks[i]) && (i + 1 == n - 1 || key_lt(key, ks[i + 1]));
        assert(!key_lt(key, ks[i]) && (i + 1 == n || key_lt(key, ks[i + 1])));
    }
}

/// A lookup whose block does not hold the key gives none.
proof fn lemma_get_absent_at<K: Ord + ToBytes, V: ToBytes>(
    table: &SSTable<K, V>,
    heap: Seq<u8>,
    key: K,
    r: Result<Option<Option<V>>, SSTableError>,
    range: (u64, u64),
    bytes: Seq<u8>,
)
    requires
        table.index().block_at(key) == Some(range),
        heap_range(heap, range.0, range.1) matches Some(c) && zstd_content(c) == Some(bytes),
        forall|t: int| 0 <= t < parse_entries::<K, V>(bytes).len() ==> (#[trigger] parse_entries::<K, V>(bytes)[t]).0 != key@,
        get_outcome(table, heap, key, r),
    ensures
        r == Ok::<Option<Option<V>>, SSTableError>(None),
{
    let p = parse_entries::<K, V>(bytes);
    match r {
        Ok(found) => {
            match found_view(found) {
                Some(v) => {
                    assert(block_holds::<K, V>(p, key@, v));
                    let t = choose|t: int| 0 <= t < p.len() && p[t].0 == key@ && p[t].1 == v;
                    assert(p[t].0 != key@);
                },
                None => {},
            }
        },
        Err(_) => {},
    }
}

/// The block that the index gives for a key that is not among the entries a
/// table was built from decompresses to entries none of which has the key.
#[verifier::spinoff_prover]
#[verifier::rlimit(40)]
pub proof fn lemma_absent_block<K: Ord + ToBytes + Clone, V: ToBytes>(
    entries: Seq<(&K, &Option<V>)>,
    b: BuiltTable<K, V>,
    key: K,
    range: (u64, u64),
) -> (bytes: Seq<u8>)
    requires
        key_model::<K>(),
        built_from(entries, b),
        forall|i: int| 0 <= i < entries.len() ==> *(#[trigger] entries[i]).0 != key,
        b.table.index().block_at(key) == Some(range),
    ensures
        heap_range(b.heap@, range.0, range.1) matches Some(c) && zstd_content(c) == Some(bytes),
        forall|t: int| 0 <= t < parse_entries::<K, V>(bytes).len() ==> (#[trigger] parse_entries::<K, V>(bytes)[t]).0 != key@,
{
    let index = b.table.index();
    let ks = index.keys();
    let s = pairs_view(entries);
    assert(exists|i: int| 0 <= i < ks.len() && !key_lt(key, #[trigger] ks[i]));
    lemma_block_exists(ks, key, ks.len() as int);
    let j = choose|i: int|
        0 <= i < ks.len() && !key_lt(key, #[trigger] ks[i]) && (i + 1 == ks.len() || key_lt(key, ks[i + 1]));
    assert(range == (index.offsets()[j], index.offsets()[j + 1]));
    lemma_block_frame(entries, b, j);
    let c = heap_range(b.heap@, range.0, range.1)->0;
    let bytes = zstd_content(c)->0;
    let p = parse_entries::<K, V>(bytes);
    let blk = block_entries(s, j as nat);
    assert(p.len() == blk.len());
    assert forall|t: int| 0 <= t < p.len() implies (#[trigger] p[t]).0 != key@ by {
        assert(p[t].0 == blk[t].0);
        assert(blk[t].0 == (*entries[j * 100 + t].0)@);
        if p[t].0 == key@ {
            assert(*entries[j * 100 + t].0 == key);
        }
    }
    bytes
}

/// Absence law: a key that is not among the entries a table was built from
/// is not found by a lookup in the built table and its heap: the lookup gives
/// none, whatever the Bloom filter answers.
pub proof fn lemma_build_then_get_absent<K: Ord + ToBytes + Clone, V: ToBytes>(
    entries: Seq<(&K, &Option<V>)>,
    b: BuiltTable<K, V>,
    key: K,
    r: Result<Option<Option<V>>, SSTableError>,
)
    requires
        key_model::<K>(),
        built_from(entries, b),
        forall|i: int| 0 <= i < entries.len() ==> *(#[trigger] entries[i]).0 != key,
        get_outcome(&b.table, b.heap@, key, r),
    ensures
        r == Ok::<Option<Option<V>>, SSTableError>(None),
{
    match b.table.index().block_at(key) {
        Some(range) => {
            let bytes = lemma_absent_block(entries, b, key, range);
            lemma_get_absent_at(&b.table, b.heap@, key, r, range, bytes);
        },
        None => {},
    }
}

} // verus!
