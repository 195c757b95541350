//! Compaction: the tables of a tree rewritten into one, tombstones dropped.
use super::{Bloom, SSTable, ToBytes, bloom_bit_count, bloom_bits, bloom_insert, bloom_items, bloom_saved_from, bloom_to_bytes, compress, decompress, heap_range, zstd_content, zstd_frame};
use crate::sparse_index::{SparseIndex, index_bytes, keys_view};
use crate::sstable_entry::{SSTableEntry, entries_bytes, opt_view, pairs_view, parse_entries};
use crate::traits::SSTableError;
use vstd::prelude::*;
use vstd::slice::slice_subrange;

verus! {

/// Splits the next chunk off a run of entries: entries are taken from the
/// front until `n` values have been taken or the run ends; tombstones taken
/// on the way are dropped. Gives the values taken, and the rest of the run.
pub open spec fn live_split<A, B>(p: Seq<(A, Option<B>)>, n: nat) -> (Seq<(A, Option<B>)>, Seq<(A, Option<B>)>)
    decreases p.len(),
{
    if n == 0 || p.len() == 0 {
        (Seq::empty(), p)
    } else if p[0].1 is Some {
        let rest = live_split(p.drop_first(), (n - 1) as nat);
        (seq![p[0]] + rest.0, rest.1)
    } else {
        live_split(p.drop_first(), n)
    }
}

/// Splitting never lengthens the run, and shortens a non-empty run.
pub proof fn lemma_live_split_len<A, B>(p: Seq<(A, Option<B>)>, n: nat)
    ensures
        live_split(p, n).1.len() <= p.len(),
        n > 0 && p.len() > 0 ==> live_split(p, n).1.len() < p.len(),
    decreases p.len(),
{
    if n > 0 && p.len() > 0 {
        if p[0].1 is Some {
            lemma_live_split_len(p.drop_first(), (n - 1) as nat);
        } else {
            lemma_live_split_len(p.drop_first(), n);
        }
    }
}

/// The chunks that compaction cuts a block's entries into: one chunk of up to
/// `SPARSITY` values after another, until the entries run out. A chunk can be
/// empty, where only tombstones were left.
pub open spec fn live_chunks<A, B>(p: Seq<(A, Option<B>)>) -> Seq<Seq<(A, Option<B>)>>
    decreases p.len(),
{
    if p.len() == 0 {
        Seq::empty()
    } else {
        proof {
            lemma_live_split_len(p, 100);
        }
        seq![live_split(p, 100).0] + live_chunks(live_split(p, 100).1)
    }
}

/// The chunks of a run of blocks, block after block.
pub open spec fn blocks_chunks<A, B>(bs: Seq<Seq<(A, Option<B>)>>) -> Seq<Seq<(A, Option<B>)>>
    decreases bs.len(),
{
    if bs.len() == 0 {
        Seq::empty()
    } else {
        blocks_chunks(bs.drop_last()) + live_chunks(bs.last())
    }
}

/// The heap written for a run of chunks: each chunk in the block format,
/// compressed, empty chunks included.
pub open spec fn chunks_heap<K: ToBytes, V: ToBytes>(cs: Seq<Seq<(K::V, Option<V::V>)>>) -> Seq<u8>
    decreases cs.len(),
{
    if cs.len() == 0 {
        Seq::empty()
    } else {
        chunks_heap::<K, V>(cs.drop_last()) + zstd_frame(entries_bytes::<K, V>(cs.last()))
    }
}

/// The offset reached after a run of chunks: the compressed lengths of the
/// non-empty chunks, added up.
pub open spec fn chunks_end<K: ToBytes, V: ToBytes>(cs: Seq<Seq<(K::V, Option<V::V>)>>) -> nat
    decreases cs.len(),
{
    if cs.len() == 0 {
        0
    } else {
        chunks_end::<K, V>(cs.drop_last()) + if cs.last().len() > 0 {
            zstd_frame(entries_bytes::<K, V>(cs.last())).len()
        } else {
            0
        }
    }
}

/// The index keys of a run of chunks: the first key of each non-empty chunk.
pub open spec fn chunks_keys<A, B>(cs: Seq<Seq<(A, Option<B>)>>) -> Seq<A>
    decreases cs.len(),
{
    if cs.len() == 0 {
        Seq::empty()
    } else {
        chunks_keys(cs.drop_last()) + if cs.last().len() > 0 {
            seq![cs.last()[0].0]
        } else {
            Seq::empty()
        }
    }
}

/// The index offsets of a run of chunks: a leading zero, then the offset
/// reached after each non-empty chunk.
pub open spec fn chunks_offsets<K: ToBytes, V: ToBytes>(cs: Seq<Seq<(K::V, Option<V::V>)>>) -> Seq<u64>
    decreases cs.len(),
{
    if cs.len() == 0 {
        seq![0u64]
    } else {
        chunks_offsets::<K, V>(cs.drop_last()) + if cs.last().len() > 0 {
            seq![chunks_end::<K, V>(cs) as u64]
        } else {
            Seq::empty()
        }
    }
}

/// Whether the bytes of every key in a run of chunks are among `items`.
pub open spec fn chunk_keys_in<K: ToBytes, B>(cs: Seq<Seq<(K::V, Option<B>)>>, items: Set<Seq<u8>>) -> bool {
    forall|j: int, k: int|
        0 <= j < cs.len() && 0 <= k < cs[j].len() ==> items.contains(K::spec_serialize(#[trigger] cs[j][k].0))
}

/// The entries of the first `n` blocks of a heap, block `i` lying between
/// `offsets[i]` and `offsets[i + 1]`; the first failure where a range is out
/// of the heap (corrupt) or a block does not decompress.
pub open spec fn read_blocks<K: ToBytes, V: ToBytes>(offsets: Seq<u64>, heap: Seq<u8>, n: nat) -> Result<
    Seq<Seq<(K::V, Option<V::V>)>>,
    SSTableError,
>
    decreases n,
{
    if n == 0 {
        Ok(Seq::empty())
    } else {
        match read_blocks::<K, V>(offsets, heap, (n - 1) as nat) {
            Err(e) => Err(e),
            Ok(bs) => match heap_range(heap, offsets[n - 1], offsets[n as int]) {
                None => Err(SSTableError::CorruptData),
                Some(c) => match zstd_content(c) {
                    None => Err(SSTableError::IO),
                    Some(b) => Ok(bs.push(parse_entries::<K, V>(b))),
                },
            },
        }
    }
}

/// The entries of every block of the first `m` tables, table after table;
/// or the first failure.
pub open spec fn read_tables<K: Ord + ToBytes, V: ToBytes>(tables: Seq<SSTable<K, V>>, heaps: Seq<Seq<u8>>, m: nat) -> Result<
    Seq<Seq<(K::V, Option<V::V>)>>,
    SSTableError,
>
    decreases m,
{
    if m == 0 {
        Ok(Seq::empty())
    } else {
        match read_tables::<K, V>(tables, heaps, (m - 1) as nat) {
            Err(e) => Err(e),
            Ok(bs) => match read_blocks::<K, V>(
                tables[m - 1].index().offsets(),
                heaps[m - 1],
                tables[m - 1].index().keys().len(),
            ) {
                Err(e) => Err(e),
                Ok(more) => Ok(bs + more),
            },
        }
    }
}

/// The values of a run of entries, in order; tombstones left out.
pub open spec fn live_of<A, B>(p: Seq<(A, Option<B>)>) -> Seq<(A, Option<B>)>
    decreases p.len(),
{
    if p.len() == 0 {
        Seq::empty()
    } else {
        (if p[0].1 is Some {
            seq![p[0]]
        } else {
            Seq::empty()
        }) + live_of(p.drop_first())
    }
}

proof fn lemma_live_of_concat<A, B>(x: Seq<(A, Option<B>)>, y: Seq<(A, Option<B>)>)
    ensures
        live_of(x + y) == live_of(x) + live_of(y),
    decreases x.len(),
{
    if x.len() == 0 {
        assert(x + y =~= y);
        assert(live_of(x) + live_of(y) =~= live_of(y));
    } else {
        assert((x + y).drop_first() =~= x.drop_first() + y);
        assert((x + y)[0] == x[0]);
        lemma_live_of_concat(x.drop_first(), y);
        let head = if x[0].1 is Some {
            seq![x[0]]
        } else {
            Seq::empty()
        };
        assert(live_of(x + y) == head + live_of(x.drop_first() + y));
        assert(head + (live_of(x.drop_first()) + live_of(y)) =~= (head + live_of(x.drop_first())) + live_of(y));
    }
}

proof fn lemma_flatten_concat<T>(x: Seq<Seq<T>>, y: Seq<Seq<T>>)
    ensures
        (x + y).flatten() == x.flatten() + y.flatten(),
    decreases x.len(),
{
    if x.len() == 0 {
        assert(x + y =~= y);
        assert(x.flatten() + y.flatten() =~= y.flatten());
    } else {
        assert((x + y).drop_first() =~= x.drop_first() + y);
        assert((x + y).first() == x.first());
        lemma_flatten_concat(x.drop_first(), y);
        assert(x.first() + (x.drop_first().flatten() + y.flatten()) =~= (x.first() + x.drop_first().flatten())
            + y.flatten());
    }
}

/// Taking a chunk off a run keeps its values: the chunk's values, then the
/// values of the rest, are the values of the run.
proof fn lemma_live_split_values<A, B>(p: Seq<(A, Option<B>)>, n: nat)
    ensures
        live_split(p, n).0 + live_of(live_split(p, n).1) == live_of(p),
        live_of(live_split(p, n).0) == live_split(p, n).0,
    decreases p.len(),
{
    if n == 0 || p.len() == 0 {
        assert(Seq::<(A, Option<B>)>::empty() + live_of(p) =~= live_of(p));
    } else if p[0].1 is Some {
        let rest = live_split(p.drop_first(), (n - 1) as nat);
        lemma_live_split_values(p.drop_first(), (n - 1) as nat);
        assert(seq![p[0]] + rest.0 + live_of(rest.1) =~= seq![p[0]] + (rest.0 + live_of(rest.1)));
        let c = seq![p[0]] + rest.0;
        assert(c.drop_first() =~= rest.0);
        assert(c[0] == p[0]);
    } else {
        lemma_live_split_values(p.drop_first(), n);
    }
}

/// The chunks of a block, one after another, are the block's values.
proof fn lemma_live_chunks_values<A, B>(p: Seq<(A, Option<B>)>)
    ensures
        live_chunks(p).flatten() == live_of(p),
    decreases p.len(),
{
    if p.len() > 0 {
        lemma_live_split_len(p, 100);
        let (c, r) = live_split(p, 100);
        lemma_live_split_values(p, 100);
        lemma_live_chunks_values(r);
        let cs = live_chunks(p);
        assert(cs == seq![c] + live_chunks(r));
        assert(cs.first() == c);
        assert(cs.drop_first() =~= live_chunks(r));
    }
}

/// Compaction law: compaction keeps the values and drops the tombstones.
/// The chunks written for a run of blocks, one after another, are the
/// values of the blocks, one after another, in the order they were read.
pub proof fn lemma_compaction_keeps_values<A, B>(bs: Seq<Seq<(A, Option<B>)>>)
    ensures
        blocks_chunks(bs).flatten() == live_of(bs.flatten()),
    decreases bs.len(),
{
    if bs.len() == 0 {
        assert(blocks_chunks(bs).flatten() =~= Seq::<(A, Option<B>)>::empty());
        assert(live_of(bs.flatten()) =~= Seq::<(A, Option<B>)>::empty());
    } else {
        let front = bs.drop_last();
        lemma_compaction_keeps_values(front);
        lemma_flatten_concat(blocks_chunks(front), live_chunks(bs.last()));
        lemma_live_chunks_values(bs.last());
        assert(front.push(bs.last()) =~= bs);
        front.lemma_flatten_push(bs.last());
        lemma_live_of_concat(front.flatten(), bs.last());
    }
}

/// The views of owned pairs.
pub open spec fn owned_view<K: View, V: View>(p: Seq<(K, Option<V>)>) -> Seq<(K::V, Option<V::V>)> {
    Seq::new(p.len(), |i: int| (p[i].0@, opt_view(p[i].1)))
}

/// The views of byte vectors.
pub open spec fn heap_views(hs: Seq<Vec<u8>>) -> Seq<Seq<u8>> {
    Seq::new(hs.len(), |i: int| hs[i]@)
}

/// The bytes of a table written elsewhere: its heap, its compressed index
/// and its compressed Bloom filter.
pub struct TableFiles {
    pub heap: Vec<u8>,
    pub index_file: Vec<u8>,
    pub bloom_file: Vec<u8>,
}

/// A failed read of blocks stays failed with the same error.
proof fn lemma_read_blocks_err<K: ToBytes, V: ToBytes>(offsets: Seq<u64>, heap: Seq<u8>, j: nat, n: nat)
    requires
        j <= n,
        read_blocks::<K, V>(offsets, heap, j) is Err,
    ensures
        read_blocks::<K, V>(offsets, heap, n) == read_blocks::<K, V>(offsets, heap, j),
    decreases n,
{
    if n > j {
        lemma_read_blocks_err::<K, V>(offsets, heap, j, (n - 1) as nat);
    }
}

/// A failed read of tables stays failed with the same error.
proof fn lemma_read_tables_err<K: Ord + ToBytes, V: ToBytes>(tables: Seq<SSTable<K, V>>, heaps: Seq<Seq<u8>>, j: nat, m: nat)
    requires
        j <= m,
        read_tables::<K, V>(tables, heaps, j) is Err,
    ensures
        read_tables::<K, V>(tables, heaps, m) == read_tables::<K, V>(tables, heaps, j),
    decreases m,
{
    if m > j {
        lemma_read_tables_err::<K, V>(tables, heaps, j, (m - 1) as nat);
    }
}

/// The offset reached never passes the end of the heap.
proof fn lemma_chunks_end_le<K: ToBytes, V: ToBytes>(cs: Seq<Seq<(K::V, Option<V::V>)>>)
    ensures
        chunks_end::<K, V>(cs) <= chunks_heap::<K, V>(cs).len(),
    decreases cs.len(),
{
    if cs.len() > 0 {
        lemma_chunks_end_le::<K, V>(cs.drop_last());
    }
}

/// Keys already in a set stay in a larger set.
proof fn lemma_chunk_keys_grow<K: ToBytes, B>(cs: Seq<Seq<(K::V, Option<B>)>>, a: Set<Seq<u8>>, b: Set<Seq<u8>>)
    requires
        chunk_keys_in::<K, B>(cs, a),
        a.subset_of(b),
    ensures
        chunk_keys_in::<K, B>(cs, b),
{
    assert forall|j: int, k: int| 0 <= j < cs.len() && 0 <= k < cs[j].len() implies b.contains(
        K::spec_serialize(#[trigger] cs[j][k].0),
    ) by {
        assert(a.contains(K::spec_serialize(cs[j][k].0)));
    }
}

/// Takes the next chunk off the front of `pending`: entries are taken until
/// `SPARSITY` values have been taken or `pending` runs out, tombstones
/// dropped; the key of every value taken is added to the Bloom filter.
fn take_live_chunk<K: ToBytes, V: ToBytes>(pending: &mut Vec<(K, Option<V>)>, bloom: &mut Bloom) -> (r: Vec<(K, Option<V>)>)
    requires
        bloom_bits(*old(bloom)) > 0,
    ensures
        bloom_bits(*final(bloom)) == bloom_bits(*old(bloom)),
        owned_view(r@) == live_split(owned_view(old(pending)@), 100).0,
        owned_view(final(pending)@) == live_split(owned_view(old(pending)@), 100).1,
        bloom_items(*old(bloom)).subset_of(bloom_items(*final(bloom))),
        forall|k: int| 0 <= k < r@.len() ==> bloom_items(*final(bloom)).contains(K::spec_serialize((#[trigger] r@[k]).0@)),
{
    let ghost p0 = owned_view(pending@);
    let ghost items0 = bloom_items(*bloom);
    let ghost bits = bloom_bits(*bloom);
    let mut chunk: Vec<(K, Option<V>)> = Vec::new();
    let mut taken: usize = 0;
    while taken < 100 && pending.len() > 0
        invariant
            taken <= 100,
            taken == chunk@.len(),
            bits > 0,
            bits == bloom_bits(*old(bloom)),
            bloom_bits(*bloom) == bits,
            live_split(p0, 100) == (
                owned_view(chunk@) + live_split(owned_view(pending@), (100 - taken) as nat).0,
                live_split(owned_view(pending@), (100 - taken) as nat).1,
            ),
            items0.subset_of(bloom_items(*bloom)),
            forall|k: int| 0 <= k < chunk@.len() ==> bloom_items(*bloom).contains(K::spec_serialize((#[trigger] chunk@[k]).0@)),
        decreases pending@.len(),
    {
        let ghost q = owned_view(pending@);
        let ghost n: nat = (100 - taken) as nat;
        let pair = pending.remove(0);
        assert(owned_view(pending@) =~= q.drop_first());
        match &pair.1 {
            Some(_) => {
                let kb = pair.0.serialize();
                bloom_insert(bloom, kb.as_slice());
                let ghost before = owned_view(chunk@);
                chunk.push(pair);
                taken = taken + 1;
                assert(owned_view(chunk@) =~= before.push(q[0]));
                let ghost rest = live_split(q.drop_first(), (n - 1) as nat);
                assert(live_split(q, n) == (seq![q[0]] + rest.0, rest.1));
                assert(before + (seq![q[0]] + rest.0) =~= before.push(q[0]) + rest.0);
            },
            None => {
                assert(live_split(q, n) == live_split(q.drop_first(), n));
            },
        }
    }
    let ghost q = owned_view(pending@);
    assert(live_split(q, (100 - taken) as nat).0 =~= Seq::<(K::V, Option<V::V>)>::empty());
    assert(owned_view(chunk@) + Seq::<(K::V, Option<V::V>)>::empty() =~= owned_view(chunk@));
    chunk
}

/// Writes one chunk: its entries in the block format, compressed onto the
/// heap; a non-empty chunk also moves the offset on by its compressed length
/// and records its first key at the new offset.
fn emit_chunk<K: Ord + ToBytes, V: ToBytes>(
    chunk: Vec<(K, Option<V>)>,
    heap: &mut Vec<u8>,
    index: &mut SparseIndex<K>,
    offset: &mut usize,
    Ghost(cs): Ghost<Seq<Seq<(K::V, Option<V::V>)>>>,
) -> (r: Result<(), SSTableError>)
    requires
        old(heap)@ == chunks_heap::<K, V>(cs),
        keys_view(old(index).keys()) == chunks_keys(cs),
        old(index).offsets() == chunks_offsets::<K, V>(cs),
        *old(offset) == chunks_end::<K, V>(cs),
    ensures
        r matches Ok(_) ==> {
            let cs2 = cs.push(owned_view(chunk@));
            &&& final(heap)@ == chunks_heap::<K, V>(cs2)
            &&& keys_view(final(index).keys()) == chunks_keys(cs2)
            &&& final(index).offsets() == chunks_offsets::<K, V>(cs2)
            &&& *final(offset) == chunks_end::<K, V>(cs2)
        },
        r is Ok,
{
    let ghost c = owned_view(chunk@);
    let ghost cs2 = cs.push(c);
    assert(cs2.drop_last() =~= cs);
    assert(cs2.last() == c);
    let mut refs: Vec<(&K, &Option<V>)> = Vec::new();
    let mut i: usize = 0;
    while i < chunk.len()
        invariant
            i <= chunk@.len(),
            refs@.len() == i,
            forall|k: int| 0 <= k < i ==> (#[trigger] refs@[k]).0 == &chunk@[k].0 && refs@[k].1 == &chunk@[k].1,
        decreases chunk@.len() - i,
    {
        let pair = &chunk[i];
        refs.push((&pair.0, &pair.1));
        i = i + 1;
    }
    assert(pairs_view(refs@) =~= c);
    let buf = SSTableEntry::<K, V>::to_buf(&refs);
    let compressed = match compress(buf.as_slice()) {
        Some(b) => b,
        None => return Err(SSTableError::IO),
    };
    let added = compressed.len();
    let mut compressed = compressed;
    proof {
        lemma_chunks_end_le::<K, V>(cs);
    }
    heap.append(&mut compressed);
    assert(heap@ =~= chunks_heap::<K, V>(cs2));
    let heap_len = heap.len();
    if chunk.len() > 0 {
        let mut chunk = chunk;
        assert(*offset + added <= heap_len);
        *offset = *offset + added;
        let first = chunk.remove(0);
        index.add_pair(first.0, *offset as u64);
        assert(keys_view(index.keys()) =~= chunks_keys(cs2));
        assert(index.offsets() =~= chunks_offsets::<K, V>(cs2));
    } else {
        assert(keys_view(index.keys()) =~= chunks_keys(cs2));
        assert(index.offsets() =~= chunks_offsets::<K, V>(cs2));
    }
    Ok(())
}

/// Compacts the entries of one block: chunk after chunk until they run out.
fn compact_block<K: Ord + ToBytes, V: ToBytes>(
    pending: Vec<(K, Option<V>)>,
    heap: &mut Vec<u8>,
    index: &mut SparseIndex<K>,
    bloom: &mut Bloom,
    offset: &mut usize,
    Ghost(cs): Ghost<Seq<Seq<(K::V, Option<V::V>)>>>,
) -> (r: Result<(), SSTableError>)
    requires
        old(heap)@ == chunks_heap::<K, V>(cs),
        keys_view(old(index).keys()) == chunks_keys(cs),
        old(index).offsets() == chunks_offsets::<K, V>(cs),
        *old(offset) == chunks_end::<K, V>(cs),
        chunk_keys_in::<K, V::V>(cs, bloom_items(*old(bloom))),
        bloom_bits(*old(bloom)) > 0,
    ensures
        bloom_items(*old(bloom)).subset_of(bloom_items(*final(bloom))),
        bloom_bits(*final(bloom)) == bloom_bits(*old(bloom)),
        r matches Ok(_) ==> {
            let cs2 = cs + live_chunks(owned_view(pending@));
            &&& final(heap)@ == chunks_heap::<K, V>(cs2)
            &&& keys_view(final(index).keys()) == chunks_keys(cs2)
            &&& final(index).offsets() == chunks_offsets::<K, V>(cs2)
            &&& *final(offset) == chunks_end::<K, V>(cs2)
            &&& chunk_keys_in::<K, V::V>(cs2, bloom_items(*final(bloom)))
        },
        r is Ok,
{
    let ghost target = cs + live_chunks(owned_view(pending@));
    let ghost items0 = bloom_items(*bloom);
    let mut pending = pending;
    let ghost mut done = cs;
    assert(target == done + live_chunks(owned_view(pending@)));
    while pending.len() > 0
        invariant
            target == done + live_chunks(owned_view(pending@)),
            heap@ == chunks_heap::<K, V>(done),
            keys_view(index.keys()) == chunks_keys(done),
            index.offsets() == chunks_offsets::<K, V>(done),
            *offset == chunks_end::<K, V>(done),
            chunk_keys_in::<K, V::V>(done, bloom_items(*bloom)),
            items0 == bloom_items(*old(bloom)),
            items0.subset_of(bloom_items(*bloom)),
            bloom_bits(*bloom) == bloom_bits(*old(bloom)),
            bloom_bits(*old(bloom)) > 0,
        decreases pending@.len(),
    {
        let ghost q = owned_view(pending@);
        let ghost items1 = bloom_items(*bloom);
        let chunk = take_live_chunk(&mut pending, bloom);
        let ghost c = owned_view(chunk@);
        assert(items0.subset_of(bloom_items(*bloom)));
        proof {
            lemma_live_split_len(q, 100);
            lemma_chunk_keys_grow::<K, V::V>(done, items1, bloom_items(*bloom));
            assert(live_chunks(q) == seq![c] + live_chunks(owned_view(pending@)));
            assert(done + live_chunks(q) =~= done.push(c) + live_chunks(owned_view(pending@)));
            let d2 = done.push(c);
            assert forall|j: int, k: int| 0 <= j < d2.len() && 0 <= k < d2[j].len() implies bloom_items(
                *bloom,
            ).contains(K::spec_serialize(#[trigger] d2[j][k].0)) by {
                if j < done.len() {
                    assert(d2[j] == done[j]);
                } else {
                    assert(d2[j][k] == c[k]);
                    assert(c[k].0 == chunk@[k].0@);
                }
            }
        }
        match emit_chunk(chunk, heap, index, offset, Ghost(done)) {
            Ok(()) => {},
            Err(e) => return Err(e),
        }
        proof {
            done = done.push(c);
        }
    }
    assert(live_chunks(owned_view(pending@)) =~= Seq::<Seq<(K::V, Option<V::V>)>>::empty());
    assert(done + Seq::<Seq<(K::V, Option<V::V>)>>::empty() =~= done);
    Ok(())
}

/// What compaction writes for the blocks `bs`, read in order, starting from
/// the filter `bloom`: the heap of their chunks; a table with the first key
/// of each non-empty chunk and the offsets after them, and a filter with the
/// bits of `bloom` holding its items and every key compacted; the index
/// compressed; and the filter written so that it reads back holding as much.
pub open spec fn compacted_into<K: Ord + ToBytes, V: ToBytes>(
    bs: Seq<Seq<(K::V, Option<V::V>)>>,
    bloom: Bloom,
    files: TableFiles,
    t: SSTable<K, V>,
) -> bool {
    let cs = blocks_chunks(bs);
    &&& files.heap@ == chunks_heap::<K, V>(cs)
    &&& keys_view(t.index().keys()) == chunks_keys(cs)
    &&& t.index().offsets() == chunks_offsets::<K, V>(cs)
    &&& chunk_keys_in::<K, V::V>(cs, bloom_items(t.bloom()))
    &&& bloom_items(bloom).subset_of(bloom_items(t.bloom()))
    &&& bloom_bits(t.bloom()) == bloom_bits(bloom)
    &&& files.index_file@ == zstd_frame(index_bytes::<K>(chunks_keys(cs), chunks_offsets::<K, V>(cs)))
    &&& zstd_content(files.index_file@) == Some(index_bytes::<K>(chunks_keys(cs), chunks_offsets::<K, V>(cs)))
    &&& zstd_content(files.bloom_file@) matches Some(bb) && bloom_saved_from(bb, t.bloom())
}

impl<K: Ord + ToBytes, V: ToBytes> SSTable<K, V> {
    /// Compacts the tables into one, given the heap of each. Every block of
    /// every table, oldest table first, is read back and its values (not its
    /// tombstones) are cut into chunks of up to `SPARSITY` values; each chunk
    /// is compressed onto the new heap, and each non-empty chunk gets an index
    /// entry: its first key at the offset reached after it. A block that ends
    /// in tombstones leaves an empty chunk, which is written to the heap but
    /// not counted in the offsets. The keys of all values go into the Bloom
    /// filter. On success the tables are replaced by the new one, and the
    /// bytes of its heap, index and filter are given; on failure the tables
    /// are left as they were. It fails with the first failure of reading the
    /// blocks, or with `Bloom` where the filter given has no bits.
    pub fn compact(sstables: &mut Vec<Self>, heaps: &Vec<Vec<u8>>, bloom: Bloom) -> (r: Result<TableFiles, SSTableError>)
        requires
            old(sstables)@.len() == heaps@.len(),
            forall|t: int| 0 <= t < old(sstables)@.len() ==> (#[trigger] old(sstables)@[t]).wf(),
        ensures
            r is Err ==> *final(sstables) == *old(sstables),
            bloom_bits(bloom) == 0 ==> (r matches Err(e) && e == SSTableError::Bloom),
            bloom_bits(bloom) > 0 ==> match read_tables::<K, V>(old(sstables)@, heap_views(heaps@), old(sstables)@.len()) {
                Ok(bs) => r matches Ok(files) && final(sstables)@.len() == 1 && compacted_into::<K, V>(
                    bs,
                    bloom,
                    files,
                    final(sstables)@[0],
                ),
                Err(e) => r matches Err(e2) && e2 == e,
            },
    {
        if bloom_bit_count(&bloom) == 0 {
            return Err(SSTableError::Bloom);
        }
        let ghost tables = sstables@;
        let ghost hv = heap_views(heaps@);
        let ghost bits = bloom_bits(bloom);
        let ghost bloom0 = bloom;
        let m = sstables.len();
        let mut heap: Vec<u8> = Vec::new();
        let mut index: SparseIndex<K> = SparseIndex::new();
        let mut filter = bloom;
        let mut offset: usize = 0;
        let ghost items0 = bloom_items(bloom);
        let ghost mut bs: Seq<Seq<(K::V, Option<V::V>)>> = Seq::empty();
        assert(keys_view(index.keys()) =~= chunks_keys(blocks_chunks(bs)));
        let mut t: usize = 0;
        while t < m
            invariant
                m == tables.len(),
                m == heaps@.len(),
                hv == heap_views(heaps@),
                *sstables == *old(sstables),
                tables == old(sstables)@,
                forall|u: int| 0 <= u < tables.len() ==> (#[trigger] tables[u]).wf(),
                t <= m,
                read_tables::<K, V>(tables, hv, t as nat) == Ok::<Seq<Seq<(K::V, Option<V::V>)>>, SSTableError>(bs),
                heap@ == chunks_heap::<K, V>(blocks_chunks(bs)),
                keys_view(index.keys()) == chunks_keys(blocks_chunks(bs)),
                index.offsets() == chunks_offsets::<K, V>(blocks_chunks(bs)),
                offset == chunks_end::<K, V>(blocks_chunks(bs)),
                chunk_keys_in::<K, V::V>(blocks_chunks(bs), bloom_items(filter)),
                items0.subset_of(bloom_items(filter)),
                items0 == bloom_items(bloom0),
                bloom0 == bloom,
                bits == bloom_bits(bloom0),
                bits > 0,
                bloom_bits(filter) == bits,
            decreases m - t,
        {
            let table = &sstables[t];
            assert(table.wf());
            let ranges = table.block_ranges();
            let h = &heaps[t];
            assert(hv[t as int] == h@);
            let ghost offs = table.index().offsets();
            let ghost nb = table.index().keys().len();
            let ghost mut tb: Seq<Seq<(K::V, Option<V::V>)>> = Seq::empty();
            assert(bs + tb =~= bs);
            let mut i: usize = 0;
            while i < ranges.len()
                invariant
                    m == tables.len(),
                    m == heaps@.len(),
                    hv == heap_views(heaps@),
                    *sstables == *old(sstables),
                    tables == old(sstables)@,
                    forall|u: int| 0 <= u < tables.len() ==> (#[trigger] tables[u]).wf(),
                    t < m,
                    *table == tables[t as int],
                    h@ == hv[t as int],
                    offs == tables[t as int].index().offsets(),
                    nb == tables[t as int].index().keys().len(),
                    ranges@.len() == nb,
                    forall|k: int| 0 <= k < ranges@.len() ==> #[trigger] ranges@[k] == (offs[k], offs[k + 1]),
                    i <= ranges@.len(),
                    read_tables::<K, V>(tables, hv, t as nat) == Ok::<Seq<Seq<(K::V, Option<V::V>)>>, SSTableError>(bs),
                    read_blocks::<K, V>(offs, h@, i as nat) == Ok::<Seq<Seq<(K::V, Option<V::V>)>>, SSTableError>(tb),
                    heap@ == chunks_heap::<K, V>(blocks_chunks(bs + tb)),
                    keys_view(index.keys()) == chunks_keys(blocks_chunks(bs + tb)),
                    index.offsets() == chunks_offsets::<K, V>(blocks_chunks(bs + tb)),
                    offset == chunks_end::<K, V>(blocks_chunks(bs + tb)),
                    chunk_keys_in::<K, V::V>(blocks_chunks(bs + tb), bloom_items(filter)),
                    items0.subset_of(bloom_items(filter)),
                    items0 == bloom_items(bloom0),
                    bloom0 == bloom,
                    bits == bloom_bits(bloom0),
                    bits > 0,
                    bloom_bits(filter) == bits,
                decreases ranges@.len() - i,
            {
                let (start, end) = ranges[i];
                if start > end || end > h.len() as u64 {
                    proof {
                        assert(read_blocks::<K, V>(offs, h@, (i + 1) as nat) == Err::<
                            Seq<Seq<(K::V, Option<V::V>)>>,
                            SSTableError,
                        >(SSTableError::CorruptData));
                        lemma_read_blocks_err::<K, V>(offs, h@, (i + 1) as nat, nb);
                        assert(read_tables::<K, V>(tables, hv, (t + 1) as nat) == Err::<
                            Seq<Seq<(K::V, Option<V::V>)>>,
                            SSTableError,
                        >(SSTableError::CorruptData));
                        lemma_read_tables_err::<K, V>(tables, hv, (t + 1) as nat, m as nat);
                    }
                    return Err(SSTableError::CorruptData);
                }
                let block = slice_subrange(h.as_slice(), start as usize, end as usize);
                assert(heap_range(h@, offs[i as int], offs[i + 1]) == Some(block@));
                let data = match decompress(block) {
                    Some(d) => d,
                    None => {
                        proof {
                            assert(read_blocks::<K, V>(offs, h@, (i + 1) as nat) == Err::<
                                Seq<Seq<(K::V, Option<V::V>)>>,
                                SSTableError,
                            >(SSTableError::IO));
                            lemma_read_blocks_err::<K, V>(offs, h@, (i + 1) as nat, nb);
                            assert(read_tables::<K, V>(tables, hv, (t + 1) as nat) == Err::<
                                Seq<Seq<(K::V, Option<V::V>)>>,
                                SSTableError,
                            >(SSTableError::IO));
                            lemma_read_tables_err::<K, V>(tables, hv, (t + 1) as nat, m as nat);
                        }
                        return Err(SSTableError::IO);
                    },
                };
                let ghost p = parse_entries::<K, V>(data@);
                let entry: SSTableEntry<K, V> = SSTableEntry::from_buf(data);
                let pairs = entry.into_iter();
                assert(owned_view(pairs@) =~= p);
                let ghost before = blocks_chunks(bs + tb);
                match compact_block(pairs, &mut heap, &mut index, &mut filter, &mut offset, Ghost(before)) {
                    Ok(()) => {},
                    Err(e) => return Err(e),
                }
                proof {
                    assert(read_blocks::<K, V>(offs, h@, (i + 1) as nat) == Ok::<
                        Seq<Seq<(K::V, Option<V::V>)>>,
                        SSTableError,
                    >(tb.push(p)));
                    assert((bs + tb.push(p)).drop_last() =~= bs + tb);
                    assert((bs + tb.push(p)).last() == p);
                    tb = tb.push(p);
                }
                i = i + 1;
            }
            proof {
                assert(read_tables::<K, V>(tables, hv, (t + 1) as nat) == Ok::<
                    Seq<Seq<(K::V, Option<V::V>)>>,
                    SSTableError,
                >(bs + tb));
                bs = bs + tb;
            }
            t = t + 1;
        }
        let index_buf = index.to_buf();
        let index_file = match compress(index_buf.as_slice()) {
            Some(f) => f,
            None => return Err(SSTableError::IO),
        };
        let bloom_buf = match bloom_to_bytes(&filter) {
            Some(b) => b,
            None => return Err(SSTableError::Bloom),
        };
        let bloom_file = match compress(bloom_buf.as_slice()) {
            Some(f) => f,
            None => return Err(SSTableError::IO),
        };
        sstables.clear();
        sstables.push(SSTable::new(index, filter));
        let files = TableFiles { heap, index_file, bloom_file };
        assert(compacted_into::<K, V>(bs, bloom0, files, sstables@[0]));
        Ok(files)
    }
}

} // verus!
