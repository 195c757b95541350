//! The in-memory table of a tree: the latest value or tombstone of each key,
//! in key order.
use crate::search::{key_lt, strictly_sorted, total_order};
use crate::sstable::ToBytes;
use crate::sstable::compaction::owned_view;
use crate::sstable_entry::{SSTableEntry, parse_entries};
use std::collections::BTreeMap;
use vstd::prelude::*;
use vstd::std_specs::btree::increasing_seq;
use vstd::std_specs::iter::IteratorSpec;

verus! {

broadcast use vstd::std_specs::btree::group_btree_axioms;

/// Latest writes by key: `Some` for a value, `None` for a deletion.
pub struct Memtable<K: Ord + ToBytes, V: ToBytes + Clone> {
    pub map: BTreeMap<K, Option<V>>,
    pub max_size: usize,
}

impl<K: Ord + ToBytes, V: ToBytes + Clone> Memtable<K, V> {
    /// The writes held, by key.
    pub open spec fn contents(&self) -> Map<K, Option<V>> {
        self.map@
    }

    pub fn new(max_size: usize) -> (r: Self)
        ensures
            r.contents() == Map::<K, Option<V>>::empty(),
            r.max_size == max_size,
    {
        Self { map: BTreeMap::new(), max_size }
    }

    /// The latest write of `key`, if any.
    pub fn get(&self, key: &K) -> (r: Option<&Option<V>>)
        requires
            total_order::<K>(),
        ensures
            get_result(self.contents(), *key, r),
    {
        self.map.get(key)
    }

    /// Writes `value` for `key`; gives the value it replaces, if the key held
    /// a value.
    pub fn put(&mut self, key: K, value: V) -> (r: Option<V>)
        requires
            total_order::<K>(),
        ensures
            final(self).contents() == old(self).contents().insert(key, Some(value)),
            final(self).max_size == old(self).max_size,
            r == (if old(self).contents().contains_key(key) {
                old(self).contents()[key]
            } else {
                None
            }),
    {
        match self.map.insert(key, Some(value)) {
            Some(previous) => previous,
            None => None,
        }
    }

    /// Writes a tombstone for `key`; gives the value it replaces, if the key
    /// held a value.
    pub fn delete(&mut self, key: K) -> (r: Option<V>)
        requires
            total_order::<K>(),
        ensures
            final(self).contents() == old(self).contents().insert(key, None),
            final(self).max_size == old(self).max_size,
            r == (if old(self).contents().contains_key(key) {
                old(self).contents()[key]
            } else {
                None
            }),
    {
        match self.map.insert(key, None) {
            Some(previous) => previous,
            None => None,
        }
    }

    /// The number of keys written.
    pub fn len(&self) -> (r: usize)
        requires
            total_order::<K>(),
        ensures
            r == self.contents().len(),
    {
        self.map.len()
    }

    pub fn is_empty(&self) -> (r: bool)
        requires
            total_order::<K>(),
        ensures
            r == (self.contents().len() == 0),
    {
        self.len() == 0
    }

    pub fn clear(&mut self)
        ensures
            final(self).contents() == Map::<K, Option<V>>::empty(),
            final(self).max_size == old(self).max_size,
    {
        self.map.clear();
    }

    /// A memtable of capacity `max_size` holding the writes of a log, in the
    /// order they were logged. The log holds each write as a block entry; it
    /// is read as far as its entries can be read back, so a write cut short
    /// by a crash is left out.
    pub fn from_wal(log: Vec<u8>, max_size: usize) -> (r: Self)
        requires
            total_order::<K>(),
        ensures
            r.max_size == max_size,
            exists|ws: Seq<(K, Option<V>)>|
                owned_view(ws) == parse_entries::<K, V>(log@) && r.contents() == apply_writes(
                    Map::<K, Option<V>>::empty(),
                    ws,
                ),
    {
        let entry: SSTableEntry<K, V> = SSTableEntry::from_buf(log);
        let pairs = entry.into_iter();
        let ghost ws = pairs@;
        assert(owned_view(ws) =~= entry.entries());
        let mut pending: Vec<(K, Option<V>)> = Vec::new();
        let mut pairs = pairs;
        while pairs.len() > 0
            invariant
                pairs@.len() + pending@.len() == ws.len(),
                pairs@ == ws.take(pairs@.len() as int),
                forall|j: int| 0 <= j < pending@.len() ==> #[trigger] pending@[j] == ws[ws.len() - 1 - j],
            decreases pairs@.len(),
        {
            let ghost m = pairs@.len() as int;
            let x = pairs.pop().unwrap();
            assert(pairs@ =~= ws.take(m - 1));
            pending.push(x);
        }
        let mut table = Memtable::new(max_size);
        let mut done: usize = 0;
        let total = pending.len();
        assert(ws.take(0) =~= Seq::<(K, Option<V>)>::empty());
        while pending.len() > 0
            invariant
                total_order::<K>(),
                total == ws.len(),
                pending@.len() + done == ws.len(),
                forall|j: int| 0 <= j < pending@.len() ==> #[trigger] pending@[j] == ws[ws.len() - 1 - j],
                table.max_size == max_size,
                table.contents() == apply_writes(Map::<K, Option<V>>::empty(), ws.take(done as int)),
            decreases pending@.len(),
        {
            let (k, v) = pending.pop().unwrap();
            assert(ws.take(done + 1).drop_last() =~= ws.take(done as int));
            assert(ws.take(done + 1).last() == (k, v));
            table.map.insert(k, v);
            done = done + 1;
        }
        assert(ws.take(ws.len() as int) =~= ws);
        table
    }

    /// The writes held, in increasing key order.
    pub fn entries(&self) -> (r: Vec<(&K, &Option<V>)>)
        requires
            total_order::<K>(),
        ensures
            in_key_order(self.contents(), r@),
    {
        let mut out: Vec<(&K, &Option<V>)> = Vec::new();
        let it = self.map.iter();
        let ghost all = it.remaining();
        for pair in iter: it
            invariant
                out@ == iter.history(),
        {
            out.push(pair);
        }
        assert(out@ =~= all);
        let ghost ks = all.map_values(|kv: (&K, &Option<V>)| *kv.0);
        assert(increasing_seq(ks));
        assert(Seq::new(out@.len(), |i: int| *out@[i].0) =~= ks);
        out
    }
}

/// Whether `es` lists the writes `contents`, each once, in increasing key
/// order.
pub open spec fn in_key_order<K: Ord, V>(contents: Map<K, Option<V>>, es: Seq<(&K, &Option<V>)>) -> bool {
    &&& es.len() == contents.len()
    &&& strictly_sorted(Seq::new(es.len(), |i: int| *es[i].0))
    &&& forall|i: int|
        0 <= i < es.len() ==> contents.contains_key(*(#[trigger] es[i]).0) && contents[*es[i].0] == *es[i].1
    &&& forall|k: K| #[trigger] contents.contains_key(k) ==> exists|i: int| 0 <= i < es.len() && *es[i].0 == k
}

/// The writes `ws` applied in order to `m`: each key ends with the last
/// value or tombstone written for it.
pub open spec fn apply_writes<K, V>(m: Map<K, Option<V>>, ws: Seq<(K, Option<V>)>) -> Map<K, Option<V>>
    decreases ws.len(),
{
    if ws.len() == 0 {
        m
    } else {
        apply_writes(m, ws.drop_last()).insert(ws.last().0, ws.last().1)
    }
}

/// What `Memtable::get` gives for `key` on writes `contents`.
pub open spec fn get_result<K, V>(contents: Map<K, Option<V>>, key: K, r: Option<&Option<V>>) -> bool {
    match r {
        Some(v) => contents.contains_key(key) && *v == contents[key],
        None => !contents.contains_key(key),
    }
}

/// Read-your-writes law: after `put(key, value)`, `get(key)` gives the value.
pub proof fn lemma_put_then_get<K, V>(before: Map<K, Option<V>>, key: K, value: V, r: Option<&Option<V>>)
    requires
        get_result(before.insert(key, Some(value)), key, r),
    ensures
        r == Some(&Some(value)),
{
}

/// After `delete(key)`, `get(key)` gives the tombstone.
pub proof fn lemma_delete_then_get<K, V>(before: Map<K, Option<V>>, key: K, r: Option<&Option<V>>)
    requires
        get_result(before.insert(key, None), key, r),
    ensures
        r == Some(&None::<V>),
{
}

/// A write of one key leaves what `get` gives for every other key.
pub proof fn lemma_write_other_key<K, V>(
    before: Map<K, Option<V>>,
    key: K,
    write: Option<V>,
    other: K,
    r: Option<&Option<V>>,
)
    requires
        other != key,
        get_result(before.insert(key, write), other, r),
    ensures
        get_result(before, other, r),
{
}

} // verus!
