//! One block of a sorted string table: a run of keys with their values or
//! tombstones, and its byte format.
use crate::byte_format::{at, append_bytes, append_len, len_prefix, lemma_len_prefix, prefix_value, read_len};
use crate::search::{binary_search, key_eq, lemma_order_laws, strictly_sorted, total_order};
use crate::sstable::ToBytes;
use vstd::prelude::*;
use vstd::slice::slice_subrange;

verus! {

/// The view of an optional value.
pub open spec fn opt_view<V: View>(o: Option<V>) -> Option<V::V> {
    match o {
        Some(v) => Some(v@),
        None => None,
    }
}

/// The bytes of one entry: key length, key, then value length and value, or
/// a zero length for a tombstone.
pub open spec fn entry_bytes<K: ToBytes, V: ToBytes>(k: K::V, v: Option<V::V>) -> Seq<u8> {
    let kb = K::spec_serialize(k);
    len_prefix(kb.len()) + kb + match v {
        Some(x) => len_prefix(V::spec_serialize(x).len()) + V::spec_serialize(x),
        None => len_prefix(0),
    }
}

/// The bytes of a run of entries, one after another.
pub open spec fn entries_bytes<K: ToBytes, V: ToBytes>(s: Seq<(K::V, Option<V::V>)>) -> Seq<u8>
    decreases s.len(),
{
    if s.len() == 0 {
        Seq::empty()
    } else {
        entry_bytes::<K, V>(s[0].0, s[0].1) + entries_bytes::<K, V>(s.drop_first())
    }
}

/// The entries read from the front of a buffer, up to its end or to the
/// first entry that is cut short or cannot be read back.
pub open spec fn parse_entries<K: ToBytes, V: ToBytes>(b: Seq<u8>) -> Seq<(K::V, Option<V::V>)>
    decreases b.len(),
{
    if b.len() < 8 {
        Seq::empty()
    } else {
        let kl = prefix_value(b.subrange(0, 8)) as int;
        if b.len() < 16 + kl {
            Seq::empty()
        } else {
            let kb = b.subrange(8, 8 + kl);
            let vl = prefix_value(b.subrange(8 + kl, 16 + kl)) as int;
            if !K::spec_deserializable(kb) {
                Seq::empty()
            } else if vl == 0 {
                seq![(K::spec_deserialize(kb), None::<V::V>)] + parse_entries::<K, V>(
                    b.subrange(16 + kl, b.len() as int),
                )
            } else if b.len() < 16 + kl + vl {
                Seq::empty()
            } else {
                let vb = b.subrange(16 + kl, 16 + kl + vl);
                if !V::spec_deserializable(vb) {
                    Seq::empty()
                } else {
                    seq![(K::spec_deserialize(kb), Some(V::spec_deserialize(vb)))]
                        + parse_entries::<K, V>(b.subrange(16 + kl + vl, b.len() as int))
                }
            }
        }
    }
}

/// What reading back an entry gives: a value whose bytes are empty is written
/// with a zero length and so reads back as a tombstone.
pub open spec fn stored_value<V: ToBytes>(v: Option<V::V>) -> Option<V::V> {
    match v {
        Some(x) => if V::spec_serialize(x).len() == 0 {
            None
        } else {
            Some(x)
        },
        None => None,
    }
}

/// The entries of a run as they read back from their bytes.
pub open spec fn stored_entries<K: ToBytes, V: ToBytes>(s: Seq<(K::V, Option<V::V>)>) -> Seq<(K::V, Option<V::V>)> {
    Seq::new(s.len(), |i: int| (s[i].0, stored_value::<V>(s[i].1)))
}

/// The views of borrowed pairs.
pub open spec fn pairs_view<K: View, V: View>(p: Seq<(&K, &Option<V>)>) -> Seq<(K::V, Option<V::V>)> {
    Seq::new(p.len(), |i: int| (p[i].0@, opt_view(*p[i].1)))
}

/// The views of owned keys and values, side by side.
pub open spec fn zip_view<K: View, V: View>(keys: Seq<K>, values: Seq<Option<V>>) -> Seq<(K::V, Option<V::V>)> {
    Seq::new(keys.len(), |i: int| (keys[i]@, opt_view(values[i])))
}

/// `entries_bytes` of a prefix grows by one entry at a time.
proof fn lemma_entries_bytes_push<K: ToBytes, V: ToBytes>(s: Seq<(K::V, Option<V::V>)>, i: int)
    requires
        0 <= i < s.len(),
    ensures
        entries_bytes::<K, V>(s.take(i + 1)) == entries_bytes::<K, V>(s.take(i)) + entry_bytes::<K, V>(
            s[i].0,
            s[i].1,
        ),
    decreases i,
{
    if i == 0 {
        let e = Seq::<(K::V, Option<V::V>)>::empty();
        assert(s.take(1).drop_first() =~= e);
        assert(s.take(0) =~= e);
        assert(entries_bytes::<K, V>(e) == Seq::<u8>::empty());
        assert(s.take(1)[0] == s[0]);
        assert(entries_bytes::<K, V>(s.take(1)) =~= entry_bytes::<K, V>(s[0].0, s[0].1) + Seq::<u8>::empty());
    } else {
        let t = s.drop_first();
        lemma_entries_bytes_push::<K, V>(t, i - 1);
        assert(s.take(i + 1).drop_first() =~= t.take(i));
        assert(s.take(i).drop_first() =~= t.take(i - 1));
        assert(t[i - 1] == s[i]);
        assert(entries_bytes::<K, V>(s.take(i + 1)) =~= entry_bytes::<K, V>(s[0].0, s[0].1)
            + entries_bytes::<K, V>(t.take(i)));
        assert(entries_bytes::<K, V>(s.take(i)) =~= entry_bytes::<K, V>(s[0].0, s[0].1)
            + entries_bytes::<K, V>(t.take(i - 1)));
    }
}

/// Whether every key and value of a run has bytes short enough for a length
/// prefix.
pub open spec fn entries_fit<K: ToBytes, V: ToBytes>(s: Seq<(K::V, Option<V::V>)>) -> bool {
    forall|i: int|
        0 <= i < s.len() ==> {
            &&& K::spec_serialize(#[trigger] s[i].0).len() <= u64::MAX
            &&& match s[i].1 {
                Some(x) => V::spec_serialize(x).len() <= u64::MAX,
                None => true,
            }
        }
}

/// Block round trip: reading back the bytes of a run of entries gives the run
/// again, each value as it is stored (a value with empty bytes comes back as a
/// tombstone).
pub proof fn lemma_entries_roundtrip<K: ToBytes, V: ToBytes>(s: Seq<(K::V, Option<V::V>)>)
    requires
        entries_fit::<K, V>(s),
    ensures
        parse_entries::<K, V>(entries_bytes::<K, V>(s)) == stored_entries::<K, V>(s),
    decreases s.len(),
{
    let b = entries_bytes::<K, V>(s);
    if s.len() == 0 {
        assert(stored_entries::<K, V>(s) =~= Seq::empty());
    } else {
        let (k, v) = s[0];
        let t = s.drop_first();
        assert(entries_fit::<K, V>(t)) by {
            assert forall|i: int| 0 <= i < t.len() implies {
                &&& K::spec_serialize(#[trigger] t[i].0).len() <= u64::MAX
                &&& match t[i].1 {
                    Some(x) => V::spec_serialize(x).len() <= u64::MAX,
                    None => true,
                }
            } by {
                assert(t[i] == s[i + 1]);
            }
        }
        lemma_entries_roundtrip::<K, V>(t);
        let kb = K::spec_serialize(k);
        K::lemma_serialize_roundtrip(k);
        lemma_len_prefix(kb.len());
        let tail = entries_bytes::<K, V>(t);
        let kl = kb.len() as int;
        assert(b.subrange(0, 8) =~= len_prefix(kb.len()));
        assert(b.subrange(8, 8 + kl) =~= kb);
        match v {
            Some(x) => {
                let vb = V::spec_serialize(x);
                V::lemma_serialize_roundtrip(x);
                lemma_len_prefix(vb.len());
                let vl = vb.len() as int;
                assert(b.subrange(8 + kl, 16 + kl) =~= len_prefix(vb.len()));
                if vl == 0 {
                    assert(b.subrange(16 + kl, b.len() as int) =~= tail);
                } else {
                    assert(b.subrange(16 + kl, 16 + kl + vl) =~= vb);
                    assert(b.subrange(16 + kl + vl, b.len() as int) =~= tail);
                }
            },
            None => {
                lemma_len_prefix(0);
                assert(b.subrange(8 + kl, 16 + kl) =~= len_prefix(0));
                assert(b.subrange(16 + kl, b.len() as int) =~= tail);
            },
        }
        assert(parse_entries::<K, V>(b) =~= stored_entries::<K, V>(s));
    }
}

/// Reading back the bytes of a run of entries followed by other bytes gives
/// the run, as stored, then what the other bytes read as.
pub proof fn lemma_entries_then_rest<K: ToBytes, V: ToBytes>(s: Seq<(K::V, Option<V::V>)>, rest: Seq<u8>)
    requires
        entries_fit::<K, V>(s),
    ensures
        parse_entries::<K, V>(entries_bytes::<K, V>(s) + rest) == stored_entries::<K, V>(s) + parse_entries::<K, V>(rest),
    decreases s.len(),
{
    let b = entries_bytes::<K, V>(s) + rest;
    if s.len() == 0 {
        assert(b =~= rest);
        assert(stored_entries::<K, V>(s) + parse_entries::<K, V>(rest) =~= parse_entries::<K, V>(rest));
    } else {
        let (k, v) = s[0];
        let t = s.drop_first();
        assert(entries_fit::<K, V>(t)) by {
            assert forall|i: int| 0 <= i < t.len() implies {
                &&& K::spec_serialize(#[trigger] t[i].0).len() <= u64::MAX
                &&& match t[i].1 {
                    Some(x) => V::spec_serialize(x).len() <= u64::MAX,
                    None => true,
                }
            } by {
                assert(t[i] == s[i + 1]);
            }
        }
        lemma_entries_then_rest::<K, V>(t, rest);
        let kb = K::spec_serialize(k);
        K::lemma_serialize_roundtrip(k);
        lemma_len_prefix(kb.len());
        let tail = entries_bytes::<K, V>(t) + rest;
        let kl = kb.len() as int;
        assert(b.subrange(0, 8) =~= len_prefix(kb.len()));
        assert(b.subrange(8, 8 + kl) =~= kb);
        match v {
            Some(x) => {
                let vb = V::spec_serialize(x);
                V::lemma_serialize_roundtrip(x);
                lemma_len_prefix(vb.len());
                let vl = vb.len() as int;
                assert(b.subrange(8 + kl, 16 + kl) =~= len_prefix(vb.len()));
                if vl == 0 {
                    assert(b.subrange(16 + kl, b.len() as int) =~= tail);
                } else {
                    assert(b.subrange(16 + kl, 16 + kl + vl) =~= vb);
                    assert(b.subrange(16 + kl + vl, b.len() as int) =~= tail);
                }
            },
            None => {
                lemma_len_prefix(0);
                assert(b.subrange(8 + kl, 16 + kl) =~= len_prefix(0));
                assert(b.subrange(16 + kl, b.len() as int) =~= tail);
            },
        }
        assert(parse_entries::<K, V>(b) =~= stored_entries::<K, V>(s) + parse_entries::<K, V>(rest));
    }
}

/// A cut-off entry reads as nothing: a proper prefix of the bytes of an
/// entry holds no entry.
pub proof fn lemma_cut_entry<K: ToBytes, V: ToBytes>(k: K::V, v: Option<V::V>, t: Seq<u8>)
    requires
        entries_fit::<K, V>(seq![(k, v)]),
        t.len() < entry_bytes::<K, V>(k, v).len(),
        t == entry_bytes::<K, V>(k, v).take(t.len() as int),
    ensures
        parse_entries::<K, V>(t) == Seq::<(K::V, Option<V::V>)>::empty(),
{
    let e = entry_bytes::<K, V>(k, v);
    let kb = K::spec_serialize(k);
    let one = seq![(k, v)];
    assert(one[0] == (k, v));
    assert(K::spec_serialize(one[0].0).len() <= u64::MAX);
    assert(match one[0].1 {
        Some(x) => V::spec_serialize(x).len() <= u64::MAX,
        None => true,
    });
    lemma_len_prefix(kb.len());
    let kl = kb.len() as int;
    if t.len() >= 8 {
        assert(t.subrange(0, 8) =~= e.subrange(0, 8));
        assert(e.subrange(0, 8) =~= len_prefix(kb.len()));
        if t.len() >= 16 + kl {
            assert(t.subrange(8 + kl, 16 + kl) =~= e.subrange(8 + kl, 16 + kl));
            match v {
                Some(x) => {
                    let vb = V::spec_serialize(x);
                    lemma_len_prefix(vb.len());
                    assert(e.subrange(8 + kl, 16 + kl) =~= len_prefix(vb.len()));
                },
                None => {
                    lemma_len_prefix(0);
                    assert(e.subrange(8 + kl, 16 + kl) =~= len_prefix(0));
                },
            }
        }
    }
}

/// Cut-off law: bytes cut off in the middle of an entry after whole entries,
/// as after a write interrupted by a crash, change nothing that is read: the
/// whole entries read back, as stored, and the cut-off entry is left out.
pub proof fn lemma_cut_record<K: ToBytes, V: ToBytes>(
    s: Seq<(K::V, Option<V::V>)>,
    k: K::V,
    v: Option<V::V>,
    t: Seq<u8>,
)
    requires
        entries_fit::<K, V>(s),
        entries_fit::<K, V>(seq![(k, v)]),
        t.len() < entry_bytes::<K, V>(k, v).len(),
        t == entry_bytes::<K, V>(k, v).take(t.len() as int),
    ensures
        parse_entries::<K, V>(entries_bytes::<K, V>(s) + t) == parse_entries::<K, V>(entries_bytes::<K, V>(s)),
        parse_entries::<K, V>(entries_bytes::<K, V>(s)) == stored_entries::<K, V>(s),
{
    lemma_entries_then_rest::<K, V>(s, t);
    lemma_cut_entry::<K, V>(k, v, t);
    lemma_entries_roundtrip::<K, V>(s);
    assert(stored_entries::<K, V>(s) + Seq::<(K::V, Option<V::V>)>::empty() =~= stored_entries::<K, V>(s));
}

/// A block of a sorted string table.
pub struct SSTableEntry<K: Ord + ToBytes, V: ToBytes> {
    keys: Vec<K>,
    values: Vec<Option<V>>,
}

impl<K: Ord + ToBytes, V: ToBytes> SSTableEntry<K, V> {
    #[verifier::type_invariant]
    spec fn well_formed(self) -> bool {
        self.keys.len() == self.values.len()
    }

    /// The keys of the block, in order.
    pub closed spec fn keys(&self) -> Seq<K> {
        self.keys@
    }

    /// The values of the block, position by position with the keys.
    pub closed spec fn values(&self) -> Seq<Option<V>> {
        self.values@
    }

    /// The entries of the block, by view.
    pub open spec fn entries(&self) -> Seq<(K::V, Option<V::V>)> {
        zip_view(self.keys(), self.values())
    }

    /// The number of entries.
    pub closed spec fn len(&self) -> nat {
        self.keys@.len()
    }

    /// Writes a run of entries in the block format.
    pub fn to_buf(pairs: &Vec<(&K, &Option<V>)>) -> (r: Vec<u8>)
        ensures
            r@ == entries_bytes::<K, V>(pairs_view(pairs@)),
            entries_fit::<K, V>(pairs_view(pairs@)),
    {
        let mut buf: Vec<u8> = Vec::with_capacity(pairs.len());
        let ghost s = pairs_view(pairs@);
        let mut i: usize = 0;
        while i < pairs.len()
            invariant
                i <= pairs@.len(),
                s == pairs_view(pairs@),
                buf@ == entries_bytes::<K, V>(s.take(i as int)),
                entries_fit::<K, V>(s.take(i as int)),
            decreases pairs@.len() - i,
        {
            let (a, b) = pairs[i];
            proof {
                lemma_entries_bytes_push::<K, V>(s, i as int);
            }
            let ka = a.serialize();
            append_len(&mut buf, a.bytes_len());
            append_bytes(&mut buf, ka.as_slice());
            match b {
                Some(value) => {
                    let va = value.serialize();
                    append_len(&mut buf, value.bytes_len());
                    append_bytes(&mut buf, va.as_slice());
                },
                None => {
                    append_len(&mut buf, 0);
                },
            }
            assert(buf@ =~= entries_bytes::<K, V>(s.take(i as int)) + entry_bytes::<K, V>(s[i as int].0, s[i as int].1));
            assert(entries_fit::<K, V>(s.take(i + 1))) by {
                assert forall|j: int| 0 <= j < i + 1 implies {
                    &&& K::spec_serialize(#[trigger] s.take(i + 1)[j].0).len() <= u64::MAX
                    &&& match s.take(i + 1)[j].1 {
                        Some(x) => V::spec_serialize(x).len() <= u64::MAX,
                        None => true,
                    }
                } by {
                    if j < i {
                        assert(s.take(i + 1)[j] == s.take(i as int)[j]);
                    }
                }
            }
            i = i + 1;
        }
        assert(s.take(pairs@.len() as int) =~= s);
        buf
    }

    /// Reads a block back from its bytes. Reading ends at the end of the
    /// buffer, or at the first entry that is cut short or cannot be read back,
    /// as after a write interrupted by a crash.
    pub fn from_buf(buf: Vec<u8>) -> (r: Self)
        ensures
            r.entries() == parse_entries::<K, V>(buf@),
    {
        let mut keys: Vec<K> = Vec::new();
        let mut values: Vec<Option<V>> = Vec::new();
        let n = buf.len();
        let mut pos: usize = 0;
        assert(buf@.subrange(0, n as int) =~= buf@);
        assert(zip_view(keys@, values@) + parse_entries::<K, V>(buf@) =~= parse_entries::<K, V>(buf@));
        loop
            invariant
                pos <= n,
                n == buf@.len(),
                keys@.len() == values@.len(),
                zip_view(keys@, values@) + parse_entries::<K, V>(buf@.subrange(pos as int, n as int))
                    == parse_entries::<K, V>(buf@),
            ensures
                keys@.len() == values@.len(),
                zip_view(keys@, values@) == parse_entries::<K, V>(buf@),
            decreases n - pos,
        {
            let ghost rest = buf@.subrange(pos as int, n as int);
            let ghost before = zip_view(keys@, values@);
            if n - pos < 8 {
                assert(zip_view(keys@, values@) =~= before + parse_entries::<K, V>(rest));
                break;
            }
            let kl = read_len(buf.as_slice(), pos);
            assert(rest.subrange(0, 8) =~= buf@.subrange(pos as int, pos + 8));
            if ((n - pos - 8) as u64) < kl || n - pos - 8 - (kl as usize) < 8 {
                assert(zip_view(keys@, values@) =~= before + parse_entries::<K, V>(rest));
                break;
            }
            let p1 = pos + 8;
            let p2 = p1 + kl as usize;
            let kb = slice_subrange(buf.as_slice(), p1, p2);
            assert(rest.subrange(8, 8 + kl) =~= kb@);
            if !K::is_deserializable(kb) {
                assert(zip_view(keys@, values@) =~= before + parse_entries::<K, V>(rest));
                break;
            }
            let vl = read_len(buf.as_slice(), p2);
            assert(rest.subrange(8 + kl, 16 + kl) =~= buf@.subrange(p2 as int, p2 + 8));
            let p3 = p2 + 8;
            if vl == 0 {
                let key = K::deserialize(kb);
                keys.push(key);
                values.push(None);
                assert(rest.subrange(16 + kl, rest.len() as int) =~= buf@.subrange(p3 as int, n as int));
                assert(zip_view(keys@, values@) =~= before + seq![(K::spec_deserialize(kb@), None::<V::V>)]);
                pos = p3;
            } else {
                if ((n - p3) as u64) < vl {
                    assert(zip_view(keys@, values@) =~= before + parse_entries::<K, V>(rest));
                    break;
                }
                let p4 = p3 + vl as usize;
                let vb = slice_subrange(buf.as_slice(), p3, p4);
                assert(rest.subrange(16 + kl, 16 + kl + vl) =~= vb@);
                if !V::is_deserializable(vb) {
                    assert(zip_view(keys@, values@) =~= before + parse_entries::<K, V>(rest));
                    break;
                }
                let key = K::deserialize(kb);
                let value = V::deserialize(vb);
                keys.push(key);
                values.push(Some(value));
                assert(rest.subrange(16 + kl + vl, rest.len() as int) =~= buf@.subrange(p4 as int, n as int));
                assert(zip_view(keys@, values@) =~= before + seq![(K::spec_deserialize(kb@), Some(V::spec_deserialize(vb@)))]);
                pos = p4;
            }
        }
        SSTableEntry { keys, values }
    }

    /// The entries of the block as owned pairs, in order.
    pub fn into_iter(self) -> (r: Vec<(K, Option<V>)>)
        ensures
            r@.len() == self.keys().len(),
            forall|i: int| 0 <= i < r@.len() ==> #[trigger] r@[i] == (self.keys()[i], self.values()[i]),
    {
        proof {
            use_type_invariant(&self);
        }
        let SSTableEntry { mut keys, mut values } = self;
        let n = keys.len();
        let mut reversed: Vec<(K, Option<V>)> = Vec::new();
        while keys.len() > 0
            invariant
                keys@.len() == values@.len(),
                keys@.len() + reversed@.len() == n,
                n == self.keys().len(),
                n == self.values().len(),
                keys@ == self.keys().take(keys@.len() as int),
                values@ == self.values().take(values@.len() as int),
                forall|j: int|
                    0 <= j < reversed@.len() ==> #[trigger] reversed@[j] == (
                        self.keys()[n - 1 - j],
                        self.values()[n - 1 - j],
                    ),
            decreases keys@.len(),
        {
            let ghost m = keys@.len() as int;
            let k = keys.pop().unwrap();
            let v = values.pop().unwrap();
            assert(k == self.keys()[m - 1] && v == self.values()[m - 1]);
            assert(keys@ =~= self.keys().take(m - 1));
            assert(values@ =~= self.values().take(m - 1));
            reversed.push((k, v));
        }
        let mut out: Vec<(K, Option<V>)> = Vec::new();
        while reversed.len() > 0
            invariant
                reversed@.len() + out@.len() == n,
                n == self.keys().len(),
                forall|j: int|
                    0 <= j < reversed@.len() ==> #[trigger] reversed@[j] == (
                        self.keys()[n - 1 - j],
                        self.values()[n - 1 - j],
                    ),
                forall|i: int| 0 <= i < out@.len() ==> #[trigger] out@[i] == (self.keys()[i], self.values()[i]),
            decreases reversed@.len(),
        {
            let pair = reversed.pop().unwrap();
            out.push(pair);
        }
        out
    }

    /// Takes the value or tombstone stored for `key`, if the block holds the
    /// key.
    ///
    /// The keys must be in strictly increasing order for a missing key to be
    /// reported as missing; a key that is found is found on any keys.
    pub fn take(self, key: &K) -> (r: Option<Option<V>>)
        requires
            total_order::<K>(),
        ensures
            match r {
                Some(v) => exists|i: int|
                    0 <= i < self.keys().len() && key_eq(#[trigger] self.keys()[i], *key) && v
                        == self.values()[i],
                None => strictly_sorted(self.keys()) ==> forall|i: int|
                    0 <= i < self.keys().len() ==> !key_eq(#[trigger] self.keys()[i], *key),
            },
    {
        proof {
            use_type_invariant(&self);
        }
        let SSTableEntry { keys, mut values } = self;
        match binary_search(&keys, key) {
            Ok(i) => {
                let v = values.swap_remove(i);
                let ghost j = at(i);
                assert(keys@ == self.keys());
                assert(0 <= j < self.keys().len());
                assert(key_eq(self.keys()[j], *key) && v == self.values()[j]);
                Some(v)
            },
            Err(_) => {
                proof {
                    lemma_order_laws::<K>();
                }
                None
            },
        }
    }
}

} // verus!
