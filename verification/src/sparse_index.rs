//! The sparse index of a sorted string table: the first key of each block and
//! the byte offsets at which the blocks start and end.
use crate::byte_format::{append_bytes, append_len, at, len_prefix, lemma_len_prefix, prefix_value, read_len};
use crate::search::{binary_search, key_lt, lemma_order_laws, strictly_sorted, total_order};
use crate::sstable::ToBytes;
use crate::traits::SSTableError;
use vstd::bytes::*;
use vstd::prelude::*;
use vstd::slice::slice_subrange;

verus! {

/// The bytes of a run of keys, each with its length prefix.
pub open spec fn keys_bytes<K: ToBytes>(ks: Seq<K::V>) -> Seq<u8>
    decreases ks.len(),
{
    if ks.len() == 0 {
        Seq::empty()
    } else {
        len_prefix(K::spec_serialize(ks[0]).len()) + K::spec_serialize(ks[0]) + keys_bytes::<K>(ks.drop_first())
    }
}

/// The bytes of a run of offsets, 8 little-endian bytes each.
pub open spec fn offsets_bytes(os: Seq<u64>) -> Seq<u8>
    decreases os.len(),
{
    if os.len() == 0 {
        Seq::empty()
    } else {
        spec_u64_to_le_bytes(os[0]) + offsets_bytes(os.drop_first())
    }
}

/// Every offset but the first.
pub open spec fn tail_offsets(os: Seq<u64>) -> Seq<u64> {
    if os.len() == 0 {
        Seq::empty()
    } else {
        os.drop_first()
    }
}

/// The bytes of an index: the number of keys, the keys, then every offset
/// but the leading zero.
pub open spec fn index_bytes<K: ToBytes>(ks: Seq<K::V>, os: Seq<u64>) -> Seq<u8> {
    len_prefix(ks.len()) + keys_bytes::<K>(ks) + offsets_bytes(tail_offsets(os))
}

/// Puts keys in front of the keys of a read.
pub open spec fn prepend_keys<T>(ks: Seq<T>, r: Option<(Seq<T>, Seq<u8>)>) -> Option<(Seq<T>, Seq<u8>)> {
    match r {
        Some((more, rest)) => Some((ks + more, rest)),
        None => None,
    }
}

proof fn lemma_keys_bytes_push<K: ToBytes>(s: Seq<K::V>, i: int)
    requires
        0 <= i < s.len(),
    ensures
        keys_bytes::<K>(s.take(i + 1)) == keys_bytes::<K>(s.take(i)) + len_prefix(
            K::spec_serialize(s[i]).len(),
        ) + K::spec_serialize(s[i]),
    decreases i,
{
    let e = Seq::<K::V>::empty();
    if i == 0 {
        assert(s.take(1).drop_first() =~= e);
        assert(s.take(0) =~= e);
        assert(keys_bytes::<K>(e) == Seq::<u8>::empty());
        assert(s.take(1)[0] == s[0]);
        assert(keys_bytes::<K>(s.take(1)) =~= keys_bytes::<K>(s.take(0)) + len_prefix(
            K::spec_serialize(s[0]).len(),
        ) + K::spec_serialize(s[0]));
    } else {
        let t = s.drop_first();
        lemma_keys_bytes_push::<K>(t, i - 1);
        assert(s.take(i + 1).drop_first() =~= t.take(i));
        assert(s.take(i).drop_first() =~= t.take(i - 1));
        assert(t[i - 1] == s[i]);
        assert(s.take(i + 1)[0] == s[0]);
        assert(s.take(i)[0] == s[0]);
        assert(keys_bytes::<K>(s.take(i + 1)) =~= keys_bytes::<K>(s.take(i)) + len_prefix(
            K::spec_serialize(s[i]).len(),
        ) + K::spec_serialize(s[i]));
    }
}

proof fn lemma_offsets_bytes_push(s: Seq<u64>, i: int)
    requires
        0 <= i < s.len(),
    ensures
        offsets_bytes(s.take(i + 1)) == offsets_bytes(s.take(i)) + spec_u64_to_le_bytes(s[i]),
    decreases i,
{
    let e = Seq::<u64>::empty();
    if i == 0 {
        assert(s.take(1).drop_first() =~= e);
        assert(s.take(0) =~= e);
        assert(offsets_bytes(e) == Seq::<u8>::empty());
        assert(s.take(1)[0] == s[0]);
        assert(offsets_bytes(s.take(1)) =~= offsets_bytes(s.take(0)) + spec_u64_to_le_bytes(s[0]));
    } else {
        let t = s.drop_first();
        lemma_offsets_bytes_push(t, i - 1);
        assert(s.take(i + 1).drop_first() =~= t.take(i));
        assert(s.take(i).drop_first() =~= t.take(i - 1));
        assert(t[i - 1] == s[i]);
        assert(s.take(i + 1)[0] == s[0]);
        assert(s.take(i)[0] == s[0]);
        assert(offsets_bytes(s.take(i + 1)) =~= offsets_bytes(s.take(i)) + spec_u64_to_le_bytes(s[i]));
    }
}

/// Reads `count` keys from the front of `b`; gives them and the bytes after
/// them, or `None` where the keys are cut short or cannot be read back.
pub open spec fn parse_keys<K: ToBytes>(b: Seq<u8>, count: nat) -> Option<(Seq<K::V>, Seq<u8>)>
    decreases count,
{
    if count == 0 {
        Some((Seq::empty(), b))
    } else if b.len() < 8 {
        None
    } else {
        let kl = prefix_value(b.subrange(0, 8)) as int;
        if b.len() < 8 + kl || !K::spec_deserializable(b.subrange(8, 8 + kl)) {
            None
        } else {
            match parse_keys::<K>(b.subrange(8 + kl, b.len() as int), (count - 1) as nat) {
                Some((ks, rest)) => Some((seq![K::spec_deserialize(b.subrange(8, 8 + kl))] + ks, rest)),
                None => None,
            }
        }
    }
}

/// Reads whole 8-byte offsets from the front of `b`; bytes after the last
/// whole offset are left.
pub open spec fn parse_offsets(b: Seq<u8>) -> Seq<u64>
    decreases b.len(),
{
    if b.len() < 8 {
        Seq::empty()
    } else {
        seq![spec_u64_from_le_bytes(b.subrange(0, 8))] + parse_offsets(b.subrange(8, b.len() as int))
    }
}

/// Reads an index: the keys, and the offsets after a leading zero.
pub open spec fn parse_index<K: ToBytes>(b: Seq<u8>) -> Option<(Seq<K::V>, Seq<u64>)> {
    if b.len() < 8 {
        None
    } else {
        match parse_keys::<K>(b.subrange(8, b.len() as int), prefix_value(b.subrange(0, 8))) {
            Some((ks, rest)) => Some((ks, seq![0u64] + parse_offsets(rest))),
            None => None,
        }
    }
}

/// The views of a run of keys.
pub open spec fn keys_view<K: View>(s: Seq<K>) -> Seq<K::V> {
    Seq::new(s.len(), |i: int| s[i]@)
}

/// The block that a key falls in: the last block whose first key is not after
/// it, given by its start and end offsets; none where the key comes before
/// every first key.
pub open spec fn block_of<K: Ord>(keys: Seq<K>, offsets: Seq<u64>, key: K) -> Option<(u64, u64)> {
    if exists|i: int| 0 <= i < keys.len() && !key_lt(key, #[trigger] keys[i]) {
        let i = choose|i: int|
            0 <= i < keys.len() && !key_lt(key, #[trigger] keys[i]) && (i + 1 == keys.len() || key_lt(
                key,
                keys[i + 1],
            ));
        Some((offsets[i], offsets[i + 1]))
    } else {
        None
    }
}

/// Whether every key of a run has bytes short enough for a length prefix.
pub open spec fn keys_fit<K: ToBytes>(ks: Seq<K::V>) -> bool {
    &&& ks.len() <= u64::MAX
    &&& forall|i: int| 0 <= i < ks.len() ==> K::spec_serialize(#[trigger] ks[i]).len() <= u64::MAX
}

proof fn lemma_keys_roundtrip<K: ToBytes>(ks: Seq<K::V>, tail: Seq<u8>)
    requires
        forall|i: int| 0 <= i < ks.len() ==> K::spec_serialize(#[trigger] ks[i]).len() <= u64::MAX,
    ensures
        parse_keys::<K>(keys_bytes::<K>(ks) + tail, ks.len()) == Some((ks, tail)),
    decreases ks.len(),
{
    let b = keys_bytes::<K>(ks) + tail;
    if ks.len() == 0 {
        assert(b =~= tail);
        assert(ks =~= Seq::<K::V>::empty());
    } else {
        let t = ks.drop_first();
        assert forall|i: int| 0 <= i < t.len() implies K::spec_serialize(#[trigger] t[i]).len() <= u64::MAX by {
            assert(t[i] == ks[i + 1]);
        }
        lemma_keys_roundtrip::<K>(t, tail);
        let kb = K::spec_serialize(ks[0]);
        K::lemma_serialize_roundtrip(ks[0]);
        lemma_len_prefix(kb.len());
        let kl = kb.len() as int;
        assert(b.subrange(0, 8) =~= len_prefix(kb.len()));
        assert(b.subrange(8, 8 + kl) =~= kb);
        assert(b.subrange(8 + kl, b.len() as int) =~= keys_bytes::<K>(t) + tail);
        assert(seq![ks[0]] + t =~= ks);
    }
}

proof fn lemma_offsets_roundtrip(os: Seq<u64>)
    ensures
        parse_offsets(offsets_bytes(os)) == os,
    decreases os.len(),
{
    lemma_auto_spec_u64_to_from_le_bytes();
    let b = offsets_bytes(os);
    if os.len() == 0 {
        assert(os =~= Seq::<u64>::empty());
    } else {
        lemma_offsets_roundtrip(os.drop_first());
        assert(b.subrange(0, 8) =~= spec_u64_to_le_bytes(os[0]));
        assert(b.subrange(8, b.len() as int) =~= offsets_bytes(os.drop_first()));
        assert(seq![os[0]] + os.drop_first() =~= os);
    }
}

/// Index round trip: reading back the bytes of an index gives its keys and
/// offsets again, when the offsets start with the leading zero that every
/// index starts with.
pub proof fn lemma_index_roundtrip<K: ToBytes>(ks: Seq<K::V>, os: Seq<u64>)
    requires
        keys_fit::<K>(ks),
        os.len() >= 1,
        os[0] == 0,
    ensures
        parse_index::<K>(index_bytes::<K>(ks, os)) == Some((ks, os)),
{
    let b = index_bytes::<K>(ks, os);
    let tail = offsets_bytes(tail_offsets(os));
    lemma_len_prefix(ks.len());
    lemma_keys_roundtrip::<K>(ks, tail);
    lemma_offsets_roundtrip(tail_offsets(os));
    assert(b.subrange(0, 8) =~= len_prefix(ks.len()));
    assert(b.subrange(8, b.len() as int) =~= keys_bytes::<K>(ks) + tail);
    assert(seq![0u64] + tail_offsets(os) =~= os);
}

/// Maps keys to the byte ranges of the blocks that may hold them.
pub struct SparseIndex<K: Ord + ToBytes> {
    sparse_keys: Vec<K>,
    sparse_offsets: Vec<u64>,
}

impl<K: Ord + ToBytes> SparseIndex<K> {
    /// The first key of each block, in order.
    pub closed spec fn keys(&self) -> Seq<K> {
        self.sparse_keys@
    }

    /// The offsets: a leading zero, then the end of each block.
    pub closed spec fn offsets(&self) -> Seq<u64> {
        self.sparse_offsets@
    }

    /// The block that `key` falls in.
    pub open spec fn block_at(&self, key: K) -> Option<(u64, u64)> {
        block_of(self.keys(), self.offsets(), key)
    }

    pub fn new() -> (r: Self)
        ensures
            r.keys() == Seq::<K>::empty(),
            r.offsets() == seq![0u64],
    {
        let mut sparse_offsets: Vec<u64> = Vec::new();
        sparse_offsets.push(0);
        Self { sparse_keys: Vec::new(), sparse_offsets }
    }

    pub fn with_capacity(capacity: usize) -> (r: Self)
        requires
            capacity < usize::MAX,
        ensures
            r.keys() == Seq::<K>::empty(),
            r.offsets() == seq![0u64],
    {
        let mut sparse_offsets: Vec<u64> = Vec::with_capacity(capacity + 1);
        sparse_offsets.push(0);
        Self { sparse_keys: Vec::with_capacity(capacity), sparse_offsets }
    }

    /// Records that a block with first key `key` ends at `offset`.
    pub fn add_pair(&mut self, key: K, offset: u64)
        ensures
            final(self).keys() == old(self).keys().push(key),
            final(self).offsets() == old(self).offsets().push(offset),
    {
        self.sparse_keys.push(key);
        self.sparse_offsets.push(offset);
    }

    pub fn len(&self) -> (r: usize)
        ensures
            r == self.keys().len(),
    {
        self.sparse_keys.len()
    }

    pub fn last_offset(&self) -> (r: Option<&u64>)
        ensures
            r == (if self.offsets().len() == 0 {
                None
            } else {
                Some(&self.offsets().last())
            }),
    {
        let n = self.sparse_offsets.len();
        if n == 0 {
            None
        } else {
            Some(&self.sparse_offsets[n - 1])
        }
    }

    /// The number of offsets.
    pub fn offsets_len(&self) -> (r: usize)
        ensures
            r == self.offsets().len(),
    {
        self.sparse_offsets.len()
    }

    /// The byte range of each block, in order.
    pub fn block_ranges(&self) -> (r: Vec<(u64, u64)>)
        requires
            self.offsets().len() > self.keys().len(),
        ensures
            r@.len() == self.keys().len(),
            forall|i: int| 0 <= i < r@.len() ==> #[trigger] r@[i] == (self.offsets()[i], self.offsets()[i + 1]),
    {
        let n = self.sparse_keys.len();
        let mut r: Vec<(u64, u64)> = Vec::new();
        let mut i: usize = 0;
        while i < n
            invariant
                n == self.keys().len(),
                self.offsets().len() > n,
                i <= n,
                r@.len() == i,
                forall|j: int| 0 <= j < i ==> #[trigger] r@[j] == (self.offsets()[j], self.offsets()[j + 1]),
            decreases n - i,
        {
            r.push((self.sparse_offsets[i], self.sparse_offsets[i + 1]));
            i = i + 1;
        }
        r
    }

    /// The start and end offsets of the block that may hold `key`.
    ///
    /// The keys must be in strictly increasing order for the range to be the
    /// right one; on other keys it is still a range of the offsets.
    pub fn get_offset(&self, key: &K) -> (r: Option<(u64, u64)>)
        requires
            total_order::<K>(),
            self.offsets().len() > self.keys().len(),
        ensures
            strictly_sorted(self.keys()) ==> r == self.block_at(*key),
    {
        proof {
            lemma_order_laws::<K>();
        }
        let ghost ks = self.keys();
        let n_offsets = self.sparse_offsets.len();
        match binary_search(&self.sparse_keys, key) {
            Ok(index) => {
                let ghost i = at(index);
                proof {
                    if strictly_sorted(ks) {
                        assert(!key_lt(*key, ks[i]));
                        assert(i + 1 == ks.len() || key_lt(*key, ks[i + 1])) by {
                            if i + 1 < ks.len() {
                                assert(key_lt(ks[i], ks[i + 1]));
                            }
                        }
                        self.lemma_block_unique(*key, i);
                    }
                }
                Some((self.sparse_offsets[index], self.sparse_offsets[index + 1]))
            },
            Err(index) => {
                if index == 0 {
                    proof {
                        if strictly_sorted(ks) {
                            assert forall|i: int| 0 <= i < ks.len() implies key_lt(*key, #[trigger] ks[i]) by {}
                        }
                    }
                    None
                } else {
                    let ghost i = at(index) - 1;
                    proof {
                        if strictly_sorted(ks) {
                            assert(!key_lt(*key, ks[i]));
                            self.lemma_block_unique(*key, i);
                        }
                    }
                    Some((self.sparse_offsets[index - 1], self.sparse_offsets[index]))
                }
            },
        }
    }

    /// Writes the index in its byte format.
    pub fn to_buf(&self) -> (r: Vec<u8>)
        ensures
            r@ == index_bytes::<K>(keys_view(self.keys()), self.offsets()),
            keys_fit::<K>(keys_view(self.keys())),
    {
        let ghost kv = keys_view(self.keys());
        let ghost os = tail_offsets(self.offsets());
        let nk = self.sparse_keys.len();
        let mut buf: Vec<u8> = Vec::with_capacity(nk);
        append_len(&mut buf, nk);
        let mut i: usize = 0;
        while i < nk
            invariant
                nk == self.keys().len(),
                i <= nk,
                kv == keys_view(self.keys()),
                buf@ == len_prefix(nk as nat) + keys_bytes::<K>(kv.take(i as int)),
                forall|j: int| 0 <= j < i ==> K::spec_serialize(#[trigger] kv[j]).len() <= u64::MAX,
            decreases nk - i,
        {
            let key = &self.sparse_keys[i];
            proof {
                lemma_keys_bytes_push::<K>(kv, i as int);
            }
            let kb = key.serialize();
            append_len(&mut buf, key.bytes_len());
            append_bytes(&mut buf, kb.as_slice());
            i = i + 1;
        }
        assert(kv.take(nk as int) =~= kv);
        let no = self.sparse_offsets.len();
        let ghost head = buf@;
        if no > 0 {
            let mut j: usize = 1;
            while j < no
                invariant
                    no == self.offsets().len(),
                    1 <= j <= no,
                    os == self.offsets().drop_first(),
                    buf@ == head + offsets_bytes(os.take(j - 1)),
                decreases no - j,
            {
                proof {
                    lemma_offsets_bytes_push(os, j - 1);
                }
                let mut ob = u64_to_le_bytes(self.sparse_offsets[j]);
                buf.append(&mut ob);
                j = j + 1;
            }
            assert(os.take(no - 1) =~= os);
        } else {
            assert(os =~= Seq::<u64>::empty());
            assert(offsets_bytes(os) == Seq::<u8>::empty());
            assert(buf@ =~= head + offsets_bytes(os));
        }
        buf
    }

    /// Reads an index back from its bytes.
    pub fn from_buf(buf: Vec<u8>) -> (r: Result<Self, SSTableError>)
        ensures
            match r {
                Ok(idx) => parse_index::<K>(buf@) == Some((keys_view(idx.keys()), idx.offsets())),
                Err(e) => e == SSTableError::CorruptData && parse_index::<K>(buf@) is None,
            },
    {
        let n = buf.len();
        if n < 8 {
            return Err(SSTableError::CorruptData);
        }
        let count = read_len(buf.as_slice(), 0);
        let ghost whole = buf@.subrange(8, n as int);
        let mut sparse_keys: Vec<K> = Vec::new();
        let mut pos: usize = 8;
        let mut i: u64 = 0;
        assert(buf@.subrange(8, n as int) =~= whole);
        assert(prepend_keys(keys_view(sparse_keys@), parse_keys::<K>(whole, count as nat)) =~= parse_keys::<K>(whole, count as nat)) by {
            assert(keys_view(sparse_keys@) =~= Seq::<K::V>::empty());
        }
        while i < count
            invariant
                8 <= pos <= n,
                n == buf@.len(),
                i <= count,
                whole == buf@.subrange(8, n as int),
                count == prefix_value(buf@.subrange(0, 8)),
                parse_keys::<K>(whole, count as nat) == prepend_keys(
                    keys_view(sparse_keys@),
                    parse_keys::<K>(buf@.subrange(pos as int, n as int), (count - i) as nat),
                ),
            decreases count - i,
        {
            let ghost rest = buf@.subrange(pos as int, n as int);
            if n - pos < 8 {
                return Err(SSTableError::CorruptData);
            }
            let kl = read_len(buf.as_slice(), pos);
            assert(rest.subrange(0, 8) =~= buf@.subrange(pos as int, pos + 8));
            if ((n - pos - 8) as u64) < kl {
                return Err(SSTableError::CorruptData);
            }
            let p1 = pos + 8;
            let p2 = p1 + kl as usize;
            let kb = slice_subrange(buf.as_slice(), p1, p2);
            assert(rest.subrange(8, 8 + kl) =~= kb@);
            if !K::is_deserializable(kb) {
                return Err(SSTableError::CorruptData);
            }
            let key = K::deserialize(kb);
            let ghost before = keys_view(sparse_keys@);
            sparse_keys.push(key);
            assert(rest.subrange(8 + kl, rest.len() as int) =~= buf@.subrange(p2 as int, n as int));
            assert(keys_view(sparse_keys@) =~= before + seq![K::spec_deserialize(kb@)]);
            assert(((count - i) as nat - 1) as nat == (count - (i + 1)) as nat);
            pos = p2;
            i = i + 1;
        }
        let ghost krest = buf@.subrange(pos as int, n as int);
        assert(parse_keys::<K>(krest, 0) == Some((Seq::<K::V>::empty(), krest)));
        assert(keys_view(sparse_keys@) + Seq::<K::V>::empty() =~= keys_view(sparse_keys@));
        let mut sparse_offsets: Vec<u64> = Vec::new();
        sparse_offsets.push(0);
        assert(parse_offsets(krest) =~= sparse_offsets@.drop_first() + parse_offsets(krest));
        while n - pos >= 8
            invariant
                pos <= n,
                n == buf@.len(),
                sparse_offsets@.len() >= 1,
                sparse_offsets@[0] == 0,
                parse_offsets(krest) == sparse_offsets@.drop_first() + parse_offsets(
                    buf@.subrange(pos as int, n as int),
                ),
            decreases n - pos,
        {
            let ghost rest = buf@.subrange(pos as int, n as int);
            let ghost before = sparse_offsets@;
            let o = u64_from_le_bytes(slice_subrange(buf.as_slice(), pos, pos + 8));
            assert(rest.subrange(0, 8) =~= buf@.subrange(pos as int, pos + 8));
            assert(rest.subrange(8, rest.len() as int) =~= buf@.subrange(pos + 8, n as int));
            sparse_offsets.push(o);
            assert(sparse_offsets@.drop_first() =~= before.drop_first() + seq![o]);
            pos = pos + 8;
        }
        let ghost last = buf@.subrange(pos as int, n as int);
        assert(parse_offsets(last) =~= Seq::<u64>::empty());
        assert(sparse_offsets@ =~= seq![0u64] + parse_offsets(krest));
        Ok(Self { sparse_keys, sparse_offsets })
    }

    /// The block of a key is the one at `i` when its first key is the last one
    /// not after the key.
    pub proof fn lemma_block_unique(&self, key: K, i: int)
        requires
            total_order::<K>(),
            strictly_sorted(self.keys()),
            0 <= i < self.keys().len(),
            !key_lt(key, self.keys()[i]),
            i + 1 == self.keys().len() || key_lt(key, self.keys()[i + 1]),
        ensures
            block_of(self.keys(), self.offsets(), key) == Some((self.offsets()[i], self.offsets()[i + 1])),
    {
        lemma_order_laws::<K>();
        let ks = self.keys();
        let j = choose|j: int|
            0 <= j < ks.len() && !key_lt(key, #[trigger] ks[j]) && (j + 1 == ks.len() || key_lt(
                key,
                ks[j + 1],
            ));
        if j < i {
            assert(key_lt(ks[j + 1], ks[i]) || j + 1 == i);
        } else if i < j {
            assert(key_lt(ks[i + 1], ks[j]) || i + 1 == j);
        }
    }
}

impl<K: Ord + ToBytes> Default for SparseIndex<K> {
    fn default() -> (r: Self)
        ensures
            r.keys() == Seq::<K>::empty(),
            r.offsets() == seq![0u64],
    {
        Self::new()
    }
}

impl<K: Ord + ToBytes> SparseIndex<K> {
    /// Hands out the keys in order, each with the byte range of its block.
    pub fn into_iter(self) -> (r: IntoIter<K>)
        requires
            self.offsets().len() > self.keys().len(),
        ensures
            r.wf(),
            r.remaining() == self.keys(),
            r.position() == 0,
            r.offsets() == self.offsets(),
    {
        let SparseIndex { mut sparse_keys, sparse_offsets } = self;
        let ghost ks = sparse_keys@;
        let mut reversed: Vec<K> = Vec::new();
        while sparse_keys.len() > 0
            invariant
                sparse_keys@.len() + reversed@.len() == ks.len(),
                forall|i: int| 0 <= i < sparse_keys@.len() ==> sparse_keys@[i] == ks[i],
                forall|i: int| 0 <= i < reversed@.len() ==> #[trigger] reversed@[i] == ks[ks.len() - 1 - i],
            decreases sparse_keys@.len(),
        {
            let k = sparse_keys.pop().unwrap();
            reversed.push(k);
        }
        let r = IntoIter { index: 0, reversed_keys: reversed, sparse_offsets };
        assert(r.remaining() =~= ks);
        r
    }
}

/// Hands out the keys of an index in order, each with the start and end
/// offsets of its block.
pub struct IntoIter<K: Ord + ToBytes> {
    index: usize,
    reversed_keys: Vec<K>,
    sparse_offsets: Vec<u64>,
}

impl<K: Ord + ToBytes> IntoIter<K> {
    /// Every key left has an offset after it.
    pub closed spec fn wf(&self) -> bool {
        self.index + self.reversed_keys@.len() < self.sparse_offsets@.len()
    }

    /// The keys not handed out yet, in order.
    pub closed spec fn remaining(&self) -> Seq<K> {
        Seq::new(
            self.reversed_keys@.len(),
            |i: int| self.reversed_keys@[self.reversed_keys@.len() - 1 - i],
        )
    }

    /// How many keys have been handed out.
    pub closed spec fn position(&self) -> nat {
        self.index as nat
    }

    /// The offsets of the index.
    pub closed spec fn offsets(&self) -> Seq<u64> {
        self.sparse_offsets@
    }

    /// The next key and the byte range of its block.
    pub fn next(&mut self) -> (r: Option<(K, (u64, u64))>)
        requires
            old(self).wf(),
        ensures
            final(self).wf(),
            final(self).offsets() == old(self).offsets(),
            old(self).remaining().len() == 0 ==> r is None && final(self).remaining() == old(self).remaining()
                && final(self).position() == old(self).position(),
            old(self).remaining().len() > 0 ==> {
                let p = old(self).position() as int;
                &&& r == Some((old(self).remaining()[0], (old(self).offsets()[p], old(self).offsets()[p + 1])))
                &&& final(self).remaining() == old(self).remaining().drop_first()
                &&& final(self).position() == old(self).position() + 1
            },
    {
        if self.reversed_keys.len() == 0 {
            return None;
        }
        let key = self.reversed_keys.pop().unwrap();
        let n = self.sparse_offsets.len();
        assert(self.index + 1 < n);
        let result = (key, (self.sparse_offsets[self.index], self.sparse_offsets[self.index + 1]));
        self.index = self.index + 1;
        assert(self.remaining() =~= old(self).remaining().drop_first());
        Some(result)
    }
}

/// Index round trip through the buffer: an index whose offsets start with
/// the leading zero, written with `to_buf` and read back with `from_buf`,
/// comes back with the same keys and offsets. Keys must be known by their
/// views.
pub proof fn lemma_index_buf_roundtrip<K: Ord + ToBytes>(
    idx: SparseIndex<K>,
    buf: Seq<u8>,
    r: Result<SparseIndex<K>, SSTableError>,
)
    requires
        forall|a: K, b: K| a@ == b@ ==> a == b,
        buf == index_bytes::<K>(keys_view(idx.keys()), idx.offsets()),
        keys_fit::<K>(keys_view(idx.keys())),
        idx.offsets().len() >= 1,
        idx.offsets()[0] == 0,
        match r {
            Ok(i2) => parse_index::<K>(buf) == Some((keys_view(i2.keys()), i2.offsets())),
            Err(e) => e == SSTableError::CorruptData && parse_index::<K>(buf) is None,
        },
    ensures
        r matches Ok(i2) && i2.keys() == idx.keys() && i2.offsets() == idx.offsets(),
{
    lemma_index_roundtrip::<K>(keys_view(idx.keys()), idx.offsets());
    match r {
        Ok(i2) => {
            assert(keys_view(i2.keys()) == keys_view(idx.keys()));
            assert(i2.keys() =~= idx.keys()) by {
                assert forall|j: int| 0 <= j < idx.keys().len() implies i2.keys()[j] == idx.keys()[j] by {
                    assert(keys_view(i2.keys())[j] == keys_view(idx.keys())[j]);
                }
            }
        },
        Err(_) => {},
    }
}

} // verus!
