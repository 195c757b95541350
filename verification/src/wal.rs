//! The write-ahead log: records framed by their length, read back in order.
use crate::traits::{Decode, Encode, SSTableError};
use vstd::bytes::*;
use vstd::prelude::*;
use vstd::slice::{slice_subrange, slice_to_vec};

verus! {

/// The bytes of one record: its length as 4 little-endian bytes (the length
/// cut to 32 bits), then its data.
pub open spec fn record_bytes(data: Seq<u8>) -> Seq<u8> {
    spec_u32_to_le_bytes(data.len() as u32) + data
}

/// The bytes of a run of records, one after another.
pub open spec fn records_bytes(rs: Seq<Seq<u8>>) -> Seq<u8>
    decreases rs.len(),
{
    if rs.len() == 0 {
        Seq::empty()
    } else {
        record_bytes(rs[0]) + records_bytes(rs.drop_first())
    }
}

/// What reading one record from the front of the log bytes comes to.
pub enum WalRead {
    /// The record, and the bytes after it.
    Record(Seq<u8>, Seq<u8>),
    /// Fewer than 4 bytes are left: the log ends.
    End,
    /// The data of the record is cut short.
    Truncated,
}

/// Reads one record from the front of `b`.
pub open spec fn read_record(b: Seq<u8>) -> WalRead {
    if b.len() < 4 {
        WalRead::End
    } else {
        let len = spec_u32_from_le_bytes(b.subrange(0, 4)) as int;
        if b.len() - 4 < len {
            WalRead::Truncated
        } else {
            WalRead::Record(b.subrange(4, 4 + len), b.subrange(4 + len, b.len() as int))
        }
    }
}

/// What reading a record can fail with.
#[derive(Debug, PartialEq, Eq, Structural)]
pub enum WalError {
    /// The data of a record is cut short.
    UnexpectedEof,
}

/// The framed bytes of a record, as `WAL::append` writes them.
pub fn frame_record(data: &[u8]) -> (r: Vec<u8>)
    ensures
        r@ == record_bytes(data@),
{
    let mut buf = u32_to_le_bytes(data.len() as u32);
    let mut copy = slice_to_vec(data);
    buf.append(&mut copy);
    buf
}

/// Reads the records of a log, one at a time.
pub struct WalReader {
    bytes: Vec<u8>,
    pos: usize,
}

impl WalReader {
    /// The log bytes not read yet.
    pub closed spec fn rest(&self) -> Seq<u8> {
        self.bytes@.subrange(self.pos as int, self.bytes@.len() as int)
    }

    /// Whether the reader's position lies within its bytes.
    pub closed spec fn wf(&self) -> bool {
        self.pos <= self.bytes@.len()
    }

    /// A reader of the log bytes, from their start.
    pub fn from_bytes(bytes: Vec<u8>) -> (r: Self)
        ensures
            r.wf(),
            r.rest() == bytes@,
    {
        let r = WalReader { bytes, pos: 0 };
        assert(r.rest() =~= r.bytes@);
        r
    }

    /// The next record: `None` at the end of the log, an error where the data
    /// of a record is cut short.
    pub fn next(&mut self) -> (r: Option<Result<Vec<u8>, WalError>>)
        requires
            old(self).wf(),
        ensures
            final(self).wf(),
            match read_record(old(self).rest()) {
                WalRead::Record(data, rest) => r matches Some(Ok(d)) && d@ == data && final(self).rest() == rest,
                WalRead::End => r is None && final(self).rest() == old(self).rest(),
                WalRead::Truncated => r == Some(Err::<Vec<u8>, WalError>(WalError::UnexpectedEof))
                    && final(self).rest() == Seq::<u8>::empty(),
            },
    {
        let n = self.bytes.len();
        let ghost b = self.rest();
        if n - self.pos < 4 {
            return None;
        }
        let head = slice_subrange(self.bytes.as_slice(), self.pos, self.pos + 4);
        assert(head@ =~= b.subrange(0, 4));
        let len = u32_from_le_bytes(head) as usize;
        if n - self.pos - 4 < len {
            self.pos = n;
            assert(self.rest() =~= Seq::<u8>::empty());
            return Some(Err(WalError::UnexpectedEof));
        }
        let start = self.pos + 4;
        let data = slice_to_vec(slice_subrange(self.bytes.as_slice(), start, start + len));
        assert(data@ =~= b.subrange(4, 4 + len));
        self.pos = start + len;
        assert(self.rest() =~= b.subrange(4 + len, b.len() as int));
        Some(Ok(data))
    }
}

/// Log round trip: reading the framed bytes of a record, whatever follows,
/// gives the record and what follows, for records shorter than 4 GiB.
pub proof fn lemma_record_roundtrip(data: Seq<u8>, rest: Seq<u8>)
    requires
        data.len() <= u32::MAX,
    ensures
        read_record(record_bytes(data) + rest) == WalRead::Record(data, rest),
{
    lemma_auto_spec_u32_to_from_le_bytes();
    let b = record_bytes(data) + rest;
    let l = data.len() as int;
    assert(b.subrange(0, 4) =~= spec_u32_to_le_bytes(data.len() as u32));
    assert(b.subrange(4, 4 + l) =~= data);
    assert(b.subrange(4 + l, b.len() as int) =~= rest);
}

/// Whether a log record can be read as a key followed by a value: the key's
/// bytes are there, and after the bytes of any key read from it, the
/// value's bytes are there.
pub open spec fn record_readable<K: Decode + Encode, V: Decode>(data: Seq<u8>) -> bool {
    &&& K::spec_decodable(data)
    &&& forall|k: K, rest: Seq<u8>|
        #[trigger] K::spec_decodes(data, k, rest) ==> k.encoding().len() <= data.len() && V::spec_decodable(
            data.subrange(k.encoding().len() as int, data.len() as int),
        )
}

/// Whether a log record reads as key `k` followed by value `v`.
pub open spec fn record_holds<K: Decode + Encode, V: Decode>(data: Seq<u8>, k: K, v: V) -> bool {
    let value_bytes = data.subrange(k.encoding().len() as int, data.len() as int);
    &&& !K::spec_rejects(data)
    &&& exists|rest: Seq<u8>| K::spec_decodes(data, k, rest)
    &&& !V::spec_rejects(value_bytes)
    &&& exists|rest: Seq<u8>| V::spec_decodes(value_bytes, v, rest)
}

/// Reads a log record as a key, then a value that starts where the key's
/// encoding ends.
pub fn decode_wal_record<K: Decode + Encode, V: Decode>(data: &[u8]) -> (r: Result<(K, V), SSTableError>)
    requires
        record_readable::<K, V>(data@),
    ensures
        r matches Ok((k, v)) ==> record_holds(data@, k, v),
        r matches Err(e) ==> e == SSTableError::CorruptData && (K::spec_rejects(data@) || exists|k: K, rest: Seq<u8>|
            K::spec_decodes(data@, k, rest) && V::spec_rejects(
                data@.subrange(k.encoding().len() as int, data@.len() as int),
            )),
{
    let mut key_buf: &[u8] = data;
    let key = match K::decode_from(&mut key_buf) {
        Ok(k) => k,
        Err(e) => return Err(e),
    };
    assert(K::spec_decodes(data@, key, key_buf@));
    let key_len = key.encode_len();
    let n = data.len();
    let mut slice: &[u8] = slice_subrange(data, key_len, n);
    let ghost value_bytes = slice@;
    assert(value_bytes == data@.subrange(key.encoding().len() as int, data@.len() as int));
    let value = match V::decode_from(&mut slice) {
        Ok(v) => v,
        Err(e) => return Err(e),
    };
    assert(V::spec_decodes(value_bytes, value, slice@));
    assert(record_holds(data@, key, value));
    Ok((key, value))
}

} // verus!
