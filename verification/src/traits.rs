//! Errors and byte encodings of the primitive types used by the tables and
//! the log.
use crate::byte_format::{len_prefix, lemma_len_prefix, prefix_value};
use crate::text::string_from_utf8;
use vstd::bytes::*;
use vstd::prelude::*;
use vstd::slice::{slice_subrange, slice_to_vec};
use vstd::string::StringSliceAdditionalSpecFns;
use vstd::utf8::{decode_utf8, encode_utf8, valid_utf8};

verus! {

/// What can go wrong when table data is read back.
#[derive(Debug, PartialEq, Eq, Structural)]
pub enum SSTableError {
    /// The bytes do not hold what the format asks for.
    CorruptData,
    /// Compressing or decompressing a block failed.
    IO,
    /// The Bloom filter could not be written to or read from bytes.
    Bloom,
}

/// A value that hands out its little-endian bytes.
pub trait ToLeBytes {
    type Bytes;

    fn to_le_bytes(&self) -> Self::Bytes;
}

/// A value that appends its encoding to a buffer.
pub trait Encode {
    /// The bytes that encode the value.
    spec fn encoding(&self) -> Seq<u8>;

    fn encode_len(&self) -> (r: usize)
        ensures
            r as nat == self.encoding().len(),
    ;

    fn encode_into(&self, buf: &mut Vec<u8>)
        ensures
            final(buf)@ == old(buf)@ + self.encoding(),
    ;
}

/// A value read from the front of a buffer, which then starts after it.
pub trait Decode: Sized {
    /// Whether the buffer holds as many bytes as reading asks for.
    spec fn spec_decodable(b: Seq<u8>) -> bool;

    /// Whether the front of `b` stands for no value.
    spec fn spec_rejects(b: Seq<u8>) -> bool;

    /// Whether reading `b` gives `v`, with `rest` left after it.
    spec fn spec_decodes(b: Seq<u8>, v: Self, rest: Seq<u8>) -> bool;

    fn decode_from(buf: &mut &[u8]) -> (r: Result<Self, SSTableError>)
        requires
            Self::spec_decodable(old(buf)@),
        ensures
            match r {
                Ok(v) => !Self::spec_rejects(old(buf)@) && Self::spec_decodes(old(buf)@, v, final(buf)@),
                Err(e) => e == SSTableError::CorruptData && Self::spec_rejects(old(buf)@),
            },
    ;
}

impl Encode for usize {
    open spec fn encoding(&self) -> Seq<u8> {
        len_prefix(*self as nat)
    }

    fn encode_len(&self) -> (r: usize) {
        proof {
            lemma_len_prefix(*self as nat);
        }
        8
    }

    fn encode_into(&self, buf: &mut Vec<u8>) {
        let mut b = u64_to_le_bytes(*self as u64);
        buf.append(&mut b);
    }
}

impl Encode for u32 {
    open spec fn encoding(&self) -> Seq<u8> {
        spec_u32_to_le_bytes(*self)
    }

    fn encode_len(&self) -> (r: usize) {
        proof {
            lemma_auto_spec_u32_to_from_le_bytes();
        }
        4
    }

    fn encode_into(&self, buf: &mut Vec<u8>) {
        let mut b = u32_to_le_bytes(*self);
        buf.append(&mut b);
    }
}

impl Encode for u64 {
    open spec fn encoding(&self) -> Seq<u8> {
        spec_u64_to_le_bytes(*self)
    }

    fn encode_len(&self) -> (r: usize) {
        proof {
            lemma_auto_spec_u64_to_from_le_bytes();
        }
        8
    }

    fn encode_into(&self, buf: &mut Vec<u8>) {
        let mut b = u64_to_le_bytes(*self);
        buf.append(&mut b);
    }
}

impl Encode for i32 {
    open spec fn encoding(&self) -> Seq<u8> {
        spec_u32_to_le_bytes(*self as u32)
    }

    fn encode_len(&self) -> (r: usize) {
        proof {
            lemma_auto_spec_u32_to_from_le_bytes();
        }
        4
    }

    fn encode_into(&self, buf: &mut Vec<u8>) {
        let mut b = u32_to_le_bytes(*self as u32);
        buf.append(&mut b);
    }
}

impl Encode for &str {
    open spec fn encoding(&self) -> Seq<u8> {
        encode_utf8(self@)
    }

    fn encode_len(&self) -> (r: usize) {
        self.as_bytes().len()
    }

    fn encode_into(&self, buf: &mut Vec<u8>) {
        let mut b = slice_to_vec(self.as_bytes());
        buf.append(&mut b);
    }
}

impl Decode for usize {
    open spec fn spec_decodable(b: Seq<u8>) -> bool {
        b.len() >= 8
    }

    open spec fn spec_rejects(b: Seq<u8>) -> bool {
        prefix_value(b.subrange(0, 8)) > usize::MAX
    }

    open spec fn spec_decodes(b: Seq<u8>, v: usize, rest: Seq<u8>) -> bool {
        v == prefix_value(b.subrange(0, 8)) && rest == b.subrange(8, b.len() as int)
    }

    fn decode_from(buf: &mut &[u8]) -> (r: Result<usize, SSTableError>) {
        let n = buf.len();
        let head = slice_subrange(*buf, 0, 8);
        let tail = slice_subrange(*buf, 8, n);
        let x = u64_from_le_bytes(head);
        if x > usize::MAX as u64 {
            return Err(SSTableError::CorruptData);
        }
        *buf = tail;
        Ok(x as usize)
    }
}

impl Decode for u32 {
    open spec fn spec_decodable(b: Seq<u8>) -> bool {
        b.len() >= 4
    }

    open spec fn spec_rejects(b: Seq<u8>) -> bool {
        false
    }

    open spec fn spec_decodes(b: Seq<u8>, v: u32, rest: Seq<u8>) -> bool {
        v == spec_u32_from_le_bytes(b.subrange(0, 4)) && rest == b.subrange(4, b.len() as int)
    }

    fn decode_from(buf: &mut &[u8]) -> (r: Result<u32, SSTableError>) {
        let n = buf.len();
        let head = slice_subrange(*buf, 0, 4);
        let tail = slice_subrange(*buf, 4, n);
        *buf = tail;
        Ok(u32_from_le_bytes(head))
    }
}

impl Decode for u64 {
    open spec fn spec_decodable(b: Seq<u8>) -> bool {
        b.len() >= 8
    }

    open spec fn spec_rejects(b: Seq<u8>) -> bool {
        false
    }

    open spec fn spec_decodes(b: Seq<u8>, v: u64, rest: Seq<u8>) -> bool {
        v == spec_u64_from_le_bytes(b.subrange(0, 8)) && rest == b.subrange(8, b.len() as int)
    }

    fn decode_from(buf: &mut &[u8]) -> (r: Result<u64, SSTableError>) {
        let n = buf.len();
        let head = slice_subrange(*buf, 0, 8);
        let tail = slice_subrange(*buf, 8, n);
        *buf = tail;
        Ok(u64_from_le_bytes(head))
    }
}

impl Decode for i32 {
    open spec fn spec_decodable(b: Seq<u8>) -> bool {
        b.len() >= 4
    }

    open spec fn spec_rejects(b: Seq<u8>) -> bool {
        false
    }

    open spec fn spec_decodes(b: Seq<u8>, v: i32, rest: Seq<u8>) -> bool {
        v == spec_u32_from_le_bytes(b.subrange(0, 4)) as i32 && rest == b.subrange(4, b.len() as int)
    }

    fn decode_from(buf: &mut &[u8]) -> (r: Result<i32, SSTableError>) {
        let n = buf.len();
        let head = slice_subrange(*buf, 0, 4);
        let tail = slice_subrange(*buf, 4, n);
        *buf = tail;
        Ok(u32_from_le_bytes(head) as i32)
    }
}

impl Decode for String {
    open spec fn spec_decodable(b: Seq<u8>) -> bool {
        b.len() >= 8 && b.len() - 8 >= prefix_value(b.subrange(0, 8))
    }

    open spec fn spec_rejects(b: Seq<u8>) -> bool {
        let len = prefix_value(b.subrange(0, 8)) as int;
        len > usize::MAX || !valid_utf8(b.subrange(8, 8 + len))
    }

    open spec fn spec_decodes(b: Seq<u8>, v: String, rest: Seq<u8>) -> bool {
        let len = prefix_value(b.subrange(0, 8)) as int;
        v@ == decode_utf8(b.subrange(8, 8 + len)) && rest == b.subrange(8 + len, b.len() as int)
    }

    fn decode_from(buf: &mut &[u8]) -> (r: Result<String, SSTableError>) {
        let ghost b = buf@;
        let len = match usize::decode_from(buf) {
            Ok(len) => len,
            Err(e) => return Err(e),
        };
        let n = buf.len();
        let head = slice_subrange(*buf, 0, len);
        let tail = slice_subrange(*buf, len, n);
        assert(head@ =~= b.subrange(8, 8 + len));
        assert(tail@ =~= b.subrange(8 + len, b.len() as int));
        *buf = tail;
        match string_from_utf8(slice_to_vec(head)) {
            Some(s) => Ok(s),
            None => Err(SSTableError::CorruptData),
        }
    }
}

/// Round trip of `u32`: reading back its encoding, whatever follows, gives
/// the number and what follows.
pub proof fn lemma_u32_roundtrip(v: u32, rest: Seq<u8>)
    ensures
        u32::spec_decodable(v.encoding() + rest),
        !u32::spec_rejects(v.encoding() + rest),
        u32::spec_decodes(v.encoding() + rest, v, rest),
{
    lemma_auto_spec_u32_to_from_le_bytes();
    let b = v.encoding() + rest;
    assert(b.subrange(0, 4) =~= v.encoding());
    assert(b.subrange(4, b.len() as int) =~= rest);
}

/// Round trip of `u64`.
pub proof fn lemma_u64_roundtrip(v: u64, rest: Seq<u8>)
    ensures
        u64::spec_decodable(v.encoding() + rest),
        !u64::spec_rejects(v.encoding() + rest),
        u64::spec_decodes(v.encoding() + rest, v, rest),
{
    lemma_auto_spec_u64_to_from_le_bytes();
    let b = v.encoding() + rest;
    assert(b.subrange(0, 8) =~= v.encoding());
    assert(b.subrange(8, b.len() as int) =~= rest);
}

/// Round trip of `i32`: its two's complement bytes read back as the number.
pub proof fn lemma_i32_roundtrip(v: i32, rest: Seq<u8>)
    ensures
        i32::spec_decodable(v.encoding() + rest),
        !i32::spec_rejects(v.encoding() + rest),
        i32::spec_decodes(v.encoding() + rest, v, rest),
{
    lemma_auto_spec_u32_to_from_le_bytes();
    let b = v.encoding() + rest;
    assert(b.subrange(0, 4) =~= v.encoding());
    assert(b.subrange(4, b.len() as int) =~= rest);
    assert((v as u32) as i32 == v) by (bit_vector);
}

/// Round trip of `usize`.
pub proof fn lemma_usize_roundtrip(v: usize, rest: Seq<u8>)
    ensures
        usize::spec_decodable(v.encoding() + rest),
        !usize::spec_rejects(v.encoding() + rest),
        usize::spec_decodes(v.encoding() + rest, v, rest),
{
    lemma_len_prefix(v as nat);
    let b = v.encoding() + rest;
    assert(b.subrange(0, 8) =~= v.encoding());
    assert(b.subrange(8, b.len() as int) =~= rest);
}

} // verus!
