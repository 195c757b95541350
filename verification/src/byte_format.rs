//! Length prefixes and byte ranges shared by the on-disk formats.
use vstd::bytes::*;
use vstd::prelude::*;
use vstd::slice::*;

verus! {

/// A position as a mathematical integer.
pub open spec fn at(i: usize) -> int {
    i as int
}

/// The 8-byte little-endian encoding of a length.
pub open spec fn len_prefix(n: nat) -> Seq<u8> {
    spec_u64_to_le_bytes(n as u64)
}

/// The length that an 8-byte little-endian prefix stands for.
pub open spec fn prefix_value(b: Seq<u8>) -> nat {
    spec_u64_from_le_bytes(b) as nat
}

/// A length prefix is 8 bytes long and reads back as the length it encodes.
pub proof fn lemma_len_prefix(n: nat)
    requires
        n <= u64::MAX,
    ensures
        len_prefix(n).len() == 8,
        prefix_value(len_prefix(n)) == n,
{
    lemma_auto_spec_u64_to_from_le_bytes();
}

/// Appends the 8-byte little-endian encoding of `n`.
pub fn append_len(buf: &mut Vec<u8>, n: usize)
    ensures
        final(buf)@ == old(buf)@ + len_prefix(n as nat),
{
    let mut b = u64_to_le_bytes(n as u64);
    buf.append(&mut b);
}

/// Appends a copy of `bytes`.
pub fn append_bytes(buf: &mut Vec<u8>, bytes: &[u8])
    ensures
        final(buf)@ == old(buf)@ + bytes@,
{
    let mut b = slice_to_vec(bytes);
    buf.append(&mut b);
}

/// Reads the length prefix that starts at `pos`.
pub fn read_len(buf: &[u8], pos: usize) -> (r: u64)
    requires
        pos + 8 <= buf@.len(),
    ensures
        r == prefix_value(buf@.subrange(pos as int, pos + 8)),
{
    let n = buf.len();
    assert(pos + 8 <= n);
    u64_from_le_bytes(slice_subrange(buf, pos, pos + 8))
}

} // verus!
