//! The wire format: base-128 varints, and the messages of the user service.
use crate::text::string_from_utf8;
use vstd::prelude::*;
use vstd::slice::{slice_subrange, slice_to_vec};
use vstd::string::StringSliceAdditionalSpecFns;
use vstd::utf8::{decode_utf8, encode_utf8, valid_utf8};

verus! {

/// The base-128 varint of `v`: seven bits per byte, least significant group
/// first, the top bit set on every byte but the last.
pub open spec fn varint_bytes(v: u64) -> Seq<u8>
    decreases v,
{
    if v >> 7u64 == 0 {
        seq![v as u8]
    } else {
        proof {
            assert(v >> 7u64 < v) by (bit_vector)
                requires
                    v >> 7u64 != 0,
            ;
        }
        seq![((v & 0x7f) | 0x80) as u8] + varint_bytes(v >> 7u64)
    }
}

/// Appends the varint of `value`.
pub fn write_varint(value: u64, buf: &mut Vec<u8>)
    ensures
        final(buf)@ == old(buf)@ + varint_bytes(value),
{
    let mut v = value;
    loop
        invariant_except_break
            buf@ + varint_bytes(v) == old(buf)@ + varint_bytes(value),
        ensures
            buf@ == old(buf)@ + varint_bytes(value),
        decreases v,
    {
        let ghost before = buf@;
        let ghost w = v;
        let mut byte = (v & 0x7f) as u8;
        v = v >> 7;
        if v != 0 {
            byte = byte | 0x80;
            assert(byte == ((w & 0x7f) | 0x80) as u8) by (bit_vector)
                requires
                    byte == ((w & 0x7f) as u8) | 0x80u8,
            ;
            assert(v < w) by (bit_vector)
                requires
                    v == w >> 7u64,
                    v != 0,
            ;
        } else {
            assert(byte == w as u8) by (bit_vector)
                requires
                    byte == (w & 0x7f) as u8,
                    w >> 7u64 == 0,
            ;
        }
        buf.push(byte);
        if v == 0 {
            assert(buf@ =~= before + varint_bytes(w));
            break;
        }
        assert(buf@ + varint_bytes(v) =~= before + varint_bytes(w));
    }
}

/// What reading a varint from the front of a byte string comes to.
pub enum VarintRead {
    /// The value, and the number of bytes it took.
    Value(u64, nat),
    /// The bytes end before the last byte of the varint.
    End,
    /// Ten bytes all carry the continuation bit and an eleventh follows.
    TooLong,
}

/// The seven payload bits of a varint byte, moved to the place of group `i`.
pub open spec fn varint_payload(byte: u8, i: nat) -> u64 {
    ((byte & 0x7f) as u64) << ((7 * i) as u64)
}

/// Reads a varint from byte `i` on, with the groups before it already
/// gathered in `acc`.
pub open spec fn read_varint_from(b: Seq<u8>, i: nat, acc: u64) -> VarintRead
    decreases b.len() - i,
{
    if i >= b.len() {
        VarintRead::End
    } else if i >= 10 {
        VarintRead::TooLong
    } else {
        let acc2 = acc | varint_payload(b[i as int], i);
        if b[i as int] >> 7u8 == 0 {
            VarintRead::Value(acc2, i + 1)
        } else {
            read_varint_from(b, i + 1, acc2)
        }
    }
}

/// What reading a varint from the front of `b` gives.
pub open spec fn varint_read(b: Seq<u8>) -> VarintRead {
    read_varint_from(b, 0, 0)
}

/// What can go wrong when a message is read.
#[derive(Debug, PartialEq, Eq, Structural)]
pub enum DecodeError {
    /// The bytes end inside a field.
    UnexpectedEof,
    /// A varint runs on for more than ten bytes.
    VarintTooLong,
    /// A tag that the message does not have.
    UnknownTag(u8),
    /// A string field that is not UTF-8.
    InvalidUtf8,
}

/// Reads the varint that starts at `pos`; gives its value and the position
/// after it.
pub fn read_varint(bytes: &[u8], pos: usize) -> (r: Result<(u64, usize), DecodeError>)
    requires
        pos <= bytes@.len(),
    ensures
        match varint_read(bytes@.subrange(pos as int, bytes@.len() as int)) {
            VarintRead::Value(v, n) => r == Ok::<(u64, usize), DecodeError>((v, (pos + n) as usize)),
            VarintRead::End => r == Err::<(u64, usize), DecodeError>(DecodeError::UnexpectedEof),
            VarintRead::TooLong => r == Err::<(u64, usize), DecodeError>(DecodeError::VarintTooLong),
        },
{
    let n = bytes.len();
    let ghost b = bytes@.subrange(pos as int, n as int);
    let mut result: u64 = 0;
    let mut i: usize = 0;
    loop
        invariant
            n == bytes@.len(),
            pos <= n,
            b == bytes@.subrange(pos as int, n as int),
            i <= 10,
            varint_read(b) == read_varint_from(b, i as nat, result),
        decreases 11 - i,
    {
        if n - pos <= i {
            return Err(DecodeError::UnexpectedEof);
        }
        if i >= 10 {
            return Err(DecodeError::VarintTooLong);
        }
        let byte = bytes[pos + i];
        assert(byte == b[i as int]);
        result = result | (((byte & 0x7f) as u64) << ((7 * i) as u64));
        if byte >> 7 == 0 {
            return Ok((result, pos + i + 1));
        }
        i = i + 1;
    }
}

/// A varint takes at most ten bytes; bounded values take fewer.
proof fn lemma_varint_len_bound(v: u64, j: nat)
    requires
        j <= 9,
        v <= u64::MAX >> ((7 * j) as u64),
    ensures
        varint_bytes(v).len() <= 10 - j,
    decreases 9 - j,
{
    if v >> 7u64 != 0 {
        if j == 9 {
            assert(v >> 7u64 == 0) by (bit_vector)
                requires
                    v <= u64::MAX >> 63u64,
            ;
        } else {
            let s = (7 * j) as u64;
            assert((v >> 7u64) <= u64::MAX >> ((s + 7) as u64)) by (bit_vector)
                requires
                    v <= u64::MAX >> s,
                    s <= 56,
            ;
            assert((7 * (j + 1)) as u64 == (s + 7) as u64);
            lemma_varint_len_bound(v >> 7u64, j + 1);
        }
    }
}

/// Byte `k` of a varint carries group `k` of the value, and only the last
/// byte has the continuation bit clear.
proof fn lemma_varint_byte(v: u64, k: int)
    requires
        0 <= k < varint_bytes(v).len(),
    ensures
        k <= 9,
        varint_bytes(v).len() <= 10,
        (varint_bytes(v)[k] & 0x7f) as u64 == (v >> ((7 * k) as u64)) & 0x7f,
        (varint_bytes(v)[k] >> 7u8 == 0) <==> k == varint_bytes(v).len() - 1,
        k == varint_bytes(v).len() - 1 ==> (v >> ((7 * k) as u64)) < 128,
    decreases v,
{
    assert(u64::MAX >> 0u64 == u64::MAX) by (bit_vector);
    assert((7 * 0nat) as u64 == 0u64);
    lemma_varint_len_bound(v, 0);
    if v >> 7u64 == 0 {
        assert(((v as u8) & 0x7f) as u64 == (v >> 0u64) & 0x7f && (v as u8) >> 7u8 == 0 && v >> 0u64 < 128)
            by (bit_vector)
            requires
                v >> 7u64 == 0,
        ;
    } else {
        let b0 = ((v & 0x7f) | 0x80) as u8;
        assert((b0 & 0x7f) as u64 == (v >> 0u64) & 0x7f && b0 >> 7u8 != 0) by (bit_vector)
            requires
                b0 == ((v & 0x7f) | 0x80) as u8,
        ;
        if k > 0 {
            let w = v >> 7u64;
            assert(w < v) by (bit_vector)
                requires
                    w == v >> 7u64,
                    w != 0,
            ;
            lemma_varint_byte(w, k - 1);
            let s = (7 * (k - 1)) as u64;
            assert(w >> s == v >> ((s + 7) as u64)) by (bit_vector)
                requires
                    w == v >> 7u64,
                    s <= 56,
            ;
            assert((7 * k) as u64 == (s + 7) as u64);
        }
    }
}

/// The gathered groups after reading `k` bytes of a varint.
spec fn low_groups(v: u64, k: nat) -> u64 {
    v & (((1u64 << ((7 * k) as u64)) - 1) as u64)
}

proof fn lemma_read_varint_from(v: u64, rest: Seq<u8>, k: nat)
    requires
        k < varint_bytes(v).len(),
    ensures
        read_varint_from(varint_bytes(v) + rest, k, low_groups(v, k)) == VarintRead::Value(
            v,
            varint_bytes(v).len(),
        ),
    decreases varint_bytes(v).len() - k,
{
    let b = varint_bytes(v) + rest;
    let n = varint_bytes(v).len();
    lemma_varint_byte(v, k as int);
    assert(b[k as int] == varint_bytes(v)[k as int]);
    let byte = b[k as int];
    let s = (7 * k) as u64;
    let acc = low_groups(v, k);
    let acc2 = acc | varint_payload(byte, k);
    assert(varint_payload(byte, k) == ((v >> s) & 0x7f) << s);
    if k == n - 1 {
        assert(acc2 == v) by (bit_vector)
            requires
                acc == v & (((1u64 << s) - 1) as u64),
                acc2 == acc | (((v >> s) & 0x7f) << s),
                s <= 63,
                v >> s < 128,
        ;
    } else {
        assert(acc2 == v & (((1u64 << ((s + 7) as u64)) - 1) as u64)) by (bit_vector)
            requires
                acc == v & (((1u64 << s) - 1) as u64),
                acc2 == acc | (((v >> s) & 0x7f) << s),
                s <= 56,
        ;
        assert((7 * (k + 1)) as u64 == (s + 7) as u64);
        assert(low_groups(v, k + 1) == acc2);
        lemma_read_varint_from(v, rest, k + 1);
    }
}

/// Varint round trip: reading the varint of `v`, whatever follows it, gives
/// `v` and the number of bytes the varint took.
pub proof fn lemma_varint_roundtrip(v: u64, rest: Seq<u8>)
    ensures
        varint_read(varint_bytes(v) + rest) == VarintRead::Value(v, varint_bytes(v).len()),
{
    assert(low_groups(v, 0) == 0) by {
        assert(v & (((1u64 << 0u64) - 1) as u64) == 0) by (bit_vector);
    }
    lemma_read_varint_from(v, rest, 0);
}

/// `128` to the power `k`: the first number whose varint takes more than
/// `k` bytes.
pub open spec fn pow128(k: nat) -> int
    decreases k,
{
    if k == 0 {
        1
    } else {
        128 * pow128((k - 1) as nat)
    }
}

/// Varint length law: the varint of `v` takes at most `k` bytes exactly when
/// `v < 128^k`, for any `k >= 1`; so it takes one byte for each started group
/// of seven bits, and never more than ten.
pub proof fn lemma_varint_len(v: u64, k: nat)
    requires
        k >= 1,
    ensures
        varint_bytes(v).len() <= k <==> v < pow128(k),
        1 <= varint_bytes(v).len() <= 10,
    decreases k,
{
    assert(v >> 7u64 == v / 128) by (bit_vector);
    assert(pow128(1) == 128) by {
        reveal_with_fuel(pow128, 2);
    }
    if v >= 128 {
        assert(v >> 7u64 != 0);
        assert(varint_bytes(v).len() == 1 + varint_bytes(v >> 7u64).len());
        if k >= 2 {
            lemma_varint_len(v >> 7u64, (k - 1) as nat);
            assert(pow128(k) == 128 * pow128((k - 1) as nat));
        } else {
            assert(varint_bytes(v >> 7u64).len() >= 1);
        }
    } else {
        assert(v >> 7u64 == 0);
        lemma_pow128_ge(k);
    }
    lemma_varint_len_at_most_ten(v);
}

/// Powers of 128 are at least 128 from the first on.
proof fn lemma_pow128_ge(k: nat)
    requires
        k >= 1,
    ensures
        pow128(k) >= 128,
    decreases k,
{
    if k > 1 {
        lemma_pow128_ge((k - 1) as nat);
    } else {
        assert(pow128(1) == 128 * pow128(0));
    }
}

/// Every varint takes one to ten bytes.
proof fn lemma_varint_len_at_most_ten(v: u64)
    ensures
        1 <= varint_bytes(v).len() <= 10,
{
    lemma_varint_len_upto(v, 10);
    assert(pow128(10) == 1180591620717411303424int) by {
        assert(pow128(0) == 1int);
        assert(pow128(1) == 128int);
        assert(pow128(2) == 16384int);
        assert(pow128(3) == 2097152int);
        assert(pow128(4) == 268435456int);
        assert(pow128(5) == 34359738368int);
        assert(pow128(6) == 4398046511104int);
        assert(pow128(7) == 562949953421312int);
        assert(pow128(8) == 72057594037927936int);
        assert(pow128(9) == 9223372036854775808int);
        assert(pow128(10) == 1180591620717411303424int);
    }
}

/// The varint of a number below `128^k` takes at most `k` bytes.
proof fn lemma_varint_len_upto(v: u64, k: nat)
    requires
        k >= 1,
    ensures
        v < pow128(k) ==> varint_bytes(v).len() <= k,
        varint_bytes(v).len() >= 1,
    decreases k,
{
    assert(v >> 7u64 == v / 128) by (bit_vector);
    if v >= 128 {
        assert(v >> 7u64 != 0);
        if k >= 2 {
            lemma_varint_len_upto(v >> 7u64, (k - 1) as nat);
        } else {
            assert(varint_bytes(v >> 7u64).len() >= 1);
            assert(pow128(1) == 128 * pow128(0));
        }
    }
}

/// A varint that reads back takes at least one byte and no more than there
/// are.
pub proof fn lemma_varint_read_len(b: Seq<u8>, i: nat, acc: u64)
    ensures
        read_varint_from(b, i, acc) matches VarintRead::Value(_, n) ==> i < n <= b.len(),
    decreases b.len() - i,
{
    if i < b.len() && i < 10 {
        let acc2 = acc | varint_payload(b[i as int], i);
        if b[i as int] >> 7u8 != 0 {
            lemma_varint_read_len(b, i + 1, acc2);
        }
    }
}

/// Reads a length-delimited string field: a varint length, then that many
/// bytes of UTF-8. Gives the characters and the bytes after them.
pub open spec fn string_field(b: Seq<u8>) -> Result<(Seq<char>, Seq<u8>), DecodeError> {
    match varint_read(b) {
        VarintRead::Value(len, m) => {
            let r = b.subrange(m as int, b.len() as int);
            if r.len() < len {
                Err(DecodeError::UnexpectedEof)
            } else if !valid_utf8(r.subrange(0, len as int)) {
                Err(DecodeError::InvalidUtf8)
            } else {
                Ok((decode_utf8(r.subrange(0, len as int)), r.subrange(len as int, r.len() as int)))
            }
        },
        VarintRead::End => Err(DecodeError::UnexpectedEof),
        VarintRead::TooLong => Err(DecodeError::VarintTooLong),
    }
}

/// Reads a varint field. Gives the value and the bytes after it.
pub open spec fn varint_field(b: Seq<u8>) -> Result<(u64, Seq<u8>), DecodeError> {
    match varint_read(b) {
        VarintRead::Value(v, m) => Ok((v, b.subrange(m as int, b.len() as int))),
        VarintRead::End => Err(DecodeError::UnexpectedEof),
        VarintRead::TooLong => Err(DecodeError::VarintTooLong),
    }
}

/// The bytes of a string field: tag, varint length, UTF-8 bytes.
pub open spec fn string_field_bytes(tag: u8, s: Seq<char>) -> Seq<u8> {
    seq![tag] + varint_bytes(encode_utf8(s).len() as u64) + encode_utf8(s)
}

/// The bytes of a varint field: tag, then the varint.
pub open spec fn varint_field_bytes(tag: u8, v: u64) -> Seq<u8> {
    seq![tag] + varint_bytes(v)
}

/// Reads a string field that starts at `pos`.
pub fn read_string_field(bytes: &[u8], pos: usize) -> (r: Result<(String, usize), DecodeError>)
    requires
        pos <= bytes@.len(),
    ensures
        match string_field(bytes@.subrange(pos as int, bytes@.len() as int)) {
            Ok((s, rest)) => r matches Ok((t, p)) && t@ == s && p <= bytes@.len() && rest == bytes@.subrange(
                p as int,
                bytes@.len() as int,
            ),
            Err(e) => r == Err::<(String, usize), DecodeError>(e),
        },
        r matches Ok((_, q)) ==> pos < q <= bytes@.len(),
{
    let n = bytes.len();
    let ghost b = bytes@.subrange(pos as int, n as int);
    let (len, p) = match read_varint(bytes, pos) {
        Ok(x) => x,
        Err(e) => return Err(e),
    };
    proof {
        lemma_varint_read_len(b, 0, 0);
    }
    let ghost r = b.subrange((p - pos) as int, b.len() as int);
    assert(r =~= bytes@.subrange(p as int, n as int));
    if ((n - p) as u64) < len {
        return Err(DecodeError::UnexpectedEof);
    }
    let end = p + len as usize;
    let body = slice_to_vec(slice_subrange(bytes, p, end));
    assert(body@ =~= r.subrange(0, len as int));
    match string_from_utf8(body) {
        Some(s) => {
            assert(r.subrange(len as int, r.len() as int) =~= bytes@.subrange(end as int, n as int));
            Ok((s, end))
        },
        None => Err(DecodeError::InvalidUtf8),
    }
}

/// Appends a string field.
pub fn write_string_field(tag: u8, s: &String, buf: &mut Vec<u8>)
    ensures
        final(buf)@ == old(buf)@ + string_field_bytes(tag, s@),
{
    buf.push(tag);
    let bytes = s.as_str().as_bytes();
    write_varint(bytes.len() as u64, buf);
    let mut copy = slice_to_vec(bytes);
    buf.append(&mut copy);
    assert(buf@ =~= old(buf)@ + string_field_bytes(tag, s@));
}

/// Appends a varint field.
pub fn write_varint_field(tag: u8, v: u64, buf: &mut Vec<u8>)
    ensures
        final(buf)@ == old(buf)@ + varint_field_bytes(tag, v),
{
    buf.push(tag);
    write_varint(v, buf);
    assert(buf@ =~= old(buf)@ + varint_field_bytes(tag, v));
}

/// A string field reads back, whatever follows it.
pub proof fn lemma_string_field_roundtrip(s: Seq<char>, rest: Seq<u8>)
    requires
        encode_utf8(s).len() <= u64::MAX,
    ensures
        string_field(varint_bytes(encode_utf8(s).len() as u64) + encode_utf8(s) + rest) == Ok::<
            (Seq<char>, Seq<u8>),
            DecodeError,
        >((s, rest)),
{
    let e = encode_utf8(s);
    let l = e.len() as u64;
    let b = varint_bytes(l) + e + rest;
    lemma_varint_roundtrip(l, e + rest);
    assert(b =~= varint_bytes(l) + (e + rest));
    let m = varint_bytes(l).len();
    let r = b.subrange(m as int, b.len() as int);
    assert(r =~= e + rest);
    assert(r.subrange(0, l as int) =~= e);
    assert(r.subrange(l as int, r.len() as int) =~= rest);
    vstd::utf8::encode_utf8_valid_utf8(s);
    vstd::utf8::encode_utf8_decode_utf8(s);
}

/// A varint field reads back, whatever follows it.
pub proof fn lemma_varint_field_roundtrip(v: u64, rest: Seq<u8>)
    ensures
        varint_field(varint_bytes(v) + rest) == Ok::<(u64, Seq<u8>), DecodeError>((v, rest)),
{
    lemma_varint_roundtrip(v, rest);
    let b = varint_bytes(v) + rest;
    assert(b.subrange(varint_bytes(v).len() as int, b.len() as int) =~= rest);
}

/// A message with a binary wire format.
pub trait BinarySerializable: Sized + View {
    /// The bytes of a message.
    spec fn spec_encode(m: Self::V) -> Seq<u8>;

    /// What reading a byte string as a message gives.
    spec fn spec_decode(b: Seq<u8>) -> Result<Self::V, DecodeError>;

    /// Whether every string of the message is short enough for its length
    /// varint.
    spec fn spec_encodable(m: Self::V) -> bool;

    /// Appends the bytes of the message.
    fn encode(&self, writer: &mut Vec<u8>)
        ensures
            final(writer)@ == old(writer)@ + Self::spec_encode(self@),
    ;

    /// Reads a message: fields until the bytes end; a later field replaces an
    /// earlier one with the same tag.
    fn decode(reader: &[u8]) -> (r: Result<Self, DecodeError>)
        ensures
            match r {
                Ok(m) => Self::spec_decode(reader@) == Ok::<Self::V, DecodeError>(m@),
                Err(e) => Self::spec_decode(reader@) == Err::<Self::V, DecodeError>(e),
            },
    ;

    /// What is written reads back.
    proof fn lemma_encode_decode(m: Self::V)
        requires
            Self::spec_encodable(m),
        ensures
            Self::spec_decode(Self::spec_encode(m)) == Ok::<Self::V, DecodeError>(m),
    ;
}

/// The request of the `AddUser` call.
#[derive(Debug, Clone)]
pub struct AddUserRequest {
    pub name: String,
    pub surname: String,
    pub age: u32,
}

impl View for AddUserRequest {
    type V = (Seq<char>, Seq<char>, u32);

    open spec fn view(&self) -> (Seq<char>, Seq<char>, u32) {
        (self.name@, self.surname@, self.age)
    }
}

impl Default for AddUserRequest {
    fn default() -> (r: Self)
        ensures
            r@ == (Seq::<char>::empty(), Seq::<char>::empty(), 0u32),
    {
        AddUserRequest { name: String::new(), surname: String::new(), age: 0 }
    }
}

/// Reads the fields of a request from `b` on, over the request read so far.
pub open spec fn decode_request_from(b: Seq<u8>, m: (Seq<char>, Seq<char>, u32)) -> Result<
    (Seq<char>, Seq<char>, u32),
    DecodeError,
>
    decreases b.len(),
{
    match varint_read(b) {
        VarintRead::End => Ok(m),
        VarintRead::TooLong => Err(DecodeError::VarintTooLong),
        VarintRead::Value(t, n) => {
            let rest = b.subrange(n as int, b.len() as int);
            let tag = t as u8;
            if n == 0 || n > b.len() {
                Ok(m)
            } else if tag == 10 {
                match string_field(rest) {
                    Ok((s, r)) => if r.len() < b.len() {
                        decode_request_from(r, (s, m.1, m.2))
                    } else {
                        Ok(m)
                    },
                    Err(e) => Err(e),
                }
            } else if tag == 18 {
                match string_field(rest) {
                    Ok((s, r)) => if r.len() < b.len() {
                        decode_request_from(r, (m.0, s, m.2))
                    } else {
                        Ok(m)
                    },
                    Err(e) => Err(e),
                }
            } else if tag == 24 {
                match varint_field(rest) {
                    Ok((v, r)) => if r.len() < b.len() {
                        decode_request_from(r, (m.0, m.1, v as u32))
                    } else {
                        Ok(m)
                    },
                    Err(e) => Err(e),
                }
            } else {
                Err(DecodeError::UnknownTag(tag))
            }
        },
    }
}

impl BinarySerializable for AddUserRequest {
    open spec fn spec_encode(m: (Seq<char>, Seq<char>, u32)) -> Seq<u8> {
        string_field_bytes(10, m.0) + string_field_bytes(18, m.1) + varint_field_bytes(24, m.2 as u64)
    }

    open spec fn spec_decode(b: Seq<u8>) -> Result<(Seq<char>, Seq<char>, u32), DecodeError> {
        decode_request_from(b, (Seq::empty(), Seq::empty(), 0))
    }

    open spec fn spec_encodable(m: (Seq<char>, Seq<char>, u32)) -> bool {
        encode_utf8(m.0).len() <= u64::MAX && encode_utf8(m.1).len() <= u64::MAX
    }

    fn encode(&self, writer: &mut Vec<u8>) {
        write_string_field(10, &self.name, writer);
        write_string_field(18, &self.surname, writer);
        write_varint_field(24, self.age as u64, writer);
        assert(writer@ =~= old(writer)@ + Self::spec_encode(self@));
    }

    fn decode(reader: &[u8]) -> (r: Result<Self, DecodeError>) {
        let mut msg = AddUserRequest::default();
        let n = reader.len();
        let mut pos: usize = 0;
        assert(reader@.subrange(0, n as int) =~= reader@);
        loop
            invariant
                n == reader@.len(),
                pos <= n,
                Self::spec_decode(reader@) == decode_request_from(
                    reader@.subrange(pos as int, n as int),
                    msg@,
                ),
            decreases n - pos,
        {
            let ghost b = reader@.subrange(pos as int, n as int);
            let (t, p) = match read_varint(reader, pos) {
                Ok(x) => x,
                Err(DecodeError::UnexpectedEof) => return Ok(msg),
                Err(e) => return Err(e),
            };
            proof {
                lemma_varint_read_len(b, 0, 0);
            }
            let ghost rest = b.subrange((p - pos) as int, b.len() as int);
            assert(rest =~= reader@.subrange(p as int, n as int));
            let tag = t as u8;
            if tag == 10 {
                let (s, q) = match read_string_field(reader, p) {
                    Ok(x) => x,
                    Err(e) => return Err(e),
                };
                msg.name = s;
                pos = q;
            } else if tag == 18 {
                let (s, q) = match read_string_field(reader, p) {
                    Ok(x) => x,
                    Err(e) => return Err(e),
                };
                msg.surname = s;
                pos = q;
            } else if tag == 24 {
                let (v, q) = match read_varint(reader, p) {
                    Ok(x) => x,
                    Err(e) => return Err(e),
                };
                proof {
                    lemma_varint_read_len(rest, 0, 0);
                }
                assert(rest.subrange((q - p) as int, rest.len() as int) =~= reader@.subrange(q as int, n as int));
                msg.age = v as u32;
                pos = q;
            } else {
                return Err(DecodeError::UnknownTag(tag));
            }
        }
    }

    proof fn lemma_encode_decode(m: (Seq<char>, Seq<char>, u32)) {
        let f1 = string_field_bytes(10, m.0);
        let f2 = string_field_bytes(18, m.1);
        let f3 = varint_field_bytes(24, m.2 as u64);
        let b = f1 + f2 + f3;
        let e = Seq::<u8>::empty();
        // the name field
        assert(10u64 >> 7u64 == 0) by (bit_vector);
        assert(varint_bytes(10) == seq![10u8]);
        lemma_varint_roundtrip(10, b.subrange(1, b.len() as int));
        assert(b =~= varint_bytes(10) + b.subrange(1, b.len() as int));
        let r1 = f2 + f3;
        lemma_string_field_roundtrip(m.0, r1);
        assert(b.subrange(1, b.len() as int) =~= varint_bytes(encode_utf8(m.0).len() as u64)
            + encode_utf8(m.0) + r1);
        // the surname field
        assert(18u64 >> 7u64 == 0) by (bit_vector);
        assert(varint_bytes(18) == seq![18u8]);
        lemma_varint_roundtrip(18, r1.subrange(1, r1.len() as int));
        assert(r1 =~= varint_bytes(18) + r1.subrange(1, r1.len() as int));
        let r2 = f3;
        lemma_string_field_roundtrip(m.1, r2);
        assert(r1.subrange(1, r1.len() as int) =~= varint_bytes(encode_utf8(m.1).len() as u64)
            + encode_utf8(m.1) + r2);
        // the age field
        assert(24u64 >> 7u64 == 0) by (bit_vector);
        assert(varint_bytes(24) == seq![24u8]);
        lemma_varint_roundtrip(24, r2.subrange(1, r2.len() as int));
        assert(r2 =~= varint_bytes(24) + r2.subrange(1, r2.len() as int));
        lemma_varint_field_roundtrip(m.2 as u64, e);
        assert(r2.subrange(1, r2.len() as int) =~= varint_bytes(m.2 as u64) + e);
        assert((m.2 as u64) as u32 == m.2);
        // the end
        assert(varint_read(e) == VarintRead::End);
        assert(decode_request_from(e, m) == Ok::<(Seq<char>, Seq<char>, u32), DecodeError>(m));
        assert(decode_request_from(r2, (m.0, m.1, 0u32)) == Ok::<(Seq<char>, Seq<char>, u32), DecodeError>(m));
        assert(decode_request_from(r1, (m.0, Seq::empty(), 0u32)) == Ok::<(Seq<char>, Seq<char>, u32), DecodeError>(m));
    }
}

/// The response of the `AddUser` call.
#[derive(Debug, Clone)]
pub struct AddUserResponse {
    pub id: String,
}

impl View for AddUserResponse {
    type V = Seq<char>;

    open spec fn view(&self) -> Seq<char> {
        self.id@
    }
}

impl Default for AddUserResponse {
    fn default() -> (r: Self)
        ensures
            r@ == Seq::<char>::empty(),
    {
        AddUserResponse { id: String::new() }
    }
}

/// Reads the fields of a response from `b` on, over the response read so far.
pub open spec fn decode_response_from(b: Seq<u8>, m: Seq<char>) -> Result<Seq<char>, DecodeError>
    decreases b.len(),
{
    match varint_read(b) {
        VarintRead::End => Ok(m),
        VarintRead::TooLong => Err(DecodeError::VarintTooLong),
        VarintRead::Value(t, n) => {
            let rest = b.subrange(n as int, b.len() as int);
            let tag = t as u8;
            if n == 0 || n > b.len() {
                Ok(m)
            } else if tag == 10 {
                match string_field(rest) {
                    Ok((s, r)) => if r.len() < b.len() {
                        decode_response_from(r, s)
                    } else {
                        Ok(m)
                    },
                    Err(e) => Err(e),
                }
            } else {
                Err(DecodeError::UnknownTag(tag))
            }
        },
    }
}

impl BinarySerializable for AddUserResponse {
    open spec fn spec_encode(m: Seq<char>) -> Seq<u8> {
        string_field_bytes(10, m)
    }

    open spec fn spec_decode(b: Seq<u8>) -> Result<Seq<char>, DecodeError> {
        decode_response_from(b, Seq::empty())
    }

    open spec fn spec_encodable(m: Seq<char>) -> bool {
        encode_utf8(m).len() <= u64::MAX
    }

    fn encode(&self, writer: &mut Vec<u8>) {
        write_string_field(10, &self.id, writer);
    }

    fn decode(reader: &[u8]) -> (r: Result<Self, DecodeError>) {
        let mut msg = AddUserResponse::default();
        let n = reader.len();
        let mut pos: usize = 0;
        assert(reader@.subrange(0, n as int) =~= reader@);
        loop
            invariant
                n == reader@.len(),
                pos <= n,
                Self::spec_decode(reader@) == decode_response_from(
                    reader@.subrange(pos as int, n as int),
                    msg@,
                ),
            decreases n - pos,
        {
            let ghost b = reader@.subrange(pos as int, n as int);
            let (t, p) = match read_varint(reader, pos) {
                Ok(x) => x,
                Err(DecodeError::UnexpectedEof) => return Ok(msg),
                Err(e) => return Err(e),
            };
            proof {
                lemma_varint_read_len(b, 0, 0);
            }
            let ghost rest = b.subrange((p - pos) as int, b.len() as int);
            assert(rest =~= reader@.subrange(p as int, n as int));
            let tag = t as u8;
            if tag == 10 {
                let (s, q) = match read_string_field(reader, p) {
                    Ok(x) => x,
                    Err(e) => return Err(e),
                };
                msg.id = s;
                pos = q;
            } else {
                return Err(DecodeError::UnknownTag(tag));
            }
        }
    }

    proof fn lemma_encode_decode(m: Seq<char>) {
        let b = string_field_bytes(10, m);
        let e = Seq::<u8>::empty();
        assert(10u64 >> 7u64 == 0) by (bit_vector);
        assert(varint_bytes(10) == seq![10u8]);
        lemma_varint_roundtrip(10, b.subrange(1, b.len() as int));
        assert(b =~= varint_bytes(10) + b.subrange(1, b.len() as int));
        lemma_string_field_roundtrip(m, e);
        assert(b.subrange(1, b.len() as int) =~= varint_bytes(encode_utf8(m).len() as u64) + encode_utf8(m)
            + e);
        assert(varint_read(e) == VarintRead::End);
        assert(decode_response_from(e, m) == Ok::<Seq<char>, DecodeError>(m));
    }
}

/// The calls of the user service, for a server to implement.
pub trait UserService {
    #[allow(non_snake_case)]
    fn AddUser(r: AddUserRequest) -> AddUserResponse;
}

} // verus!
