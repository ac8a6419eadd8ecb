//! Record framing: `key_len: u32 LE | value_len: u32 LE | key | value`.
use vstd::prelude::*;
use vstd::slice::slice_subrange;
use byteorder::{ByteOrder, LittleEndian};

verus! {

/// The largest length that the 32-bit framing field can hold.
pub const MAX_FIELD_LEN: usize = 0xffff_ffff;

/// One key and its value, as read from or written to the log.
pub struct KeyValuePair {
    pub key: Vec<u8>,
    pub value: Vec<u8>,
}

impl KeyValuePair {
    pub open spec fn view(&self) -> (Seq<u8>, Seq<u8>) {
        (self.key@, self.value@)
    }
}

/// Failures of the storage engine.
#[derive(Debug, Clone, Copy, PartialEq, Eq, Structural)]
pub enum Error {
    /// No byte of a record is left at the position read.
    EndOfLog,
    /// Some bytes of a record are present, fewer than its header declares.
    Truncated,
    /// The lengths in a header would place the record's end beyond the address space.
    Corrupt,
    /// A key or value is too long for the 32-bit length field.
    InvalidRecord,
}

/// The integer that four bytes spell in little-endian order.
pub open spec fn le_u32(b: Seq<u8>) -> int {
    b[0] as int + 256 * (b[1] as int + 256 * (b[2] as int + 256 * (b[3] as int)))
}

/// The four little-endian bytes of `n`.
pub open spec fn le_bytes(n: u32) -> Seq<u8> {
    seq![
        (n as int % 256) as u8,
        (n as int / 256 % 256) as u8,
        (n as int / 256 / 256 % 256) as u8,
        (n as int / 256 / 256 / 256 % 256) as u8,
    ]
}

/// The on-disk form of the record `(key, value)`.
pub open spec fn encode_spec(key: Seq<u8>, value: Seq<u8>) -> Seq<u8> {
    le_bytes(key.len() as u32) + le_bytes(value.len() as u32) + key + value
}

/// Whether `(key, value)` fits the framing.
pub open spec fn encodable(key: Seq<u8>, value: Seq<u8>) -> bool {
    key.len() <= MAX_FIELD_LEN && value.len() <= MAX_FIELD_LEN
}

/// The key length declared by a header at `p` (needs `p + 8 <= log.len()`).
pub open spec fn key_len_at(log: Seq<u8>, p: int) -> int {
    le_u32(log.subrange(p, p + 4))
}

/// The value length declared by a header at `p` (needs `p + 8 <= log.len()`).
pub open spec fn value_len_at(log: Seq<u8>, p: int) -> int {
    le_u32(log.subrange(p + 4, p + 8))
}

/// Where the record whose header is at `p` ends.
pub open spec fn record_end(log: Seq<u8>, p: int) -> int {
    p + 8 + key_len_at(log, p) + value_len_at(log, p)
}

/// What reading one record at offset `p` of `log` gives: the key, the value,
/// and the offset just past the record; or why there is no record.
pub open spec fn read_at_spec(log: Seq<u8>, p: int) -> Result<(Seq<u8>, Seq<u8>, int), Error> {
    if p >= log.len() {
        Err(Error::EndOfLog)
    } else if p + 8 > log.len() {
        Err(Error::Truncated)
    } else if record_end(log, p) > usize::MAX {
        Err(Error::Corrupt)
    } else if record_end(log, p) > log.len() {
        Err(Error::Truncated)
    } else {
        Ok((
            log.subrange(p + 8, p + 8 + key_len_at(log, p)),
            log.subrange(p + 8 + key_len_at(log, p), record_end(log, p)),
            record_end(log, p),
        ))
    }
}

/// Relies on byteorder's `LittleEndian::read_u32`: the little-endian value of
/// the four bytes (it panics on a shorter slice).
#[verifier::external_body]
fn read_u32_le(buf: &[u8]) -> (r: u32)
    requires
        buf@.len() == 4,
    ensures
        r as int == le_u32(buf@),
{
    LittleEndian::read_u32(buf)
}

/// Relies on byteorder's `LittleEndian::write_u32`: it stores the four
/// little-endian bytes of `n`.
#[verifier::external_body]
fn write_u32_le(n: u32) -> (r: Vec<u8>)
    ensures
        r@ == le_bytes(n),
{
    let mut buf = vec![0u8; 4];
    LittleEndian::write_u32(&mut buf, n);
    buf
}

/// Reading back the four bytes of `n` gives `n`.
pub proof fn lemma_le_round_trip(n: u32)
    ensures
        le_bytes(n).len() == 4,
        le_u32(le_bytes(n)) == n as int,
{
    let x = n as int;
    let q0 = x / 256;
    let q1 = q0 / 256;
    let q2 = q1 / 256;
    assert(x == 256 * q0 + x % 256);
    assert(q0 == 256 * q1 + q0 % 256);
    assert(q1 == 256 * q2 + q1 % 256);
    assert(q2 < 256);
    assert(q2 % 256 == q2);
    let b = le_bytes(n);
    assert(b[0] as int == x % 256);
    assert(b[1] as int == q0 % 256);
    assert(b[2] as int == q1 % 256);
    assert(b[3] as int == q2);
}

/// Encoding then decoding a record gives the record back, and the decoder
/// stops exactly at the end of the encoding.
pub proof fn lemma_decode_encode(key: Seq<u8>, value: Seq<u8>)
    requires
        encodable(key, value),
        encode_spec(key, value).len() <= usize::MAX,
    ensures
        read_at_spec(encode_spec(key, value), 0) == Ok::<_, Error>((key, value, encode_spec(key, value).len() as int)),
{
    lemma_decode_in_context(Seq::empty(), key, value, Seq::empty());
    assert(Seq::<u8>::empty() + encode_spec(key, value) + Seq::<u8>::empty() =~= encode_spec(key, value));
}

/// A record encoded in the middle of a log decodes to itself at its offset.
pub proof fn lemma_decode_in_context(pre: Seq<u8>, key: Seq<u8>, value: Seq<u8>, post: Seq<u8>)
    requires
        encodable(key, value),
        pre.len() + encode_spec(key, value).len() <= usize::MAX,
    ensures
        read_at_spec(pre + encode_spec(key, value) + post, pre.len() as int) == Ok::<_, Error>((
            key,
            value,
            pre.len() + encode_spec(key, value).len() as int,
        )),
{
    let e = encode_spec(key, value);
    let log = pre + e + post;
    let p = pre.len() as int;
    lemma_le_round_trip(key.len() as u32);
    lemma_le_round_trip(value.len() as u32);
    assert(log.subrange(p, p + 4) =~= le_bytes(key.len() as u32));
    assert(log.subrange(p + 4, p + 8) =~= le_bytes(value.len() as u32));
    assert(e.len() == 8 + key.len() + value.len());
    assert(log.subrange(p + 8, p + 8 + key.len()) =~= key);
    assert(log.subrange(p + 8 + key.len(), p + 8 + key.len() + value.len()) =~= value);
}

/// Encodes one record; keys and values longer than the length field allows
/// are refused.
pub fn encode(key: &[u8], value: &[u8]) -> (r: Result<Vec<u8>, Error>)
    ensures
        encodable(key@, value@) ==> r == Ok::<Vec<u8>, Error>(r->Ok_0) && r->Ok_0@ == encode_spec(key@, value@),
        !encodable(key@, value@) ==> r == Err::<Vec<u8>, Error>(Error::InvalidRecord),
{
    if key.len() > MAX_FIELD_LEN || value.len() > MAX_FIELD_LEN {
        return Err(Error::InvalidRecord);
    }
    let mut out = write_u32_le(key.len() as u32);
    let vlen = write_u32_le(value.len() as u32);
    let ghost start = out@;
    let mut i: usize = 0;
    while i < 4
        invariant
            i <= 4,
            vlen@.len() == 4,
            out@ == start + vlen@.subrange(0, i as int),
        decreases 4 - i,
    {
        out.push(vlen[i]);
        i = i + 1;
        assert(out@ =~= start + vlen@.subrange(0, i as int));
    }
    let ghost header = out@;
    let mut j: usize = 0;
    while j < key.len()
        invariant
            j <= key@.len(),
            out@ == header + key@.subrange(0, j as int),
        decreases key@.len() - j,
    {
        out.push(key[j]);
        j = j + 1;
        assert(out@ =~= header + key@.subrange(0, j as int));
    }
    let ghost with_key = out@;
    let mut k: usize = 0;
    while k < value.len()
        invariant
            k <= value@.len(),
            out@ == with_key + value@.subrange(0, k as int),
        decreases value@.len() - k,
    {
        out.push(value[k]);
        k = k + 1;
        assert(out@ =~= with_key + value@.subrange(0, k as int));
    }
    assert(key@.subrange(0, key@.len() as int) =~= key@);
    assert(value@.subrange(0, value@.len() as int) =~= value@);
    assert(vlen@.subrange(0, 4) =~= vlen@);
    Ok(out)
}

/// Copies `log[from..to]` into a new vector.
pub(crate) fn copy_range(log: &[u8], from: usize, to: usize) -> (r: Vec<u8>)
    requires
        from <= to <= log@.len(),
    ensures
        r@ == log@.subrange(from as int, to as int),
{
    let mut out: Vec<u8> = Vec::new();
    let mut i: usize = from;
    while i < to
        invariant
            from <= i <= to,
            to <= log@.len(),
            out@ == log@.subrange(from as int, i as int),
        decreases to - i,
    {
        out.push(log[i]);
        i = i + 1;
        assert(out@ =~= log@.subrange(from as int, i as int));
    }
    out
}

/// Reads the record at offset `pos`: its key and value and the offset just
/// past it. A position with no byte left gives `EndOfLog`; a record cut short
/// gives `Truncated`.
pub fn decode_at(log: &[u8], pos: u64) -> (r: Result<(KeyValuePair, u64), Error>)
    ensures
        match (r, read_at_spec(log@, pos as int)) {
            (Ok((kv, next)), Ok((k, v, e))) => kv@ == (k, v) && next as int == e,
            (Err(x), Err(y)) => x == y,
            _ => false,
        },
{
    let len = log.len();
    if pos >= len as u64 {
        return Err(Error::EndOfLog);
    }
    let p = pos as usize;
    if len - p < 8 {
        return Err(Error::Truncated);
    }
    let klen = read_u32_le(slice_subrange(log, p, p + 4)) as usize;
    let vlen = read_u32_le(slice_subrange(log, p + 4, p + 8)) as usize;
    if usize::MAX - p - 8 < klen || usize::MAX - p - 8 - klen < vlen {
        return Err(Error::Corrupt);
    }
    let kend = p + 8 + klen;
    let end = kend + vlen;
    if end > len {
        return Err(Error::Truncated);
    }
    let key = copy_range(log, p + 8, kend);
    let value = copy_range(log, kend, end);
    Ok((KeyValuePair { key, value }, end as u64))
}

} // verus!
