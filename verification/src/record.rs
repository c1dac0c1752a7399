//! The on-disk record codec: a record is a 4-byte CRC-32/IEEE checksum of
//! `key ‖ value`, a 4-byte key length, a 4-byte value length (all packed
//! little-endian), followed by the raw key and value bytes.

use vstd::prelude::*;

verus! {

/// A key/value pair decoded from one record.
#[derive(Debug)]
pub struct KeyValuePair {
    pub key: Vec<u8>,
    pub value: Vec<u8>,
}

/// Errors a store operation can report.
#[derive(Debug, Clone, Copy, PartialEq, Eq, Structural)]
pub enum StoreError {
    /// The read position was at or past the end of the log: a clean end.
    UnexpectedEof,
    /// The log ends in the middle of a record.
    TruncatedRecord,
    /// A record's stored checksum disagrees with the checksum of its payload.
    Corruption,
    /// A scan failed for a reason other than reaching the end of the log.
    NotFound,
}

/// CRC-32/IEEE of a byte sequence; the result depends on the bytes alone.
pub uninterp spec fn crc32_of(data: Seq<u8>) -> u32;

/// Relies on crc::crc32::checksum_ieee: the CRC-32/IEEE checksum is a pure
/// function of the input bytes.
#[verifier::external_body]
fn checksum_ieee(data: &[u8]) -> (r: u32)
    ensures
        r == crc32_of(data@),
{
    crc::crc32::checksum_ieee(data)
}

/// The little-endian reading of four bytes.
pub open spec fn le32(b: Seq<u8>) -> u32
    recommends
        b.len() == 4,
{
    (b[0] as u32) | ((b[1] as u32) << 8) | ((b[2] as u32) << 16) | ((b[3] as u32) << 24)
}

/// The four little-endian bytes of a 32-bit integer.
pub open spec fn u32_le(n: u32) -> Seq<u8> {
    seq![(n & 0xff) as u8, ((n >> 8) & 0xff) as u8, ((n >> 16) & 0xff) as u8, ((n >> 24) & 0xff) as u8]
}

pub proof fn lemma_le32_u32_le(n: u32)
    ensures
        le32(u32_le(n)) == n,
{
    assert(((n & 0xff) as u8 as u32) | ((((n >> 8) & 0xff) as u8 as u32) << 8) | ((((n >> 16)
        & 0xff) as u8 as u32) << 16) | ((((n >> 24) & 0xff) as u8 as u32) << 24) == n)
        by (bit_vector);
}

/// Append the four little-endian bytes of `n` to `out`.
fn push_u32_le(out: &mut Vec<u8>, n: u32)
    ensures
        final(out)@ == old(out)@ + u32_le(n),
{
    let b0: u8 = (n & 0xff) as u8;
    let b1: u8 = ((n >> 8) & 0xff) as u8;
    let b2: u8 = ((n >> 16) & 0xff) as u8;
    let b3: u8 = ((n >> 24) & 0xff) as u8;
    out.push(b0);
    out.push(b1);
    out.push(b2);
    out.push(b3);
    assert(out@ =~= old(out)@ + u32_le(n));
}

/// Read a 32-bit little-endian integer from four bytes of `b` starting at `pos`.
fn read_u32_le(b: &Vec<u8>, pos: usize) -> (r: u32)
    requires
        pos + 4 <= b@.len(),
    ensures
        r == le32(b@.subrange(pos as int, pos + 4)),
{
    let n = b.len();
    assert(pos + 4 <= n);
    let r = (b[pos] as u32) | ((b[pos + 1] as u32) << 8) | ((b[pos + 2] as u32) << 16) | ((b[pos
        + 3] as u32) << 24);
    proof {
        let s = b@.subrange(pos as int, pos + 4);
        assert(s[0] == b@[pos as int] && s[1] == b@[pos + 1] && s[2] == b@[pos + 2] && s[3] == b@[
            pos + 3]);
    }
    r
}

/// Copy the bytes of `src` in `[from, to)` into a fresh vector.
pub(crate) fn copy_range(src: &Vec<u8>, from: usize, to: usize) -> (r: Vec<u8>)
    requires
        from <= to <= src@.len(),
    ensures
        r@ == src@.subrange(from as int, to as int),
{
    let mut out: Vec<u8> = Vec::new();
    let mut i: usize = from;
    while i < to
        invariant
            from <= i <= to <= src@.len(),
            out@ == src@.subrange(from as int, i as int),
        decreases to - i,
    {
        out.push(src[i]);
        i = i + 1;
        assert(out@ =~= src@.subrange(from as int, i as int));
    }
    out
}

/// The encoded bytes of one record.
pub open spec fn record_bytes(key: Seq<u8>, value: Seq<u8>) -> Seq<u8>
    recommends
        key.len() <= u32::MAX,
        value.len() <= u32::MAX,
        key.len() + value.len() <= u32::MAX,
{
    u32_le(crc32_of(key + value)) + u32_le(key.len() as u32) + u32_le(value.len() as u32) + key
        + value
}

/// The checksum stored in the record header at `pos`.
pub open spec fn stored_checksum(log: Seq<u8>, pos: int) -> u32 {
    le32(log.subrange(pos, pos + 4))
}

/// The key length stored in the record header at `pos`.
pub open spec fn key_len_at(log: Seq<u8>, pos: int) -> int {
    le32(log.subrange(pos + 4, pos + 8)) as int
}

/// The value length stored in the record header at `pos`.
pub open spec fn val_len_at(log: Seq<u8>, pos: int) -> int {
    le32(log.subrange(pos + 8, pos + 12)) as int
}

/// The position one past the record starting at `pos`.
pub open spec fn record_end(log: Seq<u8>, pos: int) -> int {
    pos + 12 + key_len_at(log, pos) + val_len_at(log, pos)
}

/// Both the header and the payload it announces lie within the log.
pub open spec fn record_complete(log: Seq<u8>, pos: int) -> bool {
    0 <= pos && pos + 12 <= log.len() && record_end(log, pos) <= log.len()
}

/// The payload (key followed by value) of the record at `pos`.
pub open spec fn payload_at(log: Seq<u8>, pos: int) -> Seq<u8> {
    log.subrange(pos + 12, record_end(log, pos))
}

/// The key of the record at `pos`.
pub open spec fn key_at(log: Seq<u8>, pos: int) -> Seq<u8> {
    log.subrange(pos + 12, pos + 12 + key_len_at(log, pos))
}

/// The value of the record at `pos`.
pub open spec fn value_at(log: Seq<u8>, pos: int) -> Seq<u8> {
    log.subrange(pos + 12 + key_len_at(log, pos), record_end(log, pos))
}

/// A complete record whose stored checksum matches its payload.
pub open spec fn valid_record_at(log: Seq<u8>, pos: int) -> bool {
    record_complete(log, pos) && stored_checksum(log, pos) == crc32_of(payload_at(log, pos))
}

/// Encode one record: checksum, key length, value length, key, value.
pub fn encode_record(key: &Vec<u8>, value: &Vec<u8>) -> (r: Vec<u8>)
    requires
        key@.len() + value@.len() <= u32::MAX,
    ensures
        r@ == record_bytes(key@, value@),
{
    let mut payload: Vec<u8> = Vec::new();
    let mut i: usize = 0;
    while i < key.len()
        invariant
            i <= key@.len(),
            payload@ == key@.subrange(0, i as int),
        decreases key@.len() - i,
    {
        payload.push(key[i]);
        i = i + 1;
        assert(payload@ =~= key@.subrange(0, i as int));
    }
    assert(payload@ =~= key@);
    let mut j: usize = 0;
    while j < value.len()
        invariant
            j <= value@.len(),
            payload@ == key@ + value@.subrange(0, j as int),
        decreases value@.len() - j,
    {
        payload.push(value[j]);
        j = j + 1;
        assert(payload@ =~= key@ + value@.subrange(0, j as int));
    }
    assert(payload@ =~= key@ + value@);
    let checksum = checksum_ieee(payload.as_slice());
    let mut out: Vec<u8> = Vec::new();
    push_u32_le(&mut out, checksum);
    push_u32_le(&mut out, key.len() as u32);
    push_u32_le(&mut out, value.len() as u32);
    let mut p: usize = 0;
    while p < payload.len()
        invariant
            p <= payload@.len(),
            out@ == u32_le(crc32_of(key@ + value@)) + u32_le(key@.len() as u32) + u32_le(
                value@.len() as u32,
            ) + payload@.subrange(0, p as int),
            payload@ == key@ + value@,
        decreases payload@.len() - p,
    {
        out.push(payload[p]);
        p = p + 1;
        assert(out@ =~= u32_le(crc32_of(key@ + value@)) + u32_le(key@.len() as u32) + u32_le(
            value@.len() as u32,
        ) + payload@.subrange(0, p as int));
    }
    proof {
        assert(payload@.subrange(0, payload@.len() as int) =~= payload@);
        assert(out@ =~= record_bytes(key@, value@));
    }
    out
}

/// Decode the record starting at `pos`, returning the pair and the position
/// one past the record. At or past the end of the log the result is a clean
/// end-of-log; a record cut short by the end of the log is a truncation; a
/// checksum disagreement is corruption.
pub fn process_record(log: &Vec<u8>, pos: usize) -> (r: Result<(KeyValuePair, usize), StoreError>)
    ensures
        r is Ok <==> valid_record_at(log@, pos as int),
        r is Ok ==> {
            let (kv, end) = r->Ok_0;
            kv.key@ == key_at(log@, pos as int) && kv.value@ == value_at(log@, pos as int) && end
                == record_end(log@, pos as int)
        },
        r == Result::<(KeyValuePair, usize), StoreError>::Err(StoreError::UnexpectedEof) <==> pos
            >= log@.len(),
        r == Result::<(KeyValuePair, usize), StoreError>::Err(StoreError::TruncatedRecord) <==> (pos
            < log@.len() && !record_complete(log@, pos as int)),
        r == Result::<(KeyValuePair, usize), StoreError>::Err(StoreError::Corruption) <==> (
        record_complete(log@, pos as int) && stored_checksum(log@, pos as int) != crc32_of(
            payload_at(log@, pos as int),
        )),
{
    if pos >= log.len() {
        return Err(StoreError::UnexpectedEof);
    }
    if log.len() - pos < 12 {
        return Err(StoreError::TruncatedRecord);
    }
    let saved_checksum = read_u32_le(log, pos);
    let key_len = read_u32_le(log, pos + 4);
    let val_len = read_u32_le(log, pos + 8);
    let after_header = pos + 12;
    let remaining = log.len() - after_header;
    if key_len as usize > remaining || val_len as usize > remaining - key_len as usize {
        return Err(StoreError::TruncatedRecord);
    }
    let key_end = after_header + key_len as usize;
    let end = key_end + val_len as usize;
    let payload = copy_range(log, after_header, end);
    let checksum = checksum_ieee(payload.as_slice());
    if checksum != saved_checksum {
        return Err(StoreError::Corruption);
    }
    let key = copy_range(log, after_header, key_end);
    let value = copy_range(log, key_end, end);
    Ok((KeyValuePair { key, value }, end))
}

} // verus!
