use vstd::prelude::*;

use crate::err::ListError;

verus! {

/// The eight bytes of `v`, most significant first.
pub open spec fn u64_be_bytes(v: u64) -> Seq<u8> {
    seq![
        ((v >> 56) & 0xff) as u8,
        ((v >> 48) & 0xff) as u8,
        ((v >> 40) & 0xff) as u8,
        ((v >> 32) & 0xff) as u8,
        ((v >> 24) & 0xff) as u8,
        ((v >> 16) & 0xff) as u8,
        ((v >> 8) & 0xff) as u8,
        (v & 0xff) as u8,
    ]
}

/// The value whose big-endian bytes are `b` (read on exactly eight bytes).
pub open spec fn be_u64_val(b: Seq<u8>) -> u64
    recommends
        b.len() == 8,
{
    ((b[0] as u64) << 56) | ((b[1] as u64) << 48) | ((b[2] as u64) << 40) | ((b[3] as u64) << 32)
        | ((b[4] as u64) << 24) | ((b[5] as u64) << 16) | ((b[6] as u64) << 8) | (b[7] as u64)
}

/// The fixed sixteen-byte progress record of a queued job:
/// the cursor, then the total snapshot length, both big-endian.
pub open spec fn record_bytes(cursor: u64, end: u64) -> Seq<u8> {
    u64_be_bytes(cursor) + u64_be_bytes(end)
}

/// What a well-sized record holds; records of any other size hold nothing.
pub open spec fn record_value(b: Seq<u8>) -> Option<(u64, u64)> {
    if b.len() == 16 {
        Some((be_u64_val(b.subrange(0, 8)), be_u64_val(b.subrange(8, 16))))
    } else {
        None
    }
}

/// Reading back the eight big-endian bytes of a value gives the value.
pub proof fn lemma_be_roundtrip(v: u64)
    ensures
        be_u64_val(u64_be_bytes(v)) == v,
{
    assert((((((v >> 56) & 0xff) as u8) as u64) << 56) | (((((v >> 48) & 0xff) as u8) as u64)
        << 48) | (((((v >> 40) & 0xff) as u8) as u64) << 40) | (((((v >> 32) & 0xff) as u8) as u64)
        << 32) | (((((v >> 24) & 0xff) as u8) as u64) << 24) | (((((v >> 16) & 0xff) as u8) as u64)
        << 16) | (((((v >> 8) & 0xff) as u8) as u64) << 8) | (((v & 0xff) as u8) as u64) == v)
        by (bit_vector);
}

/// A record written for `(cursor, end)` reads back as exactly that pair.
pub proof fn lemma_record_roundtrip(cursor: u64, end: u64)
    ensures
        record_value(record_bytes(cursor, end)) == Some((cursor, end)),
{
    let b = record_bytes(cursor, end);
    assert(b.subrange(0, 8) =~= u64_be_bytes(cursor));
    assert(b.subrange(8, 16) =~= u64_be_bytes(end));
    lemma_be_roundtrip(cursor);
    lemma_be_roundtrip(end);
}

/// The eight big-endian bytes of the cursor alone: what a delivery
/// attempt writes back at the start of the record after each recipient.
pub fn encode_cursor(v: u64) -> (r: Vec<u8>)
    ensures
        r@ == u64_be_bytes(v),
{
    let mut out: Vec<u8> = Vec::new();
    out.push(((v >> 56) & 0xff) as u8);
    out.push(((v >> 48) & 0xff) as u8);
    out.push(((v >> 40) & 0xff) as u8);
    out.push(((v >> 32) & 0xff) as u8);
    out.push(((v >> 24) & 0xff) as u8);
    out.push(((v >> 16) & 0xff) as u8);
    out.push(((v >> 8) & 0xff) as u8);
    out.push((v & 0xff) as u8);
    proof {
        assert(out@ =~= u64_be_bytes(v));
    }
    out
}

/// The full sixteen-byte record for a fresh or resumed job.
pub fn encode_record(cursor: u64, end: u64) -> (r: Vec<u8>)
    ensures
        r@ == record_bytes(cursor, end),
{
    let mut out = encode_cursor(cursor);
    let mut tail = encode_cursor(end);
    out.append(&mut tail);
    proof {
        assert(out@ =~= record_bytes(cursor, end));
    }
    out
}

/// One big-endian value out of eight bytes of `b` starting at `off`.
fn read_be_u64(b: &[u8], off: usize) -> (v: u64)
    requires
        off + 8 <= b@.len(),
    ensures
        v == be_u64_val(b@.subrange(off as int, off as int + 8)),
{
    let v = ((b[off] as u64) << 56) | ((b[off + 1] as u64) << 48) | ((b[off + 2] as u64) << 40) | (
    (b[off + 3] as u64) << 32) | ((b[off + 4] as u64) << 24) | ((b[off + 5] as u64) << 16) | ((b[off
        + 6] as u64) << 8) | (b[off + 7] as u64);
    proof {
        let s = b@.subrange(off as int, off as int + 8);
        assert(s[0] == b@[off as int]);
        assert(s[7] == b@[off as int + 7]);
    }
    v
}

/// The two integers a sixteen-byte progress record holds; a record of
/// any other length is malformed and refused.
pub fn decode_record(b: &[u8]) -> (r: Result<(u64, u64), ListError>)
    ensures
        match record_value(b@) {
            Some(p) => r matches Ok(q) && q == p,
            None => r is Err,
        },
{
    if b.len() != 16 {
        return Err(ListError { message: String::from_str("malformed position record") });
    }
    let cursor = read_be_u64(b, 0);
    let end = read_be_u64(b, 8);
    Ok((cursor, end))
}

} // verus!
