//! The point codec: one sample as stored on disk.
//!
//! A slot is 12 bytes: a big-endian 32-bit timestamp followed by the
//! big-endian bit pattern of the 64-bit value.  A stored timestamp of 0
//! means the slot was never written.

use vstd::prelude::*;

use crate::codec::{
    load_be32, load_be64, spec_be32, spec_be32_bytes, spec_be64, spec_be64_bytes,
    lemma_be32_roundtrip, lemma_be64_roundtrip,
};
use crate::archive_info::BucketName;

verus! {

/// One sample.  `value` holds the raw IEEE-754 bit pattern of the f64
/// value, which is exactly what the wire format stores; interpreting the
/// bits as a number is the callers' business.
#[derive(Clone, Copy, Debug, PartialEq, Eq, Structural)]
pub struct Point {
    pub timestamp: u64,
    pub value: u64,
}

/// On-disk size of one point slot.
pub const POINT_SIZE: usize = 12;

/// The 12-byte encoding of a point: the timestamp truncated to 32 bits,
/// then the value bits.
pub open spec fn spec_point_bytes(timestamp: u64, value: u64) -> Seq<u8> {
    spec_be32_bytes(timestamp) + spec_be64_bytes(value)
}

/// The point held by the first 12 bytes of `b`.
pub open spec fn spec_buf_to_point(b: Seq<u8>) -> Point
    recommends
        b.len() >= 12,
{
    Point {
        timestamp: spec_be32(b.subrange(0, 4)) as u64,
        value: spec_be64(b.subrange(4, 12)) as u64,
    }
}

/// Round-trip: decoding an encoded point recovers the value bits exactly
/// and the timestamp reduced to its low 32 bits; a timestamp below 2^32
/// is recovered exactly.
pub proof fn lemma_point_roundtrip(timestamp: u64, value: u64)
    ensures
        spec_buf_to_point(spec_point_bytes(timestamp, value)) == (Point {
            timestamp: (timestamp % 0x1_0000_0000) as u64,
            value,
        }),
        timestamp < 0x1_0000_0000 ==> spec_buf_to_point(spec_point_bytes(timestamp, value))
            == (Point { timestamp, value }),
{
    let b = spec_point_bytes(timestamp, value);
    assert(b.subrange(0, 4) =~= spec_be32_bytes(timestamp));
    assert(b.subrange(4, 12) =~= spec_be64_bytes(value));
    lemma_be32_roundtrip(timestamp);
    lemma_be64_roundtrip(value);
}

/// Decodes the point held by the first 12 bytes of `buf`.
pub fn buf_to_point(buf: &[u8]) -> (p: Point)
    requires
        buf@.len() >= 12,
    ensures
        p == spec_buf_to_point(buf@),
{
    let timestamp = load_be32(buf, 0) as u64;
    let value = load_be64(buf, 4);
    proof {
        assert(buf@.subrange(0int, 4int) =~= buf@.subrange(0, 4));
    }
    Point { timestamp, value }
}

/// Encodes a point into the 12-byte buffer `buf`: the bucketed timestamp,
/// truncated to 32 bits, then the value bits.
pub fn fill_buf(buf: &mut Vec<u8>, bucket: BucketName, point_value: u64)
    requires
        old(buf)@.len() == 12,
    ensures
        final(buf)@ == spec_point_bytes(bucket.0, point_value),
{
    crate::codec::store_be32(buf, 0, bucket.0);
    crate::codec::store_be64(buf, 4, point_value);
    proof {
        assert(buf@ =~= spec_point_bytes(bucket.0, point_value));
    }
}

} // verus!
