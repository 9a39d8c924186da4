//! The metadata codec: the 16-byte file header.
//!
//! Four big-endian 32-bit fields: aggregation method id, maximum retention
//! in seconds, the sufficiency threshold (the raw bits of an IEEE-754
//! single), and the archive count.

use vstd::prelude::*;

use crate::codec::{load_be32, spec_be32, spec_be32_bytes, spec_splice, store_be32};

verus! {

/// On-disk size of the metadata header.
pub const METADATA_DISK_SIZE: u64 = 16;

/// How samples of a finer archive are combined into one slot of a coarser
/// one.
#[derive(Clone, Copy, Debug, PartialEq, Eq, Structural)]
pub enum AggregationType {
    Average,
    Sum,
    Last,
    Max,
    Min,
    Unknown,
}

/// The decoded header fields.  `x_files_factor` carries the raw bit
/// pattern of the on-disk IEEE-754 single, a fraction in `[0, 1]`: the
/// least share of a coarse slot's fine samples that must be present
/// before the aggregate propagates.
#[derive(Clone, Copy, Debug, PartialEq, Eq, Structural)]
pub struct Metadata {
    pub aggregation_type: AggregationType,
    pub max_retention: u32,
    pub x_files_factor: u32,
    pub archive_count: u32,
}

/// The aggregation method an on-disk id denotes.  An id outside `1..=5`
/// falls back to `Average`.
pub open spec fn spec_aggregation_type_from_id(id: int) -> AggregationType {
    if id == 2 {
        AggregationType::Sum
    } else if id == 3 {
        AggregationType::Last
    } else if id == 4 {
        AggregationType::Max
    } else if id == 5 {
        AggregationType::Min
    } else {
        AggregationType::Average
    }
}

pub fn aggregation_type_from_id(id: u32) -> (r: AggregationType)
    ensures
        r == spec_aggregation_type_from_id(id as int),
{
    match id {
        2 => AggregationType::Sum,
        3 => AggregationType::Last,
        4 => AggregationType::Max,
        5 => AggregationType::Min,
        _ => AggregationType::Average,
    }
}

/// The on-disk id of an aggregation method; `Unknown` is written as
/// `Average`'s id.
pub open spec fn spec_aggregation_type_to_id(t: AggregationType) -> int {
    match t {
        AggregationType::Average => 1,
        AggregationType::Sum => 2,
        AggregationType::Last => 3,
        AggregationType::Max => 4,
        AggregationType::Min => 5,
        AggregationType::Unknown => 1,
    }
}

pub fn aggregation_type_to_id(aggregation_type: &AggregationType) -> (r: u32)
    ensures
        r == spec_aggregation_type_to_id(*aggregation_type),
{
    match *aggregation_type {
        AggregationType::Average => 1,
        AggregationType::Sum => 2,
        AggregationType::Last => 3,
        AggregationType::Max => 4,
        AggregationType::Min => 5,
        AggregationType::Unknown => 1,
    }
}

/// The metadata held by the first 16 bytes of `b`.
pub open spec fn spec_metadata(b: Seq<u8>) -> Metadata
    recommends
        b.len() >= 16,
{
    Metadata {
        aggregation_type: spec_aggregation_type_from_id(spec_be32(b.subrange(0, 4))),
        max_retention: spec_be32(b.subrange(4, 8)) as u32,
        x_files_factor: spec_be32(b.subrange(8, 12)) as u32,
        archive_count: spec_be32(b.subrange(12, 16)) as u32,
    }
}

/// The 16-byte encoding of `m`.
pub open spec fn spec_metadata_bytes(m: Metadata) -> Seq<u8> {
    spec_be32_bytes(spec_aggregation_type_to_id(m.aggregation_type) as u64) + spec_be32_bytes(
        m.max_retention as u64,
    ) + spec_be32_bytes(m.x_files_factor as u64) + spec_be32_bytes(m.archive_count as u64)
}

/// Round-trip: decoding an encoded header recovers it, except that
/// `Unknown` comes back as the `Average` its id denotes.
pub proof fn lemma_metadata_roundtrip(m: Metadata)
    requires
        m.aggregation_type != AggregationType::Unknown,
    ensures
        spec_metadata(spec_metadata_bytes(m)) == m,
{
    let b = spec_metadata_bytes(m);
    let id = spec_aggregation_type_to_id(m.aggregation_type) as u64;
    assert(b.subrange(0, 4) =~= spec_be32_bytes(id));
    assert(b.subrange(4, 8) =~= spec_be32_bytes(m.max_retention as u64));
    assert(b.subrange(8, 12) =~= spec_be32_bytes(m.x_files_factor as u64));
    assert(b.subrange(12, 16) =~= spec_be32_bytes(m.archive_count as u64));
    crate::codec::lemma_be32_roundtrip(id);
    crate::codec::lemma_be32_roundtrip(m.max_retention as u64);
    crate::codec::lemma_be32_roundtrip(m.x_files_factor as u64);
    crate::codec::lemma_be32_roundtrip(m.archive_count as u64);
}

/// Decodes the metadata held by the first 16 bytes of `buf`.
pub fn slice_to_metadata(buf: &[u8]) -> (m: Metadata)
    requires
        buf@.len() >= 16,
    ensures
        m == spec_metadata(buf@),
{
    let aggregation_id = load_be32(buf, 0);
    let max_retention = load_be32(buf, 4);
    let x_files_factor = load_be32(buf, 8);
    let archive_count = load_be32(buf, 12);
    proof {
        assert(buf@.subrange(0int, 4int) =~= buf@.subrange(0, 4));
    }
    Metadata {
        aggregation_type: aggregation_type_from_id(aggregation_id),
        max_retention,
        x_files_factor,
        archive_count,
    }
}

impl Metadata {
    /// Encodes the metadata into the first 16 bytes of `buf`.
    pub fn fill_buf(&self, buf: &mut Vec<u8>)
        requires
            old(buf)@.len() >= 16,
        ensures
            final(buf)@ == spec_splice(old(buf)@, 0, spec_metadata_bytes(*self)),
    {
        let n = buf.len();
        let agg_id = aggregation_type_to_id(&self.aggregation_type);
        store_be32(buf, 0, agg_id as u64);
        store_be32(buf, 4, self.max_retention as u64);
        store_be32(buf, 8, self.x_files_factor as u64);
        store_be32(buf, 12, self.archive_count as u64);
        proof {
            assert(buf@ =~= spec_splice(old(buf)@, 0, spec_metadata_bytes(*self)));
        }
    }
}

} // verus!
