//! A fixed-retention, multi-resolution time-series storage engine for the
//! whisper on-disk format used by Graphite-style metrics systems.
//!
//! A metric lives in one file holding several fixed-capacity ring-buffer
//! archives of decreasing resolution.  This crate verifies the file-format
//! engine itself: the point and header codecs, the circular-buffer
//! addressing arithmetic, the retention-spec schema, and the
//! write-and-cascading-downsample algorithm, all working on an in-memory
//! image of the file's bytes.  Reading the image from disk and writing it
//! back, as well as the floating-point aggregation arithmetic, are left to
//! the unverified shell around the library.
//!
//! Sample values are carried as the raw bit pattern of their IEEE-754
//! double (a `u64`), which is all the wire format itself ever sees.

use vstd::prelude::*;

pub mod archive_info;
pub mod cache;
pub mod carbon_msg;
pub mod codec;
pub mod expander;
pub mod file;
pub mod header;
pub mod metadata;
pub mod point;
pub mod retention_policy;
pub mod schema;
pub mod xff;

verus! {

/// What can go wrong in the engine.  Downsample insufficiency is not an
/// error: it is a normal, silent stop of the cascade.
#[derive(Debug)]
pub enum WhisperError {
    /// The file is structurally invalid: too short for its own metadata,
    /// or its descriptors disagree with the layout the format demands.
    MalformedHeader,
    /// The file holds fewer bytes than its header declares.
    Truncated,
    /// One or more retention specs were rejected at creation time; all
    /// offending specs are listed.
    InvalidRetentionSpec(Vec<String>),
    /// The written point is older than every archive covers.
    RetentionExceeded,
}

} // verus!
