//! The parsed file header: metadata plus the ordered archive descriptors.

use vstd::prelude::*;

use crate::archive_info::{slice_to_archive_info, spec_archive_info, ArchiveInfo};
use crate::metadata::{slice_to_metadata, spec_metadata, Metadata};
use crate::WhisperError;
use vstd::slice::slice_subrange;

verus! {

/// Bytes of the metadata block at the start of a file.
pub const HEADER_SIZE: usize = 16;

/// A file's metadata and its archive descriptors, highest resolution
/// first.
#[derive(Debug)]
pub struct Header {
    pub metadata: Metadata,
    pub archive_infos: Vec<ArchiveInfo>,
}

/// Total slot count of the first `i` archives.
pub open spec fn spec_points_before(archives: Seq<ArchiveInfo>, i: int) -> int
    decreases i,
{
    if i <= 0 {
        0
    } else {
        spec_points_before(archives, i - 1) + archives[i - 1].points
    }
}

/// Slot counts are nonnegative, so their prefix sums only grow.
pub proof fn lemma_points_before_monotonic(archives: Seq<ArchiveInfo>, i: int, j: int)
    requires
        0 <= i <= j,
    ensures
        spec_points_before(archives, i) <= spec_points_before(archives, j),
    decreases j - i,
{
    if i < j {
        lemma_points_before_monotonic(archives, i, j - 1);
    }
}

/// The largest retention among the first `i` archives, 0 when there are
/// none.
pub open spec fn spec_max_archive_retention(archives: Seq<ArchiveInfo>, i: int) -> int
    decreases i,
{
    if i <= 0 {
        0
    } else if archives[i - 1].retention >= spec_max_archive_retention(archives, i - 1) {
        archives[i - 1].retention as int
    } else {
        spec_max_archive_retention(archives, i - 1)
    }
}

/// The maximum is an upper bound on every archive's retention.
pub proof fn lemma_max_archive_retention_bounds(archives: Seq<ArchiveInfo>, i: int, k: int)
    requires
        0 <= k < i,
    ensures
        archives[k].retention <= spec_max_archive_retention(archives, i),
    decreases i,
{
    if k < i - 1 {
        lemma_max_archive_retention_bounds(archives, i - 1, k);
    }
}

/// Some archive reaches the maximum, when there is one.
pub proof fn lemma_max_archive_retention_achieved(archives: Seq<ArchiveInfo>, i: int)
    requires
        0 < i,
    ensures
        exists|k: int|
            0 <= k < i && archives[k].retention == spec_max_archive_retention(archives, i),
    decreases i,
{
    if i > 1 && archives[i - 1].retention < spec_max_archive_retention(archives, i - 1) {
        lemma_max_archive_retention_achieved(archives, i - 1);
        let k = choose|k: int|
            0 <= k < i - 1 && archives[k].retention == spec_max_archive_retention(archives, i - 1);
        assert(archives[k].retention == spec_max_archive_retention(archives, i));
    } else if i == 1 {
        assert(spec_max_archive_retention(archives, 0) == 0);
        assert(archives[0].retention == spec_max_archive_retention(archives, 1));
    } else {
        assert(archives[i - 1].retention == spec_max_archive_retention(archives, i));
    }
}

impl Header {
    /// Byte offset of archive `i`'s data region: everything before it is
    /// the header block and the data of the archives declared earlier.
    pub open spec fn spec_archive_offset(self, i: int) -> int {
        16 + 12 * (self.archive_infos@.len() as int) + 12 * spec_points_before(
            self.archive_infos@,
            i,
        )
    }

    /// Total size of the file this header describes.
    pub open spec fn spec_total_size(self) -> int {
        self.spec_archive_offset(self.archive_infos@.len() as int)
    }

    /// The header invariant: the declared archive count matches, every
    /// descriptor is well-formed and sits exactly where the contiguous
    /// layout puts it, the whole file addresses within 32 bits, and the
    /// recorded maximum retention is the maximum over the archives.
    pub open spec fn wf(self) -> bool {
        &&& self.metadata.archive_count == self.archive_infos@.len()
        &&& forall|i: int|
            0 <= i < self.archive_infos@.len() ==> (#[trigger] self.archive_infos@[i]).wf()
        &&& forall|i: int|
            0 <= i < self.archive_infos@.len() ==> (#[trigger] self.archive_infos@[i]).offset
                == self.spec_archive_offset(i)
        &&& self.spec_total_size() <= 0xFFFF_FFFF
        &&& self.metadata.max_retention == spec_max_archive_retention(
            self.archive_infos@,
            self.archive_infos@.len() as int,
        )
    }

    /// Every archive's data region lies within the file, and distinct
    /// archives' regions do not overlap.
    pub proof fn lemma_archive_regions(self, i: int)
        requires
            self.wf(),
            0 <= i < self.archive_infos@.len(),
        ensures
            16 + 12 * (self.archive_infos@.len() as int) <= self.archive_infos@[i].offset,
            self.archive_infos@[i].offset + 12 * self.archive_infos@[i].points
                <= self.spec_total_size(),
            forall|j: int|
                i < j < self.archive_infos@.len() ==> self.archive_infos@[i].offset + 12
                    * self.archive_infos@[i].points <= (#[trigger] self.archive_infos@[j]).offset,
    {
        let archives = self.archive_infos@;
        let n = archives.len() as int;
        lemma_points_before_monotonic(archives, 0, i);
        lemma_points_before_monotonic(archives, i + 1, n);
        assert(spec_points_before(archives, i + 1) == spec_points_before(archives, i)
            + archives[i].points);
        assert forall|j: int| i < j < n implies self.archive_infos@[i].offset + 12
            * self.archive_infos@[i].points <= (#[trigger] self.archive_infos@[j]).offset by {
            lemma_points_before_monotonic(archives, i + 1, j);
        }
    }
}

/// Reads and decodes a file header from the file's bytes: the metadata
/// block, then exactly `archive_count` descriptors.  Fails with
/// `MalformedHeader` when even the metadata block is missing, and with
/// `Truncated` when the descriptors overrun the bytes available.
pub fn read_header(data: &[u8]) -> (r: Result<Header, WhisperError>)
    ensures
        match r {
            Ok(h) => {
                &&& data@.len() >= 16
                &&& h.metadata == spec_metadata(data@)
                &&& h.archive_infos@.len() == h.metadata.archive_count
                &&& 16 + 12 * (h.metadata.archive_count as int) <= data@.len()
                &&& forall|i: int|
                    0 <= i < h.archive_infos@.len() ==> #[trigger] h.archive_infos@[i]
                        == spec_archive_info(data@.subrange(16 + 12 * i, 28 + 12 * i))
            },
            Err(WhisperError::MalformedHeader) => data@.len() < 16,
            Err(WhisperError::Truncated) => data@.len() >= 16 && data@.len() < 16 + 12 * (
            spec_metadata(data@).archive_count as int),
            Err(_) => false,
        },
{
    if data.len() < 16 {
        return Err(WhisperError::MalformedHeader);
    }
    let metadata = slice_to_metadata(data);
    let count = metadata.archive_count as usize;
    if (data.len() - 16) / 12 < count {
        return Err(WhisperError::Truncated);
    }
    let mut archive_infos: Vec<ArchiveInfo> = Vec::new();
    let mut i: usize = 0;
    let len = data.len();
    while i < count
        invariant
            0 <= i <= count,
            count == metadata.archive_count,
            16 + 12 * (count as int) <= data@.len(),
            len == data@.len(),
            archive_infos@.len() == i,
            forall|k: int|
                0 <= k < i ==> #[trigger] archive_infos@[k] == spec_archive_info(
                    data@.subrange(16 + 12 * k, 28 + 12 * k),
                ),
        decreases count - i,
    {
        let lo = 16 + 12 * i;
        let ai = slice_to_archive_info(slice_subrange(data, lo, lo + 12));
        archive_infos.push(ai);
        i = i + 1;
    }
    Ok(Header { metadata, archive_infos })
}

} // verus!
