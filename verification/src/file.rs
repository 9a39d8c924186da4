//! The whisper file engine: one in-memory image of a file's bytes and the
//! operations on it — create, open, bulk read, and the write with its
//! cascading downsample.
//!
//! The engine works on the complete byte image of one file.  The shell
//! around the library reads the image from disk, drives the engine, and
//! writes the image back; it also supplies the one thing the engine does
//! not compute itself, the floating-point aggregate of the surviving
//! samples, which the engine requests through [`CascadeRequest`] and
//! receives back through [`WhisperFile::write_aggregated`].

use vstd::prelude::*;

use crate::archive_info::{ArchiveIndex, ArchiveInfo, BucketName};
use crate::codec::{spec_splice, store_be32, store_be64};
use crate::header::{
    read_header, spec_max_archive_retention, spec_points_before, Header,
    lemma_points_before_monotonic,
};
use crate::metadata::{spec_metadata_bytes, AggregationType, Metadata};
use crate::point::{buf_to_point, spec_buf_to_point, spec_point_bytes, Point};
use crate::retention_policy::RetentionPolicy;
use crate::schema::{spec_archives_size, Schema};
use crate::xff::spec_frac_lt_xff;
use crate::WhisperError;
use vstd::slice::slice_subrange;

verus! {

/// The point stored in slot `idx` of an archive.
pub open spec fn spec_point_at(data: Seq<u8>, ai: ArchiveInfo, idx: int) -> Point {
    spec_buf_to_point(data.subrange(ai.offset + 12 * idx, ai.offset + 12 * idx + 12))
}

/// The archive's anchor: the timestamp of its base slot, 0 when the
/// archive has never been written.
pub open spec fn spec_anchor(data: Seq<u8>, ai: ArchiveInfo) -> u64 {
    spec_point_at(data, ai, 0).timestamp
}

/// The file image after one point is deposited into an archive: 12 bytes
/// are spliced in at the slot the archive's addressing picks, holding the
/// bucketed timestamp and the value bits.
pub open spec fn spec_deposit(data: Seq<u8>, ai: ArchiveInfo, ts: u64, value: u64) -> Seq<u8> {
    let pos = ai.spec_seek(ts, spec_anchor(data, ai));
    spec_splice(data, pos, spec_point_bytes(ai.spec_bucket(ts), value))
}

/// How many fine slots make up one coarse slot.
pub open spec fn spec_needed(h: ArchiveInfo, l: ArchiveInfo) -> int {
    l.seconds_per_point as int / h.seconds_per_point as int
}

/// Whether the pair below archive `a` can take part in a downsample: a
/// coarser archive exists and its slots are made of a positive number of
/// fine slots that the fine archive can actually hold.
pub open spec fn spec_can_cascade(head: Header, a: int) -> bool {
    &&& a + 1 < head.archive_infos@.len()
    &&& 1 <= spec_needed(head.archive_infos@[a], head.archive_infos@[a + 1])
        <= head.archive_infos@[a].points
}

/// The fine slot at which the candidates for a coarse bucket start.
pub open spec fn spec_cascade_start(data: Seq<u8>, h: ArchiveInfo, lbucket: u64) -> int {
    let anchor = spec_anchor(data, h);
    if anchor == 0 {
        0
    } else {
        h.spec_slot_index(h.spec_bucket(lbucket), anchor)
    }
}

/// The values of the surviving candidates among the first `count` fine
/// slots from `start`, in slot order: a candidate survives exactly when
/// the timestamp stored in its slot is the bucket it is expected to hold.
pub open spec fn spec_survivors(
    data: Seq<u8>,
    h: ArchiveInfo,
    start: int,
    lbucket: u64,
    count: int,
) -> Seq<u64>
    decreases count,
{
    if count <= 0 {
        Seq::empty()
    } else {
        let prev = spec_survivors(data, h, start, lbucket, count - 1);
        let i = count - 1;
        let p = spec_point_at(data, h, (start + i) % (h.points as int));
        if p.timestamp == lbucket + i * h.seconds_per_point {
            prev.push(p.value)
        } else {
            prev
        }
    }
}

/// What the cascade below archive `a` asks for after a deposit driven by
/// timestamp `ts`: `None` when there is nothing to downsample into or
/// when too few samples survive for the sufficiency threshold, otherwise
/// the coarse bucket and the surviving values to aggregate.
pub open spec fn spec_cascade_request(data: Seq<u8>, head: Header, a: int, ts: u64) -> Option<
    (u64, Seq<u64>),
> {
    if !spec_can_cascade(head, a) {
        None
    } else {
        let h = head.archive_infos@[a];
        let l = head.archive_infos@[a + 1];
        let needed = spec_needed(h, l);
        let lbucket = l.spec_bucket(ts);
        let start = spec_cascade_start(data, h, lbucket);
        let values = spec_survivors(data, h, start, lbucket, needed);
        if spec_frac_lt_xff(values.len() as int, needed, head.metadata.x_files_factor) {
            None
        } else {
            Some((lbucket, values))
        }
    }
}

/// Whether an archive can take a point: the point is no older, relative
/// to the current time, than the archive's whole retention.
pub open spec fn spec_covers(ai: ArchiveInfo, current_time: u64, ts: u64) -> bool {
    ts + ai.retention > current_time
}

/// The first archive from `i` on that covers the point, or the archive
/// count when none does.
pub open spec fn spec_select_from(
    archives: Seq<ArchiveInfo>,
    current_time: u64,
    ts: u64,
    i: int,
) -> int
    decreases archives.len() - i,
{
    if i < 0 || i >= archives.len() {
        archives.len() as int
    } else if spec_covers(archives[i], current_time, ts) {
        i
    } else {
        spec_select_from(archives, current_time, ts, i + 1)
    }
}

/// The archive a write goes to: the first, hence highest-resolution, one
/// whose retention reaches back to the point.
pub open spec fn spec_select_archive(archives: Seq<ArchiveInfo>, current_time: u64, ts: u64) -> int {
    spec_select_from(archives, current_time, ts, 0)
}

/// What the selection means: everything before the selected archive is
/// too short-lived for the point, and the selected one, if any, covers
/// it.
pub proof fn lemma_select_from(archives: Seq<ArchiveInfo>, current_time: u64, ts: u64, i: int)
    requires
        0 <= i <= archives.len(),
    ensures
        i <= spec_select_from(archives, current_time, ts, i) <= archives.len(),
        spec_select_from(archives, current_time, ts, i) < archives.len() ==> spec_covers(
            archives[spec_select_from(archives, current_time, ts, i)],
            current_time,
            ts,
        ),
        forall|j: int|
            i <= j < spec_select_from(archives, current_time, ts, i) ==> !spec_covers(
                #[trigger] archives[j],
                current_time,
                ts,
            ),
    decreases archives.len() - i,
{
    if i < archives.len() && !spec_covers(archives[i], current_time, ts) {
        lemma_select_from(archives, current_time, ts, i + 1);
    }
}

/// A write that stops short of an archive pair leaves the coarser
/// archives untouched: depositing into archive `a` changes no byte
/// outside archive `a`'s own data region, and when too few samples
/// survive the sufficiency threshold, the cascade request below `a` is
/// `None`, so nothing is ever written past it.
pub proof fn lemma_sufficiency_gating(
    pre: Seq<u8>,
    head: Header,
    a: int,
    ts: u64,
    value: u64,
)
    requires
        head.wf(),
        0 <= a < head.archive_infos@.len(),
        pre.len() == head.spec_total_size(),
        ({
            let post = spec_deposit(pre, head.archive_infos@[a], ts, value);
            spec_can_cascade(head, a) ==> spec_frac_lt_xff(
                spec_survivors(
                    post,
                    head.archive_infos@[a],
                    spec_cascade_start(
                        post,
                        head.archive_infos@[a],
                        head.archive_infos@[a + 1].spec_bucket(ts),
                    ),
                    head.archive_infos@[a + 1].spec_bucket(ts),
                    spec_needed(head.archive_infos@[a], head.archive_infos@[a + 1]),
                ).len() as int,
                spec_needed(head.archive_infos@[a], head.archive_infos@[a + 1]),
                head.metadata.x_files_factor,
            )
        }),
    ensures
        ({
            let post = spec_deposit(pre, head.archive_infos@[a], ts, value);
            &&& spec_cascade_request(post, head, a, ts) is None
            &&& post.len() == pre.len()
            &&& forall|j: int, b: int|
                #![trigger head.archive_infos@[j], post[b]]
                a < j < head.archive_infos@.len() && head.archive_infos@[j].offset <= b
                    < head.archive_infos@[j].offset + 12 * head.archive_infos@[j].points
                    ==> post[b] == pre[b]
        }),
{
    let ai = head.archive_infos@[a];
    let post = spec_deposit(pre, ai, ts, value);
    lemma_deposit_in_archive(pre, head, a, ts, value);
    assert forall|j: int, b: int|
        #![trigger head.archive_infos@[j], post[b]]
        a < j < head.archive_infos@.len() && head.archive_infos@[j].offset <= b
            < head.archive_infos@[j].offset + 12 * head.archive_infos@[j].points implies post[b]
        == pre[b] by {
        head.lemma_archive_regions(a);
        head.lemma_archive_regions(j);
    }
}

/// Depositing into an archive splices 12 bytes somewhere inside that
/// archive's own data region and leaves every other byte of the file as
/// it was.
#[verifier::rlimit(50)]
pub proof fn lemma_deposit_in_archive(pre: Seq<u8>, head: Header, a: int, ts: u64, value: u64)
    requires
        head.wf(),
        0 <= a < head.archive_infos@.len(),
        pre.len() == head.spec_total_size(),
    ensures
        ({
            let ai = head.archive_infos@[a];
            let post = spec_deposit(pre, ai, ts, value);
            let pos = ai.spec_seek(ts, spec_anchor(pre, ai));
            &&& post.len() == pre.len()
            &&& ai.offset <= pos
            &&& pos + 12 <= ai.offset + 12 * ai.points
            &&& forall|b: int| 0 <= b < pre.len() && !(pos <= b < pos + 12) ==> post[b] == pre[b]
            &&& forall|b: int|
                pos <= b < pos + 12 ==> post[b] == spec_point_bytes(ai.spec_bucket(ts), value)[b
                    - pos]
        }),
{
    let ai = head.archive_infos@[a];
    let anchor = spec_anchor(pre, ai);
    let pos = ai.spec_seek(ts, anchor);
    lemma_seek_in_archive(ai, ts, anchor);
    head.lemma_archive_regions(a);
    crate::codec::lemma_splice(pre, pos, spec_point_bytes(ai.spec_bucket(ts), value));
}

/// The seek position always lands on a whole slot inside the archive's
/// data region, whatever the anchor and timestamp.
pub proof fn lemma_seek_in_archive(ai: ArchiveInfo, ts: u64, anchor: u64)
    requires
        ai.wf(),
    ensures
        ai.offset <= ai.spec_seek(ts, anchor),
        ai.spec_seek(ts, anchor) + 12 <= ai.offset + 12 * ai.points,
{
    if anchor != 0 {
        let idx = ai.spec_slot_index(ai.spec_bucket(ts), anchor);
        vstd::arithmetic::div_mod::lemma_mod_bound(
            (ai.spec_bucket(ts) - anchor) / (ai.seconds_per_point as int),
            ai.points as int,
        );
        assert(0 <= idx < ai.points);
    }
}

/// A request the engine hands back when a coarse slot has enough
/// surviving fine samples: the shell aggregates `values` and returns the
/// result through [`WhisperFile::write_aggregated`].
pub struct CascadeRequest {
    /// Index of the coarser archive the aggregate belongs in.
    pub archive: usize,
    /// The timestamp driving the cascade: pass it back unchanged.
    pub timestamp: u64,
    /// The coarse bucket the aggregate will be stored under.
    pub bucket: u64,
    /// The surviving fine values' bit patterns, in slot order.
    pub values: Vec<u64>,
}

/// One whisper file: its parsed header and the complete image of its
/// bytes.
pub struct WhisperFile {
    pub header: Header,
    pub data: Vec<u8>,
}

impl WhisperFile {
    /// The engine invariant: a well-formed header describing exactly the
    /// bytes held.
    pub open spec fn wf(self) -> bool {
        &&& self.header.wf()
        &&& self.spec_data().len() == self.header.spec_total_size()
    }

    /// The file's byte image.
    pub open spec fn spec_data(self) -> Seq<u8> {
        self.data@
    }

    /// Borrows the file's byte image, e.g. to persist it.
    pub fn as_bytes(&self) -> (r: &Vec<u8>)
        ensures
            r@ == self.spec_data(),
    {
        &self.data
    }

    /// Takes the file's byte image, e.g. to persist it.
    pub fn into_bytes(self) -> (r: Vec<u8>)
        ensures
            r@ == self.spec_data(),
    {
        self.data
    }

    /// The point stored in slot `idx` of archive `archive`.
    fn point_at(&self, archive: usize, idx: u64) -> (p: Point)
        requires
            self.wf(),
            archive < self.header.archive_infos@.len(),
            idx < self.header.archive_infos@[archive as int].points,
        ensures
            p == spec_point_at(self.spec_data(), self.header.archive_infos@[archive as int],
                idx as int),
            p.timestamp < 0x1_0000_0000,
    {
        let ai = self.header.archive_infos[archive];
        proof {
            self.header.lemma_archive_regions(archive as int);
            assert(12 * (idx as int) + 12 <= 12 * (ai.points as int)) by (nonlinear_arith)
                requires
                    idx < ai.points,
            ;
        }
        let pos = (ai.offset + 12 * idx) as usize;
        let b = slice_subrange(self.data.as_slice(), pos, pos + 12);
        let p = buf_to_point(b);
        proof {
            assert(b@.subrange(0, 4) =~= b@.subrange(0int, 4int));
            crate::codec::lemma_be32_bounds(b@.subrange(0, 4));
        }
        p
    }

    /// The archive's current anchor: the timestamp of its base slot, 0
    /// if the archive has never been written.
    pub fn anchor_bucket(&self, archive: ArchiveIndex) -> (r: BucketName)
        requires
            self.wf(),
            archive.0 < self.header.archive_infos@.len(),
        ensures
            r.0 == spec_anchor(self.spec_data(), self.header.archive_infos@[archive.0 as int]),
            r.0 < 0x1_0000_0000,
    {
        let p = self.point_at(archive.0 as usize, 0);
        BucketName(p.timestamp)
    }

    /// Bulk read of `count` slots starting at `index_start`, honoring the
    /// ring's wrap-around: the `k`-th point returned is the one stored
    /// `k` slots past `index_start`, modulo the archive's capacity.  The
    /// slots visited are exactly the one or two contiguous runs that the
    /// archive's read plan names.
    pub fn read_points(&self, archive: ArchiveIndex, index_start: u64, count: u64) -> (r: Vec<
        Point,
    >)
        requires
            self.wf(),
            archive.0 < self.header.archive_infos@.len(),
            index_start < self.header.archive_infos@[archive.0 as int].points,
            count <= self.header.archive_infos@[archive.0 as int].points,
        ensures
            r@.len() == count,
            forall|k: int|
                0 <= k < count ==> #[trigger] r@[k] == spec_point_at(
                    self.spec_data(),
                    self.header.archive_infos@[archive.0 as int],
                    (index_start + k) % (self.header.archive_infos@[archive.0 as int].points
                        as int),
                ),
    {
        let ghost ai_g = self.header.archive_infos@[archive.0 as int];
        let ai = self.header.archive_infos[archive.0 as usize];
        let mut r: Vec<Point> = Vec::new();
        let mut k: u64 = 0;
        let mut idx: u64 = index_start;
        proof {
            vstd::arithmetic::div_mod::lemma_small_mod(index_start as nat, ai.points as nat);
        }
        while k < count
            invariant
                self.wf(),
                archive.0 < self.header.archive_infos@.len(),
                ai == ai_g,
                ai_g == self.header.archive_infos@[archive.0 as int],
                ai.wf(),
                count <= ai.points,
                0 <= k <= count,
                idx == (index_start + k) % (ai.points as int),
                idx < ai.points,
                r@.len() == k,
                forall|kk: int|
                    0 <= kk < k ==> #[trigger] r@[kk] == spec_point_at(
                        self.spec_data(),
                        ai_g,
                        (index_start + kk) % (ai_g.points as int),
                    ),
            decreases count - k,
        {
            let p = self.point_at(archive.0 as usize, idx);
            r.push(p);
            proof {
                // Stepping the slot index steps the modulus: adding one
                // more slot either stays inside the ring or folds to 0.
                let pts = ai.points as int;
                vstd::arithmetic::div_mod::lemma_add_mod_noop(
                    index_start + k,
                    1int,
                    pts,
                );
                if pts > 1 {
                    vstd::arithmetic::div_mod::lemma_small_mod(1nat, pts as nat);
                    if idx + 1 < pts {
                        vstd::arithmetic::div_mod::lemma_small_mod((idx + 1) as nat, pts as nat);
                    } else {
                        vstd::arithmetic::div_mod::lemma_mod_self_0(pts);
                    }
                } else {
                    vstd::arithmetic::div_mod::lemma_mod_self_0(pts);
                    vstd::arithmetic::div_mod::lemma_small_mod(0nat, pts as nat);
                }
            }
            k = k + 1;
            idx = idx + 1;
            if idx == ai.points {
                idx = 0;
            }
        }
        r
    }
}

impl WhisperFile {
    /// Writes one point into archive `archive`: the slot the archive's
    /// addressing picks for `timestamp` receives the bucketed timestamp
    /// and the value bits; no other byte of the file changes.
    #[verifier::rlimit(50)]
    fn deposit(&mut self, archive: usize, timestamp: u64, value: u64)
        requires
            old(self).wf(),
            archive < old(self).header.archive_infos@.len(),
        ensures
            final(self).wf(),
            final(self).header == old(self).header,
            final(self).spec_data() == spec_deposit(
                old(self).spec_data(),
                old(self).header.archive_infos@[archive as int],
                timestamp,
                value,
            ),
    {
        let ghost pre = self.data@;
        let ai = self.header.archive_infos[archive];
        let anchor = self.anchor_bucket(ArchiveIndex(archive as u64));
        let pos = ai.calculate_seek(timestamp, anchor);
        proof {
            lemma_seek_in_archive(ai, timestamp, anchor.0);
            self.header.lemma_archive_regions(archive as int);
            assert(pos + 12 <= self.data@.len());
        }
        let bucket = ai.bucket(timestamp);
        let posu = pos as usize;
        store_be32(&mut self.data, posu, bucket.0);
        store_be64(&mut self.data, posu + 4, value);
        proof {
            let patch = spec_point_bytes(bucket.0, value);
            let d1 = spec_splice(pre, pos as int, crate::codec::spec_be32_bytes(bucket.0));
            crate::codec::lemma_splice(pre, pos as int, crate::codec::spec_be32_bytes(bucket.0));
            crate::codec::lemma_splice(d1, pos + 4, crate::codec::spec_be64_bytes(value));
            crate::codec::lemma_splice(pre, pos as int, patch);
            assert(self.data@ =~= spec_splice(pre, pos as int, patch));
        }
    }

    /// Evaluates the downsample pair below `archive` after a deposit
    /// driven by `timestamp`: collects the surviving candidates of the
    /// coarse bucket via the wrap-aware read and applies the sufficiency
    /// gate, handing back an aggregation request or nothing.
    fn evaluate_cascade(&self, archive: usize, timestamp: u64) -> (r: Option<CascadeRequest>)
        requires
            self.wf(),
            archive < self.header.archive_infos@.len(),
        ensures
            match r {
                None => spec_cascade_request(
                    self.spec_data(),
                    self.header,
                    archive as int,
                    timestamp,
                ) is None,
                Some(req) => {
                    &&& spec_cascade_request(self.spec_data(), self.header, archive as int,
                        timestamp) == Some((req.bucket, req.values@))
                    &&& req.archive == archive + 1
                    &&& req.archive < self.header.archive_infos@.len()
                    &&& req.timestamp == timestamp
                },
            },
    {
        let n = self.header.archive_infos.len();
        proof {
            lemma_points_before_monotonic(self.header.archive_infos@, 0, n as int);
        }
        if archive + 1 >= n {
            return None;
        }
        let h = self.header.archive_infos[archive];
        let l = self.header.archive_infos[archive + 1];
        let needed = l.seconds_per_point / h.seconds_per_point;
        if needed < 1 || needed > h.points {
            return None;
        }
        let lbucket = l.bucket(timestamp);
        let anchor = self.anchor_bucket(ArchiveIndex(archive as u64));
        let start: u64 = if anchor.0 == 0 {
            0u64
        } else {
            h.slot_index(h.bucket(lbucket.0).0, anchor.0)
        };
        let candidates = self.read_points(ArchiveIndex(archive as u64), start, needed);
        let ghost data = self.spec_data();
        let mut values: Vec<u64> = Vec::new();
        let mut i: u64 = 0;
        proof {
            // Each expected bucket stays within one coarse slot's span.
            vstd::arithmetic::div_mod::lemma_fundamental_div_mod(
                l.seconds_per_point as int,
                h.seconds_per_point as int,
            );
            vstd::arithmetic::div_mod::lemma_mod_bound(
                l.seconds_per_point as int,
                h.seconds_per_point as int,
            );
        }
        while i < needed
            invariant
                h.wf(),
                0 < needed <= h.points,
                needed * h.seconds_per_point <= l.seconds_per_point < 0x1_0000_0000,
                0 <= i <= needed,
                start < h.points,
                candidates@.len() == needed,
                forall|k: int|
                    0 <= k < needed ==> #[trigger] candidates@[k] == spec_point_at(
                        data,
                        h,
                        (start + k) % (h.points as int),
                    ),
                values@ == spec_survivors(data, h, start as int, lbucket.0, i as int),
            decreases needed - i,
        {
            let p = candidates[i as usize];
            proof {
                assert(i * h.seconds_per_point < needed * h.seconds_per_point) by (
                nonlinear_arith)
                    requires
                        0 <= i < needed,
                        0 < h.seconds_per_point,
                ;
            }
            let step = i * h.seconds_per_point;
            let matched = if step <= u64::MAX - lbucket.0 {
                p.timestamp == lbucket.0 + step
            } else {
                false
            };
            proof {
                assert(matched == (p.timestamp == lbucket.0 + i * h.seconds_per_point));
                assert(spec_survivors(data, h, start as int, lbucket.0, i + 1)
                    == if spec_point_at(data, h, (start + i) % (h.points as int)).timestamp
                    == lbucket.0 + i * h.seconds_per_point {
                    spec_survivors(data, h, start as int, lbucket.0, i as int).push(
                        spec_point_at(data, h, (start + i) % (h.points as int)).value,
                    )
                } else {
                    spec_survivors(data, h, start as int, lbucket.0, i as int)
                });
            }
            if matched {
                values.push(p.value);
            }
            i = i + 1;
        }
        proof {
            lemma_survivors_len(data, h, start as int, lbucket.0, needed as int);
            assert(values@.len() <= needed);
        }
        let nsurv = values.len() as u32;
        let d = needed as u32;
        if crate::xff::fraction_lt_xff(nsurv, d, self.header.metadata.x_files_factor) {
            None
        } else {
            Some(
                CascadeRequest {
                    archive: archive + 1,
                    timestamp,
                    bucket: lbucket.0,
                    values,
                },
            )
        }
    }

    /// Stores an aggregated value into archive `archive` under the
    /// bucket its addressing picks for `timestamp`, then evaluates the
    /// next downsample pair: the heart of the cascade, one level at a
    /// time.  Returns the next aggregation request, or `None` when the
    /// cascade stops here.
    pub fn write_aggregated(&mut self, archive: usize, timestamp: u64, value: u64) -> (r: Option<
        CascadeRequest,
    >)
        requires
            old(self).wf(),
            archive < old(self).header.archive_infos@.len(),
        ensures
            final(self).wf(),
            final(self).header == old(self).header,
            final(self).spec_data() == spec_deposit(
                old(self).spec_data(),
                old(self).header.archive_infos@[archive as int],
                timestamp,
                value,
            ),
            match r {
                None => spec_cascade_request(
                    final(self).spec_data(),
                    final(self).header,
                    archive as int,
                    timestamp,
                ) is None,
                Some(req) => {
                    &&& spec_cascade_request(final(self).spec_data(), final(self).header,
                        archive as int, timestamp) == Some((req.bucket, req.values@))
                    &&& req.archive == archive + 1
                    &&& req.archive < final(self).header.archive_infos@.len()
                    &&& req.timestamp == timestamp
                },
            },
    {
        self.deposit(archive, timestamp, value);
        self.evaluate_cascade(archive, timestamp)
    }

    /// The archive a point belongs in: the first whose retention reaches
    /// back to it, or the archive count when every archive is too
    /// short-lived.
    fn select_archive(&self, current_time: u64, ts: u64) -> (r: usize)
        requires
            self.wf(),
        ensures
            r == spec_select_archive(self.header.archive_infos@, current_time, ts),
            r <= self.header.archive_infos@.len(),
    {
        let ghost archives = self.header.archive_infos@;
        let n = self.header.archive_infos.len();
        let mut a: usize = 0;
        while a < n
            invariant
                self.wf(),
                archives == self.header.archive_infos@,
                n == archives.len(),
                0 <= a <= n,
                spec_select_archive(archives, current_time, ts) == spec_select_from(
                    archives,
                    current_time,
                    ts,
                    a as int,
                ),
            decreases n - a,
        {
            let ai = self.header.archive_infos[a];
            proof {
                assert(ai.retention >= 1) by (nonlinear_arith)
                    requires
                        ai.retention == ai.seconds_per_point * ai.points,
                        ai.seconds_per_point >= 1,
                        ai.points >= 1,
                ;
            }
            let covers = ts >= current_time || ai.retention > current_time - ts;
            proof {
                assert(covers == spec_covers(ai, current_time, ts));
            }
            if covers {
                return a;
            }
            a = a + 1;
        }
        a
    }

    /// The write path: picks the highest-resolution archive that still
    /// covers the point, writes the bucketed point there, and evaluates
    /// the first downsample pair.  A point older than every archive is
    /// rejected with `RetentionExceeded` and the file is untouched.
    pub fn write(&mut self, current_time: u64, point: Point) -> (r: Result<
        Option<CascadeRequest>,
        WhisperError,
    >)
        requires
            old(self).wf(),
        ensures
            final(self).wf(),
            final(self).header == old(self).header,
            ({
                let archives = old(self).header.archive_infos@;
                let a = spec_select_archive(archives, current_time, point.timestamp);
                match r {
                    Err(WhisperError::RetentionExceeded) => {
                        &&& a == archives.len()
                        &&& final(self).spec_data() == old(self).spec_data()
                    },
                    Err(_) => false,
                    Ok(c) => {
                        &&& a < archives.len()
                        &&& final(self).spec_data() == spec_deposit(
                            old(self).spec_data(),
                            archives[a],
                            point.timestamp,
                            point.value,
                        )
                        &&& match c {
                            None => spec_cascade_request(
                                final(self).spec_data(),
                                final(self).header,
                                a,
                                point.timestamp,
                            ) is None,
                            Some(req) => {
                                &&& spec_cascade_request(final(self).spec_data(),
                                    final(self).header, a, point.timestamp) == Some((
                                    req.bucket,
                                    req.values@,
                                ))
                                &&& req.archive == a + 1
                                &&& req.timestamp == point.timestamp
                            },
                        }
                    },
                }
            }),
    {
        let a = self.select_archive(current_time, point.timestamp);
        if a == self.header.archive_infos.len() {
            Err(WhisperError::RetentionExceeded)
        } else {
            Ok(self.write_aggregated(a, point.timestamp, point.value))
        }
    }
}

/// There never are more survivors than candidates.
pub proof fn lemma_survivors_len(data: Seq<u8>, h: ArchiveInfo, start: int, lbucket: u64, count: int)
    ensures
        spec_survivors(data, h, start, lbucket, count).len() <= if count >= 0 {
            count
        } else {
            0
        },
    decreases count,
{
    if count > 0 {
        lemma_survivors_len(data, h, start, lbucket, count - 1);
    }
}

/// A write is rejected with `RetentionExceeded` exactly when the point
/// is older than the file's maximum retention: for a file with at least
/// one archive, no archive covers `ts` if and only if
/// `ts + max_retention <= current_time`.
pub proof fn lemma_retention_exceeded_iff(head: Header, current_time: u64, ts: u64)
    requires
        head.wf(),
        head.archive_infos@.len() > 0,
    ensures
        spec_select_archive(head.archive_infos@, current_time, ts) == head.archive_infos@.len()
            <==> ts + head.metadata.max_retention <= current_time,
{
    let archives = head.archive_infos@;
    let n = archives.len() as int;
    lemma_select_from(archives, current_time, ts, 0);
    if spec_select_archive(archives, current_time, ts) == n {
        crate::header::lemma_max_archive_retention_achieved(archives, n);
        let k = choose|k: int|
            0 <= k < n && archives[k].retention == crate::header::spec_max_archive_retention(
                archives,
                n,
            );
        assert(!spec_covers(archives[k], current_time, ts));
    } else {
        let a = spec_select_archive(archives, current_time, ts);
        assert(spec_covers(archives[a], current_time, ts));
        crate::header::lemma_max_archive_retention_bounds(archives, n, a);
    }
}

/// The descriptor decoded from a file's bytes for archive `i`.
#[verifier::opaque]
pub open spec fn spec_parsed_archive(data: Seq<u8>, i: int) -> ArchiveInfo {
    crate::archive_info::spec_archive_info(data.subrange(16 + 12 * i, 28 + 12 * i))
}

/// Total slot count of the first `i` archives a file's bytes declare.
pub open spec fn spec_parsed_points_before(data: Seq<u8>, i: int) -> int
    decreases i,
{
    if i <= 0 {
        0
    } else {
        spec_parsed_points_before(data, i - 1) + spec_parsed_archive(data, i - 1).points
    }
}

/// The largest retention among the first `i` declared archives.
pub open spec fn spec_parsed_max_retention(data: Seq<u8>, i: int) -> int
    decreases i,
{
    if i <= 0 {
        0
    } else if spec_parsed_archive(data, i - 1).retention >= spec_parsed_max_retention(
        data,
        i - 1,
    ) {
        spec_parsed_archive(data, i - 1).retention as int
    } else {
        spec_parsed_max_retention(data, i - 1)
    }
}

/// The structural invariants a file's bytes must satisfy to be opened:
/// every declared descriptor is well-formed and sits where the
/// contiguous layout puts it, the byte count is exactly what the layout
/// adds up to within the format's 32-bit addressing, and the recorded
/// maximum retention is the true maximum.
pub open spec fn spec_parsed_wf(data: Seq<u8>) -> bool {
    let n = crate::metadata::spec_metadata(data).archive_count as int;
    &&& forall|i: int| 0 <= i < n ==> (#[trigger] spec_parsed_archive(data, i)).wf()
    &&& forall|i: int|
        0 <= i < n ==> (#[trigger] spec_parsed_archive(data, i)).offset == 16 + 12 * n + 12
            * spec_parsed_points_before(data, i)
    &&& 16 + 12 * n + 12 * spec_parsed_points_before(data, n) <= 0xFFFF_FFFF
    &&& data.len() == 16 + 12 * n + 12 * spec_parsed_points_before(data, n)
    &&& crate::metadata::spec_metadata(data).max_retention == spec_parsed_max_retention(data, n)
}

/// A parsed header's prefix sums and maxima agree with the data-level
/// view of the same bytes.
proof fn lemma_parsed_agree(head: Header, data: Seq<u8>, i: int)
    requires
        0 <= i <= head.archive_infos@.len(),
        forall|k: int|
            0 <= k < head.archive_infos@.len() ==> #[trigger] head.archive_infos@[k]
                == spec_parsed_archive(data, k),
    ensures
        spec_points_before(head.archive_infos@, i) == spec_parsed_points_before(data, i),
        spec_max_archive_retention(head.archive_infos@, i) == spec_parsed_max_retention(data, i),
    decreases i,
{
    if i > 0 {
        lemma_parsed_agree(head, data, i - 1);
    }
}

/// A header decoded from a file's bytes is well-formed over exactly
/// those bytes precisely when the bytes themselves satisfy the
/// structural invariants.
#[verifier::rlimit(100)]
proof fn lemma_parsed_wf_equiv(head: Header, data: Seq<u8>)
    requires
        head.metadata == crate::metadata::spec_metadata(data),
        head.archive_infos@.len() == head.metadata.archive_count,
        forall|k: int|
            0 <= k < head.archive_infos@.len() ==> #[trigger] head.archive_infos@[k]
                == spec_parsed_archive(data, k),
    ensures
        spec_parsed_wf(data) ==> head.wf() && data.len() == head.spec_total_size(),
        head.wf() && data.len() == head.spec_total_size() ==> spec_parsed_wf(data),
{
    let infos = head.archive_infos@;
    let n = infos.len() as int;
    lemma_parsed_agree(head, data, n);
    assert(head.spec_total_size() == 16 + 12 * n + 12 * spec_parsed_points_before(data, n));
    if spec_parsed_wf(data) {
        assert forall|i: int| 0 <= i < n implies (#[trigger] infos[i]).wf() by {}
        assert forall|i: int| 0 <= i < n implies (#[trigger] infos[i]).offset
            == head.spec_archive_offset(i) by {
            lemma_parsed_agree(head, data, i);
        }
        assert(head.wf());
    }
    if head.wf() && data.len() == head.spec_total_size() {
        assert forall|i: int| 0 <= i < n implies (#[trigger] spec_parsed_archive(data, i)).wf() by {
            assert(infos[i] == spec_parsed_archive(data, i));
        }
        assert forall|i: int| 0 <= i < n implies (#[trigger] spec_parsed_archive(data, i)).offset
            == 16 + 12 * n + 12 * spec_parsed_points_before(data, i) by {
            assert(infos[i] == spec_parsed_archive(data, i));
            lemma_parsed_agree(head, data, i);
        }
        assert(spec_parsed_wf(data));
    }
}

/// Whether a parsed header is well-formed and describes exactly
/// `data_len` bytes: the executable form of the structural file check
/// made when a file is opened.
#[verifier::rlimit(100)]
fn header_is_wf(head: &Header, data_len: usize) -> (b: bool)
    ensures
        b == (head.wf() && data_len == head.spec_total_size()),
{
    let ghost archives = head.archive_infos@;
    let n = head.archive_infos.len();
    if n > 0x4000_0000 {
        // The descriptor block alone would exceed the format's 32-bit
        // addressing.
        proof {
            lemma_points_before_monotonic(archives, 0, n as int);
        }
        return false;
    }
    let first_offset: u64 = 16 + 12 * (n as u64);
    if first_offset > 0xFFFF_FFFF {
        proof {
            lemma_points_before_monotonic(archives, 0, n as int);
            assert(spec_points_before(archives, 0) == 0);
        }
        return false;
    }
    if (head.metadata.archive_count as u64) != (n as u64) {
        return false;
    }
    let mut expected: u64 = first_offset;
    let mut maxret: u64 = 0;
    let mut i: usize = 0;
    while i < n
        invariant
            archives == head.archive_infos@,
            n == archives.len() <= 0x4000_0000,
            0 <= i <= n,
            expected == 16 + 12 * (n as int) + 12 * spec_points_before(archives, i as int),
            expected <= 0xFFFF_FFFF,
            maxret == spec_max_archive_retention(archives, i as int),
            forall|k: int| 0 <= k < i ==> (#[trigger] archives[k]).wf(),
            forall|k: int|
                0 <= k < i ==> (#[trigger] archives[k]).offset == head.spec_archive_offset(k),
        decreases n - i,
    {
        let ai = head.archive_infos[i];
        if !(ai.seconds_per_point >= 1 && ai.seconds_per_point <= 0xFFFF_FFFFu64 && ai.points
            >= 1 && ai.points <= 0xFFFF_FFFFu64 && ai.offset <= 0xFFFF_FFFFu64) {
            return false;
        }
        proof {
            assert(ai.seconds_per_point * ai.points < 0x1_0000_0000_0000_0000) by (
            nonlinear_arith)
                requires
                    ai.seconds_per_point < 0x1_0000_0000,
                    ai.points < 0x1_0000_0000,
            ;
        }
        if ai.retention != ai.seconds_per_point * ai.points {
            return false;
        }
        if ai.offset != expected {
            return false;
        }
        let grown = expected + 12 * ai.points;
        if grown > 0xFFFF_FFFF {
            // The file would exceed the format's 32-bit addressing: the
            // total size conjunct of `wf` cannot hold.
            proof {
                lemma_points_before_monotonic(archives, i + 1, n as int);
            }
            return false;
        }
        if ai.retention >= maxret {
            maxret = ai.retention;
        }
        expected = grown;
        i = i + 1;
    }
    if (head.metadata.max_retention as u64) != maxret {
        return false;
    }
    (data_len as u64) == expected
}

impl WhisperFile {
    /// Opens a file from its byte image: decodes the header and verifies
    /// the structural invariants of the format.  Fails with
    /// `MalformedHeader` when the metadata block is missing or the
    /// descriptors disagree with the contiguous layout or the byte count;
    /// fails with `Truncated` when the declared descriptors overrun the
    /// bytes available.
    pub fn open(data: Vec<u8>) -> (r: Result<WhisperFile, WhisperError>)
        ensures
            match r {
                Ok(f) => {
                    &&& data@.len() >= 16 + 12 * (crate::metadata::spec_metadata(
                        data@,
                    ).archive_count as int)
                    &&& spec_parsed_wf(data@)
                    &&& f.wf()
                    &&& f.spec_data() == data@
                    &&& f.header.metadata == crate::metadata::spec_metadata(data@)
                    &&& f.header.archive_infos@.len() == f.header.metadata.archive_count
                    &&& forall|i: int|
                        0 <= i < f.header.archive_infos@.len() ==> #[trigger] f.header
                            .archive_infos@[i] == spec_parsed_archive(data@, i)
                },
                Err(WhisperError::MalformedHeader) => data@.len() < 16 || (data@.len() >= 16 + 12
                    * (crate::metadata::spec_metadata(data@).archive_count as int)
                    && !spec_parsed_wf(data@)),
                Err(WhisperError::Truncated) => data@.len() >= 16 && data@.len() < 16 + 12 * (
                crate::metadata::spec_metadata(data@).archive_count as int),
                Err(_) => false,
            },
    {
        let head = match read_header(data.as_slice()) {
            Ok(h) => h,
            Err(e) => {
                return Err(
                    match e {
                        WhisperError::Truncated => WhisperError::Truncated,
                        _ => WhisperError::MalformedHeader,
                    },
                );
            },
        };
        proof {
            assert forall|i: int| 0 <= i < head.archive_infos@.len() implies #[trigger] head
                .archive_infos@[i] == spec_parsed_archive(data@, i) by {
                reveal(spec_parsed_archive);
            }
            lemma_parsed_wf_equiv(head, data@);
        }
        if !header_is_wf(&head, data.len()) {
            return Err(WhisperError::MalformedHeader);
        }
        Ok(WhisperFile { header: head, data })
    }

    /// Creates a fresh file image for a schema: the computed total size
    /// is allocated as zeroes — which doubles as the "never written"
    /// sentinel of every slot — and the metadata and the descriptors are
    /// written contiguously at the front.  The descriptors sit at offsets
    /// `16 + 12*n`, each archive's data region immediately after the
    /// previous one's.
    #[verifier::rlimit(100)]
    pub fn new(schema: &Schema, aggregation_type: AggregationType, x_files_factor: u32) -> (r:
        WhisperFile)
        requires
            schema.spec_usable(),
            schema.spec_size_on_disk() <= 0xFFFF_FFFF,
        ensures
            r.wf(),
            r.header.metadata.aggregation_type == aggregation_type,
            r.header.metadata.x_files_factor == x_files_factor,
            r.header.metadata.archive_count == schema.retention_policies@.len(),
            r.header.archive_infos@.len() == schema.retention_policies@.len(),
            forall|i: int|
                0 <= i < schema.retention_policies@.len() ==> {
                    let p = schema.retention_policies@[i];
                    #[trigger] r.header.archive_infos@[i] == (ArchiveInfo {
                        offset: r.header.spec_archive_offset(i) as u64,
                        seconds_per_point: p.precision,
                        points: p.spec_points() as u64,
                        retention: (p.precision * p.spec_points()) as u64,
                    })
                },
            r.spec_data().len() == schema.spec_size_on_disk(),
            forall|b: int|
                16 + 12 * (schema.retention_policies@.len() as int) <= b < r.spec_data().len()
                    ==> r.spec_data()[b] == 0,
            r.spec_data().subrange(0, 16) == spec_metadata_bytes(r.header.metadata),
    {
        let ghost ps = schema.retention_policies@;
        let n = schema.retention_policies.len();
        proof {
            crate::schema::lemma_archives_size_monotonic(ps, 0, n as int);
            assert(16 + 12 * (n as int) <= schema.spec_size_on_disk());
        }
        let total = schema.size_on_disk();
        let mut data: Vec<u8> = vec![0u8; total as usize];
        let mut archive_infos: Vec<ArchiveInfo> = Vec::new();
        let mut offset: u64 = 16 + 12 * (n as u64);
        let mut maxret: u64 = 0;
        let mut i: usize = 0;
        while i < n
            invariant
                ps == schema.retention_policies@,
                n == ps.len() <= 0xFFFF_FFFF,
                forall|k: int| 0 <= k < n ==> (#[trigger] ps[k]).spec_usable(),
                total == schema.spec_size_on_disk() <= 0xFFFF_FFFF,
                16 + 12 * (n as int) <= total,
                0 <= i <= n,
                archive_infos@.len() == i,
                forall|k: int|
                    0 <= k < i ==> #[trigger] archive_infos@[k] == (ArchiveInfo {
                        offset: (16 + 12 * (n as int) + 12 * spec_points_before(
                            archive_infos@,
                            k,
                        )) as u64,
                        seconds_per_point: ps[k].precision,
                        points: ps[k].spec_points() as u64,
                        retention: (ps[k].precision * ps[k].spec_points()) as u64,
                    }),
                12 * spec_points_before(archive_infos@, i as int) == spec_archives_size(
                    ps,
                    i as int,
                ),
                offset == 16 + 12 * (n as int) + 12 * spec_points_before(
                    archive_infos@,
                    i as int,
                ),
                offset <= total,
                maxret == spec_max_archive_retention(archive_infos@, i as int),
                maxret <= 0xFFFF_FFFF,
                data@.len() == total,
                forall|b: int| 0 <= b < 16 ==> data@[b] == 0,
                forall|k: int|
                    0 <= k < i ==> data@.subrange(16 + 12 * k, 28 + 12 * k)
                        == #[trigger] crate::archive_info::spec_archive_info_bytes(
                        archive_infos@[k].offset,
                        archive_infos@[k].seconds_per_point,
                        archive_infos@[k].points,
                    ),
                forall|b: int| 16 + 12 * i <= b < data@.len() ==> #[trigger] data@[b] == 0,
            decreases n - i,
        {
            let ghost pre = data@;
            let ghost infos_pre = archive_infos@;
            let policy = schema.retention_policies[i];
            proof {
                crate::schema::lemma_archives_size_monotonic(ps, i + 1, n as int);
                vstd::arithmetic::div_mod::lemma_div_pos_is_pos(
                    policy.retention as int,
                    policy.precision as int,
                );
                assert(spec_archives_size(ps, i + 1) == spec_archives_size(ps, i as int)
                    + ps[i as int].spec_size_on_disk());
            }
            let points = policy.points();
            proof {
                assert(policy.precision * points <= 0xFFFF_FFFF);
                assert(12 * (i as int) + 12 <= 12 * (n as int)) by (nonlinear_arith)
                    requires
                        i < n,
                ;
            }
            let retention = policy.precision * points;
            policy.fill_buf(&mut data, 16 + 12 * i, offset);
            let ai = ArchiveInfo {
                offset,
                seconds_per_point: policy.precision,
                points,
                retention,
            };
            archive_infos.push(ai);
            if retention >= maxret {
                maxret = retention;
            }
            proof {
                crate::codec::lemma_splice(
                    pre,
                    16 + 12 * (i as int),
                    crate::archive_info::spec_archive_info_bytes(
                        offset,
                        policy.precision,
                        points,
                    ),
                );
                assert(archive_infos@ == infos_pre.push(ai));
                assert(spec_points_before(archive_infos@, i as int) == spec_points_before(
                    infos_pre,
                    i as int,
                )) by {
                    lemma_points_before_prefix(infos_pre, archive_infos@, i as int);
                }
                assert(spec_points_before(archive_infos@, i + 1) == spec_points_before(
                    archive_infos@,
                    i as int,
                ) + points);
                assert forall|k: int|
                    0 <= k < i + 1 implies #[trigger] archive_infos@[k] == (ArchiveInfo {
                        offset: (16 + 12 * (n as int) + 12 * spec_points_before(
                            archive_infos@,
                            k,
                        )) as u64,
                        seconds_per_point: ps[k].precision,
                        points: ps[k].spec_points() as u64,
                        retention: (ps[k].precision * ps[k].spec_points()) as u64,
                    }) by {
                    lemma_points_before_prefix(infos_pre, archive_infos@, k);
                    if k < i {
                        assert(infos_pre[k] == archive_infos@[k]);
                    }
                }
                assert(spec_max_archive_retention(archive_infos@, i as int)
                    == spec_max_archive_retention(infos_pre, i as int)) by {
                    lemma_max_retention_prefix(infos_pre, archive_infos@, i as int);
                }
                assert forall|k: int|
                    0 <= k < i + 1 implies data@.subrange(16 + 12 * k, 28 + 12 * k)
                    == #[trigger] crate::archive_info::spec_archive_info_bytes(
                    archive_infos@[k].offset,
                    archive_infos@[k].seconds_per_point,
                    archive_infos@[k].points,
                ) by {
                    if k < i {
                        assert(data@.subrange(16 + 12 * k, 28 + 12 * k) =~= pre.subrange(
                            16 + 12 * k,
                            28 + 12 * k,
                        ));
                    } else {
                        assert(data@.subrange(16 + 12 * k, 28 + 12 * k)
                            =~= crate::archive_info::spec_archive_info_bytes(
                            offset,
                            policy.precision,
                            points,
                        ));
                    }
                }
            }
            offset = offset + 12 * points;
            i = i + 1;
        }
        let metadata = Metadata {
            aggregation_type,
            max_retention: maxret as u32,
            x_files_factor,
            archive_count: n as u32,
        };
        let ghost before_meta = data@;
        metadata.fill_buf(&mut data);
        let head = Header { metadata, archive_infos };
        proof {
            crate::codec::lemma_splice(before_meta, 0, spec_metadata_bytes(metadata));
            assert(data@.subrange(0, 16) =~= spec_metadata_bytes(metadata));
            lemma_built_header_wf(head, ps, total as int);
        }
        WhisperFile { header: head, data }
    }
}

/// A header assembled from usable policies along the contiguous layout
/// is well-formed and describes exactly the computed total size.
proof fn lemma_built_header_wf(head: Header, ps: Seq<RetentionPolicy>, total: int)
    requires
        head.archive_infos@.len() == ps.len(),
        head.metadata.archive_count == ps.len(),
        ps.len() <= 0xFFFF_FFFF,
        forall|k: int| 0 <= k < ps.len() ==> (#[trigger] ps[k]).spec_usable(),
        forall|k: int|
            0 <= k < ps.len() ==> #[trigger] head.archive_infos@[k] == (ArchiveInfo {
                offset: (16 + 12 * (ps.len() as int) + 12 * spec_points_before(
                    head.archive_infos@,
                    k,
                )) as u64,
                seconds_per_point: ps[k].precision,
                points: ps[k].spec_points() as u64,
                retention: (ps[k].precision * ps[k].spec_points()) as u64,
            }),
        12 * spec_points_before(head.archive_infos@, ps.len() as int) == spec_archives_size(
            ps,
            ps.len() as int,
        ),
        total == 16 + 12 * (ps.len() as int) + spec_archives_size(ps, ps.len() as int),
        total <= 0xFFFF_FFFF,
        head.metadata.max_retention == spec_max_archive_retention(
            head.archive_infos@,
            ps.len() as int,
        ),
        spec_max_archive_retention(head.archive_infos@, ps.len() as int) <= 0xFFFF_FFFF,
    ensures
        head.wf(),
        head.spec_total_size() == total,
{
    let infos = head.archive_infos@;
    let n = ps.len() as int;
    assert(head.spec_total_size() == total);
    assert forall|k: int| 0 <= k < n implies (#[trigger] infos[k]).wf() by {
        let p = ps[k];
        vstd::arithmetic::div_mod::lemma_div_non_zero(p.retention as int, p.precision as int);
        assert(1 <= p.spec_points() < 0x1_0000_0000);
        assert(infos[k].retention == infos[k].seconds_per_point * infos[k].points);
        lemma_points_before_monotonic(infos, 0, k);
        lemma_points_before_monotonic(infos, k, n);
        assert(infos[k].offset < 0x1_0000_0000);
    }
    assert forall|k: int| 0 <= k < n implies (#[trigger] infos[k]).offset
        == head.spec_archive_offset(k) by {
        lemma_points_before_monotonic(infos, 0, k);
        lemma_points_before_monotonic(infos, k, n);
    }
}

/// Prefix sums only look at the elements before `i`, so pushing onto the
/// end changes nothing.
pub proof fn lemma_points_before_prefix(
    pre: Seq<ArchiveInfo>,
    post: Seq<ArchiveInfo>,
    i: int,
)
    requires
        0 <= i <= pre.len(),
        pre.len() <= post.len(),
        forall|k: int| 0 <= k < pre.len() ==> pre[k] == post[k],
    ensures
        spec_points_before(pre, i) == spec_points_before(post, i),
    decreases i,
{
    if i > 0 {
        lemma_points_before_prefix(pre, post, i - 1);
    }
}

/// The running maximum too only looks at the elements before `i`.
pub proof fn lemma_max_retention_prefix(pre: Seq<ArchiveInfo>, post: Seq<ArchiveInfo>, i: int)
    requires
        0 <= i <= pre.len(),
        pre.len() <= post.len(),
        forall|k: int| 0 <= k < pre.len() ==> pre[k] == post[k],
    ensures
        spec_max_archive_retention(pre, i) == spec_max_archive_retention(post, i),
    decreases i,
{
    if i > 0 {
        lemma_max_retention_prefix(pre, post, i - 1);
    }
}

} // verus!
