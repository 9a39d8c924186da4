//! One archive's descriptor and its ring-buffer addressing arithmetic.
//!
//! An archive is a fixed-capacity ring buffer of 12-byte point slots.  The
//! descriptor is stored as three big-endian `u32` fields: byte offset,
//! seconds per point, and point capacity.  All addressing below is pure
//! integer arithmetic; in specifications `/` and `%` are Euclidean, so a
//! point written "before" the anchor wraps to an in-range slot instead of
//! underflowing (floored modulo, since every divisor here is positive).

use vstd::prelude::*;

use crate::codec::{load_be32, spec_be32, spec_be32_bytes, spec_splice, store_be32};

verus! {

/// On-disk size of one archive descriptor.
pub const ARCHIVE_INFO_DISK_SIZE: usize = 12;

/// One archive's descriptor.  `retention` is derived: it always equals
/// `seconds_per_point * points`.
#[derive(Clone, Copy, Debug, PartialEq, Eq, Structural)]
pub struct ArchiveInfo {
    /// Byte offset of the archive's data region within the file.
    pub offset: u64,
    /// Time resolution: how many seconds one slot covers.
    pub seconds_per_point: u64,
    /// Slot capacity of the ring buffer.
    pub points: u64,
    /// Total time span covered: `seconds_per_point * points`.
    pub retention: u64,
}

/// Index into an archive, in `0..points`.
#[derive(Clone, Copy, Debug, PartialEq, Eq, Structural)]
pub struct ArchiveIndex(pub u64);

/// A normalized (bucketed) timestamp.
#[derive(Clone, Copy, Debug, PartialEq, Eq, Structural)]
pub struct BucketName(pub u64);

impl ArchiveInfo {
    /// The descriptor's three `u32` fields and a nonzero geometry: the
    /// shape every descriptor read from or written to disk has.
    pub open spec fn wf(self) -> bool {
        &&& 0 < self.seconds_per_point < 0x1_0000_0000
        &&& 0 < self.points < 0x1_0000_0000
        &&& self.offset < 0x1_0000_0000
        &&& self.retention == self.seconds_per_point * self.points
    }

    /// Size in bytes of the archive's data region.
    pub open spec fn spec_size_in_bytes(self) -> int {
        self.points * 12
    }

    pub fn size_in_bytes(&self) -> (r: u64)
        requires
            self.wf(),
        ensures
            r == self.spec_size_in_bytes(),
    {
        proof {
            assert(self.points * 12 < 0x1_0000_0000 * 12) by (nonlinear_arith)
                requires
                    self.points < 0x1_0000_0000,
            ;
        }
        self.points * 12
    }

    /// The canonical slot time for a timestamp: `t` rounded down to a
    /// multiple of the archive's resolution.
    pub open spec fn spec_bucket(self, timestamp: u64) -> u64
        recommends
            self.seconds_per_point > 0,
    {
        (timestamp - timestamp % self.seconds_per_point) as u64
    }

    pub fn bucket(&self, timestamp: u64) -> (r: BucketName)
        requires
            self.wf(),
        ensures
            r.0 == self.spec_bucket(timestamp),
    {
        proof {
            vstd::arithmetic::div_mod::lemma_mod_decreases(
                timestamp as nat,
                self.seconds_per_point as nat,
            );
        }
        BucketName(timestamp - timestamp % self.seconds_per_point)
    }

    /// Which slot, relative to the slot the anchor names, holds the bucket
    /// `bucket_ts`: the slot distance divided by the resolution, wrapped
    /// into the ring.  Euclidean `/` and `%` on `int` make this the floored
    /// form, so a bucket before the anchor still lands in `0..points`.
    pub open spec fn spec_slot_index(self, bucket_ts: u64, anchor: u64) -> int
        recommends
            self.wf(),
    {
        ((bucket_ts - anchor) / (self.seconds_per_point as int)) % (self.points as int)
    }

    /// Byte offset at which a point with timestamp `point_ts` is stored,
    /// given the archive's current anchor (the timestamp of its base
    /// slot): the archive's offset if the archive has never been written,
    /// otherwise the wrapped slot's position.
    pub open spec fn spec_seek(self, point_ts: u64, anchor: u64) -> int
        recommends
            self.wf(),
    {
        if anchor == 0 {
            self.offset as int
        } else {
            self.offset + 12 * self.spec_slot_index(self.spec_bucket(point_ts), anchor)
        }
    }

    /// The wrapped slot index, as executable code.  The result is always
    /// in range, whatever the anchor and timestamp.
    pub fn slot_index(&self, bucket_ts: u64, anchor: u64) -> (r: u64)
        requires
            self.wf(),
            anchor < 0x1_0000_0000,
        ensures
            r == self.spec_slot_index(bucket_ts, anchor),
            r < self.points,
    {
        let spp = self.seconds_per_point;
        let points = self.points;
        if bucket_ts >= anchor {
            let away = (bucket_ts - anchor) / spp;
            let r = away % points;
            proof {
                lemma_wrap_forward(bucket_ts as int, anchor as int, spp as int, points as int);
            }
            r
        } else {
            // The bucket lies before the anchor: floored division rounds
            // the negative distance away from zero, so step back by the
            // ceiling of the positive distance and wrap.
            let back = (anchor - bucket_ts + spp - 1) / spp;
            let wrapped = back % points;
            let r = if wrapped == 0 {
                0
            } else {
                points - wrapped
            };
            proof {
                lemma_wrap_backward(bucket_ts as int, anchor as int, spp as int, points as int);
            }
            r
        }
    }

    /// Byte offset for `point`'s slot.  The result always lies within the
    /// archive's data region: `offset <= r < offset + size_in_bytes()`.
    pub fn calculate_seek(&self, point_ts: u64, archive_anchor: BucketName) -> (r: u64)
        requires
            self.wf(),
            archive_anchor.0 < 0x1_0000_0000,
        ensures
            r == self.spec_seek(point_ts, archive_anchor.0),
            self.offset <= r < self.offset + self.spec_size_in_bytes(),
    {
        if archive_anchor.0 == 0 {
            proof {
                assert(self.points * 12 >= 1 * 12) by (nonlinear_arith)
                    requires
                        self.points >= 1,
                ;
            }
            self.offset
        } else {
            let bucket = self.bucket(point_ts);
            let idx = self.slot_index(bucket.0, archive_anchor.0);
            proof {
                assert(12 * idx < 12 * self.points) by (nonlinear_arith)
                    requires
                        idx < self.points,
                ;
            }
            self.offset + 12 * idx
        }
    }

    /// The (start, length) segments of a wrap-aware bulk read: one
    /// contiguous segment when `index_start + count` stays within the
    /// ring, otherwise the tail of the ring followed by its head.  The
    /// segments cover exactly `count` slots: the `k`-th slot covered is
    /// `(index_start + k) % points`, with no overlap and no gap.
    pub fn read_plan(&self, index_start: u64, count: u64) -> (r: Vec<(u64, u64)>)
        requires
            self.wf(),
            index_start < self.points,
            count <= self.points,
        ensures
            spec_plan_slots(r@).len() == count,
            forall|k: int|
                0 <= k < count ==> #[trigger] spec_plan_slots(r@)[k] == (index_start + k) % (
                self.points as int),
            forall|k1: int, k2: int|
                0 <= k1 < k2 < count ==> spec_plan_slots(r@)[k1] != spec_plan_slots(r@)[k2],
            forall|s: int| 0 <= s < r@.len() ==> (#[trigger] r@[s]).0 + r@[s].1 <= self.points,
            forall|s: int, j: int|
                0 <= s < r@.len() && 0 <= j < r@[s].1 ==> spec_plan_len_before(r@, s) + j < count
                    && #[trigger] spec_plan_slots(r@)[spec_plan_len_before(r@, s) + j] == r@[s].0
                    + j,
            spec_plan_len_before(r@, r@.len() as int) == count,
            if index_start + count <= self.points {
                r@ =~= seq![(index_start, count)]
            } else {
                r@ =~= seq![
                    (index_start, (self.points - index_start) as u64),
                    (0u64, (count - (self.points - index_start)) as u64),
                ]
            },
    {
        let mut r: Vec<(u64, u64)> = Vec::new();
        if count <= self.points - index_start {
            r.push((index_start, count));
            proof {
                lemma_plan_slots_in_ring(r@, index_start as int, count as int, self.points as int);
            }
        } else {
            let first_len = self.points - index_start;
            r.push((index_start, first_len));
            r.push((0, count - first_len));
            proof {
                lemma_plan_slots_in_ring(r@, index_start as int, count as int, self.points as int);
            }
        }
        r
    }
}

/// Total length of the first `i` segments of a read plan.
pub open spec fn spec_plan_len_before(plan: Seq<(u64, u64)>, i: int) -> int
    decreases i,
{
    if i <= 0 {
        0
    } else {
        spec_plan_len_before(plan, i - 1) + plan[i - 1].1
    }
}

/// The slots named by a read plan, in read order.
pub open spec fn spec_plan_slots(plan: Seq<(u64, u64)>) -> Seq<int>
    decreases plan.len(),
{
    if plan.len() == 0 {
        Seq::empty()
    } else {
        let seg = plan[0];
        Seq::new(seg.1 as nat, |k: int| seg.0 + k) + spec_plan_slots(plan.skip(1))
    }
}

proof fn lemma_plan_slots_in_ring(plan: Seq<(u64, u64)>, start: int, count: int, points: int)
    requires
        0 < points < 0x1_0000_0000,
        0 <= start < points,
        0 <= count <= points,
        if start + count <= points {
            plan =~= seq![(start as u64, count as u64)]
        } else {
            plan =~= seq![
                (start as u64, (points - start) as u64),
                (0u64, (count - (points - start)) as u64),
            ]
        },
    ensures
        spec_plan_slots(plan).len() == count,
        forall|k: int|
            0 <= k < count ==> #[trigger] spec_plan_slots(plan)[k] == (start + k) % points,
        forall|k1: int, k2: int|
            0 <= k1 < k2 < count ==> spec_plan_slots(plan)[k1] != spec_plan_slots(plan)[k2],
        forall|s: int| 0 <= s < plan.len() ==> (#[trigger] plan[s]).0 + plan[s].1 <= points,
        forall|s: int, j: int|
            0 <= s < plan.len() && 0 <= j < plan[s].1 ==> spec_plan_len_before(plan, s) + j < count
                && #[trigger] spec_plan_slots(plan)[spec_plan_len_before(plan, s) + j] == plan[s].0
                + j,
        spec_plan_len_before(plan, plan.len() as int) == count,
{
    assert(spec_plan_len_before(plan, 0) == 0);
    let slots = spec_plan_slots(plan);
    if start + count <= points {
        let tail = plan.skip(1);
        assert(tail.len() == 0);
        assert(spec_plan_slots(tail).len() == 0);
        assert(slots.len() == count);
        assert forall|k: int| 0 <= k < count implies #[trigger] slots[k] == (start + k) % points by {
            assert(slots[k] == plan[0].0 + k);
            vstd::arithmetic::div_mod::lemma_small_mod((start + k) as nat, points as nat);
        }
        assert(spec_plan_len_before(plan, 1) == count);
        assert forall|s: int, j: int|
            0 <= s < plan.len() && 0 <= j < plan[s].1 implies spec_plan_len_before(plan, s) + j
            < count && #[trigger] slots[spec_plan_len_before(plan, s) + j] == plan[s].0 + j by {
            assert(s == 0);
            assert(slots[j] == plan[0].0 + j);
        }
    } else {
        let first = points - start;
        let tail = plan.skip(1);
        assert(tail.len() == 1);
        let tail2 = tail.skip(1);
        assert(tail2.len() == 0);
        assert(spec_plan_slots(tail2).len() == 0);
        assert(spec_plan_slots(tail).len() == count - first);
        assert(slots.len() == count);
        assert forall|k: int| 0 <= k < count implies #[trigger] slots[k] == (start + k) % points by {
            if k < first {
                assert(slots[k] == plan[0].0 + k);
                vstd::arithmetic::div_mod::lemma_small_mod((start + k) as nat, points as nat);
            } else {
                assert(slots[k] == spec_plan_slots(tail)[k - first]);
                assert(spec_plan_slots(tail)[k - first] == tail[0].0 + (k - first));
                assert(start + k == points + (k - first));
                vstd::arithmetic::div_mod::lemma_mod_self_0(points);
                vstd::arithmetic::div_mod::lemma_small_mod((k - first) as nat, points as nat);
                vstd::arithmetic::div_mod::lemma_add_mod_noop(points, (k - first) as int, points);
            }
        }
        assert(spec_plan_len_before(plan, 1) == first);
        assert(spec_plan_len_before(plan, 2) == count);
        assert forall|s: int, j: int|
            0 <= s < plan.len() && 0 <= j < plan[s].1 implies spec_plan_len_before(plan, s) + j
            < count && #[trigger] slots[spec_plan_len_before(plan, s) + j] == plan[s].0 + j by {
            if s == 0 {
                assert(slots[j] == plan[0].0 + j);
            } else {
                assert(s == 1);
                assert(slots[first + j] == spec_plan_slots(tail)[j]);
                assert(spec_plan_slots(tail)[j] == tail[0].0 + j);
            }
        }
    }
    assert forall|k1: int, k2: int| 0 <= k1 < k2 < count implies slots[k1] != slots[k2] by {
        assert(slots[k1] == (start + k1) % points);
        assert(slots[k2] == (start + k2) % points);
        // Two distinct offsets less than one full turn apart land in
        // distinct slots.
        vstd::arithmetic::div_mod::lemma_mod_equivalence(start + k2, start + k1, points);
        vstd::arithmetic::div_mod::lemma_small_mod((k2 - k1) as nat, points as nat);
    }
}

/// Wrapped addressing, forward case: the executable truncating form
/// equals the Euclidean specification when the bucket is at or past the
/// anchor.
proof fn lemma_wrap_forward(bucket_ts: int, anchor: int, spp: int, points: int)
    requires
        0 <= anchor <= bucket_ts,
        0 < spp,
        0 < points,
    ensures
        ((bucket_ts - anchor) / spp) % points == ((bucket_ts - anchor) / spp) % points,
        0 <= ((bucket_ts - anchor) / spp) % points < points,
{
    let away = (bucket_ts - anchor) / spp;
    vstd::arithmetic::div_mod::lemma_div_pos_is_pos(bucket_ts - anchor, spp);
    vstd::arithmetic::div_mod::lemma_mod_bound(away, points);
}

/// Wrapped addressing, backward case: stepping back by the ceiling of the
/// positive distance and folding into the ring computes the Euclidean
/// `((bucket_ts - anchor) / spp) % points`.
proof fn lemma_wrap_backward(bucket_ts: int, anchor: int, spp: int, points: int)
    requires
        0 <= bucket_ts < anchor,
        0 < spp,
        0 < points,
    ensures
        ({
            let back = (anchor - bucket_ts + spp - 1) / spp;
            let wrapped = back % points;
            let r = if wrapped == 0 {
                0int
            } else {
                points - wrapped
            };
            r == ((bucket_ts - anchor) / spp) % points
        }),
{
    let d = anchor - bucket_ts;
    let back = (d + spp - 1) / spp;
    let wrapped = back % points;
    let q = d / spp;
    let r = d % spp;
    vstd::arithmetic::div_mod::lemma_fundamental_div_mod(d, spp);
    vstd::arithmetic::div_mod::lemma_mod_bound(d, spp);
    vstd::arithmetic::mul::lemma_mul_is_commutative(spp, q);
    vstd::arithmetic::mul::lemma_mul_is_distributive_add_other_way(spp, q, 1);
    vstd::arithmetic::mul::lemma_mul_unary_negation(q, spp);
    vstd::arithmetic::mul::lemma_mul_unary_negation(q + 1, spp);
    // Floored division of the negative distance is minus the ceiling of
    // the positive one: (-d) / spp == -((d + spp - 1) / spp).
    if r == 0 {
        vstd::arithmetic::div_mod::lemma_fundamental_div_mod_converse(d + spp - 1, spp, q, spp - 1);
        vstd::arithmetic::div_mod::lemma_fundamental_div_mod_converse(-d, spp, -q, 0);
        assert(back == q && (-d) / spp == -back);
    } else {
        vstd::arithmetic::div_mod::lemma_fundamental_div_mod_converse(d + spp - 1, spp, q + 1, r - 1);
        vstd::arithmetic::div_mod::lemma_fundamental_div_mod_converse(-d, spp, -(q + 1), spp - r);
        assert(back == q + 1 && (-d) / spp == -back);
    }
    // And -back mod points folds to points - (back mod points), or 0.
    let qb = back / points;
    vstd::arithmetic::div_mod::lemma_fundamental_div_mod(back, points);
    vstd::arithmetic::div_mod::lemma_mod_bound(back, points);
    vstd::arithmetic::mul::lemma_mul_is_commutative(points, qb);
    vstd::arithmetic::mul::lemma_mul_is_distributive_add_other_way(points, qb, 1);
    vstd::arithmetic::mul::lemma_mul_unary_negation(qb, points);
    vstd::arithmetic::mul::lemma_mul_unary_negation(qb + 1, points);
    if wrapped == 0 {
        vstd::arithmetic::div_mod::lemma_fundamental_div_mod_converse(-back, points, -qb, 0);
    } else {
        vstd::arithmetic::div_mod::lemma_fundamental_div_mod_converse(
            -back,
            points,
            -(qb + 1),
            points - wrapped,
        );
    }
}

/// Decodes the descriptor held by the 12 bytes of `buf` at `pos`.
pub open spec fn spec_archive_info(b: Seq<u8>) -> ArchiveInfo
    recommends
        b.len() >= 12,
{
    let offset = spec_be32(b.subrange(0, 4));
    let spp = spec_be32(b.subrange(4, 8));
    let points = spec_be32(b.subrange(8, 12));
    ArchiveInfo {
        offset: offset as u64,
        seconds_per_point: spp as u64,
        points: points as u64,
        retention: (spp * points) as u64,
    }
}

/// Decodes the archive descriptor held by the first 12 bytes of `buf`:
/// offset, seconds per point, and point capacity, each big-endian 32-bit,
/// with the retention derived as their product.
pub fn slice_to_archive_info(buf: &[u8]) -> (r: ArchiveInfo)
    requires
        buf@.len() >= 12,
    ensures
        r == spec_archive_info(buf@),
{
    let offset = load_be32(buf, 0) as u64;
    let spp = load_be32(buf, 4) as u64;
    let points = load_be32(buf, 8) as u64;
    proof {
        assert(buf@.subrange(0int, 4int) =~= buf@.subrange(0, 4));
        assert(spp * points < 0x1_0000_0000 * 0x1_0000_0000) by (nonlinear_arith)
            requires
                0 <= spp < 0x1_0000_0000,
                0 <= points < 0x1_0000_0000,
        ;
    }
    ArchiveInfo { offset, seconds_per_point: spp, points, retention: spp * points }
}

/// The 12-byte encoding of a descriptor with the given fields.
pub open spec fn spec_archive_info_bytes(offset: u64, spp: u64, points: u64) -> Seq<u8> {
    spec_be32_bytes(offset) + spec_be32_bytes(spp) + spec_be32_bytes(points)
}

/// Encodes the descriptor into `buf` at `pos`.
pub fn store_archive_info(buf: &mut Vec<u8>, pos: usize, offset: u64, spp: u64, points: u64)
    requires
        pos + 12 <= old(buf)@.len(),
    ensures
        final(buf)@ == spec_splice(old(buf)@, pos as int, spec_archive_info_bytes(offset, spp, points)),
{
    let n = buf.len();
    proof {
        assert(pos + 12 <= n);
    }
    store_be32(buf, pos, offset);
    store_be32(buf, pos + 4, spp);
    store_be32(buf, pos + 8, points);
    proof {
        assert(buf@ =~= spec_splice(
            old(buf)@,
            pos as int,
            spec_archive_info_bytes(offset, spp, points),
        ));
    }
}

/// Bucket idempotence and bounds: bucketing is a projection, and every
/// timestamp lies in the slot its bucket names.
pub proof fn lemma_bucket_idempotent(a: ArchiveInfo, t: u64)
    requires
        a.wf(),
    ensures
        a.spec_bucket(a.spec_bucket(t)) == a.spec_bucket(t),
        a.spec_bucket(t) <= t < a.spec_bucket(t) + a.seconds_per_point,
        a.spec_bucket(t) % a.seconds_per_point == 0,
{
    let spp = a.seconds_per_point as int;
    let ti = t as int;
    vstd::arithmetic::div_mod::lemma_mod_bound(ti, spp);
    vstd::arithmetic::div_mod::lemma_mod_decreases(t as nat, a.seconds_per_point as nat);
    let b = ti - ti % spp;
    assert(a.spec_bucket(t) == b);
    assert(b % spp == 0) by {
        vstd::arithmetic::div_mod::lemma_fundamental_div_mod(ti, spp);
        assert(b == spp * (ti / spp));
        vstd::arithmetic::mul::lemma_mul_is_commutative(spp, ti / spp);
        vstd::arithmetic::div_mod::lemma_mod_multiples_basic(ti / spp, spp);
    }
    assert(a.spec_bucket(a.spec_bucket(t)) == a.spec_bucket(t));
}

} // verus!
