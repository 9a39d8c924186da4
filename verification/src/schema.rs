//! The schema: the ordered list of retention policies a file is created
//! with, and the on-disk layout it determines.

use vstd::prelude::*;

use crate::retention_policy::{spec_policy_of, RetentionPolicy};
use crate::WhisperError;

verus! {

/// The ordered retention policies of a file, highest resolution first.
#[derive(Debug)]
pub struct Schema {
    pub retention_policies: Vec<RetentionPolicy>,
}

/// Total bytes of the archive data regions of the first `i` policies.
pub open spec fn spec_archives_size(ps: Seq<RetentionPolicy>, i: int) -> int
    decreases i,
{
    if i <= 0 {
        0
    } else {
        spec_archives_size(ps, i - 1) + ps[i - 1].spec_size_on_disk()
    }
}

/// The largest retention among the first `i` policies, 0 when there are
/// none.
pub open spec fn spec_max_retention(ps: Seq<RetentionPolicy>, i: int) -> int
    decreases i,
{
    if i <= 0 {
        0
    } else if ps[i - 1].retention >= spec_max_retention(ps, i - 1) {
        ps[i - 1].retention as int
    } else {
        spec_max_retention(ps, i - 1)
    }
}

/// Prefix sums of nonnegative sizes only grow.
pub proof fn lemma_archives_size_monotonic(ps: Seq<RetentionPolicy>, i: int, j: int)
    requires
        0 <= i <= j <= ps.len(),
        forall|k: int| 0 <= k < ps.len() ==> ps[k].precision > 0,
    ensures
        spec_archives_size(ps, i) <= spec_archives_size(ps, j),
    decreases j - i,
{
    if i < j {
        lemma_archives_size_monotonic(ps, i, j - 1);
        vstd::arithmetic::div_mod::lemma_div_pos_is_pos(
            ps[j - 1].retention as int,
            ps[j - 1].precision as int,
        );
    }
}

impl Schema {
    /// All policies can be laid out as archives.
    pub open spec fn spec_usable(self) -> bool {
        forall|k: int|
            0 <= k < self.retention_policies@.len() ==> (
            #[trigger] self.retention_policies@[k]).spec_usable()
    }

    /// Bytes of the metadata header and the archive descriptors.
    pub open spec fn spec_header_size_on_disk(self) -> int {
        16 + 12 * (self.retention_policies@.len() as int)
    }

    /// Total size of the file this schema lays out.
    pub open spec fn spec_size_on_disk(self) -> int {
        self.spec_header_size_on_disk() + spec_archives_size(
            self.retention_policies@,
            self.retention_policies@.len() as int,
        )
    }

    /// Size of the header region: the metadata block plus one descriptor
    /// per archive.
    pub fn header_size_on_disk(&self) -> (r: u64)
        requires
            self.retention_policies@.len() <= 0xFFFF_FFFF,
        ensures
            r == self.spec_header_size_on_disk(),
    {
        16 + 12 * (self.retention_policies.len() as u64)
    }

    /// Total size in bytes of the file laid out by this schema: header,
    /// descriptors, and every archive's data region.
    pub fn size_on_disk(&self) -> (r: u64)
        requires
            self.spec_usable(),
            self.retention_policies@.len() <= 0xFFFF_FFFF,
            self.spec_size_on_disk() <= u64::MAX,
        ensures
            r == self.spec_size_on_disk(),
    {
        let ghost ps = self.retention_policies@;
        let mut tally: u64 = 0;
        let mut i: usize = 0;
        let n = self.retention_policies.len();
        while i < n
            invariant
                0 <= i <= n,
                ps == self.retention_policies@,
                n == ps.len(),
                tally == spec_archives_size(ps, i as int),
                forall|k: int| 0 <= k < ps.len() ==> (#[trigger] ps[k]).spec_usable(),
                spec_archives_size(ps, n as int) + 16 + 12 * (n as int) <= u64::MAX,
            decreases n - i,
        {
            proof {
                lemma_archives_size_monotonic(ps, 0, i as int);
                lemma_archives_size_monotonic(ps, i + 1, n as int);
                vstd::arithmetic::div_mod::lemma_div_pos_is_pos(
                    ps[i as int].retention as int,
                    ps[i as int].precision as int,
                );
            }
            let sz = self.retention_policies[i].size_on_disk();
            tally = tally + sz;
            i = i + 1;
        }
        self.header_size_on_disk() + tally
    }

    /// The longest retention among the policies, or 0 when there are
    /// none.
    pub fn max_retention(&self) -> (r: u64)
        ensures
            r == spec_max_retention(
                self.retention_policies@,
                self.retention_policies@.len() as int,
            ),
    {
        let ghost ps = self.retention_policies@;
        let mut best: u64 = 0;
        let mut i: usize = 0;
        let n = self.retention_policies.len();
        while i < n
            invariant
                0 <= i <= n,
                ps == self.retention_policies@,
                n == ps.len(),
                best == spec_max_retention(ps, i as int),
            decreases n - i,
        {
            let rp = self.retention_policies[i];
            if rp.retention >= best {
                best = rp.retention;
            }
            i = i + 1;
        }
        best
    }
}

/// The specs among the first `i` that do not parse to a policy, in their
/// given order.
pub open spec fn spec_bad_specs(specs: Seq<String>, i: int) -> Seq<String>
    decreases i,
{
    if i <= 0 {
        Seq::empty()
    } else if spec_policy_of(specs[i - 1]@) is Some {
        spec_bad_specs(specs, i - 1)
    } else {
        spec_bad_specs(specs, i - 1).push(specs[i - 1])
    }
}

impl RetentionPolicy {
    /// Whether this policy can be laid out as an on-disk archive.
    pub fn is_usable(&self) -> (b: bool)
        ensures
            b == self.spec_usable(),
    {
        if !(self.precision >= 1 && self.precision <= 0xFFFF_FFFFu64 && self.precision
            <= self.retention) {
            return false;
        }
        let points = self.retention / self.precision;
        if points > 0xFFFF_FFFFu64 {
            return false;
        }
        proof {
            assert(self.precision * points < 0x1_0000_0000_0000_0000) by (nonlinear_arith)
                requires
                    self.precision < 0x1_0000_0000,
                    0 <= points < 0x1_0000_0000,
            ;
        }
        self.precision * points <= 0xFFFF_FFFF
    }
}

impl Schema {
    /// Whether every policy can be laid out as an on-disk archive.
    pub fn is_usable(&self) -> (b: bool)
        ensures
            b == self.spec_usable(),
    {
        let ghost ps = self.retention_policies@;
        let n = self.retention_policies.len();
        let mut i: usize = 0;
        while i < n
            invariant
                ps == self.retention_policies@,
                n == ps.len(),
                0 <= i <= n,
                forall|k: int| 0 <= k < i ==> (#[trigger] ps[k]).spec_usable(),
            decreases n - i,
        {
            if !self.retention_policies[i].is_usable() {
                return false;
            }
            i = i + 1;
        }
        true
    }

    /// Builds a schema from human retention specs such as "1m:1h".  All
    /// specs are validated before anything is returned: when any of them
    /// is rejected, the error lists every offending spec.
    pub fn new_from_retention_specs(specs: Vec<String>) -> (r: Result<Schema, WhisperError>)
        ensures
            match r {
                Ok(schema) => {
                    &&& spec_bad_specs(specs@, specs@.len() as int).len() == 0
                    &&& schema.retention_policies@.len() == specs@.len()
                    &&& forall|i: int|
                        0 <= i < specs@.len() ==> Some(
                            #[trigger] schema.retention_policies@[i],
                        ) == spec_policy_of(specs@[i]@)
                },
                Err(WhisperError::InvalidRetentionSpec(bad)) => {
                    &&& bad@ == spec_bad_specs(specs@, specs@.len() as int)
                    &&& bad@.len() > 0
                },
                Err(_) => false,
            },
    {
        let n = specs.len();
        let mut retention_policies: Vec<RetentionPolicy> = Vec::new();
        let mut bad: Vec<String> = Vec::new();
        let mut i: usize = 0;
        while i < n
            invariant
                n == specs@.len(),
                0 <= i <= n,
                bad@ == spec_bad_specs(specs@, i as int),
                bad@.len() == 0 ==> retention_policies@.len() == i && forall|k: int|
                    0 <= k < i ==> Some(#[trigger] retention_policies@[k]) == spec_policy_of(
                        specs@[k]@,
                    ),
            decreases n - i,
        {
            match RetentionPolicy::spec_to_retention_policy(specs[i].as_str()) {
                Some(p) => {
                    retention_policies.push(p);
                },
                None => {
                    bad.push(specs[i].clone());
                },
            }
            i = i + 1;
        }
        if bad.len() > 0 {
            Err(WhisperError::InvalidRetentionSpec(bad))
        } else {
            Ok(Schema { retention_policies })
        }
    }
}

} // verus!
