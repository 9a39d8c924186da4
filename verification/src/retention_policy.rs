//! A retention policy: one archive's precision and total retention, as
//! given at file-creation time.
//!
//! A policy is the abstract form of an archive descriptor: it does not yet
//! know its byte position in the file.

use vstd::prelude::*;

use crate::archive_info::{spec_archive_info_bytes, store_archive_info};
use crate::codec::spec_splice;

verus! {

/// Seconds per point, and total seconds covered.
#[derive(Clone, Copy, Debug, PartialEq, Eq, Structural)]
pub struct RetentionPolicy {
    pub precision: u64,
    pub retention: u64,
}

impl RetentionPolicy {
    /// How many slots the archive for this policy holds.
    pub open spec fn spec_points(self) -> int
        recommends
            self.precision > 0,
    {
        self.retention as int / self.precision as int
    }

    /// Bytes the archive's data region takes on disk.
    pub open spec fn spec_size_on_disk(self) -> int {
        self.spec_points() * 12
    }

    /// Whether the policy can be laid out as an on-disk archive: nonzero
    /// resolution, at least one slot, and both descriptor fields within
    /// the format's 32-bit range.
    pub open spec fn spec_usable(self) -> bool {
        &&& 0 < self.precision < 0x1_0000_0000
        &&& self.precision <= self.retention
        &&& self.spec_points() < 0x1_0000_0000
        &&& self.precision * self.spec_points() <= 0xFFFF_FFFF
    }

    pub fn points(&self) -> (r: u64)
        requires
            self.precision > 0,
        ensures
            r == self.spec_points(),
    {
        self.retention / self.precision
    }

    pub fn size_on_disk(&self) -> (r: u64)
        requires
            self.precision > 0,
            self.spec_size_on_disk() <= u64::MAX,
        ensures
            r == self.spec_size_on_disk(),
    {
        proof {
            vstd::arithmetic::div_mod::lemma_div_pos_is_pos(
                self.retention as int,
                self.precision as int,
            );
        }
        let p = self.retention / self.precision;
        p * 12
    }

    /// Encodes this policy as the archive descriptor at `pos`, placed at
    /// byte `offset` within the file.
    pub fn fill_buf(&self, buf: &mut Vec<u8>, pos: usize, offset: u64)
        requires
            pos + 12 <= old(buf)@.len(),
            self.spec_usable(),
        ensures
            final(buf)@ == spec_splice(
                old(buf)@,
                pos as int,
                spec_archive_info_bytes(offset, self.precision, (self.spec_points()) as u64),
            ),
    {
        proof {
            vstd::arithmetic::div_mod::lemma_div_pos_is_pos(
                self.retention as int,
                self.precision as int,
            );
        }
        let points = self.retention / self.precision;
        store_archive_info(buf, pos, offset, self.precision, points);
    }
}

/// Whether `c` is a decimal digit.
pub open spec fn spec_is_digit(c: char) -> bool {
    48 <= c as u32 <= 57
}

/// The seconds one unit letter stands for, 0 for anything that is not a
/// unit letter.
pub open spec fn spec_unit_seconds(c: char) -> int {
    if c == 's' {
        1
    } else if c == 'm' {
        60
    } else if c == 'h' {
        3600
    } else if c == 'd' {
        86400
    } else if c == 'w' {
        604800
    } else if c == 'y' {
        31536000
    } else {
        0
    }
}

pub open spec fn spec_is_unit(c: char) -> bool {
    spec_unit_seconds(c) != 0
}

pub open spec fn spec_all_digits(s: Seq<char>) -> bool {
    forall|i: int| 0 <= i < s.len() ==> spec_is_digit(#[trigger] s[i])
}

/// The number a digit string denotes, most significant digit first.
pub open spec fn spec_digits_val(s: Seq<char>) -> int
    decreases s.len(),
{
    if s.len() == 0 {
        0
    } else {
        spec_digits_val(s.drop_last()) * 10 + (s.last() as u32 - 48)
    }
}

/// Index of the first ':' in `s`, or `s.len()` when there is none.
pub open spec fn spec_first_colon(s: Seq<char>) -> int
    decreases s.len(),
{
    if s.len() == 0 {
        0
    } else if s[0] == ':' {
        0
    } else {
        1 + spec_first_colon(s.skip(1))
    }
}

/// One side of a retention spec: one or more digits, optionally followed
/// by a single unit letter.
pub open spec fn spec_valid_part(s: Seq<char>) -> bool {
    if s.len() == 0 {
        false
    } else if spec_is_unit(s.last()) {
        s.len() > 1 && spec_all_digits(s.drop_last())
    } else {
        spec_all_digits(s)
    }
}

/// What a retention spec of the form `<num><unit>?:<num><unit>?` denotes:
/// seconds per point and total seconds, as unbounded integers.  The left
/// side defaults to seconds; a right side without a unit is a point
/// count, multiplied by the left side's precision.
pub open spec fn spec_parse_retention(s: Seq<char>) -> Option<(int, int)> {
    let ci = spec_first_colon(s);
    if ci >= s.len() {
        None
    } else {
        let left = s.take(ci);
        let right = s.skip(ci + 1);
        if !spec_valid_part(left) || !spec_valid_part(right) {
            None
        } else {
            let precision = if spec_is_unit(left.last()) {
                spec_digits_val(left.drop_last()) * spec_unit_seconds(left.last())
            } else {
                spec_digits_val(left)
            };
            let retention = if spec_is_unit(right.last()) {
                spec_digits_val(right.drop_last()) * spec_unit_seconds(right.last())
            } else {
                spec_digits_val(right) * precision
            };
            Some((precision, retention))
        }
    }
}

/// The policy a retention spec denotes, when it matches the grammar and
/// both values fit the machine.
pub open spec fn spec_policy_of(s: Seq<char>) -> Option<RetentionPolicy> {
    match spec_parse_retention(s) {
        Some((p, r)) => if p <= u64::MAX && r <= u64::MAX {
            Some(RetentionPolicy { precision: p as u64, retention: r as u64 })
        } else {
            None
        },
        None => None,
    }
}

/// A found colon with none before it is the first one; no colon at all
/// puts `spec_first_colon` past the end.
proof fn lemma_first_colon_at(s: Seq<char>, i: int)
    requires
        0 <= i <= s.len(),
        forall|j: int| 0 <= j < i ==> s[j] != ':',
        i < s.len() ==> s[i] == ':',
    ensures
        i < s.len() ==> spec_first_colon(s) == i,
        i == s.len() ==> spec_first_colon(s) >= s.len(),
    decreases i, s.len(),
{
    if s.len() > 0 && s[0] != ':' {
        let t = s.skip(1);
        assert(forall|j: int| 0 <= j < i - 1 ==> t[j] != ':');
        if i > 0 {
            lemma_first_colon_at(t, i - 1);
        } else {
            assert(s[0] == ':');
        }
    }
}

/// Once a digit string's value has outgrown the machine, appending more
/// characters cannot bring it back.
proof fn lemma_digits_val_grows(s: Seq<char>, i: int, j: int)
    requires
        0 <= i <= j <= s.len(),
        spec_digits_val(s.take(i)) > u64::MAX,
    ensures
        spec_digits_val(s.take(j)) > u64::MAX,
    decreases j - i,
{
    if i < j {
        assert(s.take(i + 1).drop_last() =~= s.take(i));
        assert(spec_digits_val(s.take(i + 1)) == spec_digits_val(s.take(i)) * 10 + (s.take(
            i + 1,
        ).last() as u32 - 48));
        lemma_digits_val_grows(s, i + 1, j);
    }
}

/// A value already past the machine stays past it under any positive
/// scale.
proof fn lemma_big_times_pos(a: int, b: int)
    requires
        a > u64::MAX,
        b >= 1,
    ensures
        a * b > u64::MAX,
{
    vstd::arithmetic::mul::lemma_mul_inequality(1, b, a);
    vstd::arithmetic::mul::lemma_mul_is_commutative(a, b);
}

/// Whether `s[from..to]` is a nonempty run of digits.
fn digits_only(s: &str, from: usize, to: usize) -> (b: bool)
    requires
        from <= to <= s@.len(),
    ensures
        b == (from < to && spec_all_digits(s@.subrange(from as int, to as int))),
{
    let ghost part = s@.subrange(from as int, to as int);
    if from == to {
        return false;
    }
    let mut i: usize = from;
    while i < to
        invariant
            from <= i <= to <= s@.len(),
            part == s@.subrange(from as int, to as int),
            forall|j: int| from <= j < i ==> spec_is_digit(#[trigger] s@[j]),
        decreases to - i,
    {
        let cv = s.get_char(i) as u32;
        if !(48 <= cv && cv <= 57) {
            proof {
                assert(part[i - from] == s@[i as int]);
            }
            return false;
        }
        i = i + 1;
    }
    proof {
        assert forall|j: int| 0 <= j < part.len() implies spec_is_digit(#[trigger] part[j]) by {
            assert(part[j] == s@[from + j]);
        }
    }
    true
}

/// The seconds a unit letter stands for; 0 when the letter is no unit.
pub fn mult_str_to_num(c: char) -> (r: u64)
    ensures
        r == spec_unit_seconds(c),
{
    match c {
        's' => 1,
        'm' => 60,
        'h' => 3600,
        'd' => 86400,
        'w' => 604800,
        'y' => 31536000,
        _ => 0,
    }
}

/// Parses the digit run `s[from..to]`: the value it denotes, or `None`
/// when the run is empty, holds a non-digit, or denotes a value past
/// `u64::MAX`.
pub(crate) fn parse_digits(s: &str, from: usize, to: usize) -> (r: Option<u64>)
    requires
        from <= to <= s@.len(),
    ensures
        ({
            let part = s@.subrange(from as int, to as int);
            match r {
                Some(v) => from < to && spec_all_digits(part) && v == spec_digits_val(part)
                    && spec_digits_val(part) <= u64::MAX,
                None => from == to || !spec_all_digits(part) || spec_digits_val(part)
                    > u64::MAX,
            }
        }),
{
    let ghost part = s@.subrange(from as int, to as int);
    if from == to {
        return None;
    }
    let mut val: u64 = 0;
    let mut i: usize = from;
    while i < to
        invariant
            from <= i <= to <= s@.len(),
            part == s@.subrange(from as int, to as int),
            forall|j: int| from <= j < i ==> spec_is_digit(#[trigger] s@[j]),
            val == spec_digits_val(s@.subrange(from as int, i as int)),
        decreases to - i,
    {
        let c = s.get_char(i);
        let cv = c as u32;
        if !(48 <= cv && cv <= 57) {
            proof {
                assert(part[i - from] == s@[i as int]);
                assert(!spec_all_digits(part));
            }
            return None;
        }
        let d = (cv - 48) as u64;
        proof {
            assert(s@.subrange(from as int, i + 1).drop_last() =~= s@.subrange(
                from as int,
                i as int,
            ));
            assert(s@.subrange(from as int, i + 1).last() == s@[i as int]);
        }
        if val > (u64::MAX - d) / 10 {
            // The value no longer fits; it can only keep growing.
            proof {
                assert(val * 10 + d > u64::MAX) by (nonlinear_arith)
                    requires
                        val > (0xFFFF_FFFF_FFFF_FFFFu64 - d) / 10,
                        0 <= d <= 9,
                ;
                assert(spec_digits_val(s@.subrange(from as int, i + 1)) > u64::MAX);
                assert(part =~= s@.subrange(from as int, to as int));
                assert(s@.subrange(from as int, to as int).take(i + 1 - from) =~= s@.subrange(
                    from as int,
                    i + 1,
                ));
                assert(s@.subrange(from as int, to as int).take(to - from) =~= part);
                lemma_digits_val_grows(
                    s@.subrange(from as int, to as int),
                    i + 1 - from,
                    to - from,
                );
            }
            return None;
        }
        val = val * 10 + d;
        i = i + 1;
    }
    proof {
        assert(s@.subrange(from as int, to as int) =~= part);
        assert(spec_all_digits(part));
    }
    Some(val)
}

impl RetentionPolicy {
    /// Parses a retention spec such as "60s:1d" or "15:60": seconds per
    /// point and a span, either in time units or as a bare point count.
    /// Yields nothing when the spec does not match the grammar or a value
    /// does not fit the machine.
    pub fn spec_to_retention_policy(spec: &str) -> (r: Option<RetentionPolicy>)
        ensures
            r == spec_policy_of(spec@),
    {
        let len = spec.unicode_len();
        let ghost sv = spec@;
        // Find the separating colon.
        let mut ci: usize = 0;
        let mut found = false;
        while ci < len && !found
            invariant
                0 <= ci <= len == sv.len(),
                sv == spec@,
                forall|j: int| 0 <= j < ci ==> sv[j] != ':',
                found ==> ci < len && sv[ci as int] == ':',
                !found && ci < len ==> true,
            decreases len - ci, if found { 0int } else { 1int },
        {
            if spec.get_char(ci) == ':' {
                found = true;
            } else {
                ci = ci + 1;
            }
        }
        proof {
            if found {
                lemma_first_colon_at(sv, ci as int);
            } else {
                lemma_first_colon_at(sv, len as int);
            }
        }
        if !found {
            return None;
        }
        let ghost left = sv.take(ci as int);
        let ghost right = sv.skip(ci + 1);
        if ci == 0 {
            return None;
        }
        // Left side: digits with an optional unit; no unit means seconds.
        let lc = spec.get_char(ci - 1);
        let lmult = mult_str_to_num(lc);
        proof {
            assert(left.last() == sv[ci - 1]);
            assert(left.drop_last() =~= sv.subrange(0, ci - 1));
            assert(left =~= sv.subrange(0, ci as int));
        }
        let precision: u64;
        if lmult != 0 {
            let base = match parse_digits(spec, 0, ci - 1) {
                Some(v) => v,
                None => {
                    proof {
                        if ci > 1 && spec_all_digits(sv.subrange(0, ci - 1)) {
                            lemma_big_times_pos(
                                spec_digits_val(sv.subrange(0, ci - 1)),
                                spec_unit_seconds(lc as char),
                            );
                        }
                    }
                    return None;
                },
            };
            precision = match base.checked_mul(lmult) {
                Some(p) => p,
                None => {
                    return None;
                },
            };
        } else {
            precision = match parse_digits(spec, 0, ci) {
                Some(v) => v,
                None => {
                    return None;
                },
            };
        }
        // Right side: digits with an optional unit; no unit means a point
        // count, scaled by the precision.
        if ci + 1 >= len {
            return None;
        }
        let rc = spec.get_char(len - 1);
        let rmult = mult_str_to_num(rc);
        proof {
            assert(right.last() == sv[len - 1]);
            assert(right.drop_last() =~= sv.subrange(ci + 1, len - 1));
            assert(right =~= sv.subrange(ci + 1, len as int));
        }
        let retention: u64;
        if rmult != 0 {
            let base = match parse_digits(spec, ci + 1, len - 1) {
                Some(v) => v,
                None => {
                    proof {
                        if ci + 1 < len - 1 && spec_all_digits(sv.subrange(ci + 1, len - 1)) {
                            lemma_big_times_pos(
                                spec_digits_val(sv.subrange(ci + 1, len - 1)),
                                spec_unit_seconds(rc as char),
                            );
                        }
                    }
                    return None;
                },
            };
            retention = match base.checked_mul(rmult) {
                Some(p) => p,
                None => {
                    return None;
                },
            };
        } else if precision == 0 {
            // A zero precision zeroes the span whatever the count, but
            // the count must still match the grammar.
            if !digits_only(spec, ci + 1, len) {
                return None;
            }
            proof {
                assert(spec_digits_val(sv.subrange(ci + 1, len as int)) * 0 == 0);
            }
            retention = 0;
        } else {
            let base = match parse_digits(spec, ci + 1, len) {
                Some(v) => v,
                None => {
                    proof {
                        if ci + 1 < len && spec_all_digits(sv.subrange(ci + 1, len as int)) {
                            lemma_big_times_pos(
                                spec_digits_val(sv.subrange(ci + 1, len as int)),
                                precision as int,
                            );
                        }
                    }
                    return None;
                },
            };
            retention = match base.checked_mul(precision) {
                Some(p) => p,
                None => {
                    return None;
                },
            };
        }
        Some(RetentionPolicy { precision, retention })
    }
}

} // verus!
