//! Splitting one carbon line-protocol datagram into its fields.
//!
//! A datagram is `<metric> <value> <timestamp>\n`.  The metric name is
//! turned into a relative whisper file path (dots to separators, plus the
//! file suffix) and the timestamp is parsed; the value text is handed
//! back as it is, since interpreting it as a number is the unverified
//! shell's floating-point business.

use vstd::prelude::*;

use crate::expander::spec_replace;
use crate::retention_policy::{parse_digits, spec_all_digits, spec_digits_val};

verus! {

/// Why a datagram was rejected.
#[derive(Debug)]
pub enum Error {
    BadDatagram,
}

/// A rejected datagram: the kind of fault and a description.
#[derive(Debug)]
pub struct CarbonError(pub Error, pub String);

/// Index of the first occurrence of `c` at or after `from`, or `s.len()`
/// when there is none.
pub open spec fn spec_first_at(s: Seq<char>, c: char, from: int) -> int
    decreases s.len() - from,
{
    if from < 0 || from >= s.len() {
        s.len() as int
    } else if s[from] == c {
        from
    } else {
        spec_first_at(s, c, from + 1)
    }
}

proof fn lemma_first_at(s: Seq<char>, c: char, from: int, i: int)
    requires
        0 <= from <= i <= s.len(),
        forall|j: int| from <= j < i ==> s[j] != c,
        i < s.len() ==> s[i] == c,
    ensures
        i < s.len() ==> spec_first_at(s, c, from) == i,
        i == s.len() ==> spec_first_at(s, c, from) == s.len(),
    decreases i - from,
{
    if from < i {
        lemma_first_at(s, c, from + 1, i);
    }
}

/// The three fields a well-formed datagram splits into: the positions are
/// the first two spaces; the trailing newline is demanded, the tail after
/// the second space must be free of further spaces, and the timestamp
/// must be a digit run whose value fits the machine.
pub open spec fn spec_datagram_fields(s: Seq<char>) -> Option<(Seq<char>, Seq<char>, int)> {
    if s.len() == 0 || s.last() != '\n' {
        None
    } else {
        let end = s.len() - 1;
        let i = spec_first_at(s, ' ', 0);
        let j = spec_first_at(s, ' ', i + 1);
        if i >= end || j >= end || spec_first_at(s, ' ', j + 1) < end {
            None
        } else {
            let name = s.take(i);
            let value = s.subrange(i + 1, j);
            let ts = s.subrange(j + 1, end);
            if ts.len() > 0 && spec_all_digits(ts) && spec_digits_val(ts) <= u64::MAX {
                Some((name, value, spec_digits_val(ts)))
            } else {
                None
            }
        }
    }
}

/// The relative whisper path of a metric name: dots become separators and
/// the file suffix is appended.
pub open spec fn spec_metric_rel_path(name: Seq<char>) -> Seq<char> {
    spec_replace(name, '.', '/') + ".wsp"@
}

/// Finds the first `c` at or after `from`.
fn find_first_at(s: &str, c: char, from: usize) -> (r: usize)
    requires
        from <= s@.len(),
    ensures
        r == spec_first_at(s@, c, from as int),
        from <= r <= s@.len(),
        r < s@.len() ==> s@[r as int] == c,
{
    let n = s.unicode_len();
    let mut i: usize = from;
    while i < n
        invariant
            from <= i <= n == s@.len(),
            forall|j: int| from <= j < i ==> s@[j] != c,
        decreases n - i,
    {
        if s.get_char(i) == c {
            proof {
                lemma_first_at(s@, c, from as int, i as int);
            }
            return i;
        }
        i = i + 1;
    }
    proof {
        lemma_first_at(s@, c, from as int, n as int);
    }
    n
}

/// Splits one datagram into the metric's relative file path, the value
/// text, and the timestamp.  Rejected exactly when the datagram does not
/// have the `<metric> <value> <timestamp>\n` shape or the timestamp is
/// not a machine-sized digit run; the error carries a description.
pub fn split_datagram(datagram: &str) -> (r: Result<(String, String, u64), CarbonError>)
    ensures
        match r {
            Ok((path, value, ts)) => {
                &&& spec_datagram_fields(datagram@) matches Some((name, v, t))
                &&& path@ == spec_metric_rel_path(name)
                &&& value@ == v
                &&& ts == t
            },
            Err(_) => spec_datagram_fields(datagram@) is None,
        },
{
    let ghost sv = datagram@;
    let len = datagram.unicode_len();
    if len == 0 || datagram.get_char(len - 1) != '\n' {
        return Err(
            CarbonError(Error::BadDatagram, String::from_str("datagram is missing a newline")),
        );
    }
    let end = len - 1;
    let i = find_first_at(datagram, ' ', 0);
    let j = if i < len {
        find_first_at(datagram, ' ', i + 1)
    } else {
        len
    };
    proof {
        if i >= len {
            assert(spec_first_at(sv, ' ', i + 1) == sv.len());
        }
    }
    if i >= end || j >= end {
        return Err(
            CarbonError(
                Error::BadDatagram,
                String::from_str("datagram does not have 3 parts"),
            ),
        );
    }
    let k = find_first_at(datagram, ' ', j + 1);
    if k < end {
        return Err(
            CarbonError(
                Error::BadDatagram,
                String::from_str("datagram does not have 3 parts"),
            ),
        );
    }
    let ts = match parse_digits(datagram, j + 1, end) {
        Some(v) => v,
        None => {
            return Err(
                CarbonError(
                    Error::BadDatagram,
                    String::from_str("datagram timestamp is not an unsigned integer"),
                ),
            );
        },
    };
    let name = datagram.substring_char(0, i);
    let value = String::from_str(datagram.substring_char(i + 1, j));
    proof {
        reveal_strlit("/");
        assert(sv.take(i as int) =~= sv.subrange(0, i as int));
    }
    let mut path = crate::expander::replace_chars(name, '.', "/");
    path.append(".wsp");
    proof {
        assert(path@ =~= spec_metric_rel_path(sv.take(i as int)));
    }
    Ok((path, value, ts))
}

} // verus!
