//! The metric cache's verified core: the base directory under which
//! metric paths live.
//!
//! The cache proper — open file handles, their creation and lookup — is
//! filesystem work and lives in the unverified shell; what the library
//! owns is the path arithmetic rooted at `base_path`.

use vstd::prelude::*;

verus! {

/// The root directory of the metric tree.
pub struct Cache {
    pub base_path: String,
}

impl Cache {
    pub fn new(base_path: &str) -> (r: Cache)
        ensures
            r.base_path@ == base_path@,
    {
        Cache { base_path: base_path.to_owned() }
    }
}

} // verus!
