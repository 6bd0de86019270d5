//! Schema-layer configuration.

use vstd::prelude::*;

verus! {

/// Whether schemas are versioned, and the version used when they are not.
pub struct Config {
    /// Whether to enable schema versioning.
    pub enable_versioning: bool,
    /// Default schema version if versioning is disabled or not passed to query.
    pub default_version: u64,
}

impl Config {
    pub fn clone_cfg(&self) -> (r: Config)
        ensures
            r == *self,
    {
        Config { enable_versioning: self.enable_versioning, default_version: self.default_version }
    }
}

} // verus!
