//! Build identification carried in the version response header.

use vstd::prelude::*;

verus! {

/// What this server build is: when, from which revision, by whom.
#[derive(Clone, Copy, Debug)]
pub struct BuildInfo {
    pub date: &'static str,
    pub git_sha: &'static str,
    pub profile: &'static str,
    pub vendor: &'static str,
    pub version: &'static str,
}

} // verus!
