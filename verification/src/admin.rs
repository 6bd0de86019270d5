//! Admin service configuration; the service itself is RPC plumbing
//! around the engine.

use vstd::prelude::*;

verus! {

/// Admin configuration: nothing is tunable yet.
pub struct Config {}

} // verus!
