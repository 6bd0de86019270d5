//! Client-side connection options.

use vstd::prelude::*;

verus! {

/// How a client connects: where, as whom, and whether to discard any
/// session kept from an earlier run.
pub struct ConnectionOpt {
    pub addr: &'static str,
    pub username: String,
    pub password: String,
    pub clear_sessions: bool,
}

impl Default for ConnectionOpt {
    fn default() -> (r: ConnectionOpt)
        ensures
            r.addr@ == "http://0.0.0.0:5678"@,
            r.username@ == "protolith"@,
            r.password@ == "protolith"@,
            !r.clear_sessions,
    {
        ConnectionOpt {
            addr: "http://0.0.0.0:5678",
            username: String::from_str("protolith"),
            password: String::from_str("protolith"),
            clear_sessions: false,
        }
    }
}

} // verus!
