//! Server settings supplied at startup.
use vstd::prelude::*;

verus! {

/// Where the static client files live, and how often (in seconds) a live
/// stream sends a keep-alive.
#[derive(Clone, Debug)]
pub struct ServerConfig {
    pub dist_root_path: String,
    pub sse_keep_alive_interval: u64,
}

} // verus!
