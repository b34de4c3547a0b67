//! What the proxy is told when it starts.
use vstd::prelude::*;

verus! {

/// The options of the proxy.
pub struct CmdOptions {
    /// The address to bind to.
    pub bind: String,
    /// The addresses of the upstream servers.
    pub upstream: Vec<String>,
    /// The seconds between two rounds of active health checks; no checks where it is zero.
    pub active_health_check_interval: usize,
    /// The path that active health checks ask for.
    pub active_health_check_path: String,
    /// The requests that one client may make in a minute; no limit where it is zero.
    pub max_requests_per_minute: usize,
    /// The responses that the cache has room for; no cache where it is zero.
    pub max_cache_entries: usize,
}

} // verus!
