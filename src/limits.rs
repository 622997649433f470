//! The proxy's fixed configuration.
use vstd::prelude::*;

verus! {

/// The most entries the response cache holds.
pub const CACHE_SIZE: usize = 10000;

/// The largest upstream response that is buffered and may be cached.
pub const MAX_RESPONSE_SIZE: usize = 10 * 1024 * 1024;

/// The budget of accounted bytes over all cached entries.
pub const MAX_CACHE_BYTES: usize = 50 * 1024 * 1024;

/// The largest accounted size of a single cached entry.
pub const MAX_ENTRY_SIZE: usize = 5 * 1024 * 1024;

/// The time to live, in seconds, of a response that states none.
pub const CACHE_TTL: u64 = 3600;

/// The longest time to live, in seconds, that a response may ask for.
pub const MAX_TTL: u64 = 86400;

/// The most client connections served at once.
pub const MAX_CONNECTIONS: usize = 100;

/// The largest client request that is read.
pub const MAX_REQUEST_SIZE: usize = 64 * 1024;

/// The most idle upstream connections kept for one origin.
pub const MAX_CONNECTIONS_PER_HOST: usize = 4;

/// How long, in milliseconds, an idle upstream connection stays reusable.
pub const IDLE_TIMEOUT_MS: u64 = 60 * 1000;

/// The port of an origin whose `Host` header names none.
pub const DEFAULT_PORT: u16 = 80;

} // verus!
