//! A forward HTTP caching proxy core: cache keys, cacheability and TTL policy,
//! a bounded LRU response cache, an upstream connection pool, and the
//! decisions of the per-connection request pipeline.
pub mod cache;
pub mod clock;
pub mod http;
pub mod key;
pub mod limits;
pub mod memory;
pub mod pipeline;
pub mod policy;
pub mod pool;
pub mod recency;
pub mod response;
pub mod text;

pub use cache::ProxyCache;
pub use http::{parse_request, parse_response_for_cache};
pub use key::create_cache_key;
pub use limits::{
    CACHE_SIZE, CACHE_TTL, IDLE_TIMEOUT_MS, MAX_CACHE_BYTES, MAX_CONNECTIONS,
    MAX_CONNECTIONS_PER_HOST, MAX_ENTRY_SIZE, MAX_REQUEST_SIZE, MAX_RESPONSE_SIZE,
};
pub use memory::memory_sufficient;
pub use pipeline::{admit_connection, error_response, Action, ErrorReply, Stage, Transaction};
pub use policy::{calculate_ttl, extract_host, is_cacheable};
pub use pool::ConnectionPool;
pub use response::CachedResponse;
