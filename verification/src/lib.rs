//! A verified proxy-pool manager.
//!
//! The pool accumulates candidate HTTP proxy endpoints parsed from plain
//! `address:port` text lists, derives a country-partitioned map of verified
//! endpoints from externally measured probe outcomes, and answers read-only
//! selection queries (random by country with fallback, best by score,
//! per-country statistics) over that map.  All network traffic, timing and
//! scheduling happen outside this crate; every function here is pure logic
//! over plain values and is verified.

pub mod record;
pub mod parse;
pub mod pool;
pub mod laws;

pub use record::ProxyInfo;
pub use record::is_success_status;
pub use record::passes_threshold;
pub use record::success_rate_thousandths;
pub use record::TEST_TARGET_COUNT;
pub use parse::parse_proxy_list;
pub use pool::PoolError;
pub use pool::ProxyManager;
pub use pool::TaggedText;
pub use pool::TestOutcome;
