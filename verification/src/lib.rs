//! The core of a small caching HTTP proxy: which requests are answered from the
//! cache, which responses are stored, and what an entry of the cache looks like.

pub mod body;
pub mod cache;
pub mod entry;
pub mod headers;
pub mod pool;
pub mod proxy;
pub mod status;
pub mod text;
