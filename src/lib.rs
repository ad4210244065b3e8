//! An in-memory cache for asynchronous requests.
//!
//! Requests of many different types share one ordered store. Each entry keeps the most recent
//! answer with a validity flag, whether a fetch is running, the backoff delay for the next retry
//! and the handles of the subscribers that want to hear about changes.
pub mod cache;
pub mod invalidate;
pub mod key;
pub mod value;

pub use crate::cache::{BTreeCache, Cache, Change, Entry, Subscription};
pub use crate::invalidate::{Invalidatable, Invalidator};
pub use crate::key::{CacheKey, ErasedKey};
pub use crate::value::{Downcast, Dynamic, Value};
