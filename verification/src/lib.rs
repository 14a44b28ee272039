//! A storage abstraction for views sharing one physical key-value store.
//!
//! Keys are arbitrary byte strings ordered byte-wise lexicographically.
//! The library provides the half-open interval that captures exactly the
//! keys under a given prefix, a write batch with a canonicalizing
//! `simplify` pass, and the key-derivation helpers that scope a view's
//! keys under its base address.

pub mod batch;
pub mod bound;
pub mod codec;
pub mod context;
pub mod iterate;
pub mod laws;
pub mod ordering;
pub mod util;

pub use batch::{Batch, WriteOperation};
pub use bound::{get_interval, get_upper_bound, Bound};
pub use context::ContextFromDb;
pub use iterate::{KeyIterable, KeyValueIterable, SimpleKeyIterator, SimpleKeyValueIterator};
