//! Multi-index record storage: rows addressed by a unique `u64` primary key
//! and by any number of `u64` secondary keys, kept in key order, together
//! with the small value types that rows usually carry.

pub mod asset;
pub mod primary;
pub mod row;
pub mod secondary;
pub mod time;
