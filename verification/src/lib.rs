//! Patcher for fixed-layout binary record tables: a codec between raw bytes
//! and an in-memory record set with a string pool, a string-interning pool
//! manager, and an engine that applies declarative update/insert/copy
//! operations to the decoded records.

pub mod dbc;
pub mod engine;
pub mod order;
pub mod patch;
pub mod pool;
pub mod util;
