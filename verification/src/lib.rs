//! A mutable, resizable string-keyed associative container built on open
//! addressing with linear probing over one contiguous slot array.
//!
//! Deleting an entry leaves a tombstone in its slot so that probe chains
//! stay intact; tombstones are reclaimed when the table grows and rebuilds
//! its array. Capacity is zero until the first insertion and a power of two
//! of at least eight afterwards. Every operation is specified against a
//! mathematical map from key strings to values.

pub mod laws;
pub mod table;
