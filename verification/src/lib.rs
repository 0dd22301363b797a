//! Verified core of a tile memory store.
//!
//! Tiles are stored in three ordered key/value trees: the tiles themselves
//! keyed by their 16-byte id, a kind index and a source index. This crate
//! holds the key layout, the writes and removals that each operation issues,
//! the text scoring and ranking used by search, and the statistics summary.


pub mod catalog;
pub mod ids;
pub mod kind;
pub mod keys;
pub mod layout;
pub mod rank;
pub mod search;
pub mod stats;
pub mod text;
