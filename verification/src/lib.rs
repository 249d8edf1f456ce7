//! A bidirectional map: every left value is paired with exactly one right
//! value and every right value with exactly one left value, so that either
//! side can be used to look a pair up.

pub mod key_range;
pub mod lawful;
pub mod laws;
pub mod listing;
pub mod two_way_map;

pub use key_range::KeyRange;
pub use two_way_map::TwoWayMap;
