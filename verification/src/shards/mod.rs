//! One shard: its maps, its log, its tiers and the loop body that serves it.

pub mod cache;
pub mod disk;
pub mod expiry;
pub mod map;
pub mod model;
pub mod recency;
pub mod state;
pub mod store;
pub mod worker;
