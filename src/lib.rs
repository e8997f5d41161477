//! Placement of multi-tenant page accesses onto a shared buffer, using a
//! quota-aware Adaptive Replacement Cache.

pub mod types;
pub mod lru;
pub mod params;
pub mod model;
pub mod buffer;
pub mod laws;
mod lemmas;
pub mod parse;
