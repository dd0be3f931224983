//! The frame: what is visible, at which tier, in which order.

pub mod composite;
pub mod cull;
pub mod edges;
pub mod paint;
pub mod tiers;
