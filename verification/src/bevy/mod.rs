//! The graph world: what its systems decide on every frame.

pub mod blit;
pub mod camera;
pub mod components;
pub mod resources;
pub mod world;
