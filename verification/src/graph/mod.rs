//! The graph as read from a `.graph` file.

pub mod adjacency;
pub mod snapshot;
pub mod vocab;
