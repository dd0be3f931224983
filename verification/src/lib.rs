//! The render engine's logic: everything between a graph file and the frame that is decided or
//! counted, moved or put in order.
//!
//! - `graph`: the file format, the vocabulary of particles, the adjacency matrix.
//! - `epoch`: spectral coordinates, cluster hierarchy, appearance.
//! - `frame`: visibility, draw order, batches, labels, the finished frame.
//! - `nrf`: the background network's tables, hashes and pixels.
//! - `overlay`, `conformance`, `backend`: metadata overlays, checks, the reference backend.
//! - `gpu`, `bevy`: what the device layer and the graph world decide.
//! - `bytes`, `order`, `random`, `ranking`, `scalar`, `text`: what the others are built from.
//!
//! Numbers with a fraction are only compared and moved here, as bit patterns (`scalar`) or as
//! values of any type; what computes with them calls this library with the results.

pub mod backend;
pub mod bevy;
pub mod bytes;
pub mod conformance;
pub mod epoch;
pub mod error;
pub mod frame;
pub mod gpu;
pub mod graph;
pub mod nrf;
pub mod order;
pub mod overlay;
pub mod random;
pub mod ranking;
pub mod scalar;
pub mod text;
