//! The tiers of detail.

pub mod t0;
pub mod t1;
pub mod t2;
pub mod t3;
pub mod tinf;
