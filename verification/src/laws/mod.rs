//! Laws of drivers and transfers.

pub mod alike;
pub mod cancelling;
pub mod chunks;
pub mod course;
pub mod events;
pub mod exactness;
pub mod exclusive;
pub mod failure;
pub mod operations;
pub mod phases;
pub mod polling;
pub mod runs;
pub mod tiling;
pub mod trace;
