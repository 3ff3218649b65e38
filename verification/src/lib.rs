//! Offline loop-closure post-processing for robot recordings: the parts of the
//! pipeline that decide, select, order, lay out bytes and text, and search, each
//! with a contract that Verus checks.
//!
//! Real numbers enter and leave this crate as IEEE-754 bit patterns (see `ieee`):
//! the arithmetic on them is done by the caller, and every decision that is taken
//! on their values is taken here.

pub mod apriltags;
pub mod artifacts;
pub mod detect;
pub mod helpers;
pub mod ieee;
pub mod images;
pub mod jpeg;
pub mod memory2;
pub mod msgs;
pub mod order;
pub mod pgo;
pub mod pipeline;
pub mod pointcloud;
pub mod recording;
pub mod rrd;
pub mod store;
pub mod text;
pub mod tf;
