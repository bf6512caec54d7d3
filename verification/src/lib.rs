//! Turning a raw geographic track into a smooth ordered image sequence.
//!
//! The crate covers the algorithmic core of that pipeline: geodesic
//! arithmetic over fixed-point coordinates, even resampling of a track into
//! oriented viewpoints, collapsing runs of viewpoints that resolved to the
//! same imagery tile, and a bounded-lookahead dynamic program that picks the
//! final frame order from perceptual hashes. Fetching imagery, reading track
//! files and assembling video are left to callers.

pub mod dedup;
pub mod geom;
pub mod optim;
pub mod sampler;
