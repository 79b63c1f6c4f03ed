//! Verified core of an ADS-B collision-watch simulator.
//!
//! The library admits aircraft identifiers through a scalable partitioned
//! Bloom filter with an exact promotion buffer, tracks admitted aircraft in a
//! spatial-hash index, and evaluates pairwise closest-point-of-approach
//! collision risk with Monte-Carlo velocity noise.  Geometry is carried in
//! integer meters, meters per second and milliseconds throughout.
pub mod bloom_filter;
pub mod filter_manager;
pub mod grid;
pub mod math;
pub mod model;
pub mod sim_manager;
pub mod sim_metrics;

