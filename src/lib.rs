//! A spatial index over a mutable graph: node positions and edge segments are
//! kept in an R-tree keyed by stable graph identifiers, so that region queries
//! and edge-crossing queries stay correct as the graph changes.
//!
//! Coordinates are fixed-point numbers with 32 integer and 32 fractional bits,
//! held as their raw `i64` bits, so that every geometric comparison is exact.
pub mod geometry;
pub mod intersections;
pub mod layout;
pub mod tabu;
