//! Forwarding state for a BIER multicast domain: shortest paths with
//! equal-cost multipath, bit-position allocation, per-router forwarding
//! tables, and the BIER header codec.
pub mod allocator;
pub mod bier;
pub mod dijkstra;
pub mod reachability;
pub mod render;
pub mod tables;
pub mod topology;
