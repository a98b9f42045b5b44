//! Core of a real-time audio engine: a directed acyclic signal graph whose
//! nodes exchange multi-channel blocks through typed ports, the buffer
//! algebra (simple, reference, summing, delay-line) that realizes the edges,
//! a scheduler that compiles the graph into a flat execution plan with
//! latency compensation, and a sample player driven over a single-producer
//! single-consumer command queue.

pub mod config;
pub mod sample;
pub mod buffer;
pub mod graph;
pub mod schedule;
pub mod player;
pub mod node_builder;
pub mod util;
