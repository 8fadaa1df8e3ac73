//! Character-mention scanning and interaction-graph engine for manuscripts.
//!
//! The library compiles a cast roster into a multi-pattern scanner, finds
//! character mentions in chapter text, caches per-chapter scan results, and
//! aggregates mentions into a weighted social graph with connectivity metrics.

pub mod coordinator;
mod ids;
pub mod graph;
pub mod indexer;
pub mod models;
pub mod research;
pub mod scanner;
pub mod storage;
pub mod text;
pub mod validation;
pub mod unionfind;
