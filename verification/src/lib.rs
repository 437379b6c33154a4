//! A replicated first-in, first-out queue: each node turns its operations
//! into events with vector clocks, applies the events of other nodes under a
//! causality gate, turns duplicates away, keeps early events in a reorder
//! buffer and records every applied operation in an append-only log.

pub mod applied;
pub mod buffer;
pub mod clock;
pub mod engine;
pub mod event;
pub mod ids;
pub mod jsonl;
pub mod log;
pub mod model;
pub mod node_map;
pub mod queue;
pub mod theorems;
