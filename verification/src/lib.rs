//! Integer and text core of a low-Earth-orbit space situational awareness
//! simulation: track lifecycle rules, ground-truth bookkeeping, benchmark
//! statistics, object naming and two-line element set framing.

pub mod collision;
pub mod bench;
pub mod naming;
pub mod objects;
pub mod ground_truth;
pub mod config;
pub mod state;
pub mod text;
pub mod celestrak;
pub mod tracker;
pub mod spatial;
pub mod sim;
pub mod file_io;
pub mod sensor;
pub mod passive;
pub mod association;
