//! Stereo dynamics processing and reversible port-graph splicing.
//!
//! The crate has two halves. `dynamics` holds the per-sample compression
//! algorithm (an asymmetric attack/release envelope follower driving a
//! feedback gain computer) together with the stateless hard-limiter mode,
//! both over fixed-point sample values. `graph` models the host audio
//! server's connection graph as a set of directed edges, and `rewire`
//! computes and applies the transient splice that routes an existing
//! signal path through the processor and later restores it.

pub mod dynamics;
pub mod graph;
pub mod limiter;
pub mod rewire;
