//! Intermediate-representation engine for a string-diagram program visualiser.
//!
//! Source expressions are compiled into a hypergraph (a DAG whose edges fan
//! out and whose thunk nodes own nested sub-hypergraphs), which is then
//! layered into ranks and lowered into a monoidal graph: a sequence of slices
//! of parallel operations interleaved with explicit copy/swap wiring layers.

pub mod hypergraph;
pub mod language;
pub mod monoidal;
pub mod monoidal_wired;
pub mod reachability;
pub mod collapse;
pub mod subgraph;
pub mod examples;
pub mod petgraph;
pub mod wiring;
