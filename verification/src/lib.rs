//! Analytics over the Higgs-boson Twitter interaction graph: a directed,
//! time-stamped, typed edge list is ingested into an immutable adjacency
//! structure, and a fixed set of descriptive questions is answered over it —
//! extremal timestamps, activity ranking, single-source reachability, layer
//! assignment by multi-source search from the root set, and per-layer
//! aggregation.

pub mod bfs;
pub mod graph;
pub mod idmap;
pub mod ingest;
pub mod layers;
pub mod ranker;
pub mod temporal;
