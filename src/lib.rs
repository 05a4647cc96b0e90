//! A metrics push gateway's core: an exposition-format parser, a metric store with
//! all-or-nothing, last-write-wins merges and a deterministic renderer, and a cluster
//! router that assigns each job to one node by rendezvous hashing.
use vstd::prelude::*;

pub mod keyed;
pub mod router;
pub mod labels;
pub mod store;
pub mod exposition;
pub mod routes;
pub mod laws;

verus! {

} // verus!
