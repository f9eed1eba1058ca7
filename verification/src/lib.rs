//! Core of a benchmark repository for PACE dominating-set instances: the
//! text codec, the canonicalizer, content-address digests, the solution
//! verifier, the transactional store semantics, and the query planner.
pub mod canonical;
pub mod err;
pub mod filter;
pub mod graph;
pub mod instance_reader;
pub mod query;
pub mod runs;
pub mod instance_writer;
pub mod roundtrip;
pub mod solution;
pub mod sqlgen;
pub mod store;
pub mod text;
