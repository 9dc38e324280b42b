//! Bounded-neighbourhood extraction on sequence graphs.
//!
//! A sequence graph store keeps DNA segments as nodes and their adjacencies as
//! undirected edges. For one structural-variant bubble the extraction engine
//! pulls out the surrounding subgraph whose size is tied to the bubble's own
//! size.

pub mod adjacency;
pub mod ident;
pub mod gfa;
pub mod vcf;
pub mod search;
pub mod search_proofs;
pub mod bfs;
pub mod scaling;
pub mod export;
pub mod gml;
pub mod echart;
pub mod gml_text;
pub mod readback;
