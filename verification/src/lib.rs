//! Building blocks of a text ingestion tool: ASCII-safe JSON quoting,
//! collision-free identifiers, token-budget chunking, reply segmentation,
//! point assembly and the decision logic of an ingestion run.

pub mod error;
pub mod escape;
pub mod ids;
pub mod chunk;
pub mod segment;
pub mod points;
pub mod chat;
pub mod pipeline;
pub mod trace;
