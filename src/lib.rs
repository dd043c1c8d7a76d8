//! Selective repackaging of chunk containers: the chunk name model, patch
//! chain bookkeeping, the provenance record stamped into generated
//! containers, the rewrite policy, and restore planning.

pub mod chunk;
pub mod chunk_order;
pub mod chunk_text;
pub mod chain;
pub mod metadata;
pub mod pipeline;
pub mod restore;
