//! Finding duplicate files: a depth-first directory walk driven step by step,
//! grouping by length, refinement of each length bucket by content digest,
//! summary counts and a deterministic presentation order.

pub mod checksum;
pub mod walker;
pub mod duplicates;
pub mod summary;
pub mod order;
