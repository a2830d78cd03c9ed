//! Content-derived fingerprints for filesystem trees.
//!
//! Every node of a tree (file, directory, symbolic link) gets a fixed-size
//! digest: a file is hashed by its bytes, a symlink by its target text under a
//! distinct salt, and a directory by the canonically ordered (name,
//! child-fingerprint) pairs of its non-skipped children under another salt.
//! Equal fingerprints then surface duplicate files and duplicate subtrees.

pub mod digest;
pub mod hexfmt;
pub mod model;
pub mod order;
pub mod scan;
pub mod valid;
