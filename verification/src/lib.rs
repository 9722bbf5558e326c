//! A verified core for browsing a catalog of interrelated entities.
//!
//! The crate turns a flat snapshot of parsed entities into navigable
//! structure: canonical reference parsing and an existence index,
//! per-entity relationship graphs with inferred incoming edges, and a
//! hierarchical domain/system tree with orphan handling.

pub mod docs;
pub mod entity;
pub mod graph;
pub mod text;
pub mod tree;
pub mod value;
