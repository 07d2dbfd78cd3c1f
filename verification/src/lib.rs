//! An in-memory store of keyed nodes joined by parent and child relations,
//! grouped into policy-enforcing structures.

pub mod database;
pub mod graph;
pub mod node;
pub mod policy;
pub mod snapshot;
pub mod structure;
pub mod symmetry;
pub mod text;
