//! An interactive catalog of birds organised by a biological taxonomy.
//!
//! The tree lives in a node arena: groups and birds refer to each
//! other by index, parents always sitting at smaller indices than
//! their children. `birds` holds the tree and its operations —
//! searching by name, enumerating a subtree, adding groups and birds;
//! `names` the case- and whitespace-insensitive name comparison;
//! `records` the persisted form of a bird and the ingest path; `laws`
//! the proofs of the properties the operations promise together.

pub mod names;
pub mod birds;
pub mod records;
pub mod laws;
