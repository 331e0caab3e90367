//! A knowledge graph over a vault of interlinked plain-text notes.
//!
//! The vault is handed in as scanned notes (relative path and text); the
//! functions here extract tags and wiki links, resolve links against the set
//! of note paths, and derive the reports: tag frequencies, the link table,
//! orphans, backlinks and summary statistics.

pub mod text;
pub mod links;
pub mod tags;
pub mod order;
pub mod vault;
pub mod graph;
pub mod tally;
pub mod stats;
