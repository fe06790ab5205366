//! Auditing of a manual-page corpus: a registry of pages, a simulation of
//! section relocation, a report of pages shared between sibling sections and
//! a scanner for cross-references in page bodies.

pub mod audit;
pub mod command;
pub mod conflicts;
pub mod contents;
pub mod foreign;
pub mod ingest;
pub mod order;
pub mod record;
pub mod registry;
pub mod relocate;
pub mod snapshot;
pub mod text;
pub mod xref;
