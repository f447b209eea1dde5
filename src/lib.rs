//! Packs a project's build outputs and assets into one archive: the catalog of
//! files to pack, the collector that walks directory trees into it, the scanner
//! that reads a build tool's log for produced files, and the plan that the
//! archive writer follows.

pub mod catalog;
pub mod error;
pub mod output;
pub mod path;
pub mod scan;
pub mod text;
