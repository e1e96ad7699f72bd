//! The walk, without the disk.
//!
//! # Shape of the algorithm
//!
//! One task per directory. A task reads its directory, turns each record into
//! an entry of a **chunk** (a flat `Vec` of entries plus one shared name
//! buffer), and publishes the chunk into its pre-reserved slot together with
//! one task per subdirectory.
//!
//! A second, single-threaded pass then *flattens* the chunks into the
//! breadth-first arena the rest of the program uses. Because a chunk holds all
//! the children of one directory contiguously, flattening is a plain queue
//! walk: pop a node, append its chunk, record the child range.

pub mod agree;
pub mod assemble;
pub mod bulk;
pub mod chunk;
pub mod collect;
pub mod counts;
pub mod entry;
pub mod flatten;
pub mod links;
pub mod listing;
pub mod once;
pub mod options;
pub mod place;
pub mod posix;
pub mod spare;
pub mod stats;
pub mod tally;
pub mod walk;
pub mod whole;

pub use entry::Ent;
pub use options::{Progress, ScanOptions};
