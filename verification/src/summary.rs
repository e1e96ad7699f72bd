//! Per-kind and per-file rollups for whatever subtree is on screen.
//!
//! Both are recomputed when the view changes rather than cached per node: a
//! whole-tree pass is a linear scan of a flat vector and a drilled-in pass only
//! touches that subtree, so the caching would cost more memory than it saves
//! time.

pub mod folders;
pub mod largest;
pub mod listed;
pub mod subtree;
pub mod totals;

pub use folders::children_by_size;
pub use largest::largest_files;
pub use subtree::{for_each_in_subtree, subtree_len};
pub use totals::{kind_totals, kind_totals_parallel, KindTotal};
