//! Disk-usage analysis of a directory tree, its division into
//! size-proportional slots for a treemap, and per-extension totals for a
//! colour legend.
pub mod analyze;
pub mod legend;
pub mod order;
pub mod partition;
pub mod tally;

pub use analyze::{AnalyzedDir, AnalyzedFile, AnalyzedItem, AnalyzedSymlink, Context};
