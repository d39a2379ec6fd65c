//! Differences: values that accumulate, and the consolidation of weighted updates.

pub mod difference;
pub mod operators;
pub mod updates;

pub use difference::Diff;
pub use operators::consolidate::{Consolidate, ConsolidateStream};
pub use operators::count::CountTotal;
