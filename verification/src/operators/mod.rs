//! Operators on collections of weighted updates.

pub mod consolidate;
pub mod count;
