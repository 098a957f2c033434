//! Small shared utilities.

pub mod interner;
