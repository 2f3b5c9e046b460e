//! Finding directories that hold nothing but (transitively) empty directories,
//! and deciding the order in which they can be removed.

pub mod tree;
pub mod scan;
pub mod laws;
