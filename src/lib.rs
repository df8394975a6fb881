//! Enumerates, in length-then-lexicographic order, every lowercase string
//! lying between two boundary strings.

pub mod model;
pub mod walk;
pub mod laws;
pub mod cursor;
