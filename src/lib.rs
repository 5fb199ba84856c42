//! A tag-based view of a directory tree: every file is reachable under each
//! combination of the directory names above it, taken in any order.

pub mod attr;
pub mod path;
pub mod index;
pub mod error;
pub mod naming;
pub mod tagfs;
pub mod xattr;
pub mod laws;
