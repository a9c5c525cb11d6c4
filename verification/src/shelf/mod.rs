//! The tag tree: files, directory nodes, and the shelf that owns them.

pub mod file;
pub mod index;
pub mod laws;
pub mod model;
pub mod node;
pub mod shelf;
