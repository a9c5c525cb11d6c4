//! A hierarchical tag index over a directory tree, and a boolean query
//! language over the tags.

pub mod idset;
pub mod path;
pub mod query;
pub mod rpc;
pub mod shelf;
pub mod tag;
