//! The boolean tag-query language.

pub mod engine;
pub mod eval;
pub mod formula;
pub mod laws;
pub mod order;
pub mod parser;
pub mod render;
