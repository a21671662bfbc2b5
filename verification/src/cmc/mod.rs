pub mod validate;
pub mod document;
pub mod graph;
