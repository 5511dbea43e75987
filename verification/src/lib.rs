//! Loading, merging and resolving configuration values.
//!
//! Configuration documents are trees of mappings, sequences and scalars.
//! Several documents are merged into one tree, and string values that hold
//! template expressions referring to other values are rendered in an order
//! in which every value is rendered after the values it refers to.

pub mod cycle;
pub mod digraph;
pub mod extractor;
pub mod graph;
pub mod load;
pub mod merge;
pub mod path;
pub mod renderer;
pub mod resolver;
pub mod text;
pub mod traits;
pub mod value;
