//! A de Bruijn graph whose edges are given order labels so that as many edges
//! as possible lie on a cycle of labeled edges.
pub mod model;
pub mod graph;
pub mod text;

pub use graph::Graph;
pub use graph::GraphError;
pub use graph::maximize_cycle_labeling;
pub use model::Edge;
pub use text::to_str_with_base;
