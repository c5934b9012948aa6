//! Graph editing and analysis engine, with a Markdown-to-HTML renderer.
//!
//! The graph model, its editing operations, the preset generators and every
//! analysis (connectivity, distances, bipartiteness, colouring, exact
//! independent set and clique search) are verified against the
//! specifications written beside them.
use vstd::prelude::*;

pub mod analysis;
pub mod cli;
pub mod coloring;
pub mod degrees;
pub mod exact;
pub mod graph;
pub mod laws;
pub mod presets;
pub mod markdown;
pub mod search;
pub mod shapes;
pub mod walks;

pub use graph::{Edge, Graph, Vertex};
pub use markdown::render_markdown;

verus! {

} // verus!
