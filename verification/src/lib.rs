use vstd::prelude::*;

pub mod colours;
pub mod data_types;
pub mod error;
pub mod lexer;
pub mod text;
pub mod number;
pub mod parser;
pub mod graph;
pub mod model;
pub mod scene;
pub mod layout;

verus! {

/// Whether node positions come from Graphviz (`pos` attributes in the DOT
/// source) rather than from the built-in layered layout.
pub const GRAPHVIZ_LAYOUT: bool = true;

/// The layout mode the viewer runs in.
pub fn is_graphviz_layout() -> (b: bool)
    ensures
        b == GRAPHVIZ_LAYOUT,
{
    GRAPHVIZ_LAYOUT
}

} // verus!
