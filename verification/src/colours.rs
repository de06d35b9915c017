use vstd::prelude::*;

use crate::data_types::Colour;

verus! {

/// The palette of the graph at rest.
pub struct Colours {
    pub node: Colour,
    pub edge: Colour,
    pub text: Colour,
}

/// The palette of a highlighted graph.
pub struct ColoursHighlighted {
    pub node_hover: Colour,
    pub node_upstream: Colour,
    pub node_downstream: Colour,
    pub edge_upstream: Colour,
    pub edge_downstream: Colour,
    pub text: Colour,
}

/// The resting palette: a neutral grey.
pub fn colours() -> (c: Colours)
    ensures
        c.node == 0x37415155,
        c.edge == 0xD1D5DB55,
        c.text == 0x37415135,
{
    Colours { node: 0x37415155, edge: 0xD1D5DB55, text: 0x37415135 }
}

/// The highlight palette.
pub fn colours_highlight() -> (c: ColoursHighlighted)
    ensures
        c.node_hover == 0x7C3AEDFF,
        c.node_upstream == 0x2563EBFF,
        c.edge_upstream == 0x60A5FAFF,
        c.node_downstream == 0xDB2777FF,
        c.edge_downstream == 0xF472B6FF,
        c.text == 0x000000FF,
{
    ColoursHighlighted {
        node_hover: 0x7C3AEDFF,
        node_upstream: 0x2563EBFF,
        edge_upstream: 0x60A5FAFF,
        node_downstream: 0xDB2777FF,
        edge_downstream: 0xF472B6FF,
        text: 0x000000FF,
    }
}

} // verus!
