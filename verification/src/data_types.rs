use vstd::prelude::*;

verus! {

/// An RGBA colour packed big-endian into a `u32`: red in the high byte,
/// alpha (transparency) in the low byte.
pub type Colour = u32;

/// The index of a node in a model's node list.
pub type NodeHandle = usize;

/// The colour with its alpha byte replaced by `transparency`.
pub open spec fn with_alpha(c: Colour, transparency: u8) -> Colour {
    ((c & 0xFFFF_FF00u32) | (transparency as u32)) as u32
}

pub trait ColourExt {
    /// The packed value of the colour.
    spec fn spec_value(&self) -> u32;

    /// Replaces the alpha byte of the colour.
    fn set_transparency(&mut self, transparency: u8)
        ensures
            final(self).spec_value() == with_alpha(old(self).spec_value(), transparency),
    ;
}

impl ColourExt for Colour {
    open spec fn spec_value(&self) -> u32 {
        *self
    }

    fn set_transparency(&mut self, transparency: u8) {
        *self = (*self & 0xFFFF_FF00u32) | (transparency as u32);
    }
}

/// Setting the transparency puts it in the alpha byte and leaves the red,
/// green and blue bytes as they were.
pub proof fn lemma_alpha_set(c: Colour, transparency: u8)
    ensures
        with_alpha(c, transparency) & 0xFFu32 == transparency as u32,
        with_alpha(c, transparency) >> 8u32 == c >> 8u32,
{
    let t = transparency as u32;
    assert((((c & 0xFFFF_FF00u32) | t) as u32) & 0xFFu32 == t && (((c & 0xFFFF_FF00u32) | t) as u32) >> 8u32 == c >> 8u32) by (bit_vector)
        requires
            t < 256,
    ;
}

/// Of two transparencies set one after the other, the last one stands.
pub proof fn lemma_alpha_last_wins(c: Colour, first: u8, second: u8)
    ensures
        with_alpha(with_alpha(c, first), second) == with_alpha(c, second),
{
    let t1 = first as u32;
    let t2 = second as u32;
    assert((((((c & 0xFFFF_FF00u32) | t1) as u32) & 0xFFFF_FF00u32) | t2) as u32 == ((c & 0xFFFF_FF00u32) | t2) as u32) by (bit_vector)
        requires
            t1 < 256,
            t2 < 256,
    ;
}

/// Horizontal distance in world units between two layout columns.
pub const COLUMN_WIDTH: u64 = 1000;

/// Vertical distance in world units between two rows of a layout column.
pub const ROW_HEIGHT: u64 = 100;

/// Default colour of a line segment.
pub const LINE_COLOUR: Colour = 0x00000055;

/// Default fill colour of a node.
pub const NODE_COLOUR: Colour = 0xFF000055;

/// Default label colour of a node.
pub const NODE_LABEL_COLOUR: Colour = 0x00000055;

/// Radius of a node's circle, in world units.
pub const NODE_RADIUS: u32 = 30;

/// Label size of a node.
pub const NODE_LABEL_SIZE: u32 = 10;

/// A point in world space, as the library knows it: a cell of the layered
/// layout (world coordinates `COLUMN_WIDTH * column`, `ROW_HEIGHT * row`), or
/// a coordinate pair as the DOT source writes it.
#[derive(Debug)]
pub enum Position {
    Grid { column: usize, row: usize },
    Written { x: String, y: String },
}

/// The mathematical value of a [`Position`].
pub enum PositionView {
    Grid { column: usize, row: usize },
    Written { x: Seq<char>, y: Seq<char> },
}

impl View for Position {
    type V = PositionView;

    open spec fn view(&self) -> PositionView {
        match self {
            Position::Grid { column, row } => PositionView::Grid { column: *column, row: *row },
            Position::Written { x, y } => PositionView::Written { x: x@, y: y@ },
        }
    }
}

impl Position {
    /// The origin of world space.
    pub fn origin() -> (p: Position)
        ensures
            p@ == (PositionView::Grid { column: 0, row: 0 }),
    {
        Position::Grid { column: 0, row: 0 }
    }

    /// A copy of the position.
    pub fn duplicate(&self) -> (p: Position)
        ensures
            p@ == self@,
    {
        match self {
            Position::Grid { column, row } => Position::Grid { column: *column, row: *row },
            Position::Written { x, y } => Position::Written { x: x.clone(), y: y.clone() },
        }
    }
}

/// A straight line segment between two points.
#[derive(Debug)]
pub struct Line {
    pub a: Position,
    pub b: Position,
    pub colour: Colour,
}

/// The mathematical value of a [`Line`].
pub struct LineView {
    pub a: PositionView,
    pub b: PositionView,
    pub colour: Colour,
}

impl View for Line {
    type V = LineView;

    open spec fn view(&self) -> LineView {
        LineView { a: self.a@, b: self.b@, colour: self.colour }
    }
}

impl Line {
    /// A segment from `a` to `b` in the default line colour.
    pub fn new(a: Position, b: Position) -> (l: Line)
        ensures
            l@ == (LineView { a: a@, b: b@, colour: LINE_COLOUR }),
    {
        Line { a, b, colour: LINE_COLOUR }
    }
}

/// A drawn edge from node `from` to node `to`, as a chain of segments.
#[derive(Debug)]
pub struct Path {
    pub from: NodeHandle,
    pub to: NodeHandle,
    pub line_segments: Vec<Line>,
}

/// The mathematical value of a [`Path`].
pub struct PathView {
    pub from: NodeHandle,
    pub to: NodeHandle,
    pub line_segments: Seq<LineView>,
}

/// The views of a sequence of segments.
pub open spec fn lines_view(ls: Seq<Line>) -> Seq<LineView> {
    ls.map_values(|l: Line| l@)
}

impl View for Path {
    type V = PathView;

    open spec fn view(&self) -> PathView {
        PathView { from: self.from, to: self.to, line_segments: lines_view(self.line_segments@) }
    }
}

impl Path {
    /// A path without segments from `from` to `to`. The target comes first.
    pub fn new(to: NodeHandle, from: NodeHandle) -> (p: Path)
        ensures
            p@ == (PathView { from, to, line_segments: Seq::empty() }),
    {
        let p = Path { from: from, to: to, line_segments: Vec::new() };
        assert(lines_view(p.line_segments@) =~= Seq::<LineView>::empty());
        p
    }
}

/// The views of a sequence of paths.
pub open spec fn paths_view(ps: Seq<Path>) -> Seq<PathView> {
    ps.map_values(|p: Path| p@)
}

/// A node of the graph. A fake node is a bend point that the layout inserts
/// where an edge crosses a layer; it is not drawn.
#[derive(Debug)]
pub struct Node {
    pub is_fake_node: bool,
    pub position: Position,
    pub radius: u32,
    pub colour: Colour,
    pub label: String,
    pub label_size: u32,
    pub label_colour: Colour,
    /// Indices of the paths that leave this node.
    pub edges: Vec<usize>,
    /// Handles of the nodes this node points to.
    pub dependents: Vec<usize>,
    pub bicone: bool,
    /// The node's name in the DOT source.
    pub id: String,
    /// Where a click on the node leads.
    pub link: Option<String>,
}

/// The mathematical value of a [`Node`].
pub struct NodeView {
    pub is_fake_node: bool,
    pub position: PositionView,
    pub radius: u32,
    pub colour: Colour,
    pub label: Seq<char>,
    pub label_size: u32,
    pub label_colour: Colour,
    pub edges: Seq<usize>,
    pub dependents: Seq<usize>,
    pub bicone: bool,
    pub id: Seq<char>,
    pub link: Option<Seq<char>>,
}

/// The view of an optional string.
pub open spec fn opt_string_view(o: Option<String>) -> Option<Seq<char>> {
    match o {
        Some(s) => Some(s@),
        None => None,
    }
}

impl View for Node {
    type V = NodeView;

    open spec fn view(&self) -> NodeView {
        NodeView {
            is_fake_node: self.is_fake_node,
            position: self.position@,
            radius: self.radius,
            colour: self.colour,
            label: self.label@,
            label_size: self.label_size,
            label_colour: self.label_colour,
            edges: self.edges@,
            dependents: self.dependents@,
            bicone: self.bicone,
            id: self.id@,
            link: opt_string_view(self.link),
        }
    }
}

/// A fresh node named and labelled `label`, at the origin, with no edges.
pub open spec fn new_node_view(label: Seq<char>) -> NodeView {
    NodeView {
        is_fake_node: false,
        position: PositionView::Grid { column: 0, row: 0 },
        radius: NODE_RADIUS,
        colour: NODE_COLOUR,
        label: label,
        label_size: NODE_LABEL_SIZE,
        label_colour: NODE_LABEL_COLOUR,
        edges: Seq::empty(),
        dependents: Seq::empty(),
        bicone: false,
        id: label,
        link: None,
    }
}

/// A fresh fake node: invisible, unnamed, at the origin.
pub open spec fn fake_node_view() -> NodeView {
    NodeView {
        is_fake_node: true,
        position: PositionView::Grid { column: 0, row: 0 },
        radius: NODE_RADIUS,
        colour: 0x00000000,
        label: Seq::empty(),
        label_size: 0,
        label_colour: 0x00000000,
        edges: Seq::empty(),
        dependents: Seq::empty(),
        bicone: false,
        id: Seq::empty(),
        link: None,
    }
}

/// The views of a sequence of nodes.
pub open spec fn nodes_view(ns: Seq<Node>) -> Seq<NodeView> {
    ns.map_values(|n: Node| n@)
}

impl Node {
    /// A node named and labelled `label`.
    pub fn new(label: &str) -> (n: Node)
        ensures
            n@ == new_node_view(label@),
    {
        let n = Node {
            is_fake_node: false,
            position: Position::origin(),
            radius: NODE_RADIUS,
            colour: NODE_COLOUR,
            label_colour: NODE_LABEL_COLOUR,
            label_size: NODE_LABEL_SIZE,
            edges: Vec::new(),
            label: label.to_owned(),
            dependents: Vec::new(),
            bicone: false,
            id: label.to_owned(),
            link: None,
        };
        assert(n@ =~= new_node_view(label@));
        n
    }

    /// A fake node.
    pub fn new_fake_node() -> (n: Node)
        ensures
            n@ == fake_node_view(),
    {
        let n = Node {
            is_fake_node: true,
            position: Position::origin(),
            radius: NODE_RADIUS,
            colour: 0x00000000,
            label_colour: 0x00000000,
            label_size: 0,
            edges: Vec::new(),
            label: String::new(),
            dependents: Vec::new(),
            bicone: false,
            id: String::new(),
            link: None,
        };
        assert(n@ =~= fake_node_view());
        n
    }
}

/// The text of `bytes` with each byte read as the character of the same code
/// point (Latin-1).
pub open spec fn latin1(bytes: Seq<u8>) -> Seq<char> {
    bytes.map_values(|b: u8| b as char)
}

/// Appends a character to a string (`String::push`).
#[verifier::external_body]
pub(crate) fn push_char(s: &mut String, c: char)
    ensures
        final(s)@ == old(s)@.push(c),
{
    s.push(c);
}

/// The Latin-1 reading of a byte string.
pub fn latin1_string(bytes: &[u8]) -> (s: String)
    ensures
        s@ == latin1(bytes@),
{
    let mut s = String::new();
    let mut i: usize = 0;
    while i < bytes.len()
        invariant
            0 <= i <= bytes@.len(),
            s@ == latin1(bytes@.subrange(0, i as int)),
        decreases bytes@.len() - i,
    {
        push_char(&mut s, bytes[i] as char);
        assert(latin1(bytes@.subrange(0, i + 1)) =~= latin1(bytes@.subrange(0, i as int)).push(
            bytes@[i as int] as char,
        ));
        i = i + 1;
    }
    assert(bytes@.subrange(0, bytes@.len() as int) =~= bytes@);
    s
}

} // verus!
