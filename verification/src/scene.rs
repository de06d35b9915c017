use std::collections::HashSet;
use vstd::prelude::*;
use vstd::string::StringSliceAdditionalSpecFns;

use crate::data_types::{
    lemma_alpha_last_wins, lines_view, nodes_view, paths_view, with_alpha, ColourExt, LineView, NodeView, PathView,
};
use crate::graph::{graph_wf, source_graph, source_segments_complete};
use crate::GRAPHVIZ_LAYOUT;
use crate::model::{Model, ModelView};

verus! {

broadcast use vstd::std_specs::hash::group_hash_axioms;

/// Alpha of highlighted nodes and edges.
pub const OPAQUE: u8 = 0xFF;

/// Alpha of nodes and edges that are not highlighted.
pub const FADED: u8 = 0x55;

/// The graph as the viewer shows it: the model, and the handles of the
/// nodes it lays out, in drawing order.
pub struct Scene {
    pub nodes: Vec<usize>,
    pub model: Model,
}

/// The mathematical value of a [`Scene`].
pub struct SceneView {
    pub nodes: Seq<usize>,
    pub model: ModelView,
}

impl View for Scene {
    type V = SceneView;

    open spec fn view(&self) -> SceneView {
        SceneView { nodes: self.nodes@, model: self.model@ }
    }
}

impl SceneView {
    /// The model is well formed and every listed handle is a node.
    pub open spec fn wf(self) -> bool {
        &&& self.model.wf()
        &&& forall|i: int| 0 <= i < self.nodes.len() ==> #[trigger] self.nodes[i] < self.model.nodes.len()
    }

    /// What walking the scene's paths and shading its listed nodes reads is
    /// there: every edge a node lists is a path, every path joins two nodes,
    /// and every listed handle is a node.
    pub open spec fn walkable(self) -> bool {
        &&& self.model.walkable()
        &&& forall|i: int| 0 <= i < self.nodes.len() ==> #[trigger] self.nodes[i] < self.model.nodes.len()
    }
}

/// `s` holds the number `e`.
pub open spec fn holds(s: Seq<usize>, e: int) -> bool {
    exists|k: int| 0 <= k < s.len() && s[k] as int == e
}

/// Path `e` touches node `a` on the side that a walk leaves from: it leaves
/// `a` when walking `down` (towards dependents), it arrives at `a` otherwise.
pub open spec fn incident(m: ModelView, down: bool, a: int, e: int) -> bool {
    if down {
        0 <= a < m.nodes.len() && holds(m.nodes[a].edges, e)
    } else {
        0 <= e < m.edges.len() && m.edges[e].to == a
    }
}

/// The node at the other end of path `e` from where a walk enters it.
pub open spec fn far_end(m: ModelView, down: bool, e: int) -> int {
    if down {
        m.edges[e].to as int
    } else {
        m.edges[e].from as int
    }
}

/// One step of a walk: some path leads from `a` to `b` in the direction.
pub open spec fn step(m: ModelView, down: bool, a: int, b: int) -> bool {
    exists|e: int| #[trigger] incident(m, down, a, e) && far_end(m, down, e) == b
}

/// `w` is a walk of at least one node, each step following a path.
pub open spec fn is_walk(m: ModelView, down: bool, w: Seq<int>) -> bool {
    &&& w.len() >= 1
    &&& forall|i: int| 0 <= i < w.len() - 1 ==> #[trigger] step(m, down, w[i], w[i + 1])
}

/// `b` can be reached from `a` following paths downwards (to what `a`
/// depends on) or upwards (to what depends on `a`); every node reaches itself.
pub open spec fn reachable(m: ModelView, down: bool, a: int, b: int) -> bool {
    exists|w: Seq<int>| #[trigger] is_walk(m, down, w) && w[0] == a && w.last() == b
}

/// The paths among the first `i` that arrive at node `v`, in increasing order.
pub open spec fn arriving(m: ModelView, v: int, i: int) -> Seq<usize>
    decreases i,
{
    if i <= 0 {
        Seq::empty()
    } else {
        arriving(m, v, i - 1) + if m.edges[i - 1].to == v {
            seq![(i - 1) as usize]
        } else {
            Seq::<usize>::empty()
        }
    }
}

/// The paths a walk from node `v` steps along, in the order it takes them:
/// downwards the node's own list of edges, upwards the paths that arrive at
/// it, in increasing order.
pub open spec fn step_list(m: ModelView, down: bool, v: int) -> Seq<usize> {
    if down {
        m.nodes[v].edges
    } else {
        arriving(m, v, m.edges.len() as int)
    }
}

/// The step lists of the nodes `ns`, one after the other.
pub open spec fn steps_of(m: ModelView, down: bool, ns: Seq<usize>) -> Seq<usize>
    decreases ns.len(),
{
    if ns.len() == 0 {
        Seq::empty()
    } else {
        steps_of(m, down, ns.drop_last()) + step_list(m, down, ns.last() as int)
    }
}

/// A node is highlighted when `handle` is hovered: it lies downstream or
/// upstream of `handle`.
pub open spec fn node_highlighted(m: ModelView, handle: int, h: int) -> bool {
    reachable(m, true, handle, h) || reachable(m, false, handle, h)
}

/// The paths met on the walks from `handle` in the direction: those leaving
/// (downwards) or entering (upwards) a node reached from `handle`.
pub open spec fn edge_reached(m: ModelView, down: bool, handle: int, e: int) -> bool {
    exists|v: int| #[trigger] reachable(m, down, handle, v) && incident(m, down, v, e)
}

/// A path is highlighted when `handle` is hovered.
pub open spec fn edge_highlighted(m: ModelView, handle: int, e: int) -> bool {
    edge_reached(m, true, handle, e) || edge_reached(m, false, handle, e)
}

proof fn lemma_reach_self(m: ModelView, down: bool, a: int)
    ensures
        reachable(m, down, a, a),
{
    let w = seq![a];
    assert(is_walk(m, down, w));
}

proof fn lemma_reach_step(m: ModelView, down: bool, a: int, v: int, e: int)
    requires
        reachable(m, down, a, v),
        incident(m, down, v, e),
    ensures
        reachable(m, down, a, far_end(m, down, e)),
{
    let w = choose|w: Seq<int>| #[trigger] is_walk(m, down, w) && w[0] == a && w.last() == v;
    let w2 = w.push(far_end(m, down, e));
    assert(step(m, down, v, far_end(m, down, e)));
    assert forall|i: int| 0 <= i < w2.len() - 1 implies #[trigger] step(m, down, w2[i], w2[i + 1]) by {
        if i < w.len() - 1 {
            assert(w2[i] == w[i] && w2[i + 1] == w[i + 1]);
        }
    }
    assert(is_walk(m, down, w2));
}

/// A set that holds `a` and is closed under steps holds every node
/// reachable from `a`.
proof fn lemma_closed_holds_reachable(m: ModelView, down: bool, s: Set<usize>, a: int, b: int)
    requires
        0 <= a <= usize::MAX,
        s.contains(a as usize),
        forall|v: usize, e: int|
            s.contains(v) && #[trigger] incident(m, down, v as int, e) ==> 0 <= far_end(m, down, e)
                <= usize::MAX && s.contains(far_end(m, down, e) as usize),
        reachable(m, down, a, b),
    ensures
        0 <= b <= usize::MAX && s.contains(b as usize),
{
    let w = choose|w: Seq<int>| #[trigger] is_walk(m, down, w) && w[0] == a && w.last() == b;
    lemma_walk_prefix_in(m, down, s, w, w.len() - 1);
}

proof fn lemma_walk_prefix_in(m: ModelView, down: bool, s: Set<usize>, w: Seq<int>, k: int)
    requires
        is_walk(m, down, w),
        0 <= k < w.len(),
        0 <= w[0] <= usize::MAX && s.contains(w[0] as usize),
        forall|v: usize, e: int|
            s.contains(v) && #[trigger] incident(m, down, v as int, e) ==> 0 <= far_end(m, down, e)
                <= usize::MAX && s.contains(far_end(m, down, e) as usize),
    ensures
        0 <= w[k] <= usize::MAX && s.contains(w[k] as usize),
    decreases k,
{
    if k > 0 {
        lemma_walk_prefix_in(m, down, s, w, k - 1);
        let j = k - 1;
        assert(step(m, down, w[j], w[j + 1]));
        let e = choose|e: int| #[trigger] incident(m, down, w[j], e) && far_end(m, down, e) == w[j + 1];
        assert(incident(m, down, (w[j] as usize) as int, e));
    }
}

/// The node with its fill alpha set to opaque when `lit` holds and faded
/// otherwise.
pub open spec fn shaded_node(n: NodeView, lit: bool) -> NodeView {
    NodeView { colour: with_alpha(n.colour, if lit { OPAQUE } else { FADED }), ..n }
}

/// The segment with its alpha set to `t`.
pub open spec fn shaded_line(l: LineView, t: u8) -> LineView {
    LineView { colour: with_alpha(l.colour, t), ..l }
}

/// The path with the alpha of every segment set to opaque when `lit` holds
/// and faded otherwise.
pub open spec fn shaded_path(p: PathView, lit: bool) -> PathView {
    PathView {
        line_segments: p.line_segments.map_values(
            |l: LineView| shaded_line(l, if lit { OPAQUE } else { FADED }),
        ),
        ..p
    }
}

proof fn lemma_incident_in_range(m: ModelView, down: bool, a: int, e: int)
    requires
        m.walkable(),
        incident(m, down, a, e),
    ensures
        0 <= e < m.edges.len(),
        0 <= far_end(m, down, e) < m.nodes.len(),
{
    if down {
        let k = choose|k: int| 0 <= k < m.nodes[a].edges.len() && m.nodes[a].edges[k] as int == e;
        assert(m.nodes[a].edges[k] < m.edges.len());
    }
}

/// The scene once node `handle` is hovered: every listed node gets an opaque
/// fill if it lies downstream or upstream of `handle` and a faded one
/// otherwise, every path gets opaque segments if it is met on the walks
/// from `handle` and faded ones otherwise; nothing else changes.
pub open spec fn highlighted(s: SceneView, handle: int) -> SceneView {
    SceneView {
        nodes: s.nodes,
        model: ModelView {
            nodes: Seq::new(
                s.model.nodes.len(),
                |h: int|
                    if holds(s.nodes, h) {
                        shaded_node(s.model.nodes[h], node_highlighted(s.model, handle, h))
                    } else {
                        s.model.nodes[h]
                    },
            ),
            edges: Seq::new(
                s.model.edges.len(),
                |e: int| shaded_path(s.model.edges[e], edge_highlighted(s.model, handle, e)),
            ),
        },
    }
}

/// Two models whose nodes list the same paths, and whose paths join the same
/// nodes, have the same walks.
proof fn lemma_same_walks(m1: ModelView, m2: ModelView)
    requires
        m1.walkable(),
        m1.nodes.len() == m2.nodes.len(),
        m1.edges.len() == m2.edges.len(),
        forall|a: int| 0 <= a < m1.nodes.len() ==> #[trigger] m2.nodes[a].edges == m1.nodes[a].edges,
        forall|e: int|
            #![trigger m2.edges[e]]
            0 <= e < m1.edges.len() ==> m2.edges[e].from == m1.edges[e].from && m2.edges[e].to == m1.edges[e].to,
    ensures
        forall|down: bool, a: int, b: int| #[trigger] reachable(m2, down, a, b) == reachable(m1, down, a, b),
        forall|down: bool, h: int, e: int| #[trigger] edge_reached(m2, down, h, e) == edge_reached(m1, down, h, e),
{
    assert forall|down: bool, a: int, e: int| #[trigger] incident(m2, down, a, e) == incident(m1, down, a, e) by {
        if down && 0 <= a < m1.nodes.len() {
            assert(m2.nodes[a].edges == m1.nodes[a].edges);
        }
        if !down && 0 <= e < m1.edges.len() {
            assert(m2.edges[e].to == m1.edges[e].to);
        }
    }
    assert forall|down: bool, a: int, b: int| #[trigger] step(m2, down, a, b) == step(m1, down, a, b) by {
        if step(m1, down, a, b) {
            let e = choose|e: int| #[trigger] incident(m1, down, a, e) && far_end(m1, down, e) == b;
            lemma_incident_in_range(m1, down, a, e);
            assert(incident(m2, down, a, e));
            assert(m2.edges[e].from == m1.edges[e].from && m2.edges[e].to == m1.edges[e].to);
        }
        if step(m2, down, a, b) {
            let e = choose|e: int| #[trigger] incident(m2, down, a, e) && far_end(m2, down, e) == b;
            assert(incident(m1, down, a, e));
            lemma_incident_in_range(m1, down, a, e);
            assert(m2.edges[e].from == m1.edges[e].from && m2.edges[e].to == m1.edges[e].to);
        }
    }
    assert forall|down: bool, w: Seq<int>| #[trigger] is_walk(m2, down, w) == is_walk(m1, down, w) by {
        if is_walk(m1, down, w) {
            assert forall|i: int| 0 <= i < w.len() - 1 implies #[trigger] step(m2, down, w[i], w[i + 1]) by {
                assert(step(m1, down, w[i], w[i + 1]));
            }
        }
        if is_walk(m2, down, w) {
            assert forall|i: int| 0 <= i < w.len() - 1 implies #[trigger] step(m1, down, w[i], w[i + 1]) by {
                assert(step(m2, down, w[i], w[i + 1]));
            }
        }
    }
    assert forall|down: bool, a: int, b: int| #[trigger] reachable(m2, down, a, b) == reachable(m1, down, a, b) by {
        if reachable(m1, down, a, b) {
            let w = choose|w: Seq<int>| #[trigger] is_walk(m1, down, w) && w[0] == a && w.last() == b;
            assert(is_walk(m2, down, w));
        }
        if reachable(m2, down, a, b) {
            let w = choose|w: Seq<int>| #[trigger] is_walk(m2, down, w) && w[0] == a && w.last() == b;
            assert(is_walk(m1, down, w));
        }
    }
    assert forall|down: bool, h: int, e: int| #[trigger] edge_reached(m2, down, h, e) == edge_reached(m1, down, h, e) by {
        if edge_reached(m1, down, h, e) {
            let v = choose|v: int| #[trigger] reachable(m1, down, h, v) && incident(m1, down, v, e);
            assert(reachable(m2, down, h, v) && incident(m2, down, v, e));
        }
        if edge_reached(m2, down, h, e) {
            let v = choose|v: int| #[trigger] reachable(m2, down, h, v) && incident(m2, down, v, e);
            assert(reachable(m1, down, h, v) && incident(m1, down, v, e));
        }
    }
}

/// Hovering leaves a well-formed scene well formed.
pub proof fn lemma_highlighted_wf(s: SceneView, handle: int)
    requires
        s.wf(),
    ensures
        highlighted(s, handle).wf(),
{
    let t = highlighted(s, handle);
    let m = s.model;
    assert forall|n: int, j: int| 0 <= n < t.model.nodes.len() && 0 <= j < t.model.nodes[n].dependents.len() implies #[trigger] t.model.nodes[n].dependents[j]
        < t.model.nodes.len() by {
        assert(t.model.nodes[n].dependents == m.nodes[n].dependents);
    }
    assert forall|n: int, j: int| 0 <= n < t.model.nodes.len() && 0 <= j < t.model.nodes[n].edges.len() implies {
        &&& #[trigger] t.model.nodes[n].edges[j] < t.model.edges.len()
        &&& t.model.edges[t.model.nodes[n].edges[j] as int].from == n
    } by {
        assert(t.model.nodes[n].edges == m.nodes[n].edges);
        assert(m.nodes[n].edges[j] < m.edges.len());
    }
    assert forall|i: int| 0 <= i < t.model.edges.len() implies {
        &&& (#[trigger] t.model.edges[i]).from < t.model.nodes.len()
        &&& t.model.edges[i].to < t.model.nodes.len()
        &&& t.model.nodes[t.model.edges[i].from as int].edges.contains(i as usize)
    } by {
        assert(t.model.edges[i].from == m.edges[i].from);
        assert(t.model.nodes[m.edges[i].from as int].edges == m.nodes[m.edges[i].from as int].edges);
    }
}

/// The last hover decides what is highlighted: hovering node `b` after node
/// `a` leaves the scene as hovering `b` alone does. In particular hovering
/// the same node twice changes nothing more.
pub proof fn lemma_last_hover_decides(s: SceneView, a: int, b: int)
    requires
        s.model.walkable(),
    ensures
        highlighted(highlighted(s, a), b) == highlighted(s, b),
{
    let t = highlighted(s, a);
    let m = s.model;
    lemma_same_walks(m, t.model);
    let lhs = highlighted(t, b);
    let rhs = highlighted(s, b);
    assert forall|h: int| 0 <= h < m.nodes.len() implies #[trigger] lhs.model.nodes[h] == rhs.model.nodes[h] by {
        assert(node_highlighted(t.model, b, h) == node_highlighted(m, b, h));
        if holds(s.nodes, h) {
            let x = if node_highlighted(m, a, h) { OPAQUE } else { FADED };
            let y = if node_highlighted(m, b, h) { OPAQUE } else { FADED };
            lemma_alpha_last_wins(m.nodes[h].colour, x, y);
        }
    }
    assert(lhs.model.nodes =~= rhs.model.nodes);
    assert forall|e: int| 0 <= e < m.edges.len() implies #[trigger] lhs.model.edges[e] == rhs.model.edges[e] by {
        assert(edge_highlighted(t.model, b, e) == edge_highlighted(m, b, e));
        let x = if edge_highlighted(m, a, e) { OPAQUE } else { FADED };
        let y = if edge_highlighted(m, b, e) { OPAQUE } else { FADED };
        let segs = m.edges[e].line_segments;
        assert(lhs.model.edges[e].line_segments =~= rhs.model.edges[e].line_segments) by {
            assert forall|k: int| 0 <= k < segs.len() implies lhs.model.edges[e].line_segments[k] == rhs.model.edges[e].line_segments[k] by {
                lemma_alpha_last_wins(segs[k].colour, x, y);
            }
        }
    }
    assert(lhs.model.edges =~= rhs.model.edges);
}

/// The hovered node, when listed, is drawn opaque.
pub proof fn lemma_hovered_node_lit(s: SceneView, handle: int)
    requires
        0 <= handle < s.model.nodes.len(),
        holds(s.nodes, handle),
    ensures
        highlighted(s, handle).model.nodes[handle] == shaded_node(s.model.nodes[handle], true),
{
    lemma_reach_self(s.model, true, handle);
}

impl Scene {
    /// The scene of the graph that the DOT text `src` describes, with no
    /// node listed for drawing order yet.
    pub fn new(src: &str) -> (s: Scene)
        requires
            source_graph(src.spec_bytes(), GRAPHVIZ_LAYOUT) is Ok,
            source_segments_complete(src.spec_bytes(), GRAPHVIZ_LAYOUT),
        ensures
            source_graph(src.spec_bytes(), GRAPHVIZ_LAYOUT) == Ok::<
                (Seq<NodeView>, Seq<PathView>),
                crate::error::ParseErrorView,
            >((s@.model.nodes, s@.model.edges)),
            s@.nodes.len() == 0,
            s@.wf(),
    {
        Scene { nodes: Vec::new(), model: Model::from_source(src) }
    }

    /// An empty scene.
    pub fn new_default() -> (s: Scene)
        ensures
            s@.nodes.len() == 0,
            s@.model.nodes.len() == 0,
            s@.model.edges.len() == 0,
    {
        Scene { nodes: Vec::new(), model: Model::new_default() }
    }

    /// The indices of the paths that arrive at `handle`, in increasing order.
    fn get_incoming_edges(&self, handle: usize) -> (out: Vec<usize>)
        ensures
            forall|e: int|
                0 <= e < self@.model.edges.len() ==> (holds(out@, e) <==> self@.model.edges[e].to
                    == handle),
            forall|k: int| 0 <= k < out@.len() ==> #[trigger] out@[k] < self@.model.edges.len(),
            out@ == arriving(self@.model, handle as int, self@.model.edges.len() as int),
    {
        let mut out: Vec<usize> = Vec::new();
        let mut i: usize = 0;
        while i < self.model.edges.len()
            invariant
                0 <= i <= self@.model.edges.len(),
                out@ == arriving(self@.model, handle as int, i as int),
                forall|k: int| 0 <= k < out@.len() ==> #[trigger] out@[k] < i,
                forall|e: int| 0 <= e < i ==> (holds(out@, e) <==> self@.model.edges[e].to == handle),
            decreases self@.model.edges.len() - i,
        {
            let ghost before = out@;
            if self.model.edges[i].to == handle {
                out.push(i);
            }
            assert(out@ =~= arriving(self@.model, handle as int, i + 1));
            proof {
                assert forall|e: int| 0 <= e < i + 1 implies (holds(out@, e)
                    <==> self@.model.edges[e].to == handle) by {
                    if holds(out@, e) && e < i {
                        let k = choose|k: int| 0 <= k < out@.len() && out@[k] as int == e;
                        assert(k < before.len());
                        assert(holds(before, e));
                    }
                    if e < i && holds(before, e) {
                        let k = choose|k: int| 0 <= k < before.len() && before[k] as int == e;
                        assert(out@[k] as int == e);
                    }
                    if e == i && self@.model.edges[e].to == handle {
                        assert(out@[out@.len() - 1] == i);
                    }
                    if e == i && holds(out@, e) {
                        let k = choose|k: int| 0 <= k < out@.len() && out@[k] as int == e;
                        if k < before.len() {
                            assert(before[k] < i);
                        }
                    }
                }
            }
            i = i + 1;
        }
        out
    }

    /// The paths a walk from `h` takes its next step along.
    fn step_edges(&self, h: usize, down: bool) -> (out: Vec<usize>)
        requires
            self@.walkable(),
            h < self@.model.nodes.len(),
        ensures
            forall|e: int| incident(self@.model, down, h as int, e) <==> holds(out@, e),
            forall|k: int| 0 <= k < out@.len() ==> #[trigger] out@[k] < self@.model.edges.len(),
            out@ == step_list(self@.model, down, h as int),
    {
        if down {
            let out = self.model.nodes[h].edges.clone();
            proof {
                assert(out@ == self@.model.nodes[h as int].edges);
                assert forall|k: int| 0 <= k < out@.len() implies #[trigger] out@[k]
                    < self@.model.edges.len() by {
                    assert(self@.model.nodes[h as int].edges[k] == out@[k]);
                }
                assert forall|e: int| incident(self@.model, down, h as int, e) <==> holds(out@, e) by {
                    if holds(out@, e) {
                        let k = choose|k: int| 0 <= k < out@.len() && out@[k] as int == e;
                    }
                }
            }
            out
        } else {
            self.get_incoming_edges(h)
        }
    }

    /// The nodes reachable from `handle` in the direction, each once and
    /// `handle` first, and the paths met on the way: the step list of each
    /// of those nodes in turn.
    fn traverse(&self, handle: usize, down: bool) -> (r: (Vec<usize>, Vec<usize>))
        requires
            self@.walkable(),
            handle < self@.model.nodes.len(),
        ensures
            forall|v: int| holds(r.0@, v) <==> reachable(self@.model, down, handle as int, v),
            r.0@.no_duplicates(),
            r.0@.len() > 0 && r.0@[0] == handle,
            r.1@ == steps_of(self@.model, down, r.0@),
            forall|e: int| holds(r.1@, e) <==> edge_reached(self@.model, down, handle as int, e),
    {
        let ghost m = self@.model;
        let ghost n = m.nodes.len();
        let mut visited: HashSet<usize> = HashSet::new();
        let mut queue: Vec<usize> = Vec::new();
        queue.push(handle);
        let mut edges: Vec<usize> = Vec::new();
        let mut nodes: Vec<usize> = Vec::new();
        let total = self.model.nodes.len();
        proof {
            lemma_reach_self(m, down, handle as int);
            assert(total == n);
            <usize as vstd::set_lib::FiniteRange>::range_properties(0, n as usize);
            assert(queue@[0] == handle);
        }
        while queue.len() > 0
            invariant
                m == self@.model,
                self@.walkable(),
                n == m.nodes.len(),
                handle < n,
                n <= usize::MAX,
                visited@.finite(),
                visited@.len() <= n,
                forall|v: usize| #[trigger] visited@.contains(v) ==> v < n && reachable(m, down, handle as int, v as int),
                forall|k: int| 0 <= k < queue@.len() ==> #[trigger] queue@[k] < n && reachable(m, down, handle as int, queue@[k] as int),
                forall|v: usize, e: int|
                    visited@.contains(v) && #[trigger] incident(m, down, v as int, e) ==> visited@.contains(far_end(m, down, e) as usize)
                        || holds(queue@, far_end(m, down, e)),
                visited@.contains(handle) || holds(queue@, handle as int),
                forall|k: int| 0 <= k < nodes@.len() ==> visited@.contains(#[trigger] nodes@[k]),
                forall|v: usize| visited@.contains(v) ==> holds(nodes@, v as int),
                nodes@.no_duplicates(),
                forall|e: int|
                    holds(edges@, e) <==> exists|v: usize| visited@.contains(v) && #[trigger] incident(m, down, v as int, e),
                edges@ == steps_of(m, down, nodes@),
                nodes@.len() == 0 ==> queue@ == seq![handle],
                nodes@.len() > 0 ==> nodes@[0] == handle,
            decreases n - visited@.len(), queue@.len(),
        {
            let ghost q0 = queue@;
            let h = queue.pop().unwrap();
            assert(queue@ =~= q0.drop_last());
            assert(h == q0.last());
            proof {
                assert forall|x: int| holds(q0, x) && x != h implies holds(queue@, x) by {
                    let k = choose|k: int| 0 <= k < q0.len() && q0[k] as int == x;
                    assert(k < q0.len() - 1);
                    assert(queue@[k] as int == x);
                }
                assert forall|k: int| 0 <= k < queue@.len() implies #[trigger] queue@[k] < n && reachable(m, down, handle as int, queue@[k] as int) by {
                    assert(queue@[k] == q0[k]);
                }
            }
            let ghost vis0 = visited@;
            proof {
                if nodes@.len() == 0 {
                    assert(h == handle);
                    if vis0.contains(h) {
                        assert(holds(nodes@, h as int));
                    }
                }
            }
            if !visited.insert(h) {
                assert(vis0.contains(h));
                continue;
            }
            proof {
                assert(visited@ == vis0.insert(h));
                assert(!vis0.contains(h));
                assert(visited@.subset_of(Set::<usize>::range(0, n as usize)));
                vstd::set_lib::lemma_len_subset(visited@, Set::<usize>::range(0, n as usize));
            }
            let ghost nodes0 = nodes@;
            nodes.push(h);
            proof {
                assert forall|v: usize| visited@.contains(v) implies holds(nodes@, v as int) by {
                    if v != h {
                        assert(vis0.contains(v));
                        let k = choose|k: int| 0 <= k < nodes0.len() && nodes0[k] as int == v as int;
                        assert(nodes@[k] == v);
                    } else {
                        assert(nodes@[nodes0.len() as int] == h);
                    }
                }
                assert forall|k: int| 0 <= k < nodes@.len() implies visited@.contains(#[trigger] nodes@[k]) by {
                    if k < nodes0.len() {
                        assert(nodes@[k] == nodes0[k]);
                    }
                }
                assert forall|a: int, b: int| 0 <= a < b < nodes@.len() implies nodes@[a] != nodes@[b] by {
                    if b == nodes0.len() {
                        assert(vis0.contains(nodes0[a]));
                    } else {
                        assert(nodes@[a] == nodes0[a] && nodes@[b] == nodes0[b]);
                    }
                }
            }
            let out = self.step_edges(h, down);
            let ghost q1 = queue@;
            let ghost e1 = edges@;
            let mut k: usize = 0;
            while k < out.len()
                invariant
                    m == self@.model,
                    self@.walkable(),
                    n == m.nodes.len(),
                    h < n,
                    reachable(m, down, handle as int, h as int),
                    forall|e: int| incident(m, down, h as int, e) <==> holds(out@, e),
                    forall|kk: int| 0 <= kk < out@.len() ==> #[trigger] out@[kk] < m.edges.len(),
                    0 <= k <= out@.len(),
                    queue@.len() == q1.len() + k,
                    forall|j: int| 0 <= j < q1.len() ==> queue@[j] == q1[j],
                    forall|j: int| 0 <= j < k ==> queue@[q1.len() + j] as int == far_end(m, down, out@[j] as int),
                    edges@ == e1 + out@.subrange(0, k as int),
                    out@ == step_list(m, down, h as int),
                decreases out@.len() - k,
            {
                let e = out[k];
                let far = if down {
                    self.model.edges[e].to
                } else {
                    self.model.edges[e].from
                };
                edges.push(e);
                queue.push(far);
                assert(edges@ =~= e1 + out@.subrange(0, k + 1));
                k = k + 1;
            }
            proof {
                assert(out@.subrange(0, out@.len() as int) =~= out@);
                assert(nodes@.drop_last() =~= nodes0);
                assert(edges@ == steps_of(m, down, nodes@));
                if nodes0.len() > 0 {
                    assert(nodes@[0] == nodes0[0]);
                }
                assert forall|j: int| 0 <= j < queue@.len() implies #[trigger] queue@[j] < n && reachable(m, down, handle as int, queue@[j] as int) by {
                    if j >= q1.len() {
                        let jj = j - q1.len();
                        assert(holds(out@, out@[jj] as int));
                        assert(incident(m, down, h as int, out@[jj] as int));
                        lemma_reach_step(m, down, handle as int, h as int, out@[jj] as int);
                    } else {
                        assert(queue@[j] == q1[j]);
                    }
                }
                assert forall|x: int| holds(q1, x) implies holds(queue@, x) by {
                    let j = choose|j: int| 0 <= j < q1.len() && q1[j] as int == x;
                    assert(queue@[j] == q1[j]);
                }
                assert forall|v: usize, e: int|
                    visited@.contains(v) && #[trigger] incident(m, down, v as int, e) implies visited@.contains(far_end(m, down, e) as usize)
                        || holds(queue@, far_end(m, down, e)) by {
                    if v == h {
                        assert(holds(out@, e));
                        let jj = choose|jj: int| 0 <= jj < out@.len() && out@[jj] as int == e;
                        assert(queue@[q1.len() + jj] as int == far_end(m, down, e));
                    } else {
                        assert(vis0.contains(v));
                        if !vis0.contains(far_end(m, down, e) as usize) {
                            assert(holds(q0, far_end(m, down, e)));
                            if far_end(m, down, e) != h {
                                assert(holds(q1, far_end(m, down, e)));
                            }
                        }
                    }
                }
                if !vis0.contains(handle) {
                    if handle != h {
                        assert(holds(q1, handle as int));
                    }
                }
                assert forall|e: int| holds(edges@, e) <==> exists|v: usize| visited@.contains(v) && #[trigger] incident(m, down, v as int, e) by {
                    if holds(edges@, e) {
                        let j = choose|j: int| 0 <= j < edges@.len() && edges@[j] as int == e;
                        if j < e1.len() {
                            assert(e1[j] == edges@[j]);
                            assert(holds(e1, e));
                            let v = choose|v: usize| vis0.contains(v) && #[trigger] incident(m, down, v as int, e);
                            assert(visited@.contains(v));
                        } else {
                            assert(edges@[j] == out@[j - e1.len()]);
                            assert(holds(out@, e));
                            assert(incident(m, down, h as int, e));
                        }
                    }
                    if exists|v: usize| visited@.contains(v) && #[trigger] incident(m, down, v as int, e) {
                        let v = choose|v: usize| visited@.contains(v) && #[trigger] incident(m, down, v as int, e);
                        if v == h {
                            assert(incident(m, down, h as int, e));
                            assert(holds(out@, e));
                            let jj = choose|jj: int| 0 <= jj < out@.len() && out@[jj] as int == e;
                            assert(edges@[e1.len() + jj] == out@[jj]);
                        } else {
                            assert(vis0.contains(v));
                            assert(holds(e1, e));
                            let j = choose|j: int| 0 <= j < e1.len() && e1[j] as int == e;
                            assert(edges@[j] == e1[j]);
                        }
                    }
                }
            }
        }
        proof {
            assert(visited@.contains(handle));
            assert forall|v: usize, e: int|
                visited@.contains(v) && #[trigger] incident(m, down, v as int, e) implies 0 <= far_end(m, down, e)
                    <= usize::MAX && visited@.contains(far_end(m, down, e) as usize) by {
                lemma_incident_in_range(m, down, v as int, e);
            }
            assert forall|v: int| holds(nodes@, v) <==> reachable(m, down, handle as int, v) by {
                if reachable(m, down, handle as int, v) {
                    lemma_closed_holds_reachable(m, down, visited@, handle as int, v);
                    assert(holds(nodes@, (v as usize) as int));
                }
                if holds(nodes@, v) {
                    let k = choose|k: int| 0 <= k < nodes@.len() && nodes@[k] as int == v;
                    assert(visited@.contains(nodes@[k]));
                }
            }
            assert forall|e: int| holds(edges@, e) <==> edge_reached(m, down, handle as int, e) by {
                if edge_reached(m, down, handle as int, e) {
                    let v = choose|v: int| #[trigger] reachable(m, down, handle as int, v) && incident(m, down, v, e);
                    lemma_closed_holds_reachable(m, down, visited@, handle as int, v);
                    assert(incident(m, down, (v as usize) as int, e));
                }
                if holds(edges@, e) {
                    let v = choose|v: usize| visited@.contains(v) && #[trigger] incident(m, down, v as int, e);
                    assert(reachable(m, down, handle as int, v as int));
                }
            }
        }
        (nodes, edges)
    }

    /// The nodes downstream of `handle` (itself included), each once, and
    /// the paths that leave them.
    fn highlight_dependencies(&self, handle: usize) -> (r: (Vec<usize>, Vec<usize>))
        requires
            self@.walkable(),
            handle < self@.model.nodes.len(),
        ensures
            forall|v: int| holds(r.0@, v) <==> reachable(self@.model, true, handle as int, v),
            r.0@.no_duplicates(),
            r.0@.len() > 0 && r.0@[0] == handle,
            r.1@ == steps_of(self@.model, true, r.0@),
            forall|e: int| holds(r.1@, e) <==> edge_reached(self@.model, true, handle as int, e),
    {
        self.traverse(handle, true)
    }

    /// The nodes upstream of `handle` (itself included), each once, and the
    /// paths that enter them.
    fn highlight_dependents(&self, handle: usize) -> (r: (Vec<usize>, Vec<usize>))
        requires
            self@.walkable(),
            handle < self@.model.nodes.len(),
        ensures
            forall|v: int| holds(r.0@, v) <==> reachable(self@.model, false, handle as int, v),
            r.0@.no_duplicates(),
            r.0@.len() > 0 && r.0@[0] == handle,
            r.1@ == steps_of(self@.model, false, r.0@),
            forall|e: int| holds(r.1@, e) <==> edge_reached(self@.model, false, handle as int, e),
    {
        self.traverse(handle, false)
    }

    /// Sets the alpha of node `handle`'s fill colour.
    fn set_node_transparency(&mut self, handle: usize, transparency: u8)
        requires
            handle < old(self)@.model.nodes.len(),
        ensures
            final(self)@.nodes == old(self)@.nodes,
            final(self)@.model.edges == old(self)@.model.edges,
            final(self)@.model.nodes == old(self)@.model.nodes.update(
                handle as int,
                NodeView {
                    colour: with_alpha(old(self)@.model.nodes[handle as int].colour, transparency),
                    ..old(self)@.model.nodes[handle as int]
                },
            ),
    {
        let ghost before = self@.model.nodes;
        self.model.nodes[handle].colour.set_transparency(transparency);
        assert(self@.model.nodes =~= before.update(
            handle as int,
            NodeView { colour: with_alpha(before[handle as int].colour, transparency), ..before[handle as int] },
        ));
    }

    /// Sets the alpha of every segment of path `handle`.
    fn set_edge_transparency(&mut self, handle: usize, transparency: u8)
        requires
            handle < old(self)@.model.edges.len(),
        ensures
            final(self)@.nodes == old(self)@.nodes,
            final(self)@.model.nodes == old(self)@.model.nodes,
            final(self)@.model.edges == old(self)@.model.edges.update(
                handle as int,
                PathView {
                    line_segments: old(self)@.model.edges[handle as int].line_segments.map_values(
                        |l: LineView| shaded_line(l, transparency),
                    ),
                    ..old(self)@.model.edges[handle as int]
                },
            ),
    {
        let ghost before = self@.model.edges;
        let ghost orig = before[handle as int];
        let count = self.model.edges[handle].line_segments.len();
        let mut i: usize = 0;
        while i < count
            invariant
                0 <= i <= count,
                handle < before.len(),
                count == orig.line_segments.len(),
                self@.nodes == old(self)@.nodes,
                self@.model.nodes == old(self)@.model.nodes,
                self@.model.edges.len() == before.len(),
                forall|e: int| 0 <= e < before.len() && e != handle ==> self@.model.edges[e] == before[e],
                self@.model.edges[handle as int].from == orig.from,
                self@.model.edges[handle as int].to == orig.to,
                self@.model.edges[handle as int].line_segments.len() == count,
                forall|k: int|
                    0 <= k < count ==> self@.model.edges[handle as int].line_segments[k] == if k < i {
                        shaded_line(orig.line_segments[k], transparency)
                    } else {
                        orig.line_segments[k]
                    },
            decreases count - i,
        {
            let ghost cur = self@.model.edges;
            self.model.edges[handle].line_segments[i].colour.set_transparency(transparency);
            proof {
                assert forall|k: int| 0 <= k < count implies self@.model.edges[handle as int].line_segments[k] == if k < i + 1 {
                    shaded_line(orig.line_segments[k], transparency)
                } else {
                    orig.line_segments[k]
                } by {
                    if k != i {
                        assert(self@.model.edges[handle as int].line_segments[k] == cur[handle as int].line_segments[k]);
                    }
                }
                assert forall|e: int| 0 <= e < before.len() && e != handle implies self@.model.edges[e] == before[e] by {
                    assert(self@.model.edges[e] == cur[e]);
                }
            }
            i = i + 1;
        }
        proof {
            let want = PathView {
                line_segments: orig.line_segments.map_values(|l: LineView| shaded_line(l, transparency)),
                ..orig
            };
            assert(self@.model.edges[handle as int].line_segments =~= want.line_segments);
            assert(self@.model.edges =~= before.update(handle as int, want));
        }
    }
}

/// Whether `v` holds `x`.
fn vec_holds(v: &Vec<usize>, x: usize) -> (r: bool)
    ensures
        r == holds(v@, x as int),
{
    let mut i: usize = 0;
    while i < v.len()
        invariant
            0 <= i <= v@.len(),
            forall|k: int| 0 <= k < i ==> v@[k] != x,
        decreases v@.len() - i,
    {
        if v[i] == x {
            return true;
        }
        i = i + 1;
    }
    false
}

/// `a` followed by `b`.
fn concat(a: Vec<usize>, b: &Vec<usize>) -> (r: Vec<usize>)
    ensures
        r@ == a@ + b@,
{
    let mut r = a;
    let ghost a0 = r@;
    let mut i: usize = 0;
    while i < b.len()
        invariant
            0 <= i <= b@.len(),
            r@ == a0 + b@.subrange(0, i as int),
        decreases b@.len() - i,
    {
        r.push(b[i]);
        assert(r@ =~= a0 + b@.subrange(0, i + 1));
        i = i + 1;
    }
    assert(b@.subrange(0, b@.len() as int) =~= b@);
    r
}

proof fn lemma_holds_concat(a: Seq<usize>, b: Seq<usize>, x: int)
    ensures
        holds(a + b, x) <==> holds(a, x) || holds(b, x),
{
    if holds(a + b, x) {
        let k = choose|k: int| 0 <= k < (a + b).len() && (a + b)[k] as int == x;
        if k >= a.len() {
            assert(b[k - a.len()] == (a + b)[k]);
        }
    }
    if holds(a, x) {
        let k = choose|k: int| 0 <= k < a.len() && a[k] as int == x;
        assert((a + b)[k] == a[k]);
    }
    if holds(b, x) {
        let k = choose|k: int| 0 <= k < b.len() && b[k] as int == x;
        assert((a + b)[a.len() + k] == b[k]);
    }
}

impl Scene {
    /// Highlights what hovering node `handle` shows: each listed node that
    /// lies downstream or upstream of `handle` gets an opaque fill, every
    /// other listed node a faded one; each path met on the walks from
    /// `handle` (leaving a downstream node or entering an upstream one) gets
    /// opaque segments, every other path faded ones. Nothing else changes.
    pub fn highlight_node(&mut self, handle: usize)
        requires
            old(self)@.walkable(),
            handle < old(self)@.model.nodes.len(),
        ensures
            final(self)@.nodes == old(self)@.nodes,
            final(self)@.model.nodes.len() == old(self)@.model.nodes.len(),
            final(self)@.model.edges.len() == old(self)@.model.edges.len(),
            forall|h: int|
                0 <= h < old(self)@.model.nodes.len() ==> #[trigger] final(self)@.model.nodes[h] == if holds(
                    old(self)@.nodes,
                    h,
                ) {
                    shaded_node(
                        old(self)@.model.nodes[h],
                        node_highlighted(old(self)@.model, handle as int, h),
                    )
                } else {
                    old(self)@.model.nodes[h]
                },
            forall|e: int|
                0 <= e < old(self)@.model.edges.len() ==> #[trigger] final(self)@.model.edges[e]
                    == shaded_path(
                    old(self)@.model.edges[e],
                    edge_highlighted(old(self)@.model, handle as int, e),
                ),
            final(self)@ == highlighted(old(self)@, handle as int),
            final(self)@.walkable(),
            old(self)@.wf() ==> final(self)@.wf(),
    {
        let ghost m = self@.model;
        let ghost listed = self@.nodes;
        let (nodes_d, edges_d) = self.highlight_dependencies(handle);
        let (nodes_i, edges_i) = self.highlight_dependents(handle);
        let nodes = concat(nodes_d, &nodes_i);
        let edges = concat(edges_d, &edges_i);
        proof {
            assert forall|h: int| holds(nodes@, h) <==> node_highlighted(m, handle as int, h) by {
                lemma_holds_concat(nodes_d@, nodes_i@, h);
            }
            assert forall|e: int| holds(edges@, e) <==> edge_highlighted(m, handle as int, e) by {
                lemma_holds_concat(edges_d@, edges_i@, e);
            }
        }
        let mut i: usize = 0;
        while i < self.nodes.len()
            invariant
                self@.walkable(),
                self@.nodes == listed,
                self@.model.edges == m.edges,
                self@.model.nodes.len() == m.nodes.len(),
                0 <= i <= listed.len(),
                forall|h: int| holds(nodes@, h) <==> node_highlighted(m, handle as int, h),
                forall|h: int|
                    0 <= h < m.nodes.len() ==> #[trigger] self@.model.nodes[h] == if holds(
                        listed.subrange(0, i as int),
                        h,
                    ) {
                        shaded_node(m.nodes[h], node_highlighted(m, handle as int, h))
                    } else {
                        m.nodes[h]
                    },
            decreases listed.len() - i,
        {
            let h = self.nodes[i];
            let lit = vec_holds(&nodes, h);
            let ghost cur = self@.model.nodes;
            self.set_node_transparency(h, if lit { OPAQUE } else { FADED });
            proof {
                lemma_alpha_last_wins(m.nodes[h as int].colour, if lit { OPAQUE } else { FADED }, if lit { OPAQUE } else { FADED });
                assert forall|q: int| 0 <= q < m.nodes.len() implies #[trigger] self@.model.nodes[q] == if holds(
                    listed.subrange(0, i + 1),
                    q,
                ) {
                    shaded_node(m.nodes[q], node_highlighted(m, handle as int, q))
                } else {
                    m.nodes[q]
                } by {
                    lemma_holds_concat(listed.subrange(0, i as int), seq![h], q);
                    assert(listed.subrange(0, i + 1) =~= listed.subrange(0, i as int) + seq![h]);
                    if q == h {
                        assert(seq![h][0] == h);
                        assert(holds(seq![h], q));
                    } else {
                        assert(self@.model.nodes[q] == cur[q]);
                        if holds(seq![h], q) {
                            let k = choose|k: int| 0 <= k < 1 && seq![h][k] as int == q;
                        }
                    }
                }
            }
            i = i + 1;
        }
        assert(listed.subrange(0, listed.len() as int) =~= listed);
        let ghost mid = self@.model.nodes;
        let mut e: usize = 0;
        while e < self.model.edges.len()
            invariant
                self@.nodes == listed,
                self@.model.nodes == mid,
                self@.model.edges.len() == m.edges.len(),
                0 <= e <= m.edges.len(),
                forall|x: int| holds(edges@, x) <==> edge_highlighted(m, handle as int, x),
                forall|x: int|
                    0 <= x < m.edges.len() ==> #[trigger] self@.model.edges[x] == if x < e {
                        shaded_path(m.edges[x], edge_highlighted(m, handle as int, x))
                    } else {
                        m.edges[x]
                    },
            decreases m.edges.len() - e,
        {
            let lit = vec_holds(&edges, e);
            let ghost cur = self@.model.edges;
            self.set_edge_transparency(e, if lit { OPAQUE } else { FADED });
            proof {
                assert forall|x: int| 0 <= x < m.edges.len() implies #[trigger] self@.model.edges[x] == if x < e + 1 {
                    shaded_path(m.edges[x], edge_highlighted(m, handle as int, x))
                } else {
                    m.edges[x]
                } by {
                    if x != e {
                        assert(self@.model.edges[x] == cur[x]);
                    }
                }
            }
            e = e + 1;
        }
        assert(self@.model.nodes =~= highlighted(old(self)@, handle as int).model.nodes);
        assert(self@.model.edges =~= highlighted(old(self)@, handle as int).model.edges);
        proof {
            if old(self)@.wf() {
                lemma_highlighted_wf(old(self)@, handle as int);
            }
        }
    }
}

} // verus!
