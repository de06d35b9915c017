use vstd::prelude::*;

use crate::data_types::{nodes_view, paths_view, Line, LineView, NodeView, Path, PathView, Position, PositionView, LINE_COLOUR};
use crate::graph::{deps_in_range, graph_wf};
use crate::model::{is_root, has_single_root, ModelView};
use crate::scene::{Scene, SceneView};

verus! {

/// A node as the layered layout handles it: the node's handle, its layer,
/// and links to the slots
/// `(layer, index)` of the wrappers it points to.
pub struct LayoutNodeWrapper {
    pub handle: usize,
    pub layer: usize,
    pub dependents: Vec<(usize, usize)>,
}

/// The mathematical value of a [`LayoutNodeWrapper`].
pub struct WrapperView {
    pub handle: usize,
    pub layer: usize,
    pub dependents: Seq<(usize, usize)>,
}

impl View for LayoutNodeWrapper {
    type V = WrapperView;

    open spec fn view(&self) -> WrapperView {
        WrapperView {
            handle: self.handle,
            layer: self.layer,
            dependents: self.dependents@,
        }
    }
}

impl LayoutNodeWrapper {
    pub fn duplicate(&self) -> (w: LayoutNodeWrapper)
        ensures
            w@ == self@,
    {
        let mut deps: Vec<(usize, usize)> = Vec::new();
        let mut i: usize = 0;
        while i < self.dependents.len()
            invariant
                0 <= i <= self.dependents@.len(),
                deps@ == self.dependents@.subrange(0, i as int),
            decreases self.dependents@.len() - i,
        {
            deps.push(self.dependents[i]);
            assert(deps@ =~= self.dependents@.subrange(0, i + 1));
            i = i + 1;
        }
        assert(self.dependents@.subrange(0, self.dependents@.len() as int) =~= self.dependents@);
        LayoutNodeWrapper {
            handle: self.handle,
            layer: self.layer,
            dependents: deps,
        }
    }
}

/// The views of a sequence of wrappers.
pub open spec fn wrappers_view(ws: Seq<LayoutNodeWrapper>) -> Seq<WrapperView> {
    ws.map_values(|w: LayoutNodeWrapper| w@)
}

/// The views of layers of wrappers.
pub open spec fn layers_view(ls: Seq<Vec<LayoutNodeWrapper>>) -> Seq<Seq<WrapperView>> {
    ls.map_values(|l: Vec<LayoutNodeWrapper>| wrappers_view(l@))
}

/// `(i, j)` is the first slot, layer by layer from `start` and in order
/// within a layer, whose wrapper holds node `d`.
pub open spec fn is_first_slot(layers: Seq<Seq<WrapperView>>, d: int, start: int, i: int, j: int) -> bool {
    &&& 0 <= start <= i < layers.len()
    &&& 0 <= j < layers[i].len()
    &&& layers[i][j].handle == d
    &&& forall|a: int, b: int|
        start <= a < i && 0 <= b < layers[a].len() ==> #[trigger] layers[a][b].handle != d
    &&& forall|b: int| 0 <= b < j ==> #[trigger] layers[i][b].handle != d
}

/// The first slot at or above layer `start` that holds node `d`.
pub open spec fn find_slot(layers: Seq<Seq<WrapperView>>, d: int, start: int) -> Option<(int, int)> {
    if exists|i: int, j: int| is_first_slot(layers, d, start, i, j) {
        Some(choose|i: int, j: int| is_first_slot(layers, d, start, i, j))
    } else {
        None
    }
}

proof fn lemma_first_slot_unique(layers: Seq<Seq<WrapperView>>, d: int, start: int, i: int, j: int)
    requires
        is_first_slot(layers, d, start, i, j),
    ensures
        find_slot(layers, d, start) == Some((i, j)),
{
    let (a, b) = choose|a: int, b: int| is_first_slot(layers, d, start, a, b);
    assert(is_first_slot(layers, d, start, a, b));
    if a < i {
        assert(layers[a][b].handle != d);
    } else if i < a {
        assert(layers[i][j].handle != d);
    } else if b < j {
        assert(layers[i][b].handle != d);
    } else if j < b {
        assert(layers[a][j].handle != d);
    }
}

impl Scene {
    /// The first slot at or above layer `start` whose wrapper holds node
    /// `dependent`.
    pub fn find_dependent(dependent: usize, by_layer: &Vec<Vec<LayoutNodeWrapper>>, start_layer: usize) -> (r: Option<(usize, usize)>)
        ensures
            match r {
                Some((i, j)) => find_slot(layers_view(by_layer@), dependent as int, start_layer as int) == Some((i as int, j as int))
                    && is_first_slot(layers_view(by_layer@), dependent as int, start_layer as int, i as int, j as int),
                None => find_slot(layers_view(by_layer@), dependent as int, start_layer as int) is None,
            },
    {
        let ghost ls = layers_view(by_layer@);
        let mut i: usize = start_layer;
        while i < by_layer.len()
            invariant
                ls == layers_view(by_layer@),
                start_layer <= i,
                start_layer >= by_layer@.len() ==> i == start_layer,
                start_layer < by_layer@.len() ==> i <= by_layer@.len(),
                forall|a: int, b: int|
                    start_layer <= a < i && 0 <= b < ls[a].len() ==> #[trigger] ls[a][b].handle != dependent,
            decreases by_layer@.len() - i,
        {
            let mut j: usize = 0;
            while j < by_layer[i].len()
                invariant
                    ls == layers_view(by_layer@),
                    start_layer <= i < by_layer@.len(),
                    0 <= j <= ls[i as int].len(),
                    forall|a: int, b: int|
                        start_layer <= a < i && 0 <= b < ls[a].len() ==> #[trigger] ls[a][b].handle != dependent,
                    forall|b: int| 0 <= b < j ==> #[trigger] ls[i as int][b].handle != dependent,
                decreases ls[i as int].len() - j,
            {
                if by_layer[i][j].handle == dependent {
                    proof {
                        lemma_first_slot_unique(ls, dependent as int, start_layer as int, i as int, j as int);
                    }
                    return Some((i, j));
                }
                j = j + 1;
            }
            i = i + 1;
        }
        assert(!exists|a: int, b: int| #[trigger] is_first_slot(ls, dependent as int, start_layer as int, a, b));
        None
    }
}

/// Layers deeper than this are not gathered.
pub const MAX_GATHER_LAYER: usize = 5;

/// `i` is the first wrapper for node `h`.
pub open spec fn is_first_handle(es: Seq<WrapperView>, h: int, i: int) -> bool {
    &&& 0 <= i < es.len()
    &&& es[i].handle == h
    &&& forall|k: int| 0 <= k < i ==> es[k].handle != h
}

/// The first wrapper for node `h`, if any.
pub open spec fn find_handle(es: Seq<WrapperView>, h: int) -> Option<int> {
    if exists|i: int| is_first_handle(es, h, i) {
        Some(choose|i: int| is_first_handle(es, h, i))
    } else {
        None
    }
}

/// A fresh wrapper for node `h` on layer `layer`.
pub open spec fn fresh_wrapper(h: int, layer: int) -> WrapperView {
    WrapperView { handle: h as usize, layer: layer as usize, dependents: Seq::empty() }
}

/// The wrappers after meeting node `d` on layer `layer`: a wrapper with the
/// same node is moved down to `layer` if that is deeper; otherwise a fresh
/// wrapper is added.
pub open spec fn record(es: Seq<WrapperView>, nodes: Seq<NodeView>, d: int, layer: int) -> Seq<WrapperView> {
    match find_handle(es, d) {
        Some(i) => es.update(
            i,
            WrapperView {
                layer: if es[i].layer >= layer {
                    es[i].layer
                } else {
                    layer as usize
                },
                ..es[i]
            },
        ),
        None => es.push(fresh_wrapper(d, layer)),
    }
}

/// Depth-first gathering below node `h`, from its `k`-th dependent on, whose
/// dependents lie on `layer`; nothing deeper than `MAX_GATHER_LAYER`.
pub open spec fn gather_from(nodes: Seq<NodeView>, h: int, k: int, es: Seq<WrapperView>, layer: int) -> Seq<WrapperView>
    decreases 6 - layer, nodes[h].dependents.len() - k,
{
    if layer > MAX_GATHER_LAYER || k < 0 || k >= nodes[h].dependents.len() {
        es
    } else {
        let d = nodes[h].dependents[k] as int;
        let es1 = record(es, nodes, d, layer);
        let es2 = gather_from(nodes, d, 0, es1, layer + 1);
        gather_from(nodes, h, k + 1, es2, layer)
    }
}

/// The wrappers are for distinct existing nodes, lie on gathered layers and
/// have no links yet.
pub open spec fn gathered_wf(nodes: Seq<NodeView>, es: Seq<WrapperView>) -> bool {
    &&& forall|i: int| 0 <= i < es.len() ==> (#[trigger] es[i]).handle < nodes.len()
    &&& forall|i: int| 0 <= i < es.len() ==> (#[trigger] es[i]).layer <= MAX_GATHER_LAYER
    &&& forall|i: int| 0 <= i < es.len() ==> (#[trigger] es[i]).dependents.len() == 0
    &&& forall|i: int, j: int| 0 <= i < j < es.len() ==> es[i].handle != es[j].handle
}

/// The wrappers of the nodes below `root`: the root on layer 0, then every
/// node met depth-first, each on the deepest layer it was met on.
///
/// Each node has one wrapper, found by its handle; nodes that share a display
/// label stay apart. The wrappers are kept in a sequence in the order their
/// nodes are first met rather than in a hash map: a map's walk order is not
/// fixed, and the order of the wrappers within a layer decides the row each
/// node is drawn in, so the layout would no longer be a function of the
/// graph.
pub open spec fn gathered(nodes: Seq<NodeView>, root: int) -> Seq<WrapperView> {
    gather_from(nodes, root, 0, seq![fresh_wrapper(root, 0)], 1)
}

/// Node `b` is among the dependents of node `a`.
pub open spec fn depends_on(nodes: Seq<NodeView>, a: int, b: int) -> bool {
    exists|k: int| 0 <= k < nodes[a].dependents.len() && nodes[a].dependents[k] as int == b
}

/// The node after position `i` of `w` is a dependent of the node at `i`.
pub open spec fn links_at(nodes: Seq<NodeView>, w: Seq<int>, i: int) -> bool {
    depends_on(nodes, w[i], w[i + 1])
}

/// Each node of `w` after the first is a dependent of the one before it.
pub open spec fn is_link_walk(nodes: Seq<NodeView>, w: Seq<int>) -> bool {
    forall|i: int| 0 <= i < w.len() - 1 ==> #[trigger] links_at(nodes, w, i)
}

/// `v` is reached from `h` by following exactly `n` dependency links.
pub open spec fn leads(nodes: Seq<NodeView>, h: int, v: int, n: nat) -> bool {
    exists|w: Seq<int>| #[trigger] is_link_walk(nodes, w) && w.len() == n + 1 && w[0] == h && w[n as int] == v
}

/// The wrapper lies no deeper than the gathering goes, on a layer that some
/// walk from `root` reaches it in.
pub open spec fn walked(nodes: Seq<NodeView>, root: int, w: WrapperView) -> bool {
    w.layer <= MAX_GATHER_LAYER && leads(nodes, root, w.handle as int, w.layer as nat)
}

proof fn lemma_leads_self(nodes: Seq<NodeView>, h: int)
    ensures
        leads(nodes, h, h, 0),
{
    let w = seq![h];
    assert(is_link_walk(nodes, w));
}

/// A walk can be extended by one link at its end.
proof fn lemma_leads_extend(nodes: Seq<NodeView>, r: int, h: int, m: nat, k: int)
    requires
        leads(nodes, r, h, m),
        0 <= k < nodes[h].dependents.len(),
    ensures
        leads(nodes, r, nodes[h].dependents[k] as int, m + 1),
{
    let d = nodes[h].dependents[k] as int;
    let w = choose|w: Seq<int>| #[trigger] is_link_walk(nodes, w) && w.len() == m + 1 && w[0] == r && w[m as int] == h;
    let w2 = w.push(d);
    assert forall|i: int| 0 <= i < w2.len() - 1 implies #[trigger] links_at(nodes, w2, i) by {
        if i < m {
            assert(w2[i] == w[i] && w2[i + 1] == w[i + 1]);
            assert(links_at(nodes, w, i));
        } else {
            assert(w2[i] == h && w2[i + 1] == d);
            assert(nodes[h].dependents[k] as int == d);
        }
    }
    assert(is_link_walk(nodes, w2));
}

/// A walk of at least one link starts with a link to some dependent, from
/// which the rest of it leads on.
proof fn lemma_leads_first(nodes: Seq<NodeView>, h: int, v: int, n: nat) -> (k: int)
    requires
        n >= 1,
        leads(nodes, h, v, n),
    ensures
        0 <= k < nodes[h].dependents.len(),
        leads(nodes, nodes[h].dependents[k] as int, v, (n - 1) as nat),
{
    let w = choose|w: Seq<int>| #[trigger] is_link_walk(nodes, w) && w.len() == n + 1 && w[0] == h && w[n as int] == v;
    assert(links_at(nodes, w, 0));
    let k = choose|k: int| 0 <= k < nodes[h].dependents.len() && nodes[h].dependents[k] as int == w[1];
    let rest = w.subrange(1, w.len() as int);
    assert forall|i: int| 0 <= i < rest.len() - 1 implies #[trigger] links_at(nodes, rest, i) by {
        assert(links_at(nodes, w, i + 1));
        assert(rest[i] == w[i + 1] && rest[i + 1] == w[i + 2]);
    }
    assert(is_link_walk(nodes, rest));
    k
}

/// Wrappers are never dropped, moved or lifted: each keeps its place and
/// node, and its layer only grows.
proof fn lemma_record_keeps(es: Seq<WrapperView>, nodes: Seq<NodeView>, d: int, layer: int)
    requires
        0 <= layer <= usize::MAX,
    ensures
        record(es, nodes, d, layer).len() >= es.len(),
        forall|i: int|
            0 <= i < es.len() ==> (#[trigger] record(es, nodes, d, layer)[i]).handle == es[i].handle
                && record(es, nodes, d, layer)[i].layer >= es[i].layer,
{
    let r = record(es, nodes, d, layer);
    match find_handle(es, d) {
        Some(x) => {
            assert(is_first_handle(es, d, x));
            assert forall|i: int| 0 <= i < es.len() implies (#[trigger] r[i]).handle == es[i].handle && r[i].layer
                >= es[i].layer by {
                if i == x {
                    assert(r[i].handle == es[x].handle);
                } else {
                    assert(r[i] == es[i]);
                }
            }
        },
        None => {
            assert forall|i: int| 0 <= i < es.len() implies (#[trigger] r[i]).handle == es[i].handle && r[i].layer
                >= es[i].layer by {
                assert(r[i] == es[i]);
            }
        },
    }
}

/// After meeting `d` on `layer`, some wrapper for `d` lies on `layer` or
/// deeper.
proof fn lemma_record_has(es: Seq<WrapperView>, nodes: Seq<NodeView>, d: int, layer: int)
    requires
        0 <= d <= usize::MAX,
        0 <= layer <= usize::MAX,
    ensures
        exists|j: int|
            0 <= j < record(es, nodes, d, layer).len() && (#[trigger] record(es, nodes, d, layer)[j]).handle
                == d && record(es, nodes, d, layer)[j].layer >= layer,
{
    let r = record(es, nodes, d, layer);
    match find_handle(es, d) {
        Some(i) => {
            assert(is_first_handle(es, d, i));
            assert(r[i].handle == d);
        },
        None => {
            assert(r[es.len() as int].handle == d);
        },
    }
}

proof fn lemma_gather_keeps(nodes: Seq<NodeView>, h: int, k: int, es: Seq<WrapperView>, layer: int)
    requires
        0 <= layer,
    ensures
        gather_from(nodes, h, k, es, layer).len() >= es.len(),
        forall|i: int|
            0 <= i < es.len() ==> (#[trigger] gather_from(nodes, h, k, es, layer)[i]).handle == es[i].handle
                && gather_from(nodes, h, k, es, layer)[i].layer >= es[i].layer,
    decreases 6 - layer, nodes[h].dependents.len() - k,
{
    if !(layer > MAX_GATHER_LAYER || k < 0 || k >= nodes[h].dependents.len()) {
        let d = nodes[h].dependents[k] as int;
        let es1 = record(es, nodes, d, layer);
        let es2 = gather_from(nodes, d, 0, es1, layer + 1);
        lemma_record_keeps(es, nodes, d, layer);
        assert(gather_from(nodes, h, k, es, layer) == gather_from(nodes, h, k + 1, es2, layer));
        lemma_gather_keeps(nodes, d, 0, es1, layer + 1);
        lemma_gather_keeps(nodes, h, k + 1, es2, layer);
    }
}

/// Gathering below `h` from its `k`-th dependent on, with that dependent on
/// `layer`, reaches every node that a walk of `n` more links leads to from
/// such a dependent, as long as `layer + n` is within the depth limit, and
/// puts it on layer `layer + n` or deeper.
proof fn lemma_gather_reaches(
    nodes: Seq<NodeView>,
    h: int,
    k: int,
    es: Seq<WrapperView>,
    layer: int,
    kk: int,
    v: int,
    n: nat,
)
    requires
        0 <= layer,
        layer + n <= MAX_GATHER_LAYER,
        0 <= k <= kk < nodes[h].dependents.len(),
        leads(nodes, nodes[h].dependents[kk] as int, v, n),
    ensures
        exists|j: int|
            0 <= j < gather_from(nodes, h, k, es, layer).len() && (#[trigger] gather_from(
                nodes,
                h,
                k,
                es,
                layer,
            )[j]).handle == v && gather_from(nodes, h, k, es, layer)[j].layer >= layer + n,
    decreases 6 - layer, nodes[h].dependents.len() - k,
{
    let d = nodes[h].dependents[k] as int;
    let es1 = record(es, nodes, d, layer);
    let es2 = gather_from(nodes, d, 0, es1, layer + 1);
    let g = gather_from(nodes, h, k, es, layer);
    assert(g == gather_from(nodes, h, k + 1, es2, layer));
    if kk > k {
        lemma_gather_reaches(nodes, h, k + 1, es2, layer, kk, v, n);
    } else {
        lemma_gather_keeps(nodes, h, k + 1, es2, layer);
        let j2 = if n == 0 {
            lemma_record_has(es, nodes, d, layer);
            let j1 = choose|j1: int| 0 <= j1 < es1.len() && (#[trigger] es1[j1]).handle == d && es1[j1].layer >= layer;
            lemma_gather_keeps(nodes, d, 0, es1, layer + 1);
            assert(es2[j1].handle == d && es2[j1].layer >= layer);
            j1
        } else {
            let k2 = lemma_leads_first(nodes, d, v, n);
            lemma_gather_reaches(nodes, d, 0, es1, layer + 1, k2, v, (n - 1) as nat);
            let j = choose|j: int| 0 <= j < es2.len() && (#[trigger] es2[j]).handle == v && es2[j].layer >= layer + 1 + (n - 1);
            j
        };
        assert(g[j2].handle == es2[j2].handle);
    }
}

/// Gathering below `h`, which a walk of `layer - 1` links leads to from
/// `root`, keeps every wrapper on a layer that a walk from `root` reaches it
/// in.
proof fn lemma_gather_walked(nodes: Seq<NodeView>, root: int, h: int, k: int, es: Seq<WrapperView>, layer: int)
    requires
        1 <= layer,
        leads(nodes, root, h, (layer - 1) as nat),
        forall|i: int| 0 <= i < es.len() ==> walked(nodes, root, #[trigger] es[i]),
    ensures
        forall|i: int|
            0 <= i < gather_from(nodes, h, k, es, layer).len() ==> walked(
                nodes,
                root,
                #[trigger] gather_from(nodes, h, k, es, layer)[i],
            ),
    decreases 6 - layer, nodes[h].dependents.len() - k,
{
    if !(layer > MAX_GATHER_LAYER || k < 0 || k >= nodes[h].dependents.len()) {
        let d = nodes[h].dependents[k] as int;
        let es1 = record(es, nodes, d, layer);
        lemma_leads_extend(nodes, root, h, (layer - 1) as nat, k);
        assert(leads(nodes, root, d, layer as nat));
        assert forall|i: int| 0 <= i < es1.len() implies walked(nodes, root, #[trigger] es1[i]) by {
            match find_handle(es, d) {
                Some(x) => {
                    assert(is_first_handle(es, d, x));
                    if i != x {
                        assert(es1[i] == es[i]);
                    } else if es[x].layer < layer {
                        assert(es1[i].handle == d && es1[i].layer == layer);
                    } else {
                        assert(es1[i] == es[i]);
                    }
                },
                None => {
                    if i < es.len() {
                        assert(es1[i] == es[i]);
                    } else {
                        assert(es1[i] == fresh_wrapper(d, layer));
                    }
                },
            }
        }
        let es2 = gather_from(nodes, d, 0, es1, layer + 1);
        assert(gather_from(nodes, h, k, es, layer) == gather_from(nodes, h, k + 1, es2, layer));
        lemma_gather_walked(nodes, root, d, 0, es1, layer + 1);
        lemma_gather_walked(nodes, root, h, k + 1, es2, layer);
    }
}

/// Gathering below the root reaches every node that a walk of at most
/// `MAX_GATHER_LAYER` dependency links leads to from the root, and puts it on
/// a layer at least as deep as that walk is long: a node met again deeper
/// moves down, and everything below it is met again with it.
pub proof fn lemma_gathered_reaches(nodes: Seq<NodeView>, root: int, v: int, n: nat)
    requires
        0 <= root <= usize::MAX,
        n <= MAX_GATHER_LAYER,
        leads(nodes, root, v, n),
    ensures
        exists|j: int|
            0 <= j < gathered(nodes, root).len() && (#[trigger] gathered(nodes, root)[j]).handle == v
                && gathered(nodes, root)[j].layer >= n,
{
    let start = seq![fresh_wrapper(root, 0)];
    let g = gathered(nodes, root);
    if n == 0 {
        lemma_gather_keeps(nodes, root, 0, start, 1);
        assert(g[0].handle == start[0].handle);
        assert(start[0].handle == root as usize);
        let w = choose|w: Seq<int>| #[trigger] is_link_walk(nodes, w) && w.len() == n + 1 && w[0] == root && w[n as int] == v;
        assert(root == v);
        assert(g[0].handle == v);
    } else {
        let k = lemma_leads_first(nodes, root, v, n);
        lemma_gather_reaches(nodes, root, 0, start, 1, k, v, (n - 1) as nat);
    }
}

/// Every gathered node lies on a layer no deeper than `MAX_GATHER_LAYER`
/// that some walk of that many dependency links from the root reaches it in;
/// with [`lemma_gathered_reaches`], its layer is the length of the longest
/// such walk.
pub proof fn lemma_gathered_layers_walked(nodes: Seq<NodeView>, root: int)
    requires
        0 <= root <= usize::MAX,
    ensures
        forall|i: int|
            0 <= i < gathered(nodes, root).len() ==> (#[trigger] gathered(nodes, root)[i]).layer <= MAX_GATHER_LAYER
                && leads(nodes, root, gathered(nodes, root)[i].handle as int, gathered(nodes, root)[i].layer as nat),
{
    let start = seq![fresh_wrapper(root, 0)];
    lemma_leads_self(nodes, root);
    assert(walked(nodes, root, start[0]));
    lemma_gather_walked(nodes, root, root, 0, start, 1);
    assert forall|i: int| 0 <= i < gathered(nodes, root).len() implies (#[trigger] gathered(nodes, root)[i]).layer
        <= MAX_GATHER_LAYER && leads(nodes, root, gathered(nodes, root)[i].handle as int, gathered(nodes, root)[i].layer as nat) by {
        assert(walked(nodes, root, gathered(nodes, root)[i]));
    }
}

/// Every dependent of a wrapper above the depth limit has a wrapper on a
/// deeper layer than that wrapper.
pub open spec fn dependents_deeper(nodes: Seq<NodeView>, es: Seq<WrapperView>) -> bool {
    forall|i: int, k: int|
        0 <= i < es.len() && es[i].layer < MAX_GATHER_LAYER && 0 <= k < nodes[es[i].handle as int].dependents.len()
            ==> #[trigger] has_deeper(es, nodes[es[i].handle as int].dependents[k] as int, es[i].layer as int)
}

/// Some wrapper for node `d` lies deeper than `layer`.
pub open spec fn has_deeper(es: Seq<WrapperView>, d: int, layer: int) -> bool {
    exists|j: int| 0 <= j < es.len() && es[j].handle == d && es[j].layer > layer
}

/// Above the depth limit, every dependent of a gathered node is gathered on
/// a deeper layer than the node itself: when a node is met again deeper, its
/// dependents move down with it.
pub proof fn lemma_gathered_dependents_deeper(nodes: Seq<NodeView>, root: int)
    requires
        0 <= root <= usize::MAX,
    ensures
        dependents_deeper(nodes, gathered(nodes, root)),
{
    let g = gathered(nodes, root);
    lemma_gathered_layers_walked(nodes, root);
    assert forall|i: int, k: int|
        0 <= i < g.len() && g[i].layer < MAX_GATHER_LAYER && 0 <= k < nodes[g[i].handle as int].dependents.len() implies #[trigger] has_deeper(
        g,
        nodes[g[i].handle as int].dependents[k] as int,
        g[i].layer as int,
    ) by {
        let x = g[i].handle as int;
        let d = nodes[x].dependents[k] as int;
        assert(leads(nodes, root, x, g[i].layer as nat));
        lemma_leads_extend(nodes, root, x, g[i].layer as nat, k);
        lemma_gathered_reaches(nodes, root, d, (g[i].layer + 1) as nat);
        let j = choose|j: int| 0 <= j < g.len() && (#[trigger] g[j]).handle == d && g[j].layer >= g[i].layer + 1;
        assert(g[j].handle as int == d);
    }
}

fn record_node(nodes: &Vec<crate::data_types::Node>, out: &mut Vec<LayoutNodeWrapper>, d: usize, layer: usize)
    requires
        d < nodes@.len(),
        layer <= MAX_GATHER_LAYER,
        gathered_wf(nodes_view(nodes@), wrappers_view(old(out)@)),
    ensures
        wrappers_view(final(out)@) == record(wrappers_view(old(out)@), nodes_view(nodes@), d as int, layer as int),
        gathered_wf(nodes_view(nodes@), wrappers_view(final(out)@)),
{
    let ghost nv = nodes_view(nodes@);
    let ghost es = wrappers_view(out@);
    let mut i: usize = 0;
    while i < out.len()
        invariant
            nv == nodes_view(nodes@),
            es == wrappers_view(out@),
            es == wrappers_view(old(out)@),
            d < nv.len(),
            layer <= MAX_GATHER_LAYER,
            gathered_wf(nv, es),
            0 <= i <= es.len(),
            forall|k: int| 0 <= k < i ==> es[k].handle != d,
        decreases es.len() - i,
    {
        if out[i].handle == d {
            proof {
                assert(is_first_handle(es, d as int, i as int));
                let j = choose|j: int| is_first_handle(es, d as int, j);
                if j < i {
                    assert(es[j].handle != d);
                }
                if i < j {
                    assert(es[i as int].handle != d);
                }
            }
            if out[i].layer < layer {
                out[i].layer = layer;
            }
            proof {
                assert(wrappers_view(out@) =~= record(es, nv, d as int, layer as int));
            }
            return;
        }
        i = i + 1;
    }
    assert(!exists|j: int| #[trigger] is_first_handle(es, d as int, j));
    out.push(LayoutNodeWrapper { handle: d, layer: layer, dependents: Vec::new() });
    proof {
        assert(wrappers_view(out@) =~= record(es, nv, d as int, layer as int));
    }
}

impl Scene {
    /// Gathers, depth-first, the nodes below node `h`, whose dependents lie
    /// on layer `on_layer`.
    fn gather_nodes(&self, h: usize, out: &mut Vec<LayoutNodeWrapper>, on_layer: usize)
        requires
            deps_in_range(self@.model.nodes),
            h < self@.model.nodes.len(),
            1 <= on_layer <= MAX_GATHER_LAYER + 1,
            gathered_wf(self@.model.nodes, wrappers_view(old(out)@)),
        ensures
            wrappers_view(final(out)@) == gather_from(self@.model.nodes, h as int, 0, wrappers_view(old(out)@), on_layer as int),
            gathered_wf(self@.model.nodes, wrappers_view(final(out)@)),
        decreases MAX_GATHER_LAYER + 1 - on_layer,
    {
        let ghost nv = self@.model.nodes;
        let ghost es0 = wrappers_view(out@);
        if on_layer > MAX_GATHER_LAYER {
            return;
        }
        let deps = &self.model.nodes[h].dependents;
        let mut k: usize = 0;
        while k < deps.len()
            invariant
                nv == self@.model.nodes,
                deps_in_range(self@.model.nodes),
                h < nv.len(),
                1 <= on_layer <= MAX_GATHER_LAYER,
                deps@ == nv[h as int].dependents,
                0 <= k <= deps@.len(),
                gathered_wf(nv, wrappers_view(out@)),
                gather_from(nv, h as int, 0, es0, on_layer as int) == gather_from(nv, h as int, k as int, wrappers_view(out@), on_layer as int),
            decreases deps@.len() - k,
        {
            let d = deps[k];
            assert(d == nv[h as int].dependents[k as int]);
            assert(d < nv.len());
            record_node(&self.model.nodes, out, d, on_layer);
            self.gather_nodes(d, out, on_layer + 1);
            k = k + 1;
        }
    }
}

/// The deepest layer of the wrappers (0 when there are none).
pub open spec fn max_layer(es: Seq<WrapperView>) -> int
    decreases es.len(),
{
    if es.len() == 0 {
        0
    } else {
        let m = max_layer(es.drop_last());
        if es.last().layer > m {
            es.last().layer as int
        } else {
            m
        }
    }
}

/// The wrappers on layer `l`, in order.
pub open spec fn on_layer(es: Seq<WrapperView>, l: int) -> Seq<WrapperView> {
    es.filter(|w: WrapperView| w.layer == l)
}

/// The wrappers sorted into layers `0..=max_layer(es)`, each in order.
pub open spec fn initial_layers(es: Seq<WrapperView>) -> Seq<Seq<WrapperView>> {
    Seq::new((max_layer(es) + 1) as nat, |l: int| on_layer(es, l))
}

/// The deepest layer among the wrappers.
fn find_highest_layer(es: &Vec<LayoutNodeWrapper>) -> (highest: usize)
    ensures
        highest == max_layer(wrappers_view(es@)),
        forall|i: int| 0 <= i < es@.len() ==> es@[i].layer <= highest,
{
    let ghost ev = wrappers_view(es@);
    let mut highest: usize = 0;
    let mut i: usize = 0;
    while i < es.len()
        invariant
            ev == wrappers_view(es@),
            0 <= i <= es@.len(),
            highest == max_layer(ev.subrange(0, i as int)),
            forall|k: int| 0 <= k < i ==> es@[k].layer <= highest,
        decreases es@.len() - i,
    {
        assert(ev.subrange(0, i + 1).drop_last() =~= ev.subrange(0, i as int));
        if es[i].layer > highest {
            highest = es[i].layer;
        }
        i = i + 1;
    }
    assert(ev.subrange(0, es@.len() as int) =~= ev);
    highest
}

/// The wrappers sorted into layers `0..=highest`.
fn split_into_layers(es: &Vec<LayoutNodeWrapper>, highest: usize) -> (by_layer: Vec<Vec<LayoutNodeWrapper>>)
    requires
        highest < usize::MAX,
        forall|i: int| 0 <= i < es@.len() ==> es@[i].layer <= highest,
    ensures
        layers_view(by_layer@) == Seq::new((highest + 1) as nat, |l: int| on_layer(wrappers_view(es@), l)),
{
    let ghost ev = wrappers_view(es@);
    let mut by_layer: Vec<Vec<LayoutNodeWrapper>> = Vec::new();
    let mut l: usize = 0;
    while l <= highest
        invariant
            0 <= l <= highest + 1,
            highest < usize::MAX,
            by_layer@.len() == l,
            forall|k: int| 0 <= k < l ==> (#[trigger] by_layer@[k])@.len() == 0,
        decreases highest + 1 - l,
    {
        by_layer.push(Vec::new());
        l = l + 1;
    }
    let mut i: usize = 0;
    while i < es.len()
        invariant
            ev == wrappers_view(es@),
            forall|k: int| 0 <= k < es@.len() ==> es@[k].layer <= highest,
            0 <= i <= es@.len(),
            by_layer@.len() == highest + 1,
            forall|k: int| 0 <= k <= highest ==> wrappers_view((#[trigger] by_layer@[k])@) == on_layer(ev.subrange(0, i as int), k),
        decreases es@.len() - i,
    {
        let w = es[i].duplicate();
        let l = es[i].layer;
        let ghost before = layers_view(by_layer@);
        let ghost before_raw = by_layer@;
        by_layer[l].push(w);
        proof {
            assert(ev.subrange(0, i + 1).drop_last() =~= ev.subrange(0, i as int));
            assert(ev.subrange(0, i + 1).last() == ev[i as int]);
            assert forall|k: int| 0 <= k <= highest implies wrappers_view((#[trigger] by_layer@[k])@) == on_layer(ev.subrange(0, i + 1), k) by {
                let sub = ev.subrange(0, i + 1);
                reveal(Seq::filter);
                assert(on_layer(sub, k) == if sub.last().layer == k {
                    on_layer(sub.drop_last(), k).push(sub.last())
                } else {
                    on_layer(sub.drop_last(), k)
                });
                if k == l {
                    assert(wrappers_view(before_raw[k]@) == before[k]);
                    assert(wrappers_view(by_layer@[k]@) =~= wrappers_view(before_raw[k]@).push(ev[i as int]));
                } else {
                    assert(by_layer@[k] == before_raw[k]);
                }
            }
        }
        i = i + 1;
    }
    proof {
        assert(ev.subrange(0, es@.len() as int) =~= ev);
        assert(layers_view(by_layer@) =~= Seq::new((highest + 1) as nat, |l: int| on_layer(ev, l)));
    }
    by_layer
}

/// Node `h` points to a node held by some wrapper of `ws`.
pub open spec fn depends_into(nodes: Seq<NodeView>, h: int, ws: Seq<WrapperView>) -> bool {
    exists|k: int, j: int|
        0 <= k < nodes[h].dependents.len() && 0 <= j < ws.len() && #[trigger] ws[j].handle
            == #[trigger] nodes[h].dependents[k]
}

/// The wrappers of `top` whose nodes point into `top`, in order.
pub open spec fn moving(nodes: Seq<NodeView>, top: Seq<WrapperView>) -> Seq<WrapperView> {
    top.filter(|w: WrapperView| depends_into(nodes, w.handle as int, top))
}

/// The wrappers of `top` whose nodes do not point into `top`, in order.
pub open spec fn staying(nodes: Seq<NodeView>, top: Seq<WrapperView>) -> Seq<WrapperView> {
    top.filter(|w: WrapperView| !depends_into(nodes, w.handle as int, top))
}

/// The wrappers moved to layer `l`.
pub open spec fn lifted(ws: Seq<WrapperView>, l: int) -> Seq<WrapperView> {
    ws.map_values(|w: WrapperView| WrapperView { layer: l as usize, ..w })
}

/// `top` after `k` rounds of keeping only the wrappers that point into it.
pub open spec fn peel_n(nodes: Seq<NodeView>, top: Seq<WrapperView>, k: nat) -> Seq<WrapperView>
    decreases k,
{
    if k == 0 {
        top
    } else {
        peel_n(nodes, moving(nodes, top), (k - 1) as nat)
    }
}

/// Some number of rounds of keeping only the wrappers whose nodes point into
/// what is kept empties `top`.
pub open spec fn settles(nodes: Seq<NodeView>, top: Seq<WrapperView>) -> bool {
    exists|k: nat| #[trigger] peel_n(nodes, top, k).len() == 0
}

/// The layers after up to `fuel` rounds of moving, from the last layer to a
/// new layer above it, the wrappers whose nodes point into the last layer;
/// the rounds stop when no wrapper moves.
pub open spec fn add_layers(nodes: Seq<NodeView>, layers: Seq<Seq<WrapperView>>, fuel: nat) -> Seq<Seq<WrapperView>>
    decreases fuel,
{
    if layers.len() == 0 {
        layers
    } else {
        let top = layers.last();
        let mv = moving(nodes, top);
        if fuel == 0 || mv.len() == 0 {
            layers
        } else {
            add_layers(
                nodes,
                layers.drop_last().push(staying(nodes, top)).push(lifted(mv, layers.len() as int)),
                (fuel - 1) as nat,
            )
        }
    }
}

/// The layers once no wrapper of the last layer points into it.
pub open spec fn settled_layers(nodes: Seq<NodeView>, layers: Seq<Seq<WrapperView>>) -> Seq<Seq<WrapperView>> {
    add_layers(nodes, layers, choose|k: nat| #[trigger] peel_n(nodes, layers.last(), k).len() == 0)
}

/// Every wrapper of the layers is for an existing node.
pub open spec fn layers_in_range(nodes: Seq<NodeView>, layers: Seq<Seq<WrapperView>>) -> bool {
    forall|i: int, j: int|
        0 <= i < layers.len() && 0 <= j < layers[i].len() ==> #[trigger] layers[i][j].handle < nodes.len()
}

/// No wrapper of the layers has a link yet.
pub open spec fn layers_unlinked(layers: Seq<Seq<WrapperView>>) -> bool {
    forall|i: int, j: int|
        0 <= i < layers.len() && 0 <= j < layers[i].len() ==> #[trigger] layers[i][j].dependents.len() == 0
}

proof fn lemma_initial_layers_fresh(nodes: Seq<NodeView>, es: Seq<WrapperView>)
    requires
        gathered_wf(nodes, es),
    ensures
        layers_in_range(nodes, initial_layers(es)),
        layers_unlinked(initial_layers(es)),
{
    let ls = initial_layers(es);
    assert forall|i: int, j: int| 0 <= i < ls.len() && 0 <= j < ls[i].len() implies (#[trigger] ls[i][j]).handle
        < nodes.len() && ls[i][j].dependents.len() == 0 by {
        let p = |w: WrapperView| w.layer == i;
        assert(ls[i] == es.filter(p));
        assert(es.filter(p).contains(ls[i][j]));
        es.lemma_filter_contains_rev(p, ls[i][j]);
        let k = choose|k: int| 0 <= k < es.len() && es[k] == ls[i][j];
        assert(es[k].handle < nodes.len());
    }
}

proof fn lemma_filter_lifted(xs: Seq<WrapperView>, p: spec_fn(WrapperView) -> bool, l: int)
    requires
        forall|w: WrapperView| #[trigger] p(WrapperView { layer: l as usize, ..w }) == p(w),
    ensures
        lifted(xs, l).filter(p) == lifted(xs.filter(p), l),
    decreases xs.len(),
{
    reveal(Seq::filter);
    if xs.len() > 0 {
        lemma_filter_lifted(xs.drop_last(), p, l);
        assert(lifted(xs, l).drop_last() =~= lifted(xs.drop_last(), l));
        let w = xs.last();
        assert(p(WrapperView { layer: l as usize, ..w }) == p(w));
        if p(w) {
            assert(lifted(xs.filter(p), l) =~= lifted(xs.drop_last().filter(p), l).push(
                WrapperView { layer: l as usize, ..w },
            ));
        } else {
            assert(lifted(xs.filter(p), l) =~= lifted(xs.drop_last().filter(p), l));
        }
    } else {
        assert(lifted(xs, l) =~= xs);
    }
}

proof fn lemma_moving_lifted(nodes: Seq<NodeView>, xs: Seq<WrapperView>, l: int)
    ensures
        moving(nodes, lifted(xs, l)) == lifted(moving(nodes, xs), l),
{
    let p1 = |w: WrapperView| depends_into(nodes, w.handle as int, lifted(xs, l));
    let p2 = |w: WrapperView| depends_into(nodes, w.handle as int, xs);
    assert forall|w: WrapperView| #[trigger] p1(w) == p2(w) by {
        let h = w.handle as int;
        if depends_into(nodes, h, xs) {
            let (k, j) = choose|k: int, j: int|
                0 <= k < nodes[h].dependents.len() && 0 <= j < xs.len() && #[trigger] xs[j].handle
                    == #[trigger] nodes[h].dependents[k];
            assert(lifted(xs, l)[j].handle == xs[j].handle);
        }
        if depends_into(nodes, h, lifted(xs, l)) {
            let (k, j) = choose|k: int, j: int|
                0 <= k < nodes[h].dependents.len() && 0 <= j < lifted(xs, l).len() && #[trigger] lifted(xs, l)[j].handle
                    == #[trigger] nodes[h].dependents[k];
            assert(lifted(xs, l)[j].handle == xs[j].handle);
        }
    }
    assert(p1 =~= p2);
    lemma_filter_lifted(xs, p2, l);
}

proof fn lemma_peel_lifted(nodes: Seq<NodeView>, xs: Seq<WrapperView>, l: int, k: nat)
    ensures
        peel_n(nodes, lifted(xs, l), k).len() == peel_n(nodes, xs, k).len(),
    decreases k,
{
    if k == 0 {
    } else {
        lemma_moving_lifted(nodes, xs, l);
        lemma_peel_lifted(nodes, moving(nodes, xs), l, (k - 1) as nat);
    }
}

/// No two wrappers of the sequence are for the same node.
pub open spec fn handles_distinct(es: Seq<WrapperView>) -> bool {
    forall|i: int, j: int|
        0 <= i < es.len() && 0 <= j < es.len() && #[trigger] es[i].handle == #[trigger] es[j].handle ==> i == j
}

/// No two slots of the layers hold the same node.
pub open spec fn slots_distinct(ls: Seq<Seq<WrapperView>>) -> bool {
    forall|i: int, j: int, a: int, b: int|
        0 <= i < ls.len() && 0 <= j < ls[i].len() && 0 <= a < ls.len() && 0 <= b < ls[a].len()
            && #[trigger] ls[i][j].handle == #[trigger] ls[a][b].handle ==> i == a && j == b
}

/// What a filter keeps satisfies the predicate and comes from the
/// sequence; a filter keeps wrappers for distinct nodes distinct.
proof fn lemma_filter_origin(xs: Seq<WrapperView>, p: spec_fn(WrapperView) -> bool)
    ensures
        forall|j: int|
            0 <= j < xs.filter(p).len() ==> p(#[trigger] xs.filter(p)[j]) && exists|k: int|
                0 <= k < xs.len() && xs[k] == xs.filter(p)[j],
        handles_distinct(xs) ==> handles_distinct(xs.filter(p)),
    decreases xs.len(),
{
    reveal(Seq::filter);
    if xs.len() > 0 {
        let rest = xs.drop_last();
        lemma_filter_origin(rest, p);
        let fr = rest.filter(p);
        let f = xs.filter(p);
        assert forall|j: int| 0 <= j < f.len() implies p(#[trigger] f[j]) && exists|k: int| 0 <= k < xs.len() && xs[k] == f[j] by {
            if j < fr.len() {
                assert(f[j] == fr[j]);
                let k = choose|k: int| 0 <= k < rest.len() && rest[k] == fr[j];
                assert(xs[k] == f[j]);
            } else {
                assert(f[j] == xs.last());
                assert(xs[xs.len() - 1] == f[j]);
            }
        }
        if handles_distinct(xs) {
            assert forall|i: int, j: int| 0 <= i < rest.len() && 0 <= j < rest.len() && #[trigger] rest[i].handle == #[trigger] rest[j].handle implies i == j by {
                assert(xs[i] == rest[i] && xs[j] == rest[j]);
            }
            assert forall|i: int, j: int| 0 <= i < f.len() && 0 <= j < f.len() && #[trigger] f[i].handle == #[trigger] f[j].handle implies i == j by {
                if i < fr.len() && j < fr.len() {
                    assert(f[i] == fr[i] && f[j] == fr[j]);
                } else if i < fr.len() {
                    let k = choose|k: int| 0 <= k < rest.len() && rest[k] == fr[i];
                    assert(f[i] == fr[i]);
                    assert(f[j] == xs.last());
                    assert(xs[k].handle == xs[xs.len() - 1].handle);
                } else if j < fr.len() {
                    let k = choose|k: int| 0 <= k < rest.len() && rest[k] == fr[j];
                    assert(f[j] == fr[j]);
                    assert(f[i] == xs.last());
                    assert(xs[k].handle == xs[xs.len() - 1].handle);
                }
            }
        }
    } else {
        assert(xs.filter(p).len() == 0);
    }
}

/// Gathered wrappers are for distinct nodes.
proof fn lemma_gathered_distinct(nodes: Seq<NodeView>, es: Seq<WrapperView>)
    requires
        gathered_wf(nodes, es),
    ensures
        handles_distinct(es),
{
    assert forall|i: int, j: int| 0 <= i < es.len() && 0 <= j < es.len() && #[trigger] es[i].handle == #[trigger] es[j].handle implies i == j by {
        if i < j {
            assert(es[i].handle != es[j].handle);
        } else if j < i {
            assert(es[j].handle != es[i].handle);
        }
    }
}

/// Sorting wrappers for distinct nodes into layers puts each node in one
/// slot.
proof fn lemma_initial_layers_distinct(es: Seq<WrapperView>)
    requires
        handles_distinct(es),
    ensures
        slots_distinct(initial_layers(es)),
{
    let ls = initial_layers(es);
    assert forall|i: int, j: int, a: int, b: int|
        0 <= i < ls.len() && 0 <= j < ls[i].len() && 0 <= a < ls.len() && 0 <= b < ls[a].len()
            && #[trigger] ls[i][j].handle == #[trigger] ls[a][b].handle implies i == a && j == b by {
        let pi = |w: WrapperView| w.layer == i;
        let pa = |w: WrapperView| w.layer == a;
        assert(ls[i] == es.filter(pi));
        assert(ls[a] == es.filter(pa));
        lemma_filter_origin(es, pi);
        lemma_filter_origin(es, pa);
        let k1 = choose|k: int| 0 <= k < es.len() && es[k] == es.filter(pi)[j];
        let k2 = choose|k: int| 0 <= k < es.len() && es[k] == es.filter(pa)[b];
        assert(es[k1].handle == es[k2].handle);
        assert(k1 == k2);
        assert(pi(es.filter(pi)[j]));
        assert(pa(es.filter(pa)[b]));
        assert(i == a);
        assert(es.filter(pi)[j].handle == es.filter(pi)[b].handle);
    }
}

/// Moving the wrappers of the last layer that point into it onto a new layer
/// keeps each node in one slot.
proof fn lemma_split_top_distinct(nodes: Seq<NodeView>, cur: Seq<Seq<WrapperView>>)
    requires
        cur.len() >= 1,
        slots_distinct(cur),
    ensures
        slots_distinct(
            cur.drop_last().push(staying(nodes, cur.last())).push(lifted(moving(nodes, cur.last()), cur.len() as int)),
        ),
{
    let n = cur.len() as int;
    let top = cur.last();
    let p = |w: WrapperView| depends_into(nodes, w.handle as int, top);
    let q = |w: WrapperView| !depends_into(nodes, w.handle as int, top);
    let st = top.filter(q);
    let mv = top.filter(p);
    let lm = lifted(mv, n);
    let ls = cur.drop_last().push(st).push(lm);
    assert(st == staying(nodes, top));
    assert(mv == moving(nodes, top));
    lemma_filter_origin(top, p);
    lemma_filter_origin(top, q);
    assert forall|j: int| #![trigger st[j]] 0 <= j < st.len() implies exists|k: int|
        0 <= k < top.len() && #[trigger] top[k].handle == st[j].handle && q(top[k]) by {
        let k = choose|k: int| 0 <= k < top.len() && top[k] == st[j];
        assert(q(st[j]));
        assert(top[k].handle == st[j].handle);
    }
    assert forall|j: int| #![trigger lm[j]] 0 <= j < lm.len() implies exists|k: int|
        0 <= k < top.len() && #[trigger] top[k].handle == lm[j].handle && p(top[k]) by {
        assert(lm[j].handle == mv[j].handle);
        let k = choose|k: int| 0 <= k < top.len() && top[k] == mv[j];
        assert(p(mv[j]));
        assert(top[k].handle == lm[j].handle);
    }
    assert(cur[n - 1] == top);
    assert forall|i: int, j: int, a: int, b: int|
        0 <= i < ls.len() && 0 <= j < ls[i].len() && 0 <= a < ls.len() && 0 <= b < ls[a].len()
            && #[trigger] ls[i][j].handle == #[trigger] ls[a][b].handle implies i == a && j == b by {
        if i < n - 1 && a < n - 1 {
            assert(ls[i] == cur[i] && ls[a] == cur[a]);
        } else if i < n - 1 {
            assert(ls[i] == cur[i]);
            let k = if a == n - 1 {
                choose|k: int| 0 <= k < top.len() && #[trigger] top[k].handle == st[b].handle && q(top[k])
            } else {
                choose|k: int| 0 <= k < top.len() && #[trigger] top[k].handle == lm[b].handle && p(top[k])
            };
            assert(cur[n - 1][k].handle == cur[i][j].handle);
        } else if a < n - 1 {
            assert(ls[a] == cur[a]);
            let k = if i == n - 1 {
                choose|k: int| 0 <= k < top.len() && #[trigger] top[k].handle == st[j].handle && q(top[k])
            } else {
                choose|k: int| 0 <= k < top.len() && #[trigger] top[k].handle == lm[j].handle && p(top[k])
            };
            assert(cur[n - 1][k].handle == cur[a][b].handle);
        } else if i == n - 1 && a == n - 1 {
            assert(ls[i] == st && ls[a] == st);
            assert(st[j].handle == st[b].handle);
        } else if i == n && a == n {
            assert(ls[i] == lm && ls[a] == lm);
            assert(lm[j].handle == mv[j].handle);
            assert(lm[b].handle == mv[b].handle);
            assert(mv[j].handle == mv[b].handle);
        } else {
            let (sj, mj) = if i == n - 1 { (j, b) } else { (b, j) };
            assert(ls[n - 1] == st && ls[n] == lm);
            let k1 = choose|k: int| 0 <= k < top.len() && #[trigger] top[k].handle == st[sj].handle && q(top[k]);
            let k2 = choose|k: int| 0 <= k < top.len() && #[trigger] top[k].handle == lm[mj].handle && p(top[k]);
            assert(cur[n - 1][k1].handle == cur[n - 1][k2].handle);
            assert(k1 == k2);
        }
    }
}

/// Layers whose slots hold the same nodes as those of distinct-slot layers
/// have distinct slots too.
proof fn lemma_same_handles_distinct(a: Seq<Seq<WrapperView>>, b: Seq<Seq<WrapperView>>)
    requires
        slots_distinct(a),
        a.len() == b.len(),
        forall|i: int| 0 <= i < a.len() ==> (#[trigger] a[i]).len() == b[i].len(),
        forall|i: int, j: int| 0 <= i < a.len() && 0 <= j < a[i].len() ==> (#[trigger] a[i][j]).handle == b[i][j].handle,
    ensures
        slots_distinct(b),
{
    assert forall|i: int, j: int, x: int, y: int|
        0 <= i < b.len() && 0 <= j < b[i].len() && 0 <= x < b.len() && 0 <= y < b[x].len()
            && #[trigger] b[i][j].handle == #[trigger] b[x][y].handle implies i == x && j == y by {
        assert(a[i].len() == b[i].len());
        assert(a[x].len() == b[x].len());
        assert(a[i][j].handle == b[i][j].handle);
        assert(a[x][y].handle == b[x][y].handle);
    }
}

impl Scene {
    /// Whether node `h` points to a node held by the wrappers of layer `last`.
    fn has_dependent_in(&self, h: usize, by_layer: &Vec<Vec<LayoutNodeWrapper>>, last: usize) -> (r: bool)
        requires
            deps_in_range(self@.model.nodes),
            h < self@.model.nodes.len(),
            last == by_layer@.len() - 1,
        ensures
            r == depends_into(self@.model.nodes, h as int, layers_view(by_layer@)[last as int]),
    {
        let ghost nv = self@.model.nodes;
        let ghost ls = layers_view(by_layer@);
        let deps = &self.model.nodes[h].dependents;
        let mut k: usize = 0;
        while k < deps.len()
            invariant
                nv == self@.model.nodes,
                ls == layers_view(by_layer@),
                last == by_layer@.len() - 1,
                h < nv.len(),
                deps@ == nv[h as int].dependents,
                0 <= k <= deps@.len(),
                forall|kk: int, j: int|
                    0 <= kk < k && 0 <= j < ls[last as int].len() ==> #[trigger] ls[last as int][j].handle != #[trigger] nv[h as int].dependents[kk],
            decreases deps@.len() - k,
        {
            match Scene::find_dependent(deps[k], by_layer, last) {
                Some((i, j)) => {
                    assert(ls[last as int][j as int].handle == nv[h as int].dependents[k as int]);
                    return true;
                },
                None => {
                    proof {
                        assert forall|j: int| 0 <= j < ls[last as int].len() implies #[trigger] ls[last as int][j].handle != nv[h as int].dependents[k as int] by {
                            if ls[last as int][j].handle == nv[h as int].dependents[k as int] {
                                lemma_exists_first_in_row(ls, last as int, j, nv[h as int].dependents[k as int] as int);
                            }
                        }
                    }
                },
            }
            k = k + 1;
        }
        false
    }
}

impl Scene {
    /// Moves, round after round, the wrappers of the last layer whose nodes
    /// point into that layer onto a new layer above it, until none does.
    #[verifier::spinoff_prover]
    fn recursively_add_layers(&self, layers: &mut Vec<Vec<LayoutNodeWrapper>>)
        requires
            deps_in_range(self@.model.nodes),
            old(layers)@.len() >= 1,
            layers_in_range(self@.model.nodes, layers_view(old(layers)@)),
            layers_unlinked(layers_view(old(layers)@)),
            settles(self@.model.nodes, layers_view(old(layers)@).last()),
            slots_distinct(layers_view(old(layers)@)),
        ensures
            layers_view(final(layers)@) == settled_layers(self@.model.nodes, layers_view(old(layers)@)),
            layers_in_range(self@.model.nodes, layers_view(final(layers)@)),
            layers_unlinked(layers_view(final(layers)@)),
            final(layers)@.len() >= 1,
            slots_distinct(layers_view(final(layers)@)),
    {
        let ghost nv = self@.model.nodes;
        let ghost l0 = layers_view(layers@);
        let ghost big_k = choose|k: nat| #[trigger] peel_n(nv, l0.last(), k).len() == 0;
        let ghost mut fuel: nat = big_k;
        loop
            invariant
                nv == self@.model.nodes,
                deps_in_range(self@.model.nodes),
                layers@.len() >= 1,
                layers_in_range(nv, layers_view(layers@)),
                layers_unlinked(layers_view(layers@)),
                l0 == layers_view(old(layers)@),
                settled_layers(nv, l0) == add_layers(nv, layers_view(layers@), fuel),
                peel_n(nv, layers_view(layers@).last(), fuel).len() == 0,
                slots_distinct(layers_view(layers@)),
            decreases fuel,
        {
            let ghost cur = layers_view(layers@);
            let ghost top = cur.last();
            let last = layers.len() - 1;
            assert(cur[last as int] == top);
            let mut stays: Vec<LayoutNodeWrapper> = Vec::new();
            let mut news: Vec<LayoutNodeWrapper> = Vec::new();
            let new_layer = layers.len();
            let mut j: usize = 0;
            while j < layers[last].len()
                invariant
                    nv == self@.model.nodes,
                    deps_in_range(self@.model.nodes),
                    cur == layers_view(layers@),
                    top == cur.last(),
                    last == layers@.len() - 1,
                    new_layer == layers@.len(),
                    layers_in_range(nv, cur),
                    layers_unlinked(cur),
                    0 <= j <= top.len(),
                    wrappers_view(stays@) == top.subrange(0, j as int).filter(
                        |w: WrapperView| !depends_into(nv, w.handle as int, top),
                    ),
                    wrappers_view(news@) == lifted(
                        top.subrange(0, j as int).filter(|w: WrapperView| depends_into(nv, w.handle as int, top)),
                        new_layer as int,
                    ),
                    forall|k: int| 0 <= k < stays@.len() ==> (#[trigger] stays@[k]).handle < nv.len(),
                    forall|k: int| 0 <= k < news@.len() ==> (#[trigger] news@[k]).handle < nv.len(),
                    forall|k: int| 0 <= k < stays@.len() ==> (#[trigger] stays@[k]).dependents@.len() == 0,
                    forall|k: int| 0 <= k < news@.len() ==> (#[trigger] news@[k]).dependents@.len() == 0,
                decreases top.len() - j,
            {
                let ghost sub = top.subrange(0, j + 1);
                proof {
                    reveal(Seq::filter);
                    assert(sub.drop_last() =~= top.subrange(0, j as int));
                    assert(sub.last() == top[j as int]);
                    assert(top[j as int] == layers@[last as int]@[j as int]@);
                }
                let h = layers[last][j].handle;
                assert(cur[last as int][j as int] == layers@[last as int]@[j as int]@);
                assert(cur[last as int][j as int].handle < nv.len());
                assert(cur[last as int][j as int].dependents.len() == 0);
                assert(h < nv.len());
                let ghost s0 = wrappers_view(stays@);
                let ghost n0 = wrappers_view(news@);
                if self.has_dependent_in(h, layers, last) {
                    let mut c = layers[last][j].duplicate();
                    c.layer = new_layer;
                    let ghost cv = c@;
                    news.push(c);
                    assert(wrappers_view(news@) =~= n0.push(cv));
                    assert(lifted(sub.filter(|w: WrapperView| depends_into(nv, w.handle as int, top)), new_layer as int)
                        =~= n0.push(cv));
                } else {
                    let c = layers[last][j].duplicate();
                    let ghost cv = c@;
                    stays.push(c);
                    assert(wrappers_view(stays@) =~= s0.push(cv));
                }
                j = j + 1;
            }
            proof {
                assert(top.subrange(0, top.len() as int) =~= top);
            }
            if news.len() == 0 {
                proof {
                    assert(wrappers_view(news@).len() == 0);
                    assert(moving(nv, top).len() == 0);
                    assert(add_layers(nv, cur, fuel) == cur);
                }
                return;
            }
            let ghost mv = moving(nv, top);
            proof {
                lemma_peel_lifted(nv, mv, new_layer as int, (fuel - 1) as nat);
            }
            layers.pop();
            layers.push(stays);
            layers.push(news);
            proof {
                assert(layers_view(layers@) =~= cur.drop_last().push(staying(nv, top)).push(lifted(mv, cur.len() as int)));
                assert(slots_distinct(layers_view(layers@))) by {
                    lemma_split_top_distinct(nv, cur);
                }
                assert forall|i: int, k: int|
                    #![trigger layers_view(layers@)[i][k]]
                    0 <= i < layers_view(layers@).len() && 0 <= k < layers_view(layers@)[i].len() implies layers_view(layers@)[i][k].handle < nv.len()
                        && layers_view(layers@)[i][k].dependents.len() == 0 by {
                    if i < cur.len() - 1 {
                        assert(layers_view(layers@)[i] == cur[i]);
                    } else if i == cur.len() - 1 {
                        assert(layers_view(layers@)[i][k] == layers@[i]@[k]@);
                    } else {
                        assert(layers_view(layers@)[i][k] == layers@[i]@[k]@);
                    }
                }
                fuel = (fuel - 1) as nat;
            }
        }
    }
}

/// A dependency of the node in slot `(i, j)` on a node found at slot
/// `(l, n)` of a later layer: `(i, j, l, n)`.
pub type Connection = (usize, usize, usize, usize);

/// The connection from slot `(i, j)` for dependent `d`, if `d` lies on a
/// later layer.
pub open spec fn connection_to(layers: Seq<Seq<WrapperView>>, i: int, j: int) -> spec_fn(usize) -> Option<Connection> {
    |d: usize| match find_slot(layers, d as int, i + 1) {
        Some((l, n)) => Some((i as usize, j as usize, l as usize, n as usize)),
        None => None,
    }
}

/// The connections from slot `(i, j)`, in the order of its node's dependents.
pub open spec fn connections_at(nodes: Seq<NodeView>, layers: Seq<Seq<WrapperView>>, i: int, j: int) -> Seq<Connection> {
    nodes[layers[i][j].handle as int].dependents.filter_map(connection_to(layers, i, j))
}

/// The connections from the first `j` slots of layer `i`.
pub open spec fn connections_in_row(nodes: Seq<NodeView>, layers: Seq<Seq<WrapperView>>, i: int, j: int) -> Seq<Connection>
    decreases j,
{
    if j <= 0 {
        Seq::empty()
    } else {
        connections_in_row(nodes, layers, i, j - 1) + connections_at(nodes, layers, i, j - 1)
    }
}

/// The connections from the first `i` layers.
pub open spec fn connections_below(nodes: Seq<NodeView>, layers: Seq<Seq<WrapperView>>, i: int) -> Seq<Connection>
    decreases i,
{
    if i <= 0 {
        Seq::empty()
    } else {
        connections_below(nodes, layers, i - 1) + connections_in_row(nodes, layers, i - 1, layers[i - 1].len() as int)
    }
}

/// Every connection, layer by layer and slot by slot.
pub open spec fn connections(nodes: Seq<NodeView>, layers: Seq<Seq<WrapperView>>) -> Seq<Connection> {
    connections_below(nodes, layers, layers.len() as int)
}

/// The connection leaves a slot of the layers for a slot of a later layer.
pub open spec fn connection_in_range(layers: Seq<Seq<WrapperView>>, c: Connection) -> bool {
    &&& c.0 < c.2 < layers.len()
    &&& c.1 < layers[c.0 as int].len()
    &&& c.3 < layers[c.2 as int].len()
}

impl Scene {
    /// Every connection of the layers.
    fn collect_connections(&self, by_layer: &Vec<Vec<LayoutNodeWrapper>>) -> (cs: Vec<Connection>)
        requires
            deps_in_range(self@.model.nodes),
            layers_in_range(self@.model.nodes, layers_view(by_layer@)),
        ensures
            cs@ == connections(self@.model.nodes, layers_view(by_layer@)),
            forall|t: int| 0 <= t < cs@.len() ==> connection_in_range(layers_view(by_layer@), #[trigger] cs@[t]),
            layers_view(by_layer@).len() <= usize::MAX,
            forall|l: int| 0 <= l < by_layer@.len() ==> (#[trigger] layers_view(by_layer@)[l]).len() <= usize::MAX,
    {
        let ghost nv = self@.model.nodes;
        let ghost ls = layers_view(by_layer@);
        let mut cs: Vec<Connection> = Vec::new();
        let count = by_layer.len();
        let mut i: usize = 0;
        while i < by_layer.len()
            invariant
                count == ls.len(),
                nv == self@.model.nodes,
                ls == layers_view(by_layer@),
                deps_in_range(self@.model.nodes),
                layers_in_range(nv, ls),
                0 <= i <= ls.len(),
                cs@ == connections_below(nv, ls, i as int),
                forall|t: int| 0 <= t < cs@.len() ==> connection_in_range(ls, #[trigger] cs@[t]),
                forall|l: int| 0 <= l < i ==> (#[trigger] ls[l]).len() <= usize::MAX,
            decreases ls.len() - i,
        {
            let mut j: usize = 0;
            while j < by_layer[i].len()
                invariant
                    nv == self@.model.nodes,
                    ls == layers_view(by_layer@),
                    count == ls.len(),
                    deps_in_range(self@.model.nodes),
                    layers_in_range(nv, ls),
                    0 <= i < ls.len(),
                    0 <= j <= ls[i as int].len(),
                    cs@ == connections_below(nv, ls, i as int) + connections_in_row(nv, ls, i as int, j as int),
                    forall|t: int| 0 <= t < cs@.len() ==> connection_in_range(ls, #[trigger] cs@[t]),
                decreases ls[i as int].len() - j,
            {
                let h = by_layer[i][j].handle;
                assert(ls[i as int][j as int] == by_layer@[i as int]@[j as int]@);
                assert(ls[i as int][j as int].handle < nv.len());
                let deps = &self.model.nodes[h].dependents;
                let ghost f = connection_to(ls, i as int, j as int);
                let ghost base = cs@;
                let mut k: usize = 0;
                while k < deps.len()
                    invariant
                        nv == self@.model.nodes,
                        ls == layers_view(by_layer@),
                        count == ls.len(),
                        0 <= i < ls.len(),
                        0 <= j < ls[i as int].len(),
                        h == ls[i as int][j as int].handle,
                        deps@ == nv[h as int].dependents,
                        0 <= k <= deps@.len(),
                        f == connection_to(ls, i as int, j as int),
                        cs@ == base + deps@.take(k as int).filter_map(f),
                        forall|t: int| 0 <= t < cs@.len() ==> connection_in_range(ls, #[trigger] cs@[t]),
                    decreases deps@.len() - k,
                {
                    proof {
                        deps@.lemma_filter_map_take_succ(f, k as int);
                    }
                    match Scene::find_dependent(deps[k], by_layer, i + 1) {
                        Some((l, n)) => {
                            let c: Connection = (i, j, l, n);
                            proof {
                                assert(f(deps@[k as int]) == Some(c));
                            }
                            cs.push(c);
                            assert(cs@ =~= base + deps@.take(k + 1).filter_map(f));
                        },
                        None => {
                            assert(f(deps@[k as int]) is None);
                            assert(cs@ =~= base + deps@.take(k + 1).filter_map(f));
                        },
                    }
                    k = k + 1;
                }
                proof {
                    assert(deps@.take(deps@.len() as int) =~= deps@);
                    assert(cs@ =~= connections_below(nv, ls, i as int) + connections_in_row(nv, ls, i as int, j + 1));
                }
                j = j + 1;
            }
            assert(cs@ =~= connections_below(nv, ls, i + 1));
            assert(ls[i as int].len() == by_layer@[i as int]@.len());
            i = i + 1;
        }
        cs
    }
}

/// How many of the connections leave slot `(i, j)`.
pub open spec fn count_from(cs: Seq<Connection>, i: int, j: int) -> nat
    decreases cs.len(),
{
    if cs.len() == 0 {
        0
    } else {
        count_from(cs.drop_last(), i, j) + if cs.last().0 == i && cs.last().1 == j {
            1nat
        } else {
            0nat
        }
    }
}

proof fn lemma_count_concat(a: Seq<Connection>, b: Seq<Connection>, i: int, j: int)
    ensures
        count_from(a + b, i, j) == count_from(a, i, j) + count_from(b, i, j),
    decreases b.len(),
{
    if b.len() == 0 {
        assert(a + b =~= a);
    } else {
        assert((a + b).drop_last() =~= a + b.drop_last());
        assert((a + b).last() == b.last());
        lemma_count_concat(a, b.drop_last(), i, j);
    }
}

proof fn lemma_count_at(ds: Seq<usize>, ls: Seq<Seq<WrapperView>>, a: int, b: int, i: int, j: int)
    requires
        0 <= a,
        0 <= b,
        a <= usize::MAX,
        b <= usize::MAX,
    ensures
        count_from(ds.filter_map(connection_to(ls, a, b)), i, j) == if a == i && b == j {
            ds.filter_map(connection_to(ls, a, b)).len()
        } else {
            0
        },
        ds.filter_map(connection_to(ls, a, b)).len() <= ds.len(),
    decreases ds.len(),
{
    let f = connection_to(ls, a, b);
    if ds.len() > 0 {
        lemma_count_at(ds.drop_last(), ls, a, b, i, j);
        let rest = ds.drop_last().filter_map(f);
        match f(ds.last()) {
            Some(c) => {
                assert(ds.filter_map(f) == rest + seq![c]);
                assert((rest + seq![c]).drop_last() =~= rest);
                assert(c.0 == a && c.1 == b);
            },
            None => {
                assert(ds.filter_map(f) == rest);
            },
        }
    }
}

/// Connections leave the slot they name.
proof fn lemma_count_row(nodes: Seq<NodeView>, ls: Seq<Seq<WrapperView>>, a: int, jj: int, i: int, j: int)
    requires
        0 <= a < ls.len(),
        0 <= jj <= ls[a].len(),
        ls[a].len() <= usize::MAX,
        a <= usize::MAX,
    ensures
        count_from(connections_in_row(nodes, ls, a, jj), i, j) == if a == i && 0 <= j < jj {
            connections_at(nodes, ls, i, j).len()
        } else {
            0
        },
    decreases jj,
{
    if jj > 0 {
        lemma_count_row(nodes, ls, a, jj - 1, i, j);
        lemma_count_concat(connections_in_row(nodes, ls, a, jj - 1), connections_at(nodes, ls, a, jj - 1), i, j);
        lemma_count_at(nodes[ls[a][jj - 1].handle as int].dependents, ls, a, jj - 1, i, j);
    }
}

proof fn lemma_count_below(nodes: Seq<NodeView>, ls: Seq<Seq<WrapperView>>, ii: int, i: int, j: int)
    requires
        0 <= ii <= ls.len(),
        ls.len() <= usize::MAX,
        forall|l: int| 0 <= l < ls.len() ==> (#[trigger] ls[l]).len() <= usize::MAX,
    ensures
        count_from(connections_below(nodes, ls, ii), i, j) == if 0 <= i < ii && 0 <= j < ls[i].len() {
            connections_at(nodes, ls, i, j).len()
        } else {
            0
        },
    decreases ii,
{
    if ii > 0 {
        lemma_count_below(nodes, ls, ii - 1, i, j);
        assert(ls[ii - 1].len() <= usize::MAX);
        lemma_count_concat(connections_below(nodes, ls, ii - 1), connections_in_row(nodes, ls, ii - 1, ls[ii - 1].len() as int), i, j);
        lemma_count_row(nodes, ls, ii - 1, ls[ii - 1].len() as int, i, j);
    }
}

proof fn lemma_count_take(cs: Seq<Connection>, t: int, i: int, j: int)
    requires
        0 <= t < cs.len(),
    ensures
        count_from(cs.take(t + 1), i, j) == count_from(cs.take(t), i, j) + if cs[t].0 == i && cs[t].1 == j {
            1nat
        } else {
            0nat
        },
{
    assert(cs.take(t + 1).drop_last() =~= cs.take(t));
}

/// The layers with a link from slot `from` to slot `to` appended.
pub open spec fn with_link(ls: Seq<Seq<WrapperView>>, from: (int, int), to: (usize, usize)) -> Seq<Seq<WrapperView>> {
    let w = ls[from.0][from.1];
    ls.update(from.0, ls[from.0].update(from.1, WrapperView { dependents: w.dependents.push(to), ..w }))
}

/// A wrapper for the fake node `h` on layer `l`.
pub open spec fn fake_wrapper(h: int, l: int) -> WrapperView {
    WrapperView { handle: h as usize, layer: l as usize, dependents: Seq::empty() }
}

/// The layers and next fresh handle after linking slot `cur` to `target`
/// through one fresh fake node on each layer from `l` up to the target's.
pub open spec fn chain(ls: Seq<Seq<WrapperView>>, next: int, cur: (int, int), l: int, target: (int, int)) -> (Seq<Seq<WrapperView>>, int)
    decreases target.0 - l,
{
    if l >= target.0 {
        (with_link(ls, cur, (target.0 as usize, target.1 as usize)), next)
    } else {
        let end = ls[l].len() as int;
        let ls1 = ls.update(l, ls[l].push(fake_wrapper(next, l)));
        chain(with_link(ls1, cur, (l as usize, end as usize)), next + 1, (l, end), l + 1, target)
    }
}

/// The layers and next fresh handle after the first `t` connections.
pub open spec fn expand_all(ls: Seq<Seq<WrapperView>>, next: int, cs: Seq<Connection>, t: int) -> (Seq<Seq<WrapperView>>, int)
    decreases t,
{
    if t <= 0 {
        (ls, next)
    } else {
        let (ls1, next1) = expand_all(ls, next, cs, t - 1);
        let c = cs[t - 1];
        chain(ls1, next1, (c.0 as int, c.1 as int), c.0 + 1, (c.2 as int, c.3 as int))
    }
}

/// `nodes` followed by `count` fake nodes.
pub open spec fn with_fakes(nodes: Seq<NodeView>, count: int) -> Seq<NodeView> {
    nodes + Seq::new(count as nat, |k: int| crate::data_types::fake_node_view())
}

/// The layers grown from `l0`: as many layers, each holding the wrappers of
/// `l0` first (for the same nodes) and then wrappers for fake nodes, whose
/// handles lie in `n0..nodes.len()`.
pub open spec fn extends_with_fakes(nodes: Seq<NodeView>, n0: int, l0: Seq<Seq<WrapperView>>, ls: Seq<Seq<WrapperView>>) -> bool {
    &&& ls.len() == l0.len()
    &&& forall|i: int| 0 <= i < ls.len() ==> (#[trigger] ls[i]).len() >= l0[i].len()
    &&& forall|i: int, j: int|
        0 <= i < ls.len() && 0 <= j < ls[i].len() ==> if j < l0[i].len() {
            (#[trigger] ls[i][j]).handle == l0[i][j].handle
        } else {
            &&& n0 <= ls[i][j].handle < nodes.len()
            &&& nodes[ls[i][j].handle as int].is_fake_node
        }
}

/// Every link leads from its wrapper to an existing slot of a later layer.
pub open spec fn links_forward(ls: Seq<Seq<WrapperView>>) -> bool {
    forall|i: int, j: int, k: int|
        0 <= i < ls.len() && 0 <= j < ls[i].len() && 0 <= k < ls[i][j].dependents.len() ==> {
            let (a, b) = #[trigger] ls[i][j].dependents[k];
            &&& i < a < ls.len()
            &&& b < ls[a as int].len()
        }
}

/// Every link leads from its wrapper to the layer right after the wrapper's.
pub open spec fn links_adjacent(ls: Seq<Seq<WrapperView>>) -> bool {
    forall|i: int, j: int, k: int|
        0 <= i < ls.len() && 0 <= j < ls[i].len() && 0 <= k < ls[i][j].dependents.len() ==> (
        #[trigger] ls[i][j].dependents[k]).0 == i + 1
}

/// Apart from slot `cur`, each wrapper of `l0` has one link per connection
/// of `cs` that leaves its slot, and each fake wrapper has one link.
pub open spec fn links_counted(l0: Seq<Seq<WrapperView>>, ls: Seq<Seq<WrapperView>>, cs: Seq<Connection>, cur: (int, int)) -> bool {
    forall|i: int, j: int|
        0 <= i < ls.len() && 0 <= j < ls[i].len() && !(i == cur.0 && j == cur.1) ==> (#[trigger] ls[i][j]).dependents.len()
            == if j < l0[i].len() {
            count_from(cs, i, j)
        } else {
            1
        }
}

/// Every link into a wrapper of `l0` ends one of the connections `cs`.
pub open spec fn links_end_connections(l0: Seq<Seq<WrapperView>>, ls: Seq<Seq<WrapperView>>, cs: Seq<Connection>) -> bool {
    forall|i: int, j: int, k: int|
        0 <= i < ls.len() && 0 <= j < ls[i].len() && 0 <= k < ls[i][j].dependents.len()
            && (#[trigger] ls[i][j].dependents[k]).1 < l0[ls[i][j].dependents[k].0 as int].len() ==> exists|t: int|
            0 <= t < cs.len() && (#[trigger] cs[t]).2 == ls[i][j].dependents[k].0 && cs[t].3 == ls[i][j].dependents[k].1
}

/// The connections leaving a slot are at most its node's dependents.
proof fn lemma_connections_at_len(nodes: Seq<NodeView>, ls: Seq<Seq<WrapperView>>, i: int, j: int)
    requires
        0 <= i <= usize::MAX,
        0 <= j <= usize::MAX,
    ensures
        connections_at(nodes, ls, i, j).len() <= nodes[ls[i][j].handle as int].dependents.len(),
{
    lemma_count_at(nodes[ls[i][j].handle as int].dependents, ls, i, j, i, j);
}

impl Scene {
    /// Turns each connection into links between wrappers: a connection to
    /// the next layer is a direct link; a longer one goes through a fresh fake
    /// node on each layer in between.
    #[verifier::spinoff_prover]
    #[verifier::rlimit(40)]
    fn connect_nodes(&mut self, by_layer: &mut Vec<Vec<LayoutNodeWrapper>>)
        requires
            deps_in_range(old(self)@.model.nodes),
            layers_in_range(old(self)@.model.nodes, layers_view(old(by_layer)@)),
            layers_unlinked(layers_view(old(by_layer)@)),
            slots_distinct(layers_view(old(by_layer)@)),
        ensures
            slots_distinct(layers_view(final(by_layer)@)),
            ({
                let n0 = old(self)@.model.nodes.len() as int;
                let cs = connections(old(self)@.model.nodes, layers_view(old(by_layer)@));
                let (ls, next) = expand_all(layers_view(old(by_layer)@), n0, cs, cs.len() as int);
                &&& layers_view(final(by_layer)@) == ls
                &&& final(self)@.model.nodes == with_fakes(old(self)@.model.nodes, next - n0)
                &&& final(self)@.model.nodes.len() == next
            }),
            extends_with_fakes(
                final(self)@.model.nodes,
                old(self)@.model.nodes.len() as int,
                layers_view(old(by_layer)@),
                layers_view(final(by_layer)@),
            ),
            links_forward(layers_view(final(by_layer)@)),
            links_adjacent(layers_view(final(by_layer)@)),
            links_end_connections(
                layers_view(old(by_layer)@),
                layers_view(final(by_layer)@),
                connections(old(self)@.model.nodes, layers_view(old(by_layer)@)),
            ),
            forall|i: int, j: int|
                0 <= i < layers_view(final(by_layer)@).len() && 0 <= j < layers_view(final(by_layer)@)[i].len()
                    ==> (#[trigger] layers_view(final(by_layer)@)[i][j]).dependents.len() == if j < layers_view(
                    old(by_layer)@,
                )[i].len() {
                    connections_at(old(self)@.model.nodes, layers_view(old(by_layer)@), i, j).len()
                } else {
                    1
                },
            final(self)@.model.edges == old(self)@.model.edges,
            final(self)@.nodes == old(self)@.nodes,
            layers_view(old(by_layer)@).len() <= usize::MAX,
            forall|l: int| 0 <= l < old(by_layer)@.len() ==> (#[trigger] layers_view(old(by_layer)@)[l]).len() <= usize::MAX,
    {
        let ghost nv0 = self@.model.nodes;
        let ghost n0 = nv0.len() as int;
        let ghost l0 = layers_view(by_layer@);
        let cs = self.collect_connections(by_layer);
        let ghost csv = cs@;
        let mut t: usize = 0;
        assert(nv0 =~= with_fakes(nv0, 0));
        proof {
            assert forall|i: int, j: int|
                0 <= i < l0.len() && 0 <= j < l0[i].len() && !(i == -1 && j == -1) implies (#[trigger] l0[i][j]).dependents.len()
                    == if j < l0[i].len() {
                    count_from(csv.take(0), i, j)
                } else {
                    1
                } by {
                assert(csv.take(0).len() == 0);
            }
        }
        while t < cs.len()
            invariant
                csv == cs@,
                csv == connections(nv0, l0),
                forall|u: int| 0 <= u < csv.len() ==> connection_in_range(l0, #[trigger] csv[u]),
                0 <= t <= csv.len(),
                n0 == nv0.len(),
                expand_all(l0, n0, csv, t as int) == (layers_view(by_layer@), self@.model.nodes.len() as int),
                self@.model.nodes == with_fakes(nv0, self@.model.nodes.len() - n0),
                self@.model.edges == old(self)@.model.edges,
                self@.nodes == old(self)@.nodes,
                nv0 == old(self)@.model.nodes,
                l0 == layers_view(old(by_layer)@),
                by_layer@.len() == l0.len(),
                forall|l: int| 0 <= l < l0.len() ==> (#[trigger] by_layer@[l])@.len() >= l0[l].len(),
                extends_with_fakes(self@.model.nodes, n0, l0, layers_view(by_layer@)),
                links_forward(layers_view(by_layer@)),
                links_counted(l0, layers_view(by_layer@), csv.take(t as int), (-1, -1)),
                layers_in_range(nv0, l0),
                slots_distinct(layers_view(by_layer@)),
                links_end_connections(l0, layers_view(by_layer@), csv),
                links_adjacent(layers_view(by_layer@)),
            decreases csv.len() - t,
        {
            let (from_layer, from_node, to_layer, to_node) = cs[t];
            assert(connection_in_range(l0, csv[t as int]));
            assert(by_layer@[from_layer as int]@.len() >= l0[from_layer as int].len());
            assert(by_layer@[to_layer as int]@.len() >= l0[to_layer as int].len());
            let ghost start = layers_view(by_layer@);
            let ghost start_next = self@.model.nodes.len() as int;
            let mut itr_layer = from_layer;
            let mut itr_node = from_node;
            let mut layer = from_layer + 1;
            while layer < to_layer
                invariant
                    csv == cs@,
                    0 <= t < csv.len(),
                    csv[t as int] == (from_layer, from_node, to_layer, to_node),
                    connection_in_range(l0, csv[t as int]),
                    from_layer < layer <= to_layer,
                    to_layer < by_layer@.len(),
                    by_layer@.len() == l0.len(),
                    to_node < by_layer@[to_layer as int]@.len(),
                    itr_layer < layer,
                    itr_node < by_layer@[itr_layer as int]@.len(),
                    forall|l: int| 0 <= l < l0.len() ==> (#[trigger] by_layer@[l])@.len() >= l0[l].len(),
                    chain(start, start_next, (from_layer as int, from_node as int), from_layer + 1, (to_layer as int, to_node as int))
                        == chain(layers_view(by_layer@), self@.model.nodes.len() as int, (itr_layer as int, itr_node as int), layer as int, (to_layer as int, to_node as int)),
                    self@.model.nodes == with_fakes(nv0, self@.model.nodes.len() - n0),
                    self@.model.edges == old(self)@.model.edges,
                    self@.nodes == old(self)@.nodes,
                    n0 == nv0.len(),
                    extends_with_fakes(self@.model.nodes, n0, l0, layers_view(by_layer@)),
                    links_forward(layers_view(by_layer@)),
                    layer == from_layer + 1 ==> {
                        &&& itr_layer == from_layer
                        &&& itr_node == from_node
                        &&& links_counted(l0, layers_view(by_layer@), csv.take(t as int), (-1, -1))
                    },
                    layer > from_layer + 1 ==> {
                        &&& itr_node >= l0[itr_layer as int].len()
                        &&& layers_view(by_layer@)[itr_layer as int][itr_node as int].dependents.len() == 0
                        &&& links_counted(l0, layers_view(by_layer@), csv.take(t + 1), (itr_layer as int, itr_node as int))
                    },
                    layers_in_range(nv0, l0),
                    slots_distinct(layers_view(by_layer@)),
                    links_end_connections(l0, layers_view(by_layer@), csv),
                    links_adjacent(layers_view(by_layer@)),
                    itr_layer + 1 == layer,
                decreases to_layer - layer,
            {
                let ghost ls = layers_view(by_layer@);
                let ghost nx = self@.model.nodes.len() as int;
                let ghost nodes_before = self@.model.nodes;
                let end = by_layer[layer].len();
                self.model.nodes.push(crate::data_types::Node::new_fake_node());
                let handle = self.model.nodes.len() - 1;
                by_layer[layer].push(LayoutNodeWrapper { handle, layer, dependents: Vec::new() });
                by_layer[itr_layer][itr_node].dependents.push((layer, end));
                proof {
                    let ls1 = ls.update(layer as int, ls[layer as int].push(fake_wrapper(nx, layer as int)));
                    let ls2 = layers_view(by_layer@);
                    let cur = (itr_layer as int, itr_node as int);
                    assert(ls2 =~~= with_link(ls1, cur, (layer, end)));
                    assert(self@.model.nodes =~= nodes_before.push(crate::data_types::fake_node_view()));
                    assert(self@.model.nodes =~= with_fakes(nv0, self@.model.nodes.len() - n0));
                    assert forall|i: int, j: int| 0 <= i < ls2.len() && 0 <= j < ls2[i].len() implies
                        ls2[i][j] == if i == layer && j == end {
                            fake_wrapper(nx, layer as int)
                        } else if i == cur.0 && j == cur.1 {
                            WrapperView { dependents: ls[i][j].dependents.push((layer, end)), ..ls[i][j] }
                        } else {
                            ls[i][j]
                        } by {
                    }
                    assert(extends_with_fakes(self@.model.nodes, n0, l0, ls2)) by {
                        assert forall|i: int| 0 <= i < ls2.len() implies (#[trigger] ls2[i]).len() >= l0[i].len() by {
                            assert(by_layer@[i]@.len() >= l0[i].len());
                        }
                        assert forall|i: int, j: int| 0 <= i < ls2.len() && 0 <= j < ls2[i].len() implies if j < l0[i].len() {
                            (#[trigger] ls2[i][j]).handle == l0[i][j].handle
                        } else {
                            &&& n0 <= ls2[i][j].handle < self@.model.nodes.len()
                            &&& self@.model.nodes[ls2[i][j].handle as int].is_fake_node
                        } by {
                            if i == layer && j == end {
                                assert(end >= l0[i].len());
                            } else {
                                assert(j < ls[i].len());
                                assert(ls[i][j].handle == ls2[i][j].handle);
                                if j >= l0[i].len() {
                                    assert(self@.model.nodes[ls[i][j].handle as int] == nodes_before[ls[i][j].handle as int]);
                                }
                            }
                        }
                    }
                    assert(links_forward(ls2)) by {
                        assert forall|i: int, j: int, k: int|
                            0 <= i < ls2.len() && 0 <= j < ls2[i].len() && 0 <= k < ls2[i][j].dependents.len() implies {
                                let (a, b) = #[trigger] ls2[i][j].dependents[k];
                                &&& i < a < ls2.len()
                                &&& b < ls2[a as int].len()
                            } by {
                            if i == layer && j == end {
                            } else if i == cur.0 && j == cur.1 && k == ls[i][j].dependents.len() {
                            } else {
                                assert(ls2[i][j].dependents[k] == ls[i][j].dependents[k]);
                                let (a, b) = ls[i][j].dependents[k];
                                assert(ls2[a as int].len() >= ls[a as int].len());
                            }
                        }
                    }
                    assert(links_adjacent(ls2)) by {
                        assert forall|i: int, j: int, k: int|
                            0 <= i < ls2.len() && 0 <= j < ls2[i].len() && 0 <= k < ls2[i][j].dependents.len() implies (
                            #[trigger] ls2[i][j].dependents[k]).0 == i + 1 by {
                            if i == layer && j == end {
                            } else if i == cur.0 && j == cur.1 && k == ls[i][j].dependents.len() {
                                assert(ls2[i][j].dependents[k] == (layer, end));
                            } else {
                                assert(ls2[i][j].dependents[k] == ls[i][j].dependents[k]);
                            }
                        }
                    }
                    assert(links_end_connections(l0, ls2, csv)) by {
                        assert forall|i: int, j: int, k: int|
                            0 <= i < ls2.len() && 0 <= j < ls2[i].len() && 0 <= k < ls2[i][j].dependents.len()
                                && (#[trigger] ls2[i][j].dependents[k]).1 < l0[ls2[i][j].dependents[k].0 as int].len() implies exists|u: int|
                                0 <= u < csv.len() && (#[trigger] csv[u]).2 == ls2[i][j].dependents[k].0 && csv[u].3
                                    == ls2[i][j].dependents[k].1 by {
                            if i == layer && j == end {
                            } else if i == cur.0 && j == cur.1 && k == ls[i][j].dependents.len() {
                                assert(ls2[i][j].dependents[k] == (layer, end));
                                assert(end >= l0[layer as int].len());
                            } else {
                                assert(ls2[i][j].dependents[k] == ls[i][j].dependents[k]);
                            }
                        }
                    }
                    assert(links_counted(l0, ls2, csv.take(t + 1), (layer as int, end as int))) by {
                        assert forall|i: int, j: int|
                            0 <= i < ls2.len() && 0 <= j < ls2[i].len() && !(i == layer && j == end) implies (#[trigger] ls2[i][j]).dependents.len()
                                == if j < l0[i].len() {
                                count_from(csv.take(t + 1), i, j)
                            } else {
                                1
                            } by {
                            lemma_count_take(csv, t as int, i, j);
                            if layer == from_layer + 1 {
                                assert(ls[i][j].dependents.len() == if j < l0[i].len() {
                                    count_from(csv.take(t as int), i, j)
                                } else {
                                    1
                                });
                            } else if !(i == cur.0 && j == cur.1) {
                                assert(ls[i][j].dependents.len() == if j < l0[i].len() {
                                    count_from(csv.take(t + 1), i, j)
                                } else {
                                    1
                                });
                            }
                        }
                    }
                    assert(slots_distinct(ls2)) by {
                        assert forall|i: int, j: int| 0 <= i < ls.len() && 0 <= j < ls[i].len() implies (#[trigger] ls[i][j]).handle < nx by {
                            if j < l0[i].len() {
                                assert(ls[i][j].handle == l0[i][j].handle);
                                assert(l0[i][j].handle < nv0.len());
                            }
                        }
                        assert forall|i: int, j: int, a: int, b: int|
                            0 <= i < ls2.len() && 0 <= j < ls2[i].len() && 0 <= a < ls2.len() && 0 <= b < ls2[a].len()
                                && #[trigger] ls2[i][j].handle == #[trigger] ls2[a][b].handle implies i == a && j == b by {
                            let new_i = i == layer && j == end;
                            let new_a = a == layer && b == end;
                            if new_i && !new_a {
                                assert(b < ls[a].len());
                                assert(ls2[a][b].handle == ls[a][b].handle);
                            } else if new_a && !new_i {
                                assert(j < ls[i].len());
                                assert(ls2[i][j].handle == ls[i][j].handle);
                            } else if !new_i && !new_a {
                                assert(j < ls[i].len() && b < ls[a].len());
                                assert(ls2[i][j].handle == ls[i][j].handle);
                                assert(ls2[a][b].handle == ls[a][b].handle);
                            }
                        }
                    }
                    assert(ls2[layer as int][end as int].dependents.len() == 0);
                    assert(end >= l0[layer as int].len());
                    assert forall|l: int| 0 <= l < l0.len() implies (#[trigger] by_layer@[l])@.len() >= l0[l].len() by {
                        assert(ls2[l].len() == by_layer@[l]@.len());
                    }
                }
                itr_layer = layer;
                itr_node = end;
                layer = layer + 1;
            }
            let ghost before_last = layers_view(by_layer@);
            let ghost raw = by_layer@;
            by_layer[itr_layer][itr_node].dependents.push((to_layer, to_node));
            proof {
                let ls = layers_view(by_layer@);
                let cur = (itr_layer as int, itr_node as int);
                assert(ls =~~= with_link(before_last, cur, (to_layer, to_node)));
                assert forall|l: int| 0 <= l < l0.len() implies (#[trigger] by_layer@[l])@.len() >= l0[l].len() by {
                    if l != itr_layer {
                        assert(by_layer@[l] == raw[l]);
                    }
                }
                assert forall|i: int, j: int| 0 <= i < ls.len() && 0 <= j < ls[i].len() implies
                    ls[i][j] == if i == cur.0 && j == cur.1 {
                        WrapperView { dependents: before_last[i][j].dependents.push((to_layer, to_node)), ..before_last[i][j] }
                    } else {
                        before_last[i][j]
                    } by {
                }
                lemma_same_handles_distinct(before_last, ls);
                assert(extends_with_fakes(self@.model.nodes, n0, l0, ls)) by {
                    assert forall|i: int| 0 <= i < ls.len() implies (#[trigger] ls[i]).len() >= l0[i].len() by {
                        assert(before_last[i].len() >= l0[i].len());
                    }
                    assert forall|i: int, j: int| 0 <= i < ls.len() && 0 <= j < ls[i].len() implies if j < l0[i].len() {
                        (#[trigger] ls[i][j]).handle == l0[i][j].handle
                    } else {
                        &&& n0 <= ls[i][j].handle < self@.model.nodes.len()
                        &&& self@.model.nodes[ls[i][j].handle as int].is_fake_node
                    } by {
                        assert(ls[i][j].handle == before_last[i][j].handle);
                    }
                }
                assert(links_forward(ls)) by {
                    assert forall|i: int, j: int, k: int|
                        0 <= i < ls.len() && 0 <= j < ls[i].len() && 0 <= k < ls[i][j].dependents.len() implies {
                            let (a, b) = #[trigger] ls[i][j].dependents[k];
                            &&& i < a < ls.len()
                            &&& b < ls[a as int].len()
                        } by {
                        if i == cur.0 && j == cur.1 && k == before_last[i][j].dependents.len() {
                        } else {
                            assert(ls[i][j].dependents[k] == before_last[i][j].dependents[k]);
                        }
                    }
                }
                assert(links_adjacent(ls)) by {
                    assert forall|i: int, j: int, k: int|
                        0 <= i < ls.len() && 0 <= j < ls[i].len() && 0 <= k < ls[i][j].dependents.len() implies (
                        #[trigger] ls[i][j].dependents[k]).0 == i + 1 by {
                        if i == cur.0 && j == cur.1 && k == before_last[i][j].dependents.len() {
                            assert(ls[i][j].dependents[k] == (to_layer, to_node));
                        } else {
                            assert(ls[i][j].dependents[k] == before_last[i][j].dependents[k]);
                        }
                    }
                }
                assert(links_end_connections(l0, ls, csv)) by {
                    assert forall|i: int, j: int, k: int|
                        0 <= i < ls.len() && 0 <= j < ls[i].len() && 0 <= k < ls[i][j].dependents.len()
                            && (#[trigger] ls[i][j].dependents[k]).1 < l0[ls[i][j].dependents[k].0 as int].len() implies exists|u: int|
                            0 <= u < csv.len() && (#[trigger] csv[u]).2 == ls[i][j].dependents[k].0 && csv[u].3
                                == ls[i][j].dependents[k].1 by {
                        if i == cur.0 && j == cur.1 && k == before_last[i][j].dependents.len() {
                            assert(ls[i][j].dependents[k] == (to_layer, to_node));
                            assert(csv[t as int].2 == to_layer && csv[t as int].3 == to_node);
                        } else {
                            assert(ls[i][j].dependents[k] == before_last[i][j].dependents[k]);
                        }
                    }
                }
                assert(links_counted(l0, ls, csv.take(t + 1), (-1, -1))) by {
                    assert forall|i: int, j: int|
                        0 <= i < ls.len() && 0 <= j < ls[i].len() && !(i == -1 && j == -1) implies (#[trigger] ls[i][j]).dependents.len()
                            == if j < l0[i].len() {
                            count_from(csv.take(t + 1), i, j)
                        } else {
                            1
                        } by {
                        lemma_count_take(csv, t as int, i, j);
                        if layer == from_layer + 1 {
                            assert(before_last[i][j].dependents.len() == if j < l0[i].len() {
                                count_from(csv.take(t as int), i, j)
                            } else {
                                1
                            });
                        } else if !(i == cur.0 && j == cur.1) {
                            assert(before_last[i][j].dependents.len() == if j < l0[i].len() {
                                count_from(csv.take(t + 1), i, j)
                            } else {
                                1
                            });
                        }
                    }
                }
            }
            t = t + 1;
        }
        proof {
            let ls = layers_view(by_layer@);
            assert(csv.take(csv.len() as int) =~= csv);
            assert forall|i: int, j: int|
                0 <= i < ls.len() && 0 <= j < ls[i].len() implies (#[trigger] ls[i][j]).dependents.len() == if j < l0[i].len() {
                    connections_at(nv0, l0, i, j).len()
                } else {
                    1
                } by {
                assert(!(i == -1 && j == -1));
                if j < l0[i].len() {
                    lemma_count_below(nv0, l0, l0.len() as int, i, j);
                }
            }
        }
    }
}

/// The node with its position set to cell `(l, r)` of the layout.
pub open spec fn placed_node(n: NodeView, l: int, r: int) -> NodeView {
    NodeView { position: crate::data_types::PositionView::Grid { column: l as usize, row: r as usize }, ..n }
}

/// The nodes after placing the first `r` wrappers of layer `l` in their cells.
pub open spec fn place_row(nodes: Seq<NodeView>, ls: Seq<Seq<WrapperView>>, l: int, r: int) -> Seq<NodeView>
    decreases r,
{
    if r <= 0 {
        nodes
    } else {
        let ns = place_row(nodes, ls, l, r - 1);
        let h = ls[l][r - 1].handle as int;
        ns.update(h, placed_node(ns[h], l, r - 1))
    }
}

/// The nodes after placing the wrappers of the first `l` layers, layer by
/// layer, each in its cell: column = layer, row = index in the layer.
pub open spec fn place_layers(nodes: Seq<NodeView>, ls: Seq<Seq<WrapperView>>, l: int) -> Seq<NodeView>
    decreases l,
{
    if l <= 0 {
        nodes
    } else {
        place_row(place_layers(nodes, ls, l - 1), ls, l - 1, ls[l - 1].len() as int)
    }
}

/// The handles of the wrappers, layer after layer.
pub open spec fn flat_handles(ls: Seq<Seq<WrapperView>>) -> Seq<usize>
    decreases ls.len(),
{
    if ls.len() == 0 {
        Seq::empty()
    } else {
        flat_handles(ls.drop_last()) + ls.last().map_values(|w: WrapperView| w.handle)
    }
}

impl Scene {
    /// Puts each wrapper's node in its cell of the layout.
    fn place_nodes(&mut self, by_layer: &Vec<Vec<LayoutNodeWrapper>>)
        requires
            layers_in_range(old(self)@.model.nodes, layers_view(by_layer@)),
        ensures
            final(self)@.model.nodes == place_layers(old(self)@.model.nodes, layers_view(by_layer@), by_layer@.len() as int),
            final(self)@.model.edges == old(self)@.model.edges,
            final(self)@.nodes == old(self)@.nodes,
    {
        let ghost ls = layers_view(by_layer@);
        let ghost nv0 = self@.model.nodes;
        let mut l: usize = 0;
        while l < by_layer.len()
            invariant
                ls == layers_view(by_layer@),
                0 <= l <= ls.len(),
                self@.model.nodes.len() == nv0.len(),
                layers_in_range(nv0, ls),
                self@.model.nodes == place_layers(nv0, ls, l as int),
                self@.model.edges == old(self)@.model.edges,
                self@.nodes == old(self)@.nodes,
                nv0 == old(self)@.model.nodes,
            decreases ls.len() - l,
        {
            let ghost base = self@.model.nodes;
            let mut r: usize = 0;
            while r < by_layer[l].len()
                invariant
                    ls == layers_view(by_layer@),
                    0 <= l < ls.len(),
                    0 <= r <= ls[l as int].len(),
                    self@.model.nodes.len() == nv0.len(),
                    layers_in_range(nv0, ls),
                    self@.model.nodes == place_row(base, ls, l as int, r as int),
                    self@.model.edges == old(self)@.model.edges,
                    self@.nodes == old(self)@.nodes,
                decreases ls[l as int].len() - r,
            {
                let h = by_layer[l][r].handle;
                assert(ls[l as int][r as int] == by_layer@[l as int]@[r as int]@);
                assert(ls[l as int][r as int].handle < nv0.len());
                let ghost before = self@.model.nodes;
                self.model.nodes[h].position = crate::data_types::Position::Grid { column: l, row: r };
                assert(self@.model.nodes =~= before.update(h as int, placed_node(before[h as int], l as int, r as int)));
                r = r + 1;
            }
            l = l + 1;
        }
    }

    /// The handles of the wrappers, layer after layer.
    fn flatten_handles(by_layer: &Vec<Vec<LayoutNodeWrapper>>) -> (hs: Vec<usize>)
        ensures
            hs@ == flat_handles(layers_view(by_layer@)),
    {
        let ghost ls = layers_view(by_layer@);
        let mut hs: Vec<usize> = Vec::new();
        let mut l: usize = 0;
        while l < by_layer.len()
            invariant
                ls == layers_view(by_layer@),
                0 <= l <= ls.len(),
                hs@ == flat_handles(ls.subrange(0, l as int)),
            decreases ls.len() - l,
        {
            let ghost base = hs@;
            let mut r: usize = 0;
            while r < by_layer[l].len()
                invariant
                    ls == layers_view(by_layer@),
                    0 <= l < ls.len(),
                    0 <= r <= ls[l as int].len(),
                    hs@ == base + ls[l as int].subrange(0, r as int).map_values(|w: WrapperView| w.handle),
                decreases ls[l as int].len() - r,
            {
                hs.push(by_layer[l][r].handle);
                assert(ls[l as int][r as int] == by_layer@[l as int]@[r as int]@);
                assert(hs@ =~= base + ls[l as int].subrange(0, r + 1).map_values(|w: WrapperView| w.handle));
                r = r + 1;
            }
            assert(ls.subrange(0, l + 1).drop_last() =~= ls.subrange(0, l as int));
            assert(ls[l as int].subrange(0, ls[l as int].len() as int) =~= ls[l as int]);
            l = l + 1;
        }
        assert(ls.subrange(0, ls.len() as int) =~= ls);
        hs
    }
}

/// The layers can be drawn over `nodes`: every wrapper is for a node, links
/// lead forward, a wrapper whose node is not fake has no more links than its
/// node has dependents, and a wrapper that a link enters and whose node is
/// fake has exactly one link.
pub open spec fn drawable(nodes: Seq<NodeView>, ls: Seq<Seq<WrapperView>>) -> bool {
    &&& layers_in_range(nodes, ls)
    &&& links_forward(ls)
    &&& forall|i: int, j: int|
        0 <= i < ls.len() && 0 <= j < ls[i].len() && !nodes[ls[i][j].handle as int].is_fake_node ==> (#[trigger] ls[i][j]).dependents.len()
            <= nodes[ls[i][j].handle as int].dependents.len()
    &&& forall|i: int, j: int, k: int|
        0 <= i < ls.len() && 0 <= j < ls[i].len() && 0 <= k < ls[i][j].dependents.len() ==> {
            let (a, b) = #[trigger] ls[i][j].dependents[k];
            nodes[ls[a as int][b as int].handle as int].is_fake_node ==> ls[a as int][b as int].dependents.len() == 1
        }
}

/// The segments of an edge drawn from `start` into slot `(l, n)`: one
/// segment to the position of that slot's node and, while that node is fake,
/// on along its first link.
pub open spec fn trail(ls: Seq<Seq<WrapperView>>, nodes: Seq<NodeView>, start: PositionView, l: int, n: int) -> Seq<LineView>
    decreases ls.len() - l,
{
    if 0 <= l < ls.len() && 0 <= n < ls[l].len() {
        let w = ls[l][n];
        let p = nodes[w.handle as int].position;
        let seg = LineView { a: start, b: p, colour: LINE_COLOUR };
        if nodes[w.handle as int].is_fake_node && w.dependents.len() > 0 && l < w.dependents[0].0 < ls.len() {
            seq![seg] + trail(ls, nodes, p, w.dependents[0].0 as int, w.dependents[0].1 as int)
        } else {
            seq![seg]
        }
    } else {
        Seq::empty()
    }
}

impl Scene {
    /// The path from node `from` to node `to` whose first segment runs from
    /// `start` into slot `first_link` and which goes on through fake nodes.
    fn create_path_to(&self, start: Position, by_layer: &Vec<Vec<LayoutNodeWrapper>>, first_link: (usize, usize), to: usize, from: usize) -> (p: Path)
        requires
            drawable(self@.model.nodes, layers_view(by_layer@)),
            first_link.0 < by_layer@.len(),
            first_link.1 < by_layer@[first_link.0 as int]@.len(),
            self@.model.nodes[layers_view(by_layer@)[first_link.0 as int][first_link.1 as int].handle as int].is_fake_node
                ==> layers_view(by_layer@)[first_link.0 as int][first_link.1 as int].dependents.len() == 1,
        ensures
            p@ == (PathView {
                from,
                to,
                line_segments: trail(layers_view(by_layer@), self@.model.nodes, start@, first_link.0 as int, first_link.1 as int),
            }),
    {
        let ghost ls = layers_view(by_layer@);
        let ghost nv = self@.model.nodes;
        let ghost full = trail(ls, nv, start@, first_link.0 as int, first_link.1 as int);
        let mut path = Path::new(to, from);
        let mut cursor = start;
        let mut layer = first_link.0;
        let mut node = first_link.1;
        loop
            invariant
                ls == layers_view(by_layer@),
                nv == self@.model.nodes,
                drawable(nv, ls),
                layer < ls.len(),
                node < ls[layer as int].len(),
                path@.from == from,
                path@.to == to,
                full == path@.line_segments + trail(ls, nv, cursor@, layer as int, node as int),
                full == trail(ls, nv, start@, first_link.0 as int, first_link.1 as int),
                nv[ls[layer as int][node as int].handle as int].is_fake_node ==> ls[layer as int][node as int].dependents.len() == 1,
            decreases ls.len() - layer,
        {
            let ghost before = path@.line_segments;
            assert(ls[layer as int][node as int] == by_layer@[layer as int]@[node as int]@);
            let h = by_layer[layer][node].handle;
            assert(h < nv.len());
            let target = self.model.nodes[h].position.duplicate();
            let seg = Line::new(cursor, self.model.nodes[h].position.duplicate());
            path.line_segments.push(seg);
            assert(path@.line_segments =~= before.push(LineView { a: cursor@, b: nv[h as int].position, colour: LINE_COLOUR }));
            cursor = target;
            if self.model.nodes[h].is_fake_node {
                assert(ls[layer as int][node as int].dependents.len() == 1);
                let next = by_layer[layer][node].dependents[0];
                assert(next == ls[layer as int][node as int].dependents[0]);
                assert(layer < next.0 < ls.len() && next.1 < ls[next.0 as int].len());
                assert(nv[ls[next.0 as int][next.1 as int].handle as int].is_fake_node ==> ls[next.0 as int][next.1 as int].dependents.len() == 1);
                assert(full =~= path@.line_segments + trail(ls, nv, cursor@, next.0 as int, next.1 as int));
                layer = next.0;
                node = next.1;
            } else {
                assert(full =~= path@.line_segments);
                assert(path@ == (PathView { from, to, line_segments: full }));
                return path;
            }
        }
    }
}

/// The path drawn for the `k`-th link of slot `(i, j)`: from the slot's node
/// to its `k`-th dependent, along the trail that starts at the node.
pub open spec fn drawn_path(ls: Seq<Seq<WrapperView>>, nodes: Seq<NodeView>, i: int, j: int, k: int) -> PathView {
    let w = ls[i][j];
    let link = w.dependents[k];
    PathView {
        from: w.handle,
        to: nodes[w.handle as int].dependents[k],
        line_segments: trail(ls, nodes, nodes[w.handle as int].position, link.0 as int, link.1 as int),
    }
}

/// The paths drawn from slot `(i, j)`: one per link, none for a fake node.
pub open spec fn paths_at(ls: Seq<Seq<WrapperView>>, nodes: Seq<NodeView>, i: int, j: int) -> Seq<PathView> {
    if nodes[ls[i][j].handle as int].is_fake_node {
        Seq::empty()
    } else {
        Seq::new(ls[i][j].dependents.len(), |k: int| drawn_path(ls, nodes, i, j, k))
    }
}

/// The paths drawn from the first `j` slots of layer `i`.
pub open spec fn paths_in_row(ls: Seq<Seq<WrapperView>>, nodes: Seq<NodeView>, i: int, j: int) -> Seq<PathView>
    decreases j,
{
    if j <= 0 {
        Seq::empty()
    } else {
        paths_in_row(ls, nodes, i, j - 1) + paths_at(ls, nodes, i, j - 1)
    }
}

/// The paths drawn from the first `i` layers.
pub open spec fn paths_below(ls: Seq<Seq<WrapperView>>, nodes: Seq<NodeView>, i: int) -> Seq<PathView>
    decreases i,
{
    if i <= 0 {
        Seq::empty()
    } else {
        paths_below(ls, nodes, i - 1) + paths_in_row(ls, nodes, i - 1, ls[i - 1].len() as int)
    }
}

/// Every path drawn for the layers, layer by layer, slot by slot, link by
/// link.
pub open spec fn drawn_paths(ls: Seq<Seq<WrapperView>>, nodes: Seq<NodeView>) -> Seq<PathView> {
    paths_below(ls, nodes, ls.len() as int)
}

/// The indices from `lo` on of the paths that leave node `h`, in increasing
/// order.
pub open spec fn edges_since(paths: Seq<PathView>, h: int, lo: int) -> Seq<usize>
    decreases paths.len(),
{
    if paths.len() == 0 || paths.len() <= lo {
        Seq::empty()
    } else {
        let rest = edges_since(paths.drop_last(), h, lo);
        if paths.last().from == h {
            rest.push((paths.len() - 1) as usize)
        } else {
            rest
        }
    }
}

/// The nodes, each with the paths from index `lo` on that leave it added
/// after the edges it already lists.
pub open spec fn with_more_edges(nodes: Seq<NodeView>, paths: Seq<PathView>, lo: int) -> Seq<NodeView> {
    Seq::new(nodes.len(), |h: int| NodeView { edges: nodes[h].edges + edges_since(paths, h, lo), ..nodes[h] })
}

proof fn lemma_edges_since(paths: Seq<PathView>, h: int, lo: int)
    requires
        paths.len() <= usize::MAX,
        0 <= lo,
    ensures
        forall|x: int|
            0 <= x < edges_since(paths, h, lo).len() ==> lo <= #[trigger] edges_since(paths, h, lo)[x] < paths.len()
                && paths[edges_since(paths, h, lo)[x] as int].from == h,
        forall|e: int|
            lo <= e < paths.len() && #[trigger] paths[e].from == h ==> edges_since(paths, h, lo).contains(e as usize),
    decreases paths.len(),
{
    if paths.len() > 0 && paths.len() > lo {
        let rest = paths.drop_last();
        lemma_edges_since(rest, h, lo);
        let er = edges_since(rest, h, lo);
        assert forall|e: int| lo <= e < paths.len() && #[trigger] paths[e].from == h implies edges_since(paths, h, lo).contains(e as usize) by {
            if e < rest.len() {
                assert(rest[e] == paths[e]);
                assert(er.contains(e as usize));
                let x = choose|x: int| 0 <= x < er.len() && er[x] == e as usize;
                if paths.last().from == h {
                    assert(edges_since(paths, h, lo)[x] == e as usize);
                }
            } else {
                assert(edges_since(paths, h, lo).last() == e as usize);
            }
        }
        assert forall|x: int| 0 <= x < edges_since(paths, h, lo).len() implies lo <= #[trigger] edges_since(paths, h, lo)[x] < paths.len()
            && paths[edges_since(paths, h, lo)[x] as int].from == h by {
            if x < er.len() {
                assert(edges_since(paths, h, lo)[x] == er[x]);
                assert(rest[er[x] as int] == paths[er[x] as int]);
            }
        }
    }
}

/// Paths before `lo` add nothing past it: cutting the paths at `n` and
/// counting from `lo <= n` gives the prefix of the indices.
proof fn lemma_edges_since_push(paths: Seq<PathView>, h: int, lo: int, n: int)
    requires
        0 <= lo <= n < paths.len(),
    ensures
        edges_since(paths.take(n + 1), h, lo) == if paths[n].from == h {
            edges_since(paths.take(n), h, lo).push(n as usize)
        } else {
            edges_since(paths.take(n), h, lo)
        },
{
    assert(paths.take(n + 1).drop_last() =~= paths.take(n));
    assert(paths.take(n + 1).last() == paths[n]);
}

proof fn lemma_edges_since_empty(paths: Seq<PathView>, h: int, lo: int)
    requires
        0 <= lo,
        paths.len() <= lo,
    ensures
        edges_since(paths, h, lo) == Seq::<usize>::empty(),
{
}

/// A trail is one unbroken line: it starts at `start` and each segment
/// starts where the one before it ended.
pub proof fn lemma_trail_continuous(ls: Seq<Seq<WrapperView>>, nodes: Seq<NodeView>, start: PositionView, l: int, n: int)
    ensures
        trail(ls, nodes, start, l, n).len() > 0 ==> trail(ls, nodes, start, l, n)[0].a == start,
        forall|k: int|
            0 <= k < trail(ls, nodes, start, l, n).len() - 1 ==> (#[trigger] trail(ls, nodes, start, l, n)[k]).b
                == trail(ls, nodes, start, l, n)[k + 1].a,
    decreases ls.len() - l,
{
    if 0 <= l < ls.len() && 0 <= n < ls[l].len() {
        let w = ls[l][n];
        let p = nodes[w.handle as int].position;
        if nodes[w.handle as int].is_fake_node && w.dependents.len() > 0 && l < w.dependents[0].0 < ls.len() {
            let rest = trail(ls, nodes, p, w.dependents[0].0 as int, w.dependents[0].1 as int);
            lemma_trail_continuous(ls, nodes, p, w.dependents[0].0 as int, w.dependents[0].1 as int);
            let t = trail(ls, nodes, start, l, n);
            assert forall|k: int| 0 <= k < t.len() - 1 implies (#[trigger] t[k]).b == t[k + 1].a by {
                if k > 0 {
                    assert(t[k] == rest[k - 1]);
                    assert(t[k + 1] == rest[k]);
                } else {
                    assert(t[1] == rest[0]);
                }
            }
        }
    }
}

/// Every drawn path is the path of a link of a node that is not fake.
proof fn lemma_drawn_path_source(ls: Seq<Seq<WrapperView>>, nodes: Seq<NodeView>, i: int, e: int)
    requires
        0 <= i <= ls.len(),
        0 <= e < paths_below(ls, nodes, i).len(),
    ensures
        exists|a: int, b: int, k: int|
            0 <= a < ls.len() && 0 <= b < ls[a].len() && !nodes[ls[a][b].handle as int].is_fake_node
                && 0 <= k < ls[a][b].dependents.len() && paths_below(ls, nodes, i)[e] == #[trigger] drawn_path(
                ls,
                nodes,
                a,
                b,
                k,
            ),
    decreases i,
{
    let prev = paths_below(ls, nodes, i - 1);
    if e < prev.len() {
        lemma_drawn_path_source(ls, nodes, i - 1, e);
        assert(paths_below(ls, nodes, i)[e] == prev[e]);
    } else {
        lemma_drawn_path_in_row(ls, nodes, i - 1, ls[i - 1].len() as int, e - prev.len());
        assert(paths_below(ls, nodes, i)[e] == paths_in_row(ls, nodes, i - 1, ls[i - 1].len() as int)[e - prev.len()]);
    }
}

proof fn lemma_drawn_path_in_row(ls: Seq<Seq<WrapperView>>, nodes: Seq<NodeView>, i: int, j: int, e: int)
    requires
        0 <= i < ls.len(),
        0 <= j <= ls[i].len(),
        0 <= e < paths_in_row(ls, nodes, i, j).len(),
    ensures
        exists|b: int, k: int|
            0 <= b < ls[i].len() && !nodes[ls[i][b].handle as int].is_fake_node && 0 <= k
                < ls[i][b].dependents.len() && paths_in_row(ls, nodes, i, j)[e] == #[trigger] drawn_path(
                ls,
                nodes,
                i,
                b,
                k,
            ),
    decreases j,
{
    let prev = paths_in_row(ls, nodes, i, j - 1);
    if e < prev.len() {
        lemma_drawn_path_in_row(ls, nodes, i, j - 1, e);
        assert(paths_in_row(ls, nodes, i, j)[e] == prev[e]);
    } else {
        let k = e - prev.len();
        assert(paths_in_row(ls, nodes, i, j)[e] == paths_at(ls, nodes, i, j - 1)[k]);
        assert(paths_at(ls, nodes, i, j - 1)[k] == drawn_path(ls, nodes, i, j - 1, k));
    }
}

/// Every path the layout draws is one unbroken line from its source node:
/// the first segment starts at the source's position and each segment
/// starts where the one before it ended.
pub proof fn lemma_drawn_paths_unbroken(ls: Seq<Seq<WrapperView>>, nodes: Seq<NodeView>)
    ensures
        forall|e: int|
            0 <= e < drawn_paths(ls, nodes).len() ==> {
                let p = #[trigger] drawn_paths(ls, nodes)[e];
                &&& p.line_segments.len() > 0 ==> p.line_segments[0].a == nodes[p.from as int].position
                &&& forall|k: int|
                    0 <= k < p.line_segments.len() - 1 ==> (#[trigger] p.line_segments[k]).b == p.line_segments[k
                        + 1].a
            },
{
    assert forall|e: int| 0 <= e < drawn_paths(ls, nodes).len() implies {
        let p = #[trigger] drawn_paths(ls, nodes)[e];
        &&& p.line_segments.len() > 0 ==> p.line_segments[0].a == nodes[p.from as int].position
        &&& forall|k: int|
            0 <= k < p.line_segments.len() - 1 ==> (#[trigger] p.line_segments[k]).b == p.line_segments[k + 1].a
    } by {
        lemma_drawn_path_source(ls, nodes, ls.len() as int, e);
        let (a, b, k) = choose|a: int, b: int, k: int|
            0 <= a < ls.len() && 0 <= b < ls[a].len() && !nodes[ls[a][b].handle as int].is_fake_node && 0 <= k
                < ls[a][b].dependents.len() && drawn_paths(ls, nodes)[e] == #[trigger] drawn_path(ls, nodes, a, b, k);
        let w = ls[a][b];
        let link = w.dependents[k];
        lemma_trail_continuous(ls, nodes, nodes[w.handle as int].position, link.0 as int, link.1 as int);
    }
}

impl Scene {
    /// The paths for every link of the layers, leaving out fake nodes, in
    /// layer, slot and link order.
    #[verifier::spinoff_prover]
    fn draw_paths(&self, by_layer: &Vec<Vec<LayoutNodeWrapper>>) -> (ps: Vec<Path>)
        requires
            deps_in_range(self@.model.nodes),
            drawable(self@.model.nodes, layers_view(by_layer@)),
        ensures
            paths_view(ps@) == drawn_paths(layers_view(by_layer@), self@.model.nodes),
            forall|e: int|
                0 <= e < ps@.len() ==> (#[trigger] ps@[e]).from < self@.model.nodes.len() && ps@[e].to
                    < self@.model.nodes.len(),
    {
        let ghost ls = layers_view(by_layer@);
        let ghost nv = self@.model.nodes;
        let mut ps: Vec<Path> = Vec::new();
        let mut i: usize = 0;
        while i < by_layer.len()
            invariant
                ls == layers_view(by_layer@),
                nv == self@.model.nodes,
                deps_in_range(self@.model.nodes),
                drawable(nv, ls),
                0 <= i <= ls.len(),
                paths_view(ps@) == paths_below(ls, nv, i as int),
                forall|e: int| 0 <= e < ps@.len() ==> (#[trigger] ps@[e]).from < nv.len() && ps@[e].to < nv.len(),
            decreases ls.len() - i,
        {
            let mut j: usize = 0;
            while j < by_layer[i].len()
                invariant
                    ls == layers_view(by_layer@),
                    nv == self@.model.nodes,
                    deps_in_range(self@.model.nodes),
                    drawable(nv, ls),
                    0 <= i < ls.len(),
                    0 <= j <= ls[i as int].len(),
                    paths_view(ps@) == paths_below(ls, nv, i as int) + paths_in_row(ls, nv, i as int, j as int),
                    forall|e: int| 0 <= e < ps@.len() ==> (#[trigger] ps@[e]).from < nv.len() && ps@[e].to < nv.len(),
                decreases ls[i as int].len() - j,
            {
                assert(ls[i as int][j as int] == by_layer@[i as int]@[j as int]@);
                let h = by_layer[i][j].handle;
                assert(h < nv.len());
                let ghost base = paths_view(ps@);
                if !self.model.nodes[h].is_fake_node {
                    let mut k: usize = 0;
                    while k < by_layer[i][j].dependents.len()
                        invariant
                            ls == layers_view(by_layer@),
                            nv == self@.model.nodes,
                            deps_in_range(self@.model.nodes),
                            drawable(nv, ls),
                            0 <= i < ls.len(),
                            0 <= j < ls[i as int].len(),
                            h == ls[i as int][j as int].handle,
                            h < nv.len(),
                            !nv[h as int].is_fake_node,
                            0 <= k <= ls[i as int][j as int].dependents.len(),
                            paths_view(ps@) == base + Seq::new(k as nat, |q: int| drawn_path(ls, nv, i as int, j as int, q)),
                            forall|e: int| 0 <= e < ps@.len() ==> (#[trigger] ps@[e]).from < nv.len() && ps@[e].to < nv.len(),
                        decreases ls[i as int][j as int].dependents.len() - k,
                    {
                        let link = by_layer[i][j].dependents[k];
                        assert(link == ls[i as int][j as int].dependents[k as int]);
                        assert(link.0 < ls.len() && link.1 < ls[link.0 as int].len());
                        assert(nv[ls[link.0 as int][link.1 as int].handle as int].is_fake_node ==> ls[link.0 as int][link.1 as int].dependents.len() == 1);
                        assert(k < nv[h as int].dependents.len());
                        let to = self.model.nodes[h].dependents[k];
                        let start = self.model.nodes[h].position.duplicate();
                        let p = self.create_path_to(start, by_layer, link, to, h);
                        let ghost before = paths_view(ps@);
                        ps.push(p);
                        proof {
                            assert(paths_view(ps@) =~= before.push(p@));
                            assert(p@ == drawn_path(ls, nv, i as int, j as int, k as int));
                            assert(Seq::new((k + 1) as nat, |q: int| drawn_path(ls, nv, i as int, j as int, q)) =~= Seq::new(
                                k as nat,
                                |q: int| drawn_path(ls, nv, i as int, j as int, q),
                            ).push(drawn_path(ls, nv, i as int, j as int, k as int)));
                            assert(paths_view(ps@) =~= base + Seq::new((k + 1) as nat, |q: int| drawn_path(ls, nv, i as int, j as int, q)));
                            assert forall|e: int| 0 <= e < ps@.len() implies (#[trigger] ps@[e]).from < nv.len() && ps@[e].to < nv.len() by {
                                if e == ps@.len() - 1 {
                                    assert(ps@[e] == p);
                                }
                            }
                        }
                        k = k + 1;
                    }
                    assert(paths_at(ls, nv, i as int, j as int) =~= Seq::new(
                        ls[i as int][j as int].dependents.len(),
                        |q: int| drawn_path(ls, nv, i as int, j as int, q),
                    ));
                } else {
                    assert(paths_at(ls, nv, i as int, j as int) =~= Seq::<PathView>::empty());
                }
                assert(paths_view(ps@) =~= paths_below(ls, nv, i as int) + paths_in_row(ls, nv, i as int, j + 1));
                j = j + 1;
            }
            assert(paths_view(ps@) =~= paths_below(ls, nv, i + 1));
            i = i + 1;
        }
        ps
    }

    /// Adds a path for every link of the layers after the paths the model
    /// already has, and lists each new path on the node it leaves, after the
    /// edges that node already lists.
    #[verifier::spinoff_prover]
    fn add_drawable_connections(&mut self, by_layer: &Vec<Vec<LayoutNodeWrapper>>)
        requires
            deps_in_range(old(self)@.model.nodes),
            drawable(old(self)@.model.nodes, layers_view(by_layer@)),
        ensures
            final(self)@.model.edges == old(self)@.model.edges + drawn_paths(
                layers_view(by_layer@),
                old(self)@.model.nodes,
            ),
            final(self)@.model.nodes == with_more_edges(
                old(self)@.model.nodes,
                final(self)@.model.edges,
                old(self)@.model.edges.len() as int,
            ),
            old(self)@.model.wf() ==> final(self)@.model.wf(),
            final(self)@.nodes == old(self)@.nodes,
    {
        let ghost nv = self@.model.nodes;
        let ghost ov = self@.model.edges;
        let mut paths = self.draw_paths(by_layer);
        let ghost dv = paths_view(paths@);
        let base = self.model.edges.len();
        self.model.edges.append(&mut paths);
        let ghost av = self@.model.edges;
        assert(av =~= ov + dv);
        let total = self.model.edges.len();
        proof {
            assert forall|q: int| 0 <= q < nv.len() implies #[trigger] self@.model.nodes[q] == (NodeView {
                edges: nv[q].edges + edges_since(av.take(base as int), q, base as int),
                ..nv[q]
            }) by {
                lemma_edges_since_empty(av.take(base as int), q, base as int);
                assert(nv[q].edges + edges_since(av.take(base as int), q, base as int) =~= nv[q].edges);
            }
        }
        let mut e: usize = base;
        while e < total
            invariant
                av == self@.model.edges,
                av == ov + dv,
                base == ov.len(),
                total == av.len(),
                self@.model.nodes.len() == nv.len(),
                self@.nodes == old(self)@.nodes,
                nv == old(self)@.model.nodes,
                deps_in_range(nv),
                forall|x: int| 0 <= x < dv.len() ==> (#[trigger] dv[x]).from < nv.len() && dv[x].to < nv.len(),
                base <= e <= total,
                forall|q: int| 0 <= q < nv.len() ==> #[trigger] self@.model.nodes[q] == (NodeView {
                    edges: nv[q].edges + edges_since(av.take(e as int), q, base as int),
                    ..nv[q]
                }),
            decreases total - e,
        {
            let f = self.model.edges[e].from;
            proof {
                assert(av[e as int] == dv[e - base]);
                assert(f < nv.len());
            }
            let ghost before = self@.model.nodes;
            self.model.nodes[f].edges.push(e);
            proof {
                assert forall|q: int| 0 <= q < nv.len() implies #[trigger] self@.model.nodes[q] == (NodeView {
                    edges: nv[q].edges + edges_since(av.take(e + 1), q, base as int),
                    ..nv[q]
                }) by {
                    lemma_edges_since_push(av, q, base as int, e as int);
                    if q != f {
                        assert(self@.model.nodes[q] == before[q]);
                    } else {
                        assert(self@.model.nodes[q].edges =~= before[q].edges.push(e));
                        assert(nv[q].edges + edges_since(av.take(e + 1), q, base as int) =~= (nv[q].edges
                            + edges_since(av.take(e as int), q, base as int)).push(e));
                    }
                }
            }
            e = e + 1;
        }
        proof {
            assert(av.take(av.len() as int) =~= av);
            let ns = self@.model.nodes;
            assert(ns =~= with_more_edges(nv, av, base as int));
            if old(self)@.model.wf() {
                assert forall|n: int, j: int| 0 <= n < ns.len() && 0 <= j < ns[n].dependents.len() implies #[trigger] ns[n].dependents[j] < ns.len() by {
                    assert(nv[n].dependents[j] < nv.len());
                }
                assert forall|n: int, j: int| 0 <= n < ns.len() && 0 <= j < ns[n].edges.len() implies {
                    &&& #[trigger] ns[n].edges[j] < av.len()
                    &&& av[ns[n].edges[j] as int].from == n
                } by {
                    lemma_edges_since(av, n, base as int);
                    if j < nv[n].edges.len() {
                        assert(ns[n].edges[j] == nv[n].edges[j]);
                        assert(nv[n].edges[j] < ov.len());
                        assert(av[nv[n].edges[j] as int] == ov[nv[n].edges[j] as int]);
                    } else {
                        assert(ns[n].edges[j] == edges_since(av, n, base as int)[j - nv[n].edges.len()]);
                    }
                }
                assert forall|i: int| 0 <= i < av.len() implies {
                    &&& (#[trigger] av[i]).from < ns.len()
                    &&& av[i].to < ns.len()
                    &&& ns[av[i].from as int].edges.contains(i as usize)
                } by {
                    if i < base {
                        assert(av[i] == ov[i]);
                        let f = ov[i].from as int;
                        assert(nv[f].edges.contains(i as usize));
                        let x = choose|x: int| 0 <= x < nv[f].edges.len() && nv[f].edges[x] == i as usize;
                        assert(ns[f].edges[x] == i as usize);
                    } else {
                        assert(av[i] == dv[i - base]);
                        lemma_edges_since(av, av[i].from as int, base as int);
                        let f = av[i].from as int;
                        let es = edges_since(av, f, base as int);
                        let x = choose|x: int| 0 <= x < es.len() && es[x] == i as usize;
                        assert(ns[f].edges[nv[f].edges.len() + x] == i as usize);
                    }
                }
            }
        }
    }
}

/// The root of a graph that has exactly one.
pub open spec fn the_root(nodes: Seq<NodeView>) -> int {
    choose|r: int| is_root(nodes, r)
}

/// The layers the layout starts linking from: the nodes gathered below the
/// root, sorted into layers, with the last layer settled.
pub open spec fn layout_layers(nodes: Seq<NodeView>) -> Seq<Seq<WrapperView>> {
    settled_layers(nodes, initial_layers(gathered(nodes, the_root(nodes))))
}

/// The linked layers, and the node count once their fake nodes are added.
pub open spec fn linked_layers(nodes: Seq<NodeView>) -> (Seq<Seq<WrapperView>>, int) {
    let l1 = layout_layers(nodes);
    let cs = connections(nodes, l1);
    expand_all(l1, nodes.len() as int, cs, cs.len() as int)
}

/// A drawn path that enters a wrapper whose node is fake goes on along its
/// one link: every connection that ends at such a wrapper ends where exactly
/// one connection leaves.
pub open spec fn fakes_pass_on(nodes: Seq<NodeView>, ls: Seq<Seq<WrapperView>>) -> bool {
    forall|t: int|
        0 <= t < connections(nodes, ls).len() ==> {
            let c = #[trigger] connections(nodes, ls)[t];
            nodes[ls[c.2 as int][c.3 as int].handle as int].is_fake_node ==> connections_at(
                nodes,
                ls,
                c.2 as int,
                c.3 as int,
            ).len() == 1
        }
}

/// What the layered layout asks of a scene: every dependent a node lists is
/// a node, its graph has exactly one root, the last gathered layer settles, and a path that
/// reaches a node marked fake can go on from it.
pub open spec fn can_lay_out(s: SceneView) -> bool {
    &&& deps_in_range(s.model.nodes)
    &&& has_single_root(s.model.nodes)
    &&& settles(s.model.nodes, initial_layers(gathered(s.model.nodes, the_root(s.model.nodes))).last())
    &&& fakes_pass_on(s.model.nodes, layout_layers(s.model.nodes))
}

/// The scene after the layered layout: the fake nodes added, every node of
/// the layers in its cell, one drawn path per link added after the paths the
/// model already had, each node listing the new paths that leave it after the
/// edges it already listed, and the nodes of the layers listed layer by layer.
pub open spec fn laid_out(s: SceneView) -> SceneView {
    let nodes = s.model.nodes;
    let (ls, next) = linked_layers(nodes);
    let placed = place_layers(with_fakes(nodes, next - nodes.len()), ls, ls.len() as int);
    let paths = s.model.edges + drawn_paths(ls, placed);
    SceneView {
        nodes: flat_handles(ls),
        model: ModelView { nodes: with_more_edges(placed, paths, s.model.edges.len() as int), edges: paths },
    }
}

proof fn lemma_max_layer_bound(es: Seq<WrapperView>)
    requires
        forall|i: int| 0 <= i < es.len() ==> (#[trigger] es[i]).layer <= MAX_GATHER_LAYER,
    ensures
        max_layer(es) <= MAX_GATHER_LAYER,
    decreases es.len(),
{
    if es.len() > 0 {
        lemma_max_layer_bound(es.drop_last());
    }
}

/// Placing nodes changes their positions only.
proof fn lemma_place_keeps(nodes: Seq<NodeView>, ls: Seq<Seq<WrapperView>>, l: int)
    requires
        layers_in_range(nodes, ls),
        0 <= l <= ls.len(),
    ensures
        place_layers(nodes, ls, l).len() == nodes.len(),
        forall|h: int|
            0 <= h < nodes.len() ==> #[trigger] place_layers(nodes, ls, l)[h] == (NodeView {
                position: place_layers(nodes, ls, l)[h].position,
                ..nodes[h]
            }),
    decreases l,
{
    if l > 0 {
        lemma_place_keeps(nodes, ls, l - 1);
        lemma_place_row_keeps(place_layers(nodes, ls, l - 1), ls, l - 1, ls[l - 1].len() as int);
        let before = place_layers(nodes, ls, l - 1);
        assert forall|h: int| 0 <= h < nodes.len() implies #[trigger] place_layers(nodes, ls, l)[h] == (NodeView {
            position: place_layers(nodes, ls, l)[h].position,
            ..nodes[h]
        }) by {
            assert(before[h] == (NodeView { position: before[h].position, ..nodes[h] }));
        }
    }
}

proof fn lemma_place_row_keeps(nodes: Seq<NodeView>, ls: Seq<Seq<WrapperView>>, l: int, r: int)
    requires
        layers_in_range(nodes, ls),
        0 <= l < ls.len(),
        0 <= r <= ls[l].len(),
    ensures
        place_row(nodes, ls, l, r).len() == nodes.len(),
        forall|h: int|
            0 <= h < nodes.len() ==> #[trigger] place_row(nodes, ls, l, r)[h] == (NodeView {
                position: place_row(nodes, ls, l, r)[h].position,
                ..nodes[h]
            }),
    decreases r,
{
    if r > 0 {
        lemma_place_row_keeps(nodes, ls, l, r - 1);
        assert(ls[l][r - 1].handle < nodes.len());
    }
}

/// Adding fake nodes keeps every dependent a node, and a well-formed graph
/// well formed.
proof fn lemma_with_fakes_wf(nodes: Seq<NodeView>, paths: Seq<PathView>, m: int)
    requires
        deps_in_range(nodes),
        m >= 0,
    ensures
        deps_in_range(with_fakes(nodes, m)),
        graph_wf(nodes, paths) ==> graph_wf(with_fakes(nodes, m), paths),
{
    let ns = with_fakes(nodes, m);
    assert forall|n: int, j: int| 0 <= n < ns.len() && 0 <= j < ns[n].dependents.len() implies #[trigger] ns[n].dependents[j]
        < ns.len() by {
        assert(n < nodes.len());
        assert(ns[n] == nodes[n]);
    }
    if graph_wf(nodes, paths) {
        assert forall|n: int, j: int| 0 <= n < ns.len() && 0 <= j < ns[n].edges.len() implies {
            &&& #[trigger] ns[n].edges[j] < paths.len()
            &&& paths[ns[n].edges[j] as int].from == n
        } by {
            assert(n < nodes.len());
            assert(ns[n] == nodes[n]);
        }
        assert forall|i: int| 0 <= i < paths.len() implies {
            &&& (#[trigger] paths[i]).from < ns.len()
            &&& paths[i].to < ns.len()
            &&& ns[paths[i].from as int].edges.contains(i as usize)
        } by {
            assert(ns[paths[i].from as int] == nodes[paths[i].from as int]);
        }
    }
}

/// Placing nodes keeps every dependent a node, and a well-formed graph well
/// formed.
proof fn lemma_place_wf(nodes: Seq<NodeView>, paths: Seq<PathView>, ls: Seq<Seq<WrapperView>>)
    requires
        deps_in_range(nodes),
        layers_in_range(nodes, ls),
    ensures
        deps_in_range(place_layers(nodes, ls, ls.len() as int)),
        graph_wf(nodes, paths) ==> graph_wf(place_layers(nodes, ls, ls.len() as int), paths),
{
    let ns = place_layers(nodes, ls, ls.len() as int);
    lemma_place_keeps(nodes, ls, ls.len() as int);
    assert forall|n: int, j: int| 0 <= n < ns.len() && 0 <= j < ns[n].dependents.len() implies #[trigger] ns[n].dependents[j]
        < ns.len() by {
        assert(ns[n].dependents == nodes[n].dependents);
    }
    if graph_wf(nodes, paths) {
        assert forall|n: int, j: int| 0 <= n < ns.len() && 0 <= j < ns[n].edges.len() implies {
            &&& #[trigger] ns[n].edges[j] < paths.len()
            &&& paths[ns[n].edges[j] as int].from == n
        } by {
            assert(ns[n].edges == nodes[n].edges);
        }
        assert forall|i: int| 0 <= i < paths.len() implies {
            &&& (#[trigger] paths[i]).from < ns.len()
            &&& paths[i].to < ns.len()
            &&& ns[paths[i].from as int].edges.contains(i as usize)
        } by {
            assert(ns[paths[i].from as int].edges == nodes[paths[i].from as int].edges);
        }
    }
}

/// The linked layers can be drawn over the placed nodes.
proof fn lemma_layout_drawable(
    nodes0: Seq<NodeView>,
    l1: Seq<Seq<WrapperView>>,
    ls: Seq<Seq<WrapperView>>,
    nodes1: Seq<NodeView>,
)
    requires
        layers_in_range(nodes0, l1),
        l1.len() <= usize::MAX,
        forall|l: int| 0 <= l < l1.len() ==> (#[trigger] l1[l]).len() <= usize::MAX,
        nodes1.len() >= nodes0.len(),
        forall|h: int| 0 <= h < nodes0.len() ==> #[trigger] nodes1[h] == nodes0[h],
        extends_with_fakes(nodes1, nodes0.len() as int, l1, ls),
        links_forward(ls),
        links_end_connections(l1, ls, connections(nodes0, l1)),
        fakes_pass_on(nodes0, l1),
        forall|i: int, j: int|
            0 <= i < ls.len() && 0 <= j < ls[i].len() ==> (#[trigger] ls[i][j]).dependents.len() == if j < l1[i].len() {
                connections_at(nodes0, l1, i, j).len()
            } else {
                1
            },
    ensures
        layers_in_range(nodes1, ls),
        drawable(place_layers(nodes1, ls, ls.len() as int), ls),
{
    assert forall|i: int, j: int| 0 <= i < ls.len() && 0 <= j < ls[i].len() implies #[trigger] ls[i][j].handle < nodes1.len() by {
        if j < l1[i].len() {
            assert(ls[i][j].handle == l1[i][j].handle);
        }
    }
    let placed = place_layers(nodes1, ls, ls.len() as int);
    lemma_place_keeps(nodes1, ls, ls.len() as int);
    assert forall|i: int, j: int| 0 <= i < ls.len() && 0 <= j < ls[i].len() implies #[trigger] ls[i][j].handle < placed.len() by {
        assert(ls[i][j].handle < nodes1.len());
    }
    assert forall|i: int, j: int|
        0 <= i < ls.len() && 0 <= j < ls[i].len() && !placed[ls[i][j].handle as int].is_fake_node implies (#[trigger] ls[i][j]).dependents.len()
            <= placed[ls[i][j].handle as int].dependents.len() by {
        let h = ls[i][j].handle as int;
        assert(h < nodes1.len());
        assert(placed[h].is_fake_node == nodes1[h].is_fake_node);
        assert(placed[h].dependents == nodes1[h].dependents);
        if j < l1[i].len() {
            assert(h == l1[i][j].handle);
            assert(h < nodes0.len());
            assert(nodes1[h] == nodes0[h]);
            assert(l1[i].len() <= usize::MAX);
            lemma_connections_at_len(nodes0, l1, i, j);
        }
    }
    let cs = connections(nodes0, l1);
    assert forall|i: int, j: int, k: int|
        0 <= i < ls.len() && 0 <= j < ls[i].len() && 0 <= k < ls[i][j].dependents.len() implies {
            let (a, b) = #[trigger] ls[i][j].dependents[k];
            placed[ls[a as int][b as int].handle as int].is_fake_node ==> ls[a as int][b as int].dependents.len() == 1
        } by {
        let (a, b) = ls[i][j].dependents[k];
        let (a, b) = (a as int, b as int);
        assert(i < a < ls.len() && b < ls[a].len());
        let h = ls[a][b].handle as int;
        assert(h < nodes1.len());
        assert(placed[h].is_fake_node == nodes1[h].is_fake_node);
        if b < l1[a].len() && placed[h].is_fake_node {
            let t = choose|t: int| 0 <= t < cs.len() && (#[trigger] cs[t]).2 == a && cs[t].3 == b;
            assert(h == l1[a][b].handle);
            assert(nodes1[h] == nodes0[h]);
            assert(connections_at(nodes0, l1, cs[t].2 as int, cs[t].3 as int).len() == 1);
        }
    }
}

/// Each wrapper's node sits in the cell of its slot: the column is the layer
/// and the row the wrapper's index within the layer.
pub open spec fn nodes_in_cells(nodes: Seq<NodeView>, ls: Seq<Seq<WrapperView>>) -> bool {
    forall|i: int, j: int|
        0 <= i < ls.len() && 0 <= j < ls[i].len() ==> (#[trigger] nodes[ls[i][j].handle as int]).position
            == (PositionView::Grid { column: i as usize, row: j as usize })
}

proof fn lemma_place_row_cells(nodes: Seq<NodeView>, ls: Seq<Seq<WrapperView>>, l: int, r: int)
    requires
        layers_in_range(nodes, ls),
        slots_distinct(ls),
        0 <= l < ls.len(),
        0 <= r <= ls[l].len(),
    ensures
        place_row(nodes, ls, l, r).len() == nodes.len(),
        forall|j: int|
            0 <= j < r ==> (#[trigger] place_row(nodes, ls, l, r)[ls[l][j].handle as int]).position
                == (PositionView::Grid { column: l as usize, row: j as usize }),
        forall|h: int|
            0 <= h < nodes.len() && (forall|j: int| 0 <= j < r ==> #[trigger] ls[l][j].handle != h) ==> #[trigger] place_row(
                nodes,
                ls,
                l,
                r,
            )[h] == nodes[h],
    decreases r,
{
    if r > 0 {
        lemma_place_row_cells(nodes, ls, l, r - 1);
        let ns = place_row(nodes, ls, l, r - 1);
        let hr = ls[l][r - 1].handle as int;
        assert(hr < nodes.len());
        assert forall|j: int| 0 <= j < r implies (#[trigger] place_row(nodes, ls, l, r)[ls[l][j].handle as int]).position
            == (PositionView::Grid { column: l as usize, row: j as usize }) by {
            if j < r - 1 {
                assert(ls[l][j].handle != ls[l][r - 1].handle);
                assert(ls[l][j].handle < nodes.len());
                assert(place_row(nodes, ls, l, r)[ls[l][j].handle as int] == ns[ls[l][j].handle as int]);
            }
        }
        assert forall|h: int|
            0 <= h < nodes.len() && (forall|j: int| 0 <= j < r ==> #[trigger] ls[l][j].handle != h) implies #[trigger] place_row(
                nodes,
                ls,
                l,
                r,
            )[h] == nodes[h] by {
            assert(ls[l][r - 1].handle != h);
            assert forall|j: int| 0 <= j < r - 1 implies #[trigger] ls[l][j].handle != h by {
                assert(ls[l][j].handle != h);
            }
        }
    }
}

/// Placing the layers puts each wrapper's node in the cell of its slot when
/// no node is held by two slots.
proof fn lemma_place_cells(nodes: Seq<NodeView>, ls: Seq<Seq<WrapperView>>, l: int)
    requires
        layers_in_range(nodes, ls),
        slots_distinct(ls),
        0 <= l <= ls.len(),
    ensures
        forall|i: int, j: int|
            0 <= i < l && 0 <= j < ls[i].len() ==> (#[trigger] place_layers(nodes, ls, l)[ls[i][j].handle as int]).position
                == (PositionView::Grid { column: i as usize, row: j as usize }),
    decreases l,
{
    if l > 0 {
        lemma_place_cells(nodes, ls, l - 1);
        lemma_place_keeps(nodes, ls, l - 1);
        let prev = place_layers(nodes, ls, l - 1);
        assert forall|i: int, j: int| 0 <= i < ls.len() && 0 <= j < ls[i].len() implies #[trigger] ls[i][j].handle < prev.len() by {
            assert(ls[i][j].handle < nodes.len());
        }
        lemma_place_row_cells(prev, ls, l - 1, ls[l - 1].len() as int);
        assert forall|i: int, j: int| 0 <= i < l && 0 <= j < ls[i].len() implies (#[trigger] place_layers(nodes, ls, l)[ls[i][j].handle as int]).position
            == (PositionView::Grid { column: i as usize, row: j as usize }) by {
            if i < l - 1 {
                let h = ls[i][j].handle as int;
                assert(h < nodes.len());
                assert forall|b: int| 0 <= b < ls[l - 1].len() implies #[trigger] ls[l - 1][b].handle != h by {
                    if ls[l - 1][b].handle == h {
                        assert(ls[l - 1][b].handle == ls[i][j].handle);
                    }
                }
                assert(place_layers(nodes, ls, l)[h] == prev[h]);
            }
        }
    }
}

/// Some slot of the layers holds node `x`.
pub open spec fn held(ls: Seq<Seq<WrapperView>>, x: usize) -> bool {
    exists|i: int, j: int| 0 <= i < ls.len() && 0 <= j < ls[i].len() && #[trigger] ls[i][j].handle == x
}

/// The handles of layers whose slots hold distinct nodes are distinct.
proof fn lemma_flat_handles_distinct(ls: Seq<Seq<WrapperView>>)
    requires
        slots_distinct(ls),
    ensures
        flat_handles(ls).no_duplicates(),
        forall|k: int| 0 <= k < flat_handles(ls).len() ==> #[trigger] held(ls, flat_handles(ls)[k]),
    decreases ls.len(),
{
    if ls.len() > 0 {
        let rest = ls.drop_last();
        let n = ls.len() - 1;
        assert forall|i: int, j: int, a: int, b: int|
            0 <= i < rest.len() && 0 <= j < rest[i].len() && 0 <= a < rest.len() && 0 <= b < rest[a].len()
                && #[trigger] rest[i][j].handle == #[trigger] rest[a][b].handle implies i == a && j == b by {
            assert(rest[i] == ls[i] && rest[a] == ls[a]);
        }
        lemma_flat_handles_distinct(rest);
        let fr = flat_handles(rest);
        let last = ls.last().map_values(|w: WrapperView| w.handle);
        assert(flat_handles(ls) == fr + last);
        assert(last.no_duplicates()) by {
            assert forall|x: int, y: int| 0 <= x < last.len() && 0 <= y < last.len() && x != y implies last[x] != last[y] by {
                if last[x] == last[y] {
                    assert(ls[n][x].handle == ls[n][y].handle);
                }
            }
        }
        assert forall|x: int, y: int| 0 <= x < fr.len() && 0 <= y < last.len() implies fr[x] != last[y] by {
            assert(held(rest, fr[x]));
            let (i, j) = choose|i: int, j: int| 0 <= i < rest.len() && 0 <= j < rest[i].len() && #[trigger] rest[i][j].handle == fr[x];
            assert(rest[i] == ls[i]);
            if fr[x] == last[y] {
                assert(ls[i][j].handle == ls[n][y].handle);
            }
        }
        vstd::seq_lib::lemma_no_dup_in_concat(fr, last);
        assert forall|k: int| 0 <= k < flat_handles(ls).len() implies #[trigger] held(ls, flat_handles(ls)[k]) by {
            if k < fr.len() {
                assert(held(rest, fr[k]));
                let (i, j) = choose|i: int, j: int| 0 <= i < rest.len() && 0 <= j < rest[i].len() && #[trigger] rest[i][j].handle == fr[k];
                assert(rest[i] == ls[i]);
                assert(ls[i][j].handle == flat_handles(ls)[k]);
            } else {
                assert(ls[n][k - fr.len()].handle == flat_handles(ls)[k]);
            }
        }
    } else {
        assert(flat_handles(ls).len() == 0);
    }
}

/// Every handle listed by the layers is a node.
proof fn lemma_flat_handles_in_range(nodes: Seq<NodeView>, ls: Seq<Seq<WrapperView>>)
    requires
        layers_in_range(nodes, ls),
    ensures
        forall|k: int| 0 <= k < flat_handles(ls).len() ==> #[trigger] flat_handles(ls)[k] < nodes.len(),
    decreases ls.len(),
{
    if ls.len() > 0 {
        let rest = ls.drop_last();
        assert forall|i: int, j: int| 0 <= i < rest.len() && 0 <= j < rest[i].len() implies #[trigger] rest[i][j].handle < nodes.len() by {
            assert(rest[i] == ls[i]);
        }
        lemma_flat_handles_in_range(nodes, rest);
        let last = ls.last().map_values(|w: WrapperView| w.handle);
        assert forall|k: int| 0 <= k < flat_handles(ls).len() implies #[trigger] flat_handles(ls)[k] < nodes.len() by {
            if k >= flat_handles(rest).len() {
                let q = k - flat_handles(rest).len();
                assert(flat_handles(ls)[k] == last[q]);
                assert(ls[ls.len() - 1][q].handle < nodes.len());
            }
        }
    }
}

impl Scene {
    /// Lays the graph out in layers: the nodes reachable from the root
    /// (depth-first, at most `MAX_GATHER_LAYER` deep) each go to the deepest
    /// layer they were met on; nodes of the last layer that depend on nodes
    /// of that layer move up to new layers; each dependency between layers
    /// becomes a drawn path, bending through a fake node on every layer it
    /// crosses; layer `l` is column `l` and a node's index in its layer is its
    /// row.
    #[verifier::spinoff_prover]
    pub fn layout(&mut self)
        requires
            can_lay_out(old(self)@),
        ensures
            final(self)@ == laid_out(old(self)@),
            old(self)@.model.wf() ==> final(self)@.wf(),
            forall|i: int| 0 <= i < final(self)@.nodes.len() ==> #[trigger] final(self)@.nodes[i] < final(self)@.model.nodes.len(),
            nodes_in_cells(final(self)@.model.nodes, linked_layers(old(self)@.model.nodes).0),
            links_adjacent(linked_layers(old(self)@.model.nodes).0),
            final(self)@.nodes.no_duplicates(),
    {
        let ghost nv = self@.model.nodes;
        let ghost n0 = nv.len() as int;
        let root = self.model.get_root_node();
        proof {
            let r = choose|r: int| is_root(nv, r) && forall|q: int| #[trigger] is_root(nv, q) ==> q == r;
            assert(is_root(nv, the_root(nv)));
            assert(the_root(nv) == r);
            assert(root as int == r);
        }
        let mut gathered_nodes: Vec<LayoutNodeWrapper> = Vec::new();
        gathered_nodes.push(LayoutNodeWrapper { handle: root, layer: 0, dependents: Vec::new() });
        proof {
            assert(wrappers_view(gathered_nodes@) =~= seq![fresh_wrapper(root as int, 0)]);
        }
        self.gather_nodes(root, &mut gathered_nodes, 1);
        let ghost ev = wrappers_view(gathered_nodes@);
        assert(ev == gathered(nv, root as int));
        let highest = find_highest_layer(&gathered_nodes);
        proof {
            lemma_max_layer_bound(ev);
        }
        let mut by_layer = split_into_layers(&gathered_nodes, highest);
        proof {
            assert(layers_view(by_layer@) =~= initial_layers(ev));
            lemma_initial_layers_fresh(nv, ev);
            lemma_gathered_distinct(nv, ev);
            lemma_initial_layers_distinct(ev);
        }
        self.recursively_add_layers(&mut by_layer);
        let ghost l1 = layers_view(by_layer@);
        assert(l1 == layout_layers(nv));
        let layer_count = by_layer.len();
        self.connect_nodes(&mut by_layer);
        let ghost ls = layers_view(by_layer@);
        let ghost nodes1 = self@.model.nodes;
        proof {
            let cs = connections(nv, l1);
            assert(linked_layers(nv) == expand_all(l1, n0, cs, cs.len() as int));
            let next = linked_layers(nv).1;
            assert(nodes1 == with_fakes(nv, next - n0));
            assert(ls == linked_layers(nv).0);
            assert forall|h: int| 0 <= h < nv.len() implies #[trigger] nodes1[h] == nv[h] by {
            }
            lemma_with_fakes_wf(nv, self@.model.edges, next - n0);
            lemma_layout_drawable(nv, l1, ls, nodes1);
            lemma_place_wf(nodes1, self@.model.edges, ls);
        }
        self.place_nodes(&by_layer);
        let ghost placed = self@.model.nodes;
        self.add_drawable_connections(&by_layer);
        self.nodes = Self::flatten_handles(&by_layer);
        proof {
            let fin = self@.model.nodes;
            assert(fin.len() == placed.len());
            assert(placed.len() == nodes1.len()) by {
                lemma_place_keeps(nodes1, ls, ls.len() as int);
            }
            assert forall|i: int, j: int| 0 <= i < ls.len() && 0 <= j < ls[i].len() implies #[trigger] ls[i][j].handle < fin.len() by {
                assert(ls[i][j].handle < nodes1.len());
            }
            lemma_flat_handles_in_range(fin, ls);
            assert(self@ == laid_out(old(self)@));
            lemma_place_cells(nodes1, ls, ls.len() as int);
            assert forall|i: int, j: int| 0 <= i < ls.len() && 0 <= j < ls[i].len() implies (#[trigger] fin[ls[i][j].handle as int]).position
                == (PositionView::Grid { column: i as usize, row: j as usize }) by {
                assert(ls[i][j].handle < nodes1.len());
                assert(fin[ls[i][j].handle as int].position == placed[ls[i][j].handle as int].position);
            }
            lemma_flat_handles_distinct(ls);
        }
    }
}

/// A filter that keeps as many items as there are keeps them all.
proof fn lemma_filter_keeps_all<A>(xs: Seq<A>, p: spec_fn(A) -> bool)
    requires
        xs.filter(p).len() == xs.len(),
    ensures
        xs.filter(p) == xs,
    decreases xs.len(),
{
    reveal(Seq::filter);
    if xs.len() > 0 {
        xs.drop_last().lemma_filter_len(p);
        if !p(xs.last()) {
            assert(xs.filter(p) == xs.drop_last().filter(p));
        }
        lemma_filter_keeps_all(xs.drop_last(), p);
        assert(xs.filter(p) =~= xs);
    } else {
        assert(xs.filter(p) =~= xs);
    }
}

proof fn lemma_peel_fixed(nodes: Seq<NodeView>, x: Seq<WrapperView>, k: nat)
    requires
        moving(nodes, x) == x,
    ensures
        peel_n(nodes, x, k) == x,
    decreases k,
{
    if k > 0 {
        lemma_peel_fixed(nodes, x, (k - 1) as nat);
    }
}

/// A layer settles exactly when what moves out of it settles.
proof fn lemma_settles_moving(nodes: Seq<NodeView>, x: Seq<WrapperView>)
    ensures
        settles(nodes, x) == settles(nodes, moving(nodes, x)),
{
    if settles(nodes, x) {
        let k = choose|k: nat| #[trigger] peel_n(nodes, x, k).len() == 0;
        if k == 0 {
            x.lemma_filter_len(|w: WrapperView| depends_into(nodes, w.handle as int, x));
            assert(peel_n(nodes, moving(nodes, x), 0).len() == 0);
        } else {
            assert(peel_n(nodes, moving(nodes, x), (k - 1) as nat) == peel_n(nodes, x, k));
        }
    }
    if settles(nodes, moving(nodes, x)) {
        let k = choose|k: nat| #[trigger] peel_n(nodes, moving(nodes, x), k).len() == 0;
        assert(peel_n(nodes, x, k + 1) == peel_n(nodes, moving(nodes, x), k));
    }
}

impl Scene {
    /// Whether node `h` points to a node held by one of the wrappers `ws`.
    fn depends_into_wrappers(&self, h: usize, ws: &Vec<LayoutNodeWrapper>) -> (r: bool)
        requires
            deps_in_range(self@.model.nodes),
            h < self@.model.nodes.len(),
        ensures
            r == depends_into(self@.model.nodes, h as int, wrappers_view(ws@)),
    {
        let ghost nv = self@.model.nodes;
        let ghost wv = wrappers_view(ws@);
        let deps = &self.model.nodes[h].dependents;
        let mut k: usize = 0;
        while k < deps.len()
            invariant
                nv == self@.model.nodes,
                wv == wrappers_view(ws@),
                h < nv.len(),
                deps@ == nv[h as int].dependents,
                0 <= k <= deps@.len(),
                forall|kk: int, j: int|
                    0 <= kk < k && 0 <= j < wv.len() ==> #[trigger] wv[j].handle != #[trigger] nv[h as int].dependents[kk],
            decreases deps@.len() - k,
        {
            let mut j: usize = 0;
            while j < ws.len()
                invariant
                    nv == self@.model.nodes,
                    wv == wrappers_view(ws@),
                    h < nv.len(),
                    deps@ == nv[h as int].dependents,
                    0 <= k < deps@.len(),
                    0 <= j <= wv.len(),
                    forall|kk: int, jj: int|
                        0 <= kk < k && 0 <= jj < wv.len() ==> #[trigger] wv[jj].handle != #[trigger] nv[h as int].dependents[kk],
                    forall|jj: int| 0 <= jj < j ==> #[trigger] wv[jj].handle != deps@[k as int],
                decreases wv.len() - j,
            {
                assert(wv[j as int] == ws@[j as int]@);
                if ws[j].handle == deps[k] {
                    assert(wv[j as int].handle == nv[h as int].dependents[k as int]);
                    return true;
                }
                j = j + 1;
            }
            k = k + 1;
        }
        false
    }

    /// Whether rounds of keeping only the wrappers of `top` whose nodes point
    /// into what is kept end with nothing kept.
    fn top_settles(&self, top: &Vec<LayoutNodeWrapper>) -> (r: bool)
        requires
            deps_in_range(self@.model.nodes),
            forall|i: int| 0 <= i < top@.len() ==> (#[trigger] top@[i]).handle < self@.model.nodes.len(),
        ensures
            r == settles(self@.model.nodes, wrappers_view(top@)),
    {
        let ghost nv = self@.model.nodes;
        let ghost t0 = wrappers_view(top@);
        let mut cur: Vec<LayoutNodeWrapper> = Vec::new();
        let mut i: usize = 0;
        while i < top.len()
            invariant
                0 <= i <= top@.len(),
                t0 == wrappers_view(top@),
                wrappers_view(cur@) == t0.subrange(0, i as int),
                forall|k: int| 0 <= k < cur@.len() ==> (#[trigger] cur@[k]).handle == top@[k].handle,
            decreases top@.len() - i,
        {
            let ghost c0 = wrappers_view(cur@);
            let w = top[i].duplicate();
            cur.push(w);
            assert(wrappers_view(cur@) =~= c0.push(t0[i as int]));
            assert(t0.subrange(0, i + 1) =~= t0.subrange(0, i as int).push(t0[i as int]));
            i = i + 1;
        }
        assert(t0.subrange(0, t0.len() as int) =~= t0);
        loop
            invariant
                nv == self@.model.nodes,
                deps_in_range(self@.model.nodes),
                forall|i: int| 0 <= i < cur@.len() ==> (#[trigger] cur@[i]).handle < nv.len(),
                settles(nv, t0) == settles(nv, wrappers_view(cur@)),
                t0 == wrappers_view(top@),
            decreases cur@.len(),
        {
            let ghost cv = wrappers_view(cur@);
            if cur.len() == 0 {
                proof {
                    assert(peel_n(nv, cv, 0).len() == 0);
                }
                return true;
            }
            let ghost p = |w: WrapperView| depends_into(nv, w.handle as int, cv);
            let mut next: Vec<LayoutNodeWrapper> = Vec::new();
            let mut j: usize = 0;
            while j < cur.len()
                invariant
                    nv == self@.model.nodes,
                    deps_in_range(self@.model.nodes),
                    cv == wrappers_view(cur@),
                    p == (|w: WrapperView| depends_into(nv, w.handle as int, cv)),
                    forall|i: int| 0 <= i < cur@.len() ==> (#[trigger] cur@[i]).handle < nv.len(),
                    forall|i: int| 0 <= i < next@.len() ==> (#[trigger] next@[i]).handle < nv.len(),
                    0 <= j <= cv.len(),
                    wrappers_view(next@) == cv.subrange(0, j as int).filter(p),
                decreases cv.len() - j,
            {
                let ghost sub = cv.subrange(0, j + 1);
                proof {
                    reveal(Seq::filter);
                    assert(sub.drop_last() =~= cv.subrange(0, j as int));
                    assert(sub.last() == cv[j as int]);
                    assert(cv[j as int] == cur@[j as int]@);
                }
                let h = cur[j].handle;
                let ghost n0 = wrappers_view(next@);
                if self.depends_into_wrappers(h, &cur) {
                    let c = cur[j].duplicate();
                    next.push(c);
                    assert(wrappers_view(next@) =~= n0.push(cv[j as int]));
                }
                j = j + 1;
            }
            proof {
                assert(cv.subrange(0, cv.len() as int) =~= cv);
                assert(wrappers_view(next@) == moving(nv, cv));
                cv.lemma_filter_len(p);
            }
            if next.len() == cur.len() {
                proof {
                    lemma_filter_keeps_all(cv, p);
                    assert forall|k: nat| #[trigger] peel_n(nv, cv, k).len() != 0 by {
                        lemma_peel_fixed(nv, cv, k);
                    }
                }
                return false;
            }
            proof {
                lemma_settles_moving(nv, cv);
            }
            cur = next;
        }
    }

    /// Whether the layered layout can run on the scene (see `can_lay_out`):
    /// the graph has exactly one root, the last gathered layer settles, and
    /// every fake node that a path reaches has exactly one way on.
    #[verifier::spinoff_prover]
    pub fn layout_possible(&self) -> (r: bool)
        requires
            deps_in_range(self@.model.nodes),
        ensures
            r == can_lay_out(self@),
    {
        let ghost nv = self@.model.nodes;
        let node_count = self.model.nodes.len();
        let roots = self.model.root_nodes();
        if roots.len() != 1 {
            proof {
                if has_single_root(nv) {
                    let r = choose|r: int| is_root(nv, r) && forall|q: int| #[trigger] is_root(nv, q) ==> q == r;
                    assert(roots@.contains(r as usize));
                    if roots@.len() > 1 {
                        assert(roots@[0] < roots@[1]);
                        assert(roots@.contains(roots@[0]));
                        assert(roots@.contains(roots@[1]));
                        assert(is_root(nv, roots@[0] as int));
                        assert(is_root(nv, roots@[1] as int));
                    }
                }
            }
            return false;
        }
        let root = roots[0];
        proof {
            assert(roots@.contains(root));
            assert(is_root(nv, root as int));
            assert forall|q: int| #[trigger] is_root(nv, q) implies q == root by {
                assert(0 <= q < nv.len());
                assert(roots@.contains(q as usize));
                let w = choose|w: int| 0 <= w < roots@.len() && roots@[w] == q as usize;
                assert(w == 0);
            }
            assert(has_single_root(nv));
            assert(is_root(nv, the_root(nv)));
        }
        let mut gathered_nodes: Vec<LayoutNodeWrapper> = Vec::new();
        gathered_nodes.push(LayoutNodeWrapper { handle: root, layer: 0, dependents: Vec::new() });
        proof {
            assert(wrappers_view(gathered_nodes@) =~= seq![fresh_wrapper(root as int, 0)]);
        }
        self.gather_nodes(root, &mut gathered_nodes, 1);
        let ghost ev = wrappers_view(gathered_nodes@);
        let highest = find_highest_layer(&gathered_nodes);
        proof {
            lemma_max_layer_bound(ev);
        }
        let mut by_layer = split_into_layers(&gathered_nodes, highest);
        let ghost l0 = layers_view(by_layer@);
        proof {
            assert(l0 =~= initial_layers(ev));
            lemma_initial_layers_fresh(nv, ev);
            lemma_gathered_distinct(nv, ev);
            lemma_initial_layers_distinct(ev);
        }
        let last = by_layer.len() - 1;
        proof {
            assert(wrappers_view(by_layer@[last as int]@) == l0.last());
            assert forall|i: int| 0 <= i < by_layer@[last as int]@.len() implies (#[trigger] by_layer@[last as int]@[i]).handle < nv.len() by {
                assert(l0[last as int][i] == by_layer@[last as int]@[i]@);
                assert(l0[last as int][i].handle < nv.len());
            }
        }
        if !self.top_settles(&by_layer[last]) {
            return false;
        }
        self.recursively_add_layers(&mut by_layer);
        let ghost l1 = layers_view(by_layer@);
        assert(l1 == layout_layers(nv));
        let cs = self.collect_connections(&by_layer);
        self.fakes_pass_on_check(&by_layer, &cs)
    }

    /// Whether every connection that ends at a wrapper whose node is fake
    /// ends where exactly one connection leaves.
    fn fakes_pass_on_check(&self, by_layer: &Vec<Vec<LayoutNodeWrapper>>, cs: &Vec<Connection>) -> (r: bool)
        requires
            deps_in_range(self@.model.nodes),
            layers_in_range(self@.model.nodes, layers_view(by_layer@)),
            cs@ == connections(self@.model.nodes, layers_view(by_layer@)),
            forall|t: int| 0 <= t < cs@.len() ==> connection_in_range(layers_view(by_layer@), #[trigger] cs@[t]),
            layers_view(by_layer@).len() <= usize::MAX,
            forall|l: int| 0 <= l < by_layer@.len() ==> (#[trigger] layers_view(by_layer@)[l]).len() <= usize::MAX,
        ensures
            r == fakes_pass_on(self@.model.nodes, layers_view(by_layer@)),
    {
        let ghost nv = self@.model.nodes;
        let ghost ls = layers_view(by_layer@);
        let ghost csv = cs@;
        let mut t: usize = 0;
        while t < cs.len()
            invariant
                nv == self@.model.nodes,
                ls == layers_view(by_layer@),
                csv == cs@,
                csv == connections(nv, ls),
                layers_in_range(nv, ls),
                forall|u: int| 0 <= u < csv.len() ==> connection_in_range(ls, #[trigger] csv[u]),
                ls.len() <= usize::MAX,
                forall|l: int| 0 <= l < ls.len() ==> (#[trigger] ls[l]).len() <= usize::MAX,
                0 <= t <= csv.len(),
                forall|u: int|
                    0 <= u < t ==> {
                        let c = #[trigger] csv[u];
                        nv[ls[c.2 as int][c.3 as int].handle as int].is_fake_node ==> connections_at(
                            nv,
                            ls,
                            c.2 as int,
                            c.3 as int,
                        ).len() == 1
                    },
            decreases csv.len() - t,
        {
            let (_, _, a, b) = cs[t];
            assert(connection_in_range(ls, csv[t as int]));
            assert(ls[a as int][b as int] == by_layer@[a as int]@[b as int]@);
            let h = by_layer[a][b].handle;
            assert(h < nv.len());
            if self.model.nodes[h].is_fake_node {
                let mut count: usize = 0;
                let mut u: usize = 0;
                while u < cs.len()
                    invariant
                        csv == cs@,
                        0 <= u <= csv.len(),
                        count <= u,
                        count == count_from(csv.take(u as int), a as int, b as int),
                    decreases csv.len() - u,
                {
                    proof {
                        lemma_count_take(csv, u as int, a as int, b as int);
                    }
                    if cs[u].0 == a && cs[u].1 == b {
                        count = count + 1;
                    }
                    u = u + 1;
                }
                proof {
                    assert(csv.take(csv.len() as int) =~= csv);
                    lemma_count_below(nv, ls, ls.len() as int, a as int, b as int);
                }
                if count != 1 {
                    return false;
                }
            }
            t = t + 1;
        }
        true
    }
}

proof fn lemma_exists_first_in_row(ls: Seq<Seq<WrapperView>>, i: int, j: int, d: int)
    requires
        0 <= i < ls.len(),
        i == ls.len() - 1,
        0 <= j < ls[i].len(),
        ls[i][j].handle == d,
    ensures
        find_slot(ls, d, i) is Some,
    decreases j,
{
    if exists|b: int| 0 <= b < j && #[trigger] ls[i][b].handle == d {
        let b = choose|b: int| 0 <= b < j && #[trigger] ls[i][b].handle == d;
        lemma_exists_first_in_row(ls, i, b, d);
    } else {
        assert(is_first_slot(ls, d, i, i, j));
    }
}

} // verus!
