use vstd::prelude::*;
use vstd::string::StringSliceAdditionalSpecFns;

use crate::lexer::tokenise;
use crate::{is_graphviz_layout, GRAPHVIZ_LAYOUT};

use crate::data_types::{
    latin1, latin1_string, lines_view, new_node_view, nodes_view, paths_view, Line, LineView, Node,
    NodeView, Path, PathView, Position, PositionView, LINE_COLOUR,
};
use crate::error::{ParseError, ParseErrorView};
use crate::parser::{
    parse_tokens, source_statements,
    edge_statements_view, node_statements_view, segments_view, CoordView, EdgeStatement,
    EdgeStatementView, NodeStatement, NodeStatementView, SegmentText, SegmentView, CoordText,
};

verus! {

/// Every dependent a node lists is a node.
pub open spec fn deps_in_range(nodes: Seq<NodeView>) -> bool {
    forall|n: int, j: int|
        0 <= n < nodes.len() && 0 <= j < nodes[n].dependents.len() ==> #[trigger] nodes[n].dependents[j] < nodes.len()
}

/// Every handle and path index held by the nodes and paths is in range, and
/// each path is listed among the edges of the node it leaves and of no other
/// node.
pub open spec fn graph_wf(nodes: Seq<NodeView>, paths: Seq<PathView>) -> bool {
    &&& forall|n: int, j: int|
        0 <= n < nodes.len() && 0 <= j < nodes[n].dependents.len() ==> #[trigger] nodes[n].dependents[j]
            < nodes.len()
    &&& forall|n: int, j: int|
        0 <= n < nodes.len() && 0 <= j < nodes[n].edges.len() ==> {
            &&& #[trigger] nodes[n].edges[j] < paths.len()
            &&& paths[nodes[n].edges[j] as int].from == n
        }
    &&& forall|i: int|
        0 <= i < paths.len() ==> {
            &&& (#[trigger] paths[i]).from < nodes.len()
            &&& paths[i].to < nodes.len()
            &&& nodes[paths[i].from as int].edges.contains(i as usize)
        }
}

/// `k` is the first node named `id`.
pub open spec fn is_first_id(nodes: Seq<NodeView>, id: Seq<char>, k: int) -> bool {
    &&& 0 <= k < nodes.len()
    &&& nodes[k].id == id
    &&& forall|m: int| 0 <= m < k ==> nodes[m].id != id
}

/// The first node named `id`, if any.
pub open spec fn find_id(nodes: Seq<NodeView>, id: Seq<char>) -> Option<int> {
    if exists|k: int| is_first_id(nodes, id, k) {
        Some(choose|k: int| is_first_id(nodes, id, k))
    } else {
        None
    }
}

/// The nodes, with a fresh node named `id` added at the end unless one is
/// there, and the handle of the first node named `id`.
pub open spec fn insert_id(nodes: Seq<NodeView>, id: Seq<char>) -> (Seq<NodeView>, int) {
    match find_id(nodes, id) {
        Some(k) => (nodes, k),
        None => (nodes.push(new_node_view(id)), nodes.len() as int),
    }
}

/// A written coordinate pair as a position.
pub open spec fn written_position(c: CoordView) -> PositionView {
    PositionView::Written { x: latin1(c.0), y: latin1(c.1) }
}

/// A written segment as a line in the default colour.
pub open spec fn segment_line(s: SegmentView) -> LineView {
    LineView { a: written_position(s.0), b: written_position(s.1), colour: LINE_COLOUR }
}

/// The node a node statement stands for; where positions come from the
/// source, it is at the written coordinates.
pub open spec fn statement_node(st: NodeStatementView, graphviz: bool) -> NodeView {
    let base = new_node_view(latin1(st.id));
    NodeView {
        label: match st.label {
            Some(l) => latin1(l),
            None => base.label,
        },
        link: match st.link {
            Some(l) => Some(latin1(l)),
            None => None,
        },
        position: if graphviz && st.coord is Some {
            written_position(st.coord.unwrap())
        } else {
            base.position
        },
        ..base
    }
}

/// The nodes of the first `n` node statements, or the error at the first of
/// them without coordinates where positions come from the source.
pub open spec fn statement_nodes(ns: Seq<NodeStatementView>, n: int, graphviz: bool) -> Result<
    Seq<NodeView>,
    ParseErrorView,
>
    decreases n,
{
    if n <= 0 {
        Ok(Seq::empty())
    } else {
        match statement_nodes(ns, n - 1, graphviz) {
            Err(e) => Err(e),
            Ok(v) => if graphviz && ns[n - 1].coord is None {
                Err(ParseErrorView::MissingNodeCoordinates(ns[n - 1].id))
            } else {
                Ok(v.push(statement_node(ns[n - 1], graphviz)))
            },
        }
    }
}

/// The graph after the edge statement `e`: its target, then its source, are
/// found by name or added; a path between them is appended (with the edge's
/// segments where positions come from the source) and recorded at the
/// source as a dependent and an edge.
pub open spec fn add_edge(
    nodes: Seq<NodeView>,
    paths: Seq<PathView>,
    e: EdgeStatementView,
    graphviz: bool,
) -> Result<(Seq<NodeView>, Seq<PathView>), ParseErrorView> {
    let (n1, t) = insert_id(nodes, latin1(e.to));
    let (n2, f) = insert_id(n1, latin1(e.from));
    if graphviz && e.lines is None {
        Err(ParseErrorView::MissingEdgeCoordinates(e.to, e.from))
    } else {
        let segs = if graphviz {
            e.lines.unwrap().map_values(|s: SegmentView| segment_line(s))
        } else {
            Seq::empty()
        };
        let path = PathView { from: f as usize, to: t as usize, line_segments: segs };
        let source = n2[f];
        let n3 = n2.update(
            f,
            NodeView {
                dependents: source.dependents.push(t as usize),
                edges: source.edges.push(paths.len() as usize),
                ..source
            },
        );
        Ok((n3, paths.push(path)))
    }
}

/// The graph after the first `n` edge statements, starting from `nodes`.
pub open spec fn add_edges(
    nodes: Seq<NodeView>,
    es: Seq<EdgeStatementView>,
    n: int,
    graphviz: bool,
) -> Result<(Seq<NodeView>, Seq<PathView>), ParseErrorView>
    decreases n,
{
    if n <= 0 {
        Ok((nodes, Seq::empty()))
    } else {
        match add_edges(nodes, es, n - 1, graphviz) {
            Err(e) => Err(e),
            Ok((ns, ps)) => add_edge(ns, ps, es[n - 1], graphviz),
        }
    }
}

/// The path with its first segment starting at the position of node `n`
/// and its last segment ending at the position of its target.
pub open spec fn joined_at(p: PathView, nodes: Seq<NodeView>, n: int) -> PathView {
    let s = p.line_segments;
    let s1 = s.update(0, LineView { a: nodes[n].position, ..s[0] });
    let s2 = s1.update(
        s1.len() - 1,
        LineView { b: nodes[p.to as int].position, ..s1[s1.len() - 1] },
    );
    PathView { line_segments: s2, ..p }
}

/// The path with its first segment starting at its source node and its last
/// segment ending at its target node.
pub open spec fn adjusted_path(p: PathView, nodes: Seq<NodeView>) -> PathView {
    joined_at(p, nodes, p.from as int)
}

/// The paths after joining, one after the other, the first `k` paths that
/// node `n` lists to that node (a path listed twice is joined twice).
pub open spec fn join_listed(nodes: Seq<NodeView>, paths: Seq<PathView>, n: int, k: int) -> Seq<PathView>
    decreases k,
{
    if k <= 0 {
        paths
    } else {
        let ps = join_listed(nodes, paths, n, k - 1);
        let e = nodes[n].edges[k - 1] as int;
        ps.update(e, joined_at(ps[e], nodes, n))
    }
}

/// The paths after joining, node after node, the paths that each of the
/// first `n` nodes lists.
pub open spec fn join_nodes(nodes: Seq<NodeView>, paths: Seq<PathView>, n: int) -> Seq<PathView>
    decreases n,
{
    if n <= 0 {
        paths
    } else {
        let ps = join_nodes(nodes, paths, n - 1);
        join_listed(nodes, ps, n - 1, nodes[n - 1].edges.len() as int)
    }
}

/// Every path that a node lists exists, has a segment and leads to a node.
pub open spec fn listed_joinable(nodes: Seq<NodeView>, paths: Seq<PathView>) -> bool {
    forall|n: int, k: int|
        0 <= n < nodes.len() && 0 <= k < nodes[n].edges.len() ==> {
            let e = #[trigger] nodes[n].edges[k] as int;
            &&& e < paths.len()
            &&& paths[e].to < nodes.len()
            &&& paths[e].line_segments.len() > 0
        }
}

/// Every path adjusted to its end nodes.
pub open spec fn adjusted_paths(paths: Seq<PathView>, nodes: Seq<NodeView>) -> Seq<PathView> {
    paths.map_values(|p: PathView| adjusted_path(p, nodes))
}

/// The graph of the statements before its paths are joined to their nodes.
pub open spec fn unjoined_graph(
    ns: Seq<NodeStatementView>,
    es: Seq<EdgeStatementView>,
    graphviz: bool,
) -> Result<(Seq<NodeView>, Seq<PathView>), ParseErrorView> {
    match statement_nodes(ns, ns.len() as int, graphviz) {
        Err(e) => Err(e),
        Ok(nodes0) => add_edges(nodes0, es, es.len() as int, graphviz),
    }
}

/// The graph that node and edge statements describe: the nodes of the node
/// statements in order, then those that edges name without a statement;
/// one path per edge statement, in order. Where positions come from the
/// source, each path's segments are joined to its end nodes.
pub open spec fn graph_of(
    ns: Seq<NodeStatementView>,
    es: Seq<EdgeStatementView>,
    graphviz: bool,
) -> Result<(Seq<NodeView>, Seq<PathView>), ParseErrorView> {
    match unjoined_graph(ns, es, graphviz) {
        Err(e) => Err(e),
        Ok((nodes, paths)) => if graphviz {
            Ok((nodes, adjusted_paths(paths, nodes)))
        } else {
            Ok((nodes, paths))
        },
    }
}

/// Where positions come from the source and every statement has its `pos`,
/// every edge's `pos` describes at least one segment (joining a path without
/// segments to its nodes fails).
pub open spec fn segments_complete(
    ns: Seq<NodeStatementView>,
    es: Seq<EdgeStatementView>,
    graphviz: bool,
) -> bool {
    (graphviz && (forall|k: int| 0 <= k < ns.len() ==> (#[trigger] ns[k]).coord is Some) && (forall|
        k: int,
    |
        0 <= k < es.len() ==> (#[trigger] es[k]).lines is Some)) ==> forall|k: int|
        0 <= k < es.len() ==> (#[trigger] es[k]).lines.unwrap().len() > 0
}

/// Each node's edges pair up with its dependents: the `m`-th path a node
/// lists leaves that node for its `m`-th dependent; a node lists its paths
/// in increasing order; and every path leads between nodes and is listed by
/// the node it leaves.
pub open spec fn edges_paired(nodes: Seq<NodeView>, paths: Seq<PathView>) -> bool {
    &&& forall|i: int| 0 <= i < nodes.len() ==> (#[trigger] nodes[i]).edges.len() == nodes[i].dependents.len()
    &&& forall|i: int, m: int|
        0 <= i < nodes.len() && 0 <= m < nodes[i].edges.len() ==> {
            let e = #[trigger] nodes[i].edges[m] as int;
            &&& e < paths.len()
            &&& paths[e].from == i
            &&& paths[e].to == nodes[i].dependents[m]
        }
    &&& forall|i: int, a: int, b: int|
        0 <= i < nodes.len() && 0 <= a < b < nodes[i].edges.len() ==> #[trigger] nodes[i].edges[a]
            < #[trigger] nodes[i].edges[b]
    &&& forall|k: int|
        0 <= k < paths.len() ==> {
            &&& (#[trigger] paths[k]).from < nodes.len()
            &&& paths[k].to < nodes.len()
            &&& nodes[paths[k].from as int].edges.contains(k as usize)
        }
}

/// Every node of the sequence lists no path and no dependent.
pub open spec fn all_bare(nodes: Seq<NodeView>) -> bool {
    forall|i: int| 0 <= i < nodes.len() ==> (#[trigger] nodes[i]).edges.len() == 0 && nodes[i].dependents.len() == 0
}

proof fn lemma_statement_nodes_bare(ns: Seq<NodeStatementView>, n: int, graphviz: bool)
    requires
        0 <= n <= ns.len(),
    ensures
        statement_nodes(ns, n, graphviz) matches Ok(v) ==> all_bare(v) && v.len() == n,
    decreases n,
{
    if n > 0 {
        lemma_statement_nodes_bare(ns, n - 1, graphviz);
    }
}

proof fn lemma_insert_id_keeps(nodes: Seq<NodeView>, id: Seq<char>)
    ensures
        ({
            let (n1, h) = insert_id(nodes, id);
            &&& 0 <= h < n1.len()
            &&& nodes.len() <= n1.len() <= nodes.len() + 1
            &&& forall|i: int| 0 <= i < nodes.len() ==> #[trigger] n1[i] == nodes[i]
            &&& forall|i: int|
                nodes.len() <= i < n1.len() ==> (#[trigger] n1[i]).edges.len() == 0 && n1[i].dependents.len() == 0
        }),
{
    match find_id(nodes, id) {
        Some(k) => {
            assert(is_first_id(nodes, id, k));
        },
        None => {},
    }
}

proof fn lemma_add_edge_paired(nodes: Seq<NodeView>, paths: Seq<PathView>, e: EdgeStatementView, graphviz: bool)
    requires
        edges_paired(nodes, paths),
        nodes.len() + 2 < usize::MAX,
        paths.len() < usize::MAX,
    ensures
        add_edge(nodes, paths, e, graphviz) matches Ok((n3, p3)) ==> edges_paired(n3, p3) && n3.len() <= nodes.len()
            + 2 && p3.len() == paths.len() + 1,
{
    let (n1, t) = insert_id(nodes, latin1(e.to));
    let (n2, f) = insert_id(n1, latin1(e.from));
    lemma_insert_id_keeps(nodes, latin1(e.to));
    lemma_insert_id_keeps(n1, latin1(e.from));
    if !(graphviz && e.lines is None) {
        let (n3, p3) = add_edge(nodes, paths, e, graphviz)->Ok_0;
        let pl = paths.len() as int;
        assert forall|i: int| 0 <= i < n2.len() implies (#[trigger] n2[i]).edges.len() == n2[i].dependents.len()
            && (forall|m: int| 0 <= m < n2[i].edges.len() ==> {
                let x = #[trigger] n2[i].edges[m] as int;
                &&& x < paths.len()
                &&& paths[x].from == i
                &&& paths[x].to == n2[i].dependents[m]
            }) && (forall|a: int, b: int| 0 <= a < b < n2[i].edges.len() ==> #[trigger] n2[i].edges[a] < #[trigger] n2[i].edges[b]) by {
            if i < nodes.len() {
                assert(n2[i] == nodes[i]);
                assert forall|m: int| 0 <= m < n2[i].edges.len() implies {
                    let x = #[trigger] n2[i].edges[m] as int;
                    &&& x < paths.len()
                    &&& paths[x].from == i
                    &&& paths[x].to == n2[i].dependents[m]
                } by {
                    assert(n2[i].edges[m] == nodes[i].edges[m]);
                }
            } else if i < n1.len() {
                assert(n2[i] == n1[i]);
            }
        }
        assert forall|i: int| 0 <= i < n3.len() implies (#[trigger] n3[i]).edges.len() == n3[i].dependents.len() by {
        }
        assert forall|i: int, m: int| 0 <= i < n3.len() && 0 <= m < n3[i].edges.len() implies {
            let x = #[trigger] n3[i].edges[m] as int;
            &&& x < p3.len()
            &&& p3[x].from == i
            &&& p3[x].to == n3[i].dependents[m]
        } by {
            if i == f && m == n2[f].edges.len() {
                assert(n3[i].edges[m] == pl as usize);
                assert(n3[i].dependents[m] == t as usize);
            } else {
                assert(n3[i].edges[m] == n2[i].edges[m]);
                assert(n3[i].dependents[m] == n2[i].dependents[m]);
                let x = n2[i].edges[m] as int;
                assert(x < paths.len());
                assert(p3[x] == paths[x]);
            }
        }
        assert forall|i: int, a: int, b: int| 0 <= i < n3.len() && 0 <= a < b < n3[i].edges.len() implies #[trigger] n3[i].edges[a]
            < #[trigger] n3[i].edges[b] by {
            if i == f && b == n2[f].edges.len() {
                assert(n3[i].edges[a] == n2[i].edges[a]);
                assert((n2[i].edges[a] as int) < paths.len());
            } else {
                assert(n3[i].edges[a] == n2[i].edges[a]);
                assert(n3[i].edges[b] == n2[i].edges[b]);
            }
        }
        assert forall|k: int| 0 <= k < p3.len() implies {
            &&& (#[trigger] p3[k]).from < n3.len()
            &&& p3[k].to < n3.len()
            &&& n3[p3[k].from as int].edges.contains(k as usize)
        } by {
            if k < pl {
                assert(p3[k] == paths[k]);
                let fr = paths[k].from as int;
                assert(nodes[fr].edges.contains(k as usize));
                let w = choose|w: int| 0 <= w < nodes[fr].edges.len() && nodes[fr].edges[w] == k as usize;
                assert(n2[fr] == nodes[fr]);
                assert(n3[fr].edges[w] == k as usize);
            } else {
                assert(n3[f].edges[n2[f].edges.len() as int] == k as usize);
            }
        }
    }
}

proof fn lemma_add_edges_paired(nodes: Seq<NodeView>, es: Seq<EdgeStatementView>, n: int, graphviz: bool)
    requires
        all_bare(nodes),
        0 <= n <= es.len(),
        nodes.len() + 2 * es.len() < usize::MAX,
    ensures
        add_edges(nodes, es, n, graphviz) matches Ok((n3, p3)) ==> edges_paired(n3, p3) && n3.len() <= nodes.len()
            + 2 * n && p3.len() == n,
    decreases n,
{
    if n == 0 {
        assert forall|i: int| 0 <= i < nodes.len() implies (#[trigger] nodes[i]).edges.len() == 0 by {}
    } else {
        lemma_add_edges_paired(nodes, es, n - 1, graphviz);
        match add_edges(nodes, es, n - 1, graphviz) {
            Ok((ns, ps)) => {
                lemma_add_edge_paired(ns, ps, es[n - 1], graphviz);
            },
            Err(_) => {},
        }
    }
}

/// The graph that statements describe pairs each node's edges with its
/// dependents: the `m`-th path a node lists leads from it to its `m`-th
/// dependent, a node lists its paths in increasing order, and every path is
/// listed by the node it leaves and by no other, once.
pub proof fn lemma_graph_edges_paired(ns: Seq<NodeStatementView>, es: Seq<EdgeStatementView>, graphviz: bool)
    requires
        ns.len() + 2 * es.len() < usize::MAX,
    ensures
        graph_of(ns, es, graphviz) matches Ok((nodes, paths)) ==> {
            &&& edges_paired(nodes, paths)
            &&& forall|i: int, k: int|
                0 <= i < nodes.len() && 0 <= k < paths.len() ==> (#[trigger] nodes[i].edges.contains(k as usize)
                    <==> i == #[trigger] paths[k].from)
        },
{
    lemma_statement_nodes_bare(ns, ns.len() as int, graphviz);
    match statement_nodes(ns, ns.len() as int, graphviz) {
        Ok(nodes0) => {
            lemma_add_edges_paired(nodes0, es, es.len() as int, graphviz);
            match add_edges(nodes0, es, es.len() as int, graphviz) {
                Ok((nodes, paths)) => {
                    let out = if graphviz { adjusted_paths(paths, nodes) } else { paths };
                    assert forall|k: int| 0 <= k < paths.len() implies (#[trigger] out[k]).from == paths[k].from && out[k].to
                        == paths[k].to by {}
                    assert(edges_paired(nodes, out)) by {
                        assert forall|i: int, m: int| 0 <= i < nodes.len() && 0 <= m < nodes[i].edges.len() implies {
                            let e = #[trigger] nodes[i].edges[m] as int;
                            &&& e < out.len()
                            &&& out[e].from == i
                            &&& out[e].to == nodes[i].dependents[m]
                        } by {
                            let e = nodes[i].edges[m] as int;
                            assert(out[e].from == paths[e].from);
                        }
                        assert forall|k: int| 0 <= k < out.len() implies {
                            &&& (#[trigger] out[k]).from < nodes.len()
                            &&& out[k].to < nodes.len()
                            &&& nodes[out[k].from as int].edges.contains(k as usize)
                        } by {
                            assert(out[k].from == paths[k].from);
                        }
                    }
                    assert forall|i: int, k: int| 0 <= i < nodes.len() && 0 <= k < paths.len() implies (
                    #[trigger] nodes[i].edges.contains(k as usize) <==> i == #[trigger] out[k].from) by {
                        if nodes[i].edges.contains(k as usize) {
                            let m = choose|m: int| 0 <= m < nodes[i].edges.len() && nodes[i].edges[m] == k as usize;
                            assert(out[nodes[i].edges[m] as int].from == i);
                        }
                    }
                },
                Err(_) => {},
            }
        },
        Err(_) => {},
    }
}

/// The handle of the first node named `word`; a fresh node of that name is
/// added at the end when there is none.
pub fn insert_and_get_index(nodes: &mut Vec<Node>, word: &str) -> (h: usize)
    requires
        old(nodes)@.len() < usize::MAX,
    ensures
        (nodes_view(final(nodes)@), h as int) == insert_id(nodes_view(old(nodes)@), word@),
        h < final(nodes)@.len(),
        final(nodes)@.len() <= old(nodes)@.len() + 1,
{
    let ghost old_view = nodes_view(nodes@);
    let w = word.to_owned();
    let mut i: usize = 0;
    while i < nodes.len()
        invariant
            nodes_view(nodes@) == old_view,
            w@ == word@,
            0 <= i <= nodes@.len(),
            forall|m: int| 0 <= m < i ==> old_view[m].id != word@,
        decreases nodes@.len() - i,
    {
        if nodes[i].id == w {
            proof {
                let k = choose|k: int| is_first_id(old_view, word@, k);
                assert(is_first_id(old_view, word@, i as int));
                if k < i {
                    assert(old_view[k].id != word@);
                }
                if i < k {
                    assert(old_view[i as int].id != word@);
                }
            }
            return i;
        }
        i = i + 1;
    }
    assert(!exists|k: int| #[trigger] is_first_id(old_view, word@, k));
    nodes.push(Node::new(word));
    assert(nodes_view(nodes@) =~= old_view.push(new_node_view(word@)));
    nodes.len() - 1
}

proof fn lemma_adjust_idempotent(p: PathView, nodes: Seq<NodeView>)
    requires
        p.line_segments.len() > 0,
    ensures
        adjusted_path(adjusted_path(p, nodes), nodes) == adjusted_path(p, nodes),
        adjusted_path(p, nodes).line_segments.len() == p.line_segments.len(),
{
    let q = adjusted_path(p, nodes);
    let r = adjusted_path(q, nodes);
    assert(r.line_segments =~= q.line_segments);
}

proof fn lemma_join_listed_wf(nv: Seq<NodeView>, orig: Seq<PathView>, ps: Seq<PathView>, m: int, k: int)
    requires
        graph_wf(nv, orig),
        forall|i: int| 0 <= i < orig.len() ==> (#[trigger] orig[i]).line_segments.len() > 0,
        0 <= m < nv.len(),
        0 <= k <= nv[m].edges.len(),
        ps.len() == orig.len(),
        forall|i: int|
            0 <= i < orig.len() && orig[i].from == m ==> #[trigger] ps[i] == orig[i] || ps[i] == adjusted_path(
                orig[i],
                nv,
            ),
    ensures
        join_listed(nv, ps, m, k).len() == orig.len(),
        forall|q: int|
            0 <= q < k ==> join_listed(nv, ps, m, k)[#[trigger] nv[m].edges[q] as int] == adjusted_path(
                orig[nv[m].edges[q] as int],
                nv,
            ),
        forall|i: int|
            0 <= i < orig.len() && (forall|q: int| 0 <= q < k ==> #[trigger] nv[m].edges[q] != i) ==> #[trigger] join_listed(
                nv,
                ps,
                m,
                k,
            )[i] == ps[i],
    decreases k,
{
    if k > 0 {
        lemma_join_listed_wf(nv, orig, ps, m, k - 1);
        let qs = join_listed(nv, ps, m, k - 1);
        let e = nv[m].edges[k - 1] as int;
        assert(e < orig.len() && orig[e].from == m);
        lemma_adjust_idempotent(orig[e], nv);
        if exists|q: int| 0 <= q < k - 1 && #[trigger] nv[m].edges[q] == e {
            let q = choose|q: int| 0 <= q < k - 1 && #[trigger] nv[m].edges[q] == e;
            assert(qs[e] == adjusted_path(orig[e], nv));
        } else {
            assert(qs[e] == ps[e]);
        }
        assert(joined_at(qs[e], nv, m) == adjusted_path(orig[e], nv));
        let r = join_listed(nv, ps, m, k);
        assert forall|q: int| 0 <= q < k implies r[#[trigger] nv[m].edges[q] as int] == adjusted_path(orig[nv[m].edges[q] as int], nv) by {
            if nv[m].edges[q] as int != e {
                assert(q < k - 1);
            }
        }
        assert forall|i: int| 0 <= i < orig.len() && (forall|q: int| 0 <= q < k ==> #[trigger] nv[m].edges[q] != i) implies #[trigger] r[i] == ps[i] by {
            assert(nv[m].edges[k - 1] != i);
            assert forall|q: int| 0 <= q < k - 1 implies #[trigger] nv[m].edges[q] != i by {
                assert(nv[m].edges[q] != i);
            }
        }
    }
}

/// In a well-formed graph whose paths all have segments, joining node by
/// node joins each path to its own end nodes.
proof fn lemma_join_nodes_wf(nv: Seq<NodeView>, orig: Seq<PathView>, n: int)
    requires
        graph_wf(nv, orig),
        orig.len() <= usize::MAX,
        forall|i: int| 0 <= i < orig.len() ==> (#[trigger] orig[i]).line_segments.len() > 0,
        0 <= n <= nv.len(),
    ensures
        join_nodes(nv, orig, n).len() == orig.len(),
        forall|i: int|
            0 <= i < orig.len() ==> #[trigger] join_nodes(nv, orig, n)[i] == if orig[i].from < n {
                adjusted_path(orig[i], nv)
            } else {
                orig[i]
            },
    decreases n,
{
    if n > 0 {
        lemma_join_nodes_wf(nv, orig, n - 1);
        let ps = join_nodes(nv, orig, n - 1);
        let m = n - 1;
        let len = nv[m].edges.len() as int;
        lemma_join_listed_wf(nv, orig, ps, m, len);
        assert forall|i: int| 0 <= i < orig.len() implies #[trigger] join_nodes(nv, orig, n)[i] == if orig[i].from < n {
            adjusted_path(orig[i], nv)
        } else {
            orig[i]
        } by {
            if orig[i].from == m {
                assert(nv[m].edges.contains(i as usize));
                let q = choose|q: int| 0 <= q < len && nv[m].edges[q] == i as usize;
                assert(join_listed(nv, ps, m, len)[nv[m].edges[q] as int] == adjusted_path(orig[i], nv));
            } else {
                assert forall|q: int| 0 <= q < len implies #[trigger] nv[m].edges[q] != i by {
                    assert(orig[nv[m].edges[q] as int].from == m);
                }
            }
        }
    }
}

/// In a well-formed graph whose paths all have segments, joining the paths
/// node by node joins each to its own end nodes, and joining the result
/// again changes nothing: the paths of a parsed graph are already joined.
pub proof fn lemma_join_again(nodes: Seq<NodeView>, paths: Seq<PathView>)
    requires
        graph_wf(nodes, paths),
        paths.len() <= usize::MAX,
        forall|i: int| 0 <= i < paths.len() ==> (#[trigger] paths[i]).line_segments.len() > 0,
    ensures
        join_nodes(nodes, paths, nodes.len() as int) == adjusted_paths(paths, nodes),
        join_nodes(nodes, adjusted_paths(paths, nodes), nodes.len() as int) == adjusted_paths(paths, nodes),
{
    let once = adjusted_paths(paths, nodes);
    lemma_join_nodes_wf(nodes, paths, nodes.len() as int);
    assert(join_nodes(nodes, paths, nodes.len() as int) =~= once);
    assert forall|i: int| 0 <= i < once.len() implies (#[trigger] once[i]).line_segments.len() > 0 && once[i].from == paths[i].from
        && once[i].to == paths[i].to by {
        lemma_adjust_idempotent(paths[i], nodes);
    }
    assert(graph_wf(nodes, once)) by {
        assert forall|n: int, j: int| 0 <= n < nodes.len() && 0 <= j < nodes[n].edges.len() implies {
            &&& #[trigger] nodes[n].edges[j] < once.len()
            &&& once[nodes[n].edges[j] as int].from == n
        } by {
            assert(once[nodes[n].edges[j] as int].from == paths[nodes[n].edges[j] as int].from);
        }
        assert forall|i: int| 0 <= i < once.len() implies {
            &&& (#[trigger] once[i]).from < nodes.len()
            &&& once[i].to < nodes.len()
            &&& nodes[once[i].from as int].edges.contains(i as usize)
        } by {
            assert(once[i].from == paths[i].from);
        }
    }
    lemma_join_nodes_wf(nodes, once, nodes.len() as int);
    assert forall|i: int| 0 <= i < once.len() implies #[trigger] join_nodes(nodes, once, nodes.len() as int)[i] == once[i] by {
        lemma_adjust_idempotent(paths[i], nodes);
        assert(adjusted_path(once[i], nodes) == once[i]);
    }
    assert(join_nodes(nodes, once, nodes.len() as int) =~= once);
}

/// Joins the paths to their end nodes, node after node: for each path a node
/// lists, its first segment then starts at that node's position and its last
/// segment ends at the position of its target.
pub fn adjust_edge_coordinates(nodes: &Vec<Node>, edges: &mut Vec<Path>)
    requires
        listed_joinable(nodes_view(nodes@), paths_view(old(edges)@)),
    ensures
        paths_view(final(edges)@) == join_nodes(nodes_view(nodes@), paths_view(old(edges)@), nodes@.len() as int),
{
    let ghost nv = nodes_view(nodes@);
    let ghost orig = paths_view(edges@);
    let mut n: usize = 0;
    while n < nodes.len()
        invariant
            nv == nodes_view(nodes@),
            listed_joinable(nv, orig),
            0 <= n <= nodes@.len(),
            paths_view(edges@) == join_nodes(nv, orig, n as int),
            paths_view(edges@).len() == orig.len(),
            forall|i: int|
                0 <= i < orig.len() ==> (#[trigger] paths_view(edges@)[i]).to == orig[i].to
                    && paths_view(edges@)[i].line_segments.len() == orig[i].line_segments.len(),
        decreases nodes@.len() - n,
    {
        let mut j: usize = 0;
        while j < nodes[n].edges.len()
            invariant
                nv == nodes_view(nodes@),
                listed_joinable(nv, orig),
                0 <= n < nodes@.len(),
                0 <= j <= nv[n as int].edges.len(),
                paths_view(edges@) == join_listed(nv, join_nodes(nv, orig, n as int), n as int, j as int),
                paths_view(edges@).len() == orig.len(),
                forall|i: int|
                    0 <= i < orig.len() ==> (#[trigger] paths_view(edges@)[i]).to == orig[i].to
                        && paths_view(edges@)[i].line_segments.len() == orig[i].line_segments.len(),
            decreases nv[n as int].edges.len() - j,
        {
            let e = nodes[n].edges[j];
            assert(nv[n as int].edges[j as int] == e);
            let ghost before = paths_view(edges@);
            assert(before[e as int].to == orig[e as int].to);
            let a = nodes[n].position.duplicate();
            let to = edges[e].to;
            let b = nodes[to].position.duplicate();
            edges[e].line_segments[0].a = a;
            let last = edges[e].line_segments.len() - 1;
            edges[e].line_segments[last].b = b;
            proof {
                let cur = paths_view(edges@);
                assert(cur[e as int].line_segments =~= joined_at(before[e as int], nv, n as int).line_segments);
                assert(cur =~= before.update(e as int, joined_at(before[e as int], nv, n as int)));
            }
            j = j + 1;
        }
        n = n + 1;
    }
}

proof fn lemma_statement_nodes_err(ns: Seq<NodeStatementView>, n: int, m: int, graphviz: bool)
    requires
        0 <= n <= m,
        statement_nodes(ns, n, graphviz) is Err,
    ensures
        statement_nodes(ns, m, graphviz) == statement_nodes(ns, n, graphviz),
    decreases m - n,
{
    if m > n {
        lemma_statement_nodes_err(ns, n, m - 1, graphviz);
    }
}

proof fn lemma_add_edges_err(
    nodes: Seq<NodeView>,
    es: Seq<EdgeStatementView>,
    n: int,
    m: int,
    graphviz: bool,
)
    requires
        0 <= n <= m,
        add_edges(nodes, es, n, graphviz) is Err,
    ensures
        add_edges(nodes, es, m, graphviz) == add_edges(nodes, es, n, graphviz),
    decreases m - n,
{
    if m > n {
        lemma_add_edges_err(nodes, es, n, m - 1, graphviz);
    }
}

fn written(c: &CoordText) -> (p: Position)
    ensures
        p@ == written_position(c@),
{
    Position::Written { x: latin1_string(c.x.as_slice()), y: latin1_string(c.y.as_slice()) }
}

fn segment_lines(segs: &Vec<SegmentText>) -> (ls: Vec<Line>)
    ensures
        lines_view(ls@) == segments_view(segs@).map_values(|s: SegmentView| segment_line(s)),
{
    let mut ls: Vec<Line> = Vec::new();
    let mut i: usize = 0;
    while i < segs.len()
        invariant
            0 <= i <= segs@.len(),
            lines_view(ls@) == segments_view(segs@).subrange(0, i as int).map_values(
                |s: SegmentView| segment_line(s),
            ),
        decreases segs@.len() - i,
    {
        let l = Line::new(written(&segs[i].a), written(&segs[i].b));
        let ghost before = lines_view(ls@);
        let ghost lv = l@;
        ls.push(l);
        assert(lines_view(ls@) =~= before.push(lv));
        assert(segments_view(segs@).subrange(0, i + 1).map_values(|s: SegmentView| segment_line(s))
            =~= before.push(lv));
        i = i + 1;
    }
    assert(segments_view(segs@).subrange(0, segs@.len() as int) =~= segments_view(segs@));
    ls
}

fn statement_to_node(st: &NodeStatement, graphviz: bool) -> (r: Result<Node, ParseError>)
    ensures
        match r {
            Ok(n) => !(graphviz && st@.coord is None) && n@ == statement_node(st@, graphviz),
            Err(e) => graphviz && st@.coord is None && e@ == ParseErrorView::MissingNodeCoordinates(
                st@.id,
            ),
        },
{
    let id = latin1_string(st.id.as_slice());
    let mut node = Node::new(id.as_str());
    match &st.label {
        Some(l) => {
            node.label = latin1_string(l.as_slice());
        },
        None => {},
    }
    node.link = match &st.link {
        Some(l) => Some(latin1_string(l.as_slice())),
        None => None,
    };
    if graphviz {
        match &st.coord {
            Some(c) => {
                node.position = written(c);
            },
            None => {
                return Err(ParseError::MissingNodeCoordinates(st.id.clone()));
            },
        }
    }
    assert(node@ =~= statement_node(st@, graphviz));
    Ok(node)
}

/// The graph that node and edge statements describe; see [`graph_of`].
pub fn build_graph(
    node_statements: &Vec<NodeStatement>,
    edge_statements: &Vec<EdgeStatement>,
    graphviz: bool,
) -> (r: Result<(Vec<Node>, Vec<Path>), ParseError>)
    requires
        node_statements@.len() + 2 * edge_statements@.len() < usize::MAX,
        segments_complete(
            node_statements_view(node_statements@),
            edge_statements_view(edge_statements@),
            graphviz,
        ),
    ensures
        match r {
            Ok((ns, ps)) => graph_of(
                node_statements_view(node_statements@),
                edge_statements_view(edge_statements@),
                graphviz,
            ) == Ok::<(Seq<NodeView>, Seq<PathView>), ParseErrorView>(
                (nodes_view(ns@), paths_view(ps@)),
            ) && graph_wf(nodes_view(ns@), paths_view(ps@)),
            Err(e) => graph_of(
                node_statements_view(node_statements@),
                edge_statements_view(edge_statements@),
                graphviz,
            ) == Err::<(Seq<NodeView>, Seq<PathView>), ParseErrorView>(e@),
        },
{
    let ghost nsv = node_statements_view(node_statements@);
    let ghost esv = edge_statements_view(edge_statements@);
    let mut nodes: Vec<Node> = Vec::new();
    let mut i: usize = 0;
    assert(nodes_view(nodes@) =~= Seq::<NodeView>::empty());
    while i < node_statements.len()
        invariant
            nsv == node_statements_view(node_statements@),
            0 <= i <= node_statements@.len(),
            nodes@.len() == i,
            statement_nodes(nsv, i as int, graphviz) == Ok::<Seq<NodeView>, ParseErrorView>(
                nodes_view(nodes@),
            ),
            forall|n: int|
                0 <= n < nodes@.len() ==> (#[trigger] nodes@[n]).edges@.len() == 0
                    && nodes@[n].dependents@.len() == 0,
            graphviz ==> forall|m: int| 0 <= m < i ==> (#[trigger] nsv[m]).coord is Some,
        decreases node_statements@.len() - i,
    {
        let node = match statement_to_node(&node_statements[i], graphviz) {
            Ok(node) => node,
            Err(e) => {
                proof {
                    lemma_statement_nodes_err(nsv, i + 1, nsv.len() as int, graphviz);
                }
                return Err(e);
            },
        };
        let ghost before = nodes_view(nodes@);
        let ghost nv = node@;
        nodes.push(node);
        assert(nodes_view(nodes@) =~= before.push(nv));
        i = i + 1;
    }
    let ghost nodes0 = nodes_view(nodes@);
    let mut paths: Vec<Path> = Vec::new();
    assert(paths_view(paths@) =~= Seq::<PathView>::empty());
    let mut k: usize = 0;
    while k < edge_statements.len()
        invariant
            nsv == node_statements_view(node_statements@),
            esv == edge_statements_view(edge_statements@),
            node_statements@.len() + 2 * edge_statements@.len() < usize::MAX,
            statement_nodes(nsv, nsv.len() as int, graphviz) == Ok::<Seq<NodeView>, ParseErrorView>(
                nodes0,
            ),
            0 <= k <= edge_statements@.len(),
            paths@.len() == k,
            nodes@.len() <= node_statements@.len() + 2 * k,
            add_edges(nodes0, esv, k as int, graphviz) == Ok::<
                (Seq<NodeView>, Seq<PathView>),
                ParseErrorView,
            >((nodes_view(nodes@), paths_view(paths@))),
            graph_wf(nodes_view(nodes@), paths_view(paths@)),
            graphviz ==> forall|m: int| 0 <= m < nsv.len() ==> (#[trigger] nsv[m]).coord is Some,
            graphviz ==> forall|m: int| 0 <= m < k ==> (#[trigger] esv[m]).lines is Some,
            forall|m: int|
                0 <= m < k ==> (#[trigger] paths@[m]).line_segments@.len() == if graphviz {
                    esv[m].lines.unwrap().len()
                } else {
                    0
                },
            segments_complete(nsv, esv, graphviz),
        decreases edge_statements@.len() - k,
    {
        let es = &edge_statements[k];
        let ghost ev = es@;
        assert(ev == esv[k as int]);
        let ghost pv0 = paths_view(paths@);
        let to_name = latin1_string(es.to.as_slice());
        let from_name = latin1_string(es.from.as_slice());
        let to_handle = insert_and_get_index(&mut nodes, to_name.as_str());
        let ghost nv1 = nodes_view(nodes@);
        let from_handle = insert_and_get_index(&mut nodes, from_name.as_str());
        let ghost nv2 = nodes_view(nodes@);
        proof {
            assert forall|n: int, j: int|
                0 <= n < nv2.len() && 0 <= j < nv2[n].dependents.len() implies #[trigger] nv2[n].dependents[j]
                < nv2.len() by {
                if n < nv1.len() {
                    assert(nv2[n] == nv1[n]);
                }
            }
        }
        let mut path = Path::new(to_handle, from_handle);
        if graphviz {
            match &es.lines {
                Some(ls) => {
                    path.line_segments = segment_lines(ls);
                },
                None => {
                    proof {
                        lemma_add_edges_err(nodes0, esv, k + 1, esv.len() as int, graphviz);
                    }
                    return Err(ParseError::MissingEdgeCoordinates(es.to.clone(), es.from.clone()));
                },
            }
        }
        let ghost pathv = path@;
        let ghost path_len = path.line_segments@.len();
        assert(path_len == pathv.line_segments.len());
        let ghost src = nv2[from_handle as int];
        let index = paths.len();
        nodes[from_handle].dependents.push(to_handle);
        nodes[from_handle].edges.push(index);
        paths.push(path);
        proof {
            let nv3 = nodes_view(nodes@);
            let pv = paths_view(paths@);
            assert(nv3 =~= nv2.update(
                from_handle as int,
                NodeView {
                    dependents: src.dependents.push(to_handle),
                    edges: src.edges.push(index),
                    ..src
                },
            ));
            assert(pv =~= pv0.push(pathv));
            assert(paths@[k as int] == path);
            assert(pathv.line_segments =~= if graphviz {
                ev.lines.unwrap().map_values(|s: SegmentView| segment_line(s))
            } else {
                Seq::empty()
            });
            assert forall|n: int, j: int|
                0 <= n < nv3.len() && 0 <= j < nv3[n].edges.len() implies {
                &&& #[trigger] nv3[n].edges[j] < pv.len()
                &&& pv[nv3[n].edges[j] as int].from == n
            } by {
                if n != from_handle || j < src.edges.len() {
                    if n < nv1.len() {
                        assert(nv2[n] == nv1[n]);
                    }
                }
            }
            assert forall|n: int, j: int|
                0 <= n < nv3.len() && 0 <= j < nv3[n].dependents.len() implies #[trigger] nv3[n].dependents[j]
                < nv3.len() by {
                if n == from_handle && j == src.dependents.len() {
                } else {
                    assert(nv3[n].dependents[j] == nv2[n].dependents[j]);
                }
            }
            assert forall|i: int| 0 <= i < pv.len() implies {
                &&& (#[trigger] pv[i]).from < nv3.len()
                &&& pv[i].to < nv3.len()
                &&& nv3[pv[i].from as int].edges.contains(i as usize)
            } by {
                if i < pv0.len() {
                    let f = pv0[i].from as int;
                    assert(nv1[f].edges.contains(i as usize));
                    let w = choose|w: int| 0 <= w < nv1[f].edges.len() && nv1[f].edges[w] == i as usize;
                    assert(nv2[f] == nv1[f]);
                    assert(nv3[f].edges[w] == i as usize);
                } else {
                    assert(nv3[from_handle as int].edges[src.edges.len() as int] == index);
                }
            }
        }
        k = k + 1;
    }
    proof {
        if graphviz {
            assert forall|i: int| 0 <= i < paths@.len() implies (#[trigger] paths@[i]).line_segments@.len()
                > 0 by {
                assert(esv[i].lines is Some);
            }
        }
    }
    if graphviz {
        let ghost nv = nodes_view(nodes@);
        let ghost orig = paths_view(paths@);
        let path_count = paths.len();
        proof {
            assert forall|n: int, k: int| 0 <= n < nv.len() && 0 <= k < nv[n].edges.len() implies {
                let e = #[trigger] nv[n].edges[k] as int;
                &&& e < orig.len()
                &&& orig[e].to < nv.len()
                &&& orig[e].line_segments.len() > 0
            } by {
                let e = nv[n].edges[k] as int;
                assert(orig[e] == paths@[e]@);
            }
            assert forall|i: int| 0 <= i < orig.len() implies (#[trigger] orig[i]).line_segments.len() > 0 by {
                assert(orig[i] == paths@[i]@);
            }
        }
        adjust_edge_coordinates(&nodes, &mut paths);
        proof {
            lemma_join_nodes_wf(nv, orig, nv.len() as int);
            assert(paths_view(paths@) =~= adjusted_paths(orig, nv));
        }
    }
    Ok((nodes, paths))
}

/// The graph that a DOT source (given as its bytes) describes.
pub open spec fn source_graph(bytes: Seq<u8>, graphviz: bool) -> Result<
    (Seq<NodeView>, Seq<PathView>),
    ParseErrorView,
> {
    match source_statements(bytes) {
        Err(e) => Err(e),
        Ok((ns, es)) => graph_of(ns, es, graphviz),
    }
}

/// The statements of this source, if it has any, meet [`segments_complete`].
pub open spec fn source_segments_complete(bytes: Seq<u8>, graphviz: bool) -> bool {
    match source_statements(bytes) {
        Err(_) => true,
        Ok((ns, es)) => segments_complete(ns, es, graphviz),
    }
}

/// The node and edge statements of a DOT source text.
pub fn parse_statements(src: &str) -> (r: Result<(Vec<NodeStatement>, Vec<EdgeStatement>), ParseError>)
    ensures
        match r {
            Ok((ns, es)) => source_statements(src.spec_bytes()) == Ok::<
                (Seq<NodeStatementView>, Seq<EdgeStatementView>),
                ParseErrorView,
            >((node_statements_view(ns@), edge_statements_view(es@))) && ns@.len() + 2 * es@.len()
                < usize::MAX,
            Err(e) => source_statements(src.spec_bytes()) == Err::<
                (Seq<NodeStatementView>, Seq<EdgeStatementView>),
                ParseErrorView,
            >(e@),
        },
{
    let tokens = tokenise(src)?;
    parse_tokens(&tokens)
}

/// Whether the statements meet [`segments_complete`].
pub fn segments_present(
    node_statements: &Vec<NodeStatement>,
    edge_statements: &Vec<EdgeStatement>,
    graphviz: bool,
) -> (r: bool)
    ensures
        r == segments_complete(
            node_statements_view(node_statements@),
            edge_statements_view(edge_statements@),
            graphviz,
        ),
{
    let ghost nsv = node_statements_view(node_statements@);
    let ghost esv = edge_statements_view(edge_statements@);
    if !graphviz {
        return true;
    }
    let mut i: usize = 0;
    while i < node_statements.len()
        invariant
            nsv == node_statements_view(node_statements@),
            0 <= i <= node_statements@.len(),
            forall|m: int| 0 <= m < i ==> (#[trigger] nsv[m]).coord is Some,
        decreases node_statements@.len() - i,
    {
        if node_statements[i].coord.is_none() {
            assert(nsv[i as int].coord is None);
            return true;
        }
        i = i + 1;
    }
    let mut k: usize = 0;
    while k < edge_statements.len()
        invariant
            esv == edge_statements_view(edge_statements@),
            nsv == node_statements_view(node_statements@),
            forall|m: int| 0 <= m < nsv.len() ==> (#[trigger] nsv[m]).coord is Some,
            0 <= k <= edge_statements@.len(),
            forall|m: int| 0 <= m < k ==> (#[trigger] esv[m]).lines is Some,
        decreases edge_statements@.len() - k,
    {
        if edge_statements[k].lines.is_none() {
            assert(esv[k as int].lines is None);
            return true;
        }
        k = k + 1;
    }
    let mut j: usize = 0;
    while j < edge_statements.len()
        invariant
            esv == edge_statements_view(edge_statements@),
            nsv == node_statements_view(node_statements@),
            forall|m: int| 0 <= m < nsv.len() ==> (#[trigger] nsv[m]).coord is Some,
            graphviz,
            0 <= j <= edge_statements@.len(),
            forall|m: int| 0 <= m < esv.len() ==> (#[trigger] esv[m]).lines is Some,
            forall|m: int| 0 <= m < j ==> (#[trigger] esv[m]).lines.unwrap().len() > 0,
        decreases edge_statements@.len() - j,
    {
        match &edge_statements[j].lines {
            Some(ls) => {
                if ls.len() == 0 {
                    assert(esv[j as int].lines.unwrap().len() == 0);
                    return false;
                }
            },
            None => {},
        }
        j = j + 1;
    }
    true
}

/// The graph of a DOT source text, with positions from the source when
/// `graphviz` holds and at the origin otherwise.
pub fn parse_with_layout(src: &str, graphviz: bool) -> (r: Result<(Vec<Node>, Vec<Path>), ParseError>)
    requires
        source_segments_complete(src.spec_bytes(), graphviz),
    ensures
        match r {
            Ok((ns, ps)) => source_graph(src.spec_bytes(), graphviz) == Ok::<
                (Seq<NodeView>, Seq<PathView>),
                ParseErrorView,
            >((nodes_view(ns@), paths_view(ps@))) && graph_wf(nodes_view(ns@), paths_view(ps@))
                && edges_paired(nodes_view(ns@), paths_view(ps@)),
            Err(e) => source_graph(src.spec_bytes(), graphviz) == Err::<
                (Seq<NodeView>, Seq<PathView>),
                ParseErrorView,
            >(e@),
        },
{
    let (node_statements, edge_statements) = parse_statements(src)?;
    proof {
        lemma_graph_edges_paired(
            node_statements_view(node_statements@),
            edge_statements_view(edge_statements@),
            graphviz,
        );
    }
    build_graph(&node_statements, &edge_statements, graphviz)
}

/// The graph of a DOT source text in the viewer's layout mode.
pub fn parse(src: &str) -> (r: Result<(Vec<Node>, Vec<Path>), ParseError>)
    requires
        source_segments_complete(src.spec_bytes(), GRAPHVIZ_LAYOUT),
    ensures
        match r {
            Ok((ns, ps)) => source_graph(src.spec_bytes(), GRAPHVIZ_LAYOUT) == Ok::<
                (Seq<NodeView>, Seq<PathView>),
                ParseErrorView,
            >((nodes_view(ns@), paths_view(ps@))) && graph_wf(nodes_view(ns@), paths_view(ps@))
                && edges_paired(nodes_view(ns@), paths_view(ps@)),
            Err(e) => source_graph(src.spec_bytes(), GRAPHVIZ_LAYOUT) == Err::<
                (Seq<NodeView>, Seq<PathView>),
                ParseErrorView,
            >(e@),
        },
{
    parse_with_layout(src, is_graphviz_layout())
}

} // verus!
