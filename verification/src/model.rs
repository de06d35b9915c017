use vstd::prelude::*;
use vstd::string::{StrSliceExecFns, StringSliceAdditionalSpecFns};

use crate::data_types::{nodes_view, paths_view, push_char, Node, NodeView, Path, PathView};
use crate::graph::{graph_wf, parse, source_graph, source_segments_complete};
use crate::text::{
    has_at, lemma_replace_absent, lemma_replace_leaves_none, lemma_replace_nothing, occurs, replace_all,
    replace_from, share_none,
};
use crate::GRAPHVIZ_LAYOUT;

verus! {

/// A graph: its nodes, and the paths drawn for its edges.
pub struct Model {
    pub nodes: Vec<Node>,
    pub edges: Vec<Path>,
}

/// The mathematical value of a [`Model`].
pub struct ModelView {
    pub nodes: Seq<NodeView>,
    pub edges: Seq<PathView>,
}

impl View for Model {
    type V = ModelView;

    open spec fn view(&self) -> ModelView {
        ModelView { nodes: nodes_view(self.nodes@), edges: paths_view(self.edges@) }
    }
}

/// Some other node than `i` lists `i` among its dependents.
pub open spec fn depended_on(nodes: Seq<NodeView>, i: int) -> bool {
    exists|j: int, k: int|
        0 <= j < nodes.len() && j != i && 0 <= k < nodes[j].dependents.len()
            && #[trigger] nodes[j].dependents[k] == i
}

/// Node `i` exists and no other node depends on it.
pub open spec fn is_root(nodes: Seq<NodeView>, i: int) -> bool {
    0 <= i < nodes.len() && !depended_on(nodes, i)
}

/// The graph has exactly one root.
pub open spec fn has_single_root(nodes: Seq<NodeView>) -> bool {
    exists|r: int| is_root(nodes, r) && forall|q: int| #[trigger] is_root(nodes, q) ==> q == r
}

impl ModelView {
    pub open spec fn wf(self) -> bool {
        graph_wf(self.nodes, self.edges)
    }

    /// Every edge a node lists is a path, and every path joins two nodes.
    pub open spec fn walkable(self) -> bool {
        &&& forall|n: int, j: int|
            0 <= n < self.nodes.len() && 0 <= j < self.nodes[n].edges.len() ==> #[trigger] self.nodes[n].edges[j]
                < self.edges.len()
        &&& forall|i: int|
            0 <= i < self.edges.len() ==> (#[trigger] self.edges[i]).from < self.nodes.len() && self.edges[i].to
                < self.nodes.len()
    }
}

/// The text with each `%3A` replaced by `:`, then each `%2F` by `/`.
pub open spec fn url_decoded(s: Seq<char>) -> Seq<char> {
    replace_all(replace_all(s, seq!['%', '3', 'A'], seq![':']), seq!['%', '2', 'F'], seq!['/'])
}

/// Text without a `%` decodes to itself.
pub proof fn lemma_decode_plain(s: Seq<char>)
    requires
        !s.contains('%'),
    ensures
        url_decoded(s) == s,
{
    let colon = seq!['%', '3', 'A'];
    let slash = seq!['%', '2', 'F'];
    lemma_replace_absent(s, 0, colon, seq![':']);
    assert(s.subrange(0, s.len() as int) =~= s);
    lemma_replace_absent(s, 0, slash, seq!['/']);
}

/// Decoding leaves no escape that it decodes, so decoding a decoded text
/// changes nothing.
pub proof fn lemma_decode_settled(s: Seq<char>)
    ensures
        !occurs(url_decoded(s), seq!['%', '3', 'A']),
        !occurs(url_decoded(s), seq!['%', '2', 'F']),
        url_decoded(url_decoded(s)) == url_decoded(s),
{
    let colon = seq!['%', '3', 'A'];
    let slash = seq!['%', '2', 'F'];
    let c = seq![':'];
    let sl = seq!['/'];
    assert(share_none(c, colon));
    assert(share_none(sl, colon));
    assert(share_none(sl, slash));
    let t = replace_all(s, colon, c);
    lemma_replace_leaves_none(s, 0, colon, c, colon);
    assert forall|j: int| 0 <= j implies !#[trigger] has_at(t, j, colon) by {
        if has_at(t, j, colon) {
            assert(occurs(t, colon));
        }
    }
    lemma_replace_leaves_none(t, 0, slash, sl, colon);
    lemma_replace_leaves_none(t, 0, slash, sl, slash);
    let u = url_decoded(s);
    lemma_replace_nothing(u, 0, colon, c);
    assert(u.subrange(0, u.len() as int) =~= u);
    lemma_replace_nothing(u, 0, slash, sl);
}

fn chars_at(s: &Vec<char>, i: usize, pat: &Vec<char>) -> (r: bool)
    requires
        i <= s@.len(),
    ensures
        r == has_at(s@, i as int, pat@),
{
    if pat.len() > s.len() - i {
        return false;
    }
    let mut k: usize = 0;
    while k < pat.len()
        invariant
            i + pat@.len() <= s@.len(),
            s@.len() == s.len(),
            0 <= k <= pat@.len(),
            forall|m: int| 0 <= m < k ==> s@[i + m] == pat@[m],
        decreases pat@.len() - k,
    {
        if s[i + k] != pat[k] {
            assert(s@.subrange(i as int, i + pat@.len())[k as int] != pat@[k as int]);
            return false;
        }
        k = k + 1;
    }
    assert(s@.subrange(i as int, i + pat@.len()) =~= pat@);
    true
}

fn replace_chars(s: &Vec<char>, pat: &Vec<char>, rep: &Vec<char>) -> (r: Vec<char>)
    requires
        pat@.len() > 0,
    ensures
        r@ == replace_all(s@, pat@, rep@),
{
    let mut out: Vec<char> = Vec::new();
    let mut i: usize = 0;
    while i < s.len()
        invariant
            pat@.len() > 0,
            0 <= i <= s@.len(),
            replace_all(s@, pat@, rep@) == out@ + replace_from(s@, i as int, pat@, rep@),
        decreases s@.len() - i,
    {
        let ghost before = out@;
        if chars_at(s, i, pat) {
            let mut k: usize = 0;
            while k < rep.len()
                invariant
                    0 <= k <= rep@.len(),
                    out@ == before + rep@.subrange(0, k as int),
                decreases rep@.len() - k,
            {
                out.push(rep[k]);
                assert(out@ =~= before + rep@.subrange(0, k + 1));
                k = k + 1;
            }
            assert(rep@.subrange(0, rep@.len() as int) =~= rep@);
            assert(before + (rep@ + replace_from(s@, i + pat@.len(), pat@, rep@)) =~= out@
                + replace_from(s@, i + pat@.len(), pat@, rep@));
            i = i + pat.len();
        } else {
            out.push(s[i]);
            assert(before + (seq![s@[i as int]] + replace_from(s@, i + 1, pat@, rep@)) =~= out@
                + replace_from(s@, i + 1, pat@, rep@));
            i = i + 1;
        }
    }
    assert(out@ + Seq::<char>::empty() =~= out@);
    out
}

/// Decodes the two escapes that links need: `%3A` to `:` and `%2F` to `/`.
pub fn decode_url_encoded_string(encoded_str: &str) -> (r: String)
    ensures
        r@ == url_decoded(encoded_str@),
{
    let n = encoded_str.unicode_len();
    let mut chars: Vec<char> = Vec::new();
    let mut i: usize = 0;
    while i < n
        invariant
            n == encoded_str@.len(),
            0 <= i <= n,
            chars@ == encoded_str@.subrange(0, i as int),
        decreases n - i,
    {
        chars.push(encoded_str.get_char(i));
        assert(chars@ =~= encoded_str@.subrange(0, i + 1));
        i = i + 1;
    }
    assert(encoded_str@.subrange(0, n as int) =~= encoded_str@);
    let colon_escape = vec!['%', '3', 'A'];
    let colon = vec![':'];
    let slash_escape = vec!['%', '2', 'F'];
    let slash = vec!['/'];
    assert(colon_escape@ =~= seq!['%', '3', 'A']);
    assert(colon@ =~= seq![':']);
    assert(slash_escape@ =~= seq!['%', '2', 'F']);
    assert(slash@ =~= seq!['/']);
    let step = replace_chars(&chars, &colon_escape, &colon);
    let decoded = replace_chars(&step, &slash_escape, &slash);
    let mut r = String::new();
    let mut k: usize = 0;
    while k < decoded.len()
        invariant
            0 <= k <= decoded@.len(),
            r@ == decoded@.subrange(0, k as int),
        decreases decoded@.len() - k,
    {
        push_char(&mut r, decoded[k]);
        assert(r@ =~= decoded@.subrange(0, k + 1));
        k = k + 1;
    }
    assert(decoded@.subrange(0, decoded@.len() as int) =~= decoded@);
    r
}

impl Model {
    /// An empty graph.
    pub fn new_default() -> (m: Model)
        ensures
            m@.nodes.len() == 0,
            m@.edges.len() == 0,
    {
        Model { nodes: Vec::new(), edges: Vec::new() }
    }

    /// The graph of a DOT source text that describes one.
    pub fn from_source(src: &str) -> (m: Model)
        requires
            source_graph(src.spec_bytes(), GRAPHVIZ_LAYOUT) is Ok,
            source_segments_complete(src.spec_bytes(), GRAPHVIZ_LAYOUT),
        ensures
            source_graph(src.spec_bytes(), GRAPHVIZ_LAYOUT) == Ok::<
                (Seq<NodeView>, Seq<PathView>),
                crate::error::ParseErrorView,
            >((m@.nodes, m@.edges)),
            m@.wf(),
    {
        match parse(src) {
            Ok((nodes, edges)) => Model { nodes, edges },
            Err(_) => Model { nodes: Vec::new(), edges: Vec::new() },
        }
    }

    /// The node with handle `h_node`.
    pub fn get_node(&self, h_node: usize) -> (n: &Node)
        requires
            h_node < self.nodes@.len(),
        ensures
            n@ == self@.nodes[h_node as int],
    {
        &self.nodes[h_node]
    }

    /// The handles of all roots, in increasing order.
    pub fn root_nodes(&self) -> (roots: Vec<usize>)
        ensures
            forall|a: int, b: int| 0 <= a < b < roots@.len() ==> roots@[a] < roots@[b],
            forall|i: int|
                0 <= i < self@.nodes.len() ==> (is_root(self@.nodes, i) <==> roots@.contains(
                    i as usize,
                )),
            forall|a: int| 0 <= a < roots@.len() ==> roots@[a] < self@.nodes.len(),
    {
        let ghost nv = self@.nodes;
        let mut roots: Vec<usize> = Vec::new();
        let mut i: usize = 0;
        while i < self.nodes.len()
            invariant
                nv == self@.nodes,
                0 <= i <= nv.len(),
                forall|a: int, b: int| 0 <= a < b < roots@.len() ==> roots@[a] < roots@[b],
                forall|a: int| 0 <= a < roots@.len() ==> roots@[a] < i,
                forall|q: int| 0 <= q < i ==> (is_root(nv, q) <==> roots@.contains(q as usize)),
            decreases nv.len() - i,
        {
            let mut depended: bool = false;
            let mut j: usize = 0;
            while j < self.nodes.len()
                invariant
                    nv == self@.nodes,
                    0 <= i < nv.len(),
                    0 <= j <= nv.len(),
                    depended == exists|jj: int, k: int|
                        0 <= jj < j && jj != i && 0 <= k < nv[jj].dependents.len()
                            && #[trigger] nv[jj].dependents[k] == i,
                decreases nv.len() - j,
            {
                if j != i {
                    let deps = &self.nodes[j].dependents;
                    let mut k: usize = 0;
                    while k < deps.len()
                        invariant
                            nv == self@.nodes,
                            0 <= i < nv.len(),
                            0 <= j < nv.len(),
                            j != i,
                            deps@ == nv[j as int].dependents,
                            0 <= k <= deps@.len(),
                            depended ==> exists|jj: int, kk: int|
                                0 <= jj <= j && jj != i && 0 <= kk < nv[jj].dependents.len()
                                    && #[trigger] nv[jj].dependents[kk] == i,
                            !depended ==> (forall|jj: int, kk: int|
                                0 <= jj < j && jj != i && 0 <= kk < nv[jj].dependents.len()
                                    ==> #[trigger] nv[jj].dependents[kk] != i),
                            !depended ==> forall|kk: int| 0 <= kk < k ==> deps@[kk] != i,
                        decreases deps@.len() - k,
                    {
                        if deps[k] == i {
                            depended = true;
                        }
                        k = k + 1;
                    }
                }
                j = j + 1;
            }
            let ghost r0 = roots@;
            assert(depended == depended_on(nv, i as int));
            if !depended {
                roots.push(i);
            }
            proof {
                assert forall|q: int| 0 <= q < i + 1 implies (is_root(nv, q) <==> roots@.contains(
                    q as usize,
                )) by {
                    if q < i {
                        if roots@.contains(q as usize) {
                            let w = choose|w: int| 0 <= w < roots@.len() && roots@[w] == q as usize;
                            assert(w < r0.len());
                            assert(r0[w] == q as usize);
                        }
                        if r0.contains(q as usize) {
                            let w = choose|w: int| 0 <= w < r0.len() && r0[w] == q as usize;
                            assert(roots@[w] == q as usize);
                        }
                    } else {
                        if depended {
                            if roots@.contains(q as usize) {
                                let w = choose|w: int| 0 <= w < roots@.len() && roots@[w] == q as usize;
                                assert(r0[w] < i);
                            }
                        } else {
                            assert(roots@[r0.len() as int] == i);
                        }
                    }
                }
            }
            i = i + 1;
        }
        roots
    }

    /// The handle of the graph's only root; the graph must have exactly one.
    pub fn get_root_node(&self) -> (r: usize)
        requires
            has_single_root(self@.nodes),
        ensures
            is_root(self@.nodes, r as int),
    {
        let roots = self.root_nodes();
        proof {
            let r = choose|r: int| is_root(self@.nodes, r) && forall|q: int| #[trigger] is_root(self@.nodes, q) ==> q == r;
            assert(roots@.contains(r as usize));
            if roots@.len() > 1 {
                assert(roots@[0] < roots@[1]);
                assert(roots@.contains(roots@[0]));
                assert(roots@.contains(roots@[1]));
                assert(is_root(self@.nodes, roots@[0] as int));
                assert(is_root(self@.nodes, roots@[1] as int));
            }
        }
        roots[0]
    }
}

} // verus!
