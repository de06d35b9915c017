use lib::data_types::{Node, Position};
use lib::graph::parse_with_layout;
use lib::layout::{LayoutNodeWrapper, MAX_GATHER_LAYER};
use lib::model::Model;
use lib::scene::Scene;

fn scene_of(src: &str) -> Scene {
    let (nodes, edges) = parse_with_layout(src, false).unwrap();
    Scene { nodes: Vec::new(), model: Model { nodes, edges } }
}

fn cell(p: &Position) -> Option<(usize, usize)> {
    match p {
        Position::Grid { column, row } => Some((*column, *row)),
        Position::Written { .. } => None,
    }
}

fn wrapper(handle: usize) -> LayoutNodeWrapper {
    LayoutNodeWrapper { handle, layer: 0, dependents: Vec::new() }
}

#[test]
fn layout_chain_puts_each_node_in_its_own_column() {
    // nodes: b = 0, a = 1, c = 2
    let mut s = scene_of("digraph { a -> b; b -> c; }");
    assert!(s.layout_possible());
    s.layout();
    assert_eq!(s.nodes, vec![1, 0, 2]);
    assert_eq!(s.model.nodes.len(), 3);
    assert_eq!(cell(&s.model.nodes[1].position), Some((0, 0)));
    assert_eq!(cell(&s.model.nodes[0].position), Some((1, 0)));
    assert_eq!(cell(&s.model.nodes[2].position), Some((2, 0)));
    // the two parsed paths stay first; the drawn ones follow them
    assert_eq!(s.model.edges.len(), 4);
    assert_eq!((s.model.edges[0].from, s.model.edges[0].to), (1, 0));
    assert_eq!((s.model.edges[1].from, s.model.edges[1].to), (0, 2));
    assert!(s.model.edges[0].line_segments.is_empty());
    assert_eq!((s.model.edges[2].from, s.model.edges[2].to), (1, 0));
    assert_eq!((s.model.edges[3].from, s.model.edges[3].to), (0, 2));
    let seg = &s.model.edges[2].line_segments;
    assert_eq!(seg.len(), 1);
    assert_eq!(cell(&seg[0].a), Some((0, 0)));
    assert_eq!(cell(&seg[0].b), Some((1, 0)));
    assert_eq!(seg[0].colour, 0x00000055);
    assert_eq!(s.model.nodes[1].edges, vec![0, 2]);
    assert_eq!(s.model.nodes[0].edges, vec![1, 3]);
    assert!(s.model.nodes[2].edges.is_empty());
}

#[test]
fn layout_long_edge_bends_through_a_fake_node() {
    // nodes: b = 0, a = 1, c = 2; a -> c crosses b's layer
    let mut s = scene_of("digraph { a -> b; b -> c; a -> c; }");
    assert!(s.layout_possible());
    s.layout();
    assert_eq!(s.model.nodes.len(), 4);
    assert!(s.model.nodes[3].is_fake_node);
    assert_eq!(s.nodes, vec![1, 0, 3, 2]);
    assert_eq!(cell(&s.model.nodes[1].position), Some((0, 0)));
    assert_eq!(cell(&s.model.nodes[0].position), Some((1, 0)));
    assert_eq!(cell(&s.model.nodes[3].position), Some((1, 1)));
    assert_eq!(cell(&s.model.nodes[2].position), Some((2, 0)));
    // parsed: a -> b, b -> c, a -> c; drawn after them in layer order
    assert_eq!(s.model.edges.len(), 6);
    assert_eq!((s.model.edges[3].from, s.model.edges[3].to), (1, 0));
    assert_eq!((s.model.edges[4].from, s.model.edges[4].to), (1, 2));
    assert_eq!((s.model.edges[5].from, s.model.edges[5].to), (0, 2));
    let bent = &s.model.edges[4].line_segments;
    assert_eq!(bent.len(), 2);
    assert_eq!(cell(&bent[0].a), Some((0, 0)));
    assert_eq!(cell(&bent[0].b), Some((1, 1)));
    assert_eq!(cell(&bent[1].a), Some((1, 1)));
    assert_eq!(cell(&bent[1].b), Some((2, 0)));
    assert_eq!(s.model.nodes[1].edges, vec![0, 2, 3, 4]);
    assert_eq!(s.model.nodes[0].edges, vec![1, 5]);
    assert!(s.model.nodes[3].edges.is_empty());
}

#[test]
fn layout_drawn_paths_are_unbroken() {
    let mut s = scene_of("digraph { a -> b; b -> c; c -> d; a -> d; b -> d; }");
    assert!(s.layout_possible());
    let parsed = s.model.edges.len();
    s.layout();
    assert!(s.model.edges.len() > parsed);
    for p in &s.model.edges[parsed..] {
        let segs = &p.line_segments;
        assert!(!segs.is_empty());
        assert_eq!(cell(&segs[0].a), cell(&s.model.nodes[p.from].position));
        for k in 1..segs.len() {
            assert_eq!(cell(&segs[k - 1].b), cell(&segs[k].a));
        }
    }
    for h in &s.nodes {
        assert!(*h < s.model.nodes.len());
    }
}

#[test]
fn layout_deepest_layer_wins() {
    // a -> b -> c and a -> c: c sits on layer 2 although a points at it directly
    let mut s = scene_of("digraph { a -> c; a -> b; b -> c; }");
    s.layout();
    let c = s.model.nodes.iter().position(|n| n.id == "c").unwrap();
    assert_eq!(cell(&s.model.nodes[c].position), Some((2, 0)));
}

#[test]
fn layout_possible_needs_a_single_root() {
    let s = scene_of("digraph { a -> c; b -> c; }");
    assert!(!s.layout_possible());
}

#[test]
fn layout_possible_refuses_a_cycle_on_the_last_layer() {
    let s = scene_of("digraph { a -> b; b -> b; }");
    assert!(!s.layout_possible());
}

#[test]
fn layout_possible_refuses_a_laid_out_graph() {
    let mut s = scene_of("digraph { a -> b; b -> c; a -> c; }");
    s.layout();
    assert!(!s.layout_possible());
}

#[test]
fn find_dependent_scans_from_a_layer() {
    let layers = vec![vec![wrapper(4)], vec![wrapper(1), wrapper(2)], vec![wrapper(2)]];
    assert_eq!(Scene::find_dependent(2, &layers, 0), Some((1, 1)));
    assert_eq!(Scene::find_dependent(2, &layers, 2), Some((2, 0)));
    assert_eq!(Scene::find_dependent(4, &layers, 1), None);
    assert_eq!(Scene::find_dependent(7, &layers, 0), None);
    assert_eq!(Scene::find_dependent(4, &layers, 5), None);
}

#[test]
fn gather_depth_limit() {
    assert_eq!(MAX_GATHER_LAYER, 5);
}

fn scene_with_fake_middle(fake_deps: &[usize]) -> Scene {
    let mut a = Node::new("a");
    a.dependents = vec![1];
    let mut f = Node::new("f");
    f.is_fake_node = true;
    f.dependents = fake_deps.to_vec();
    let b = Node::new("b");
    let c = Node::new("c");
    Scene { nodes: Vec::new(), model: Model { nodes: vec![a, f, b, c], edges: Vec::new() } }
}

#[test]
fn layout_passes_through_a_fake_node_of_the_model() {
    let mut s = scene_with_fake_middle(&[2]);
    // c is a second root
    s.model.nodes.pop();
    assert!(s.layout_possible());
    s.layout();
    assert_eq!(s.nodes, vec![0, 1, 2]);
    assert_eq!(s.model.edges.len(), 1);
    let p = &s.model.edges[0];
    assert_eq!((p.from, p.to), (0, 1));
    assert_eq!(p.line_segments.len(), 2);
    assert_eq!(cell(&p.line_segments[0].a), Some((0, 0)));
    assert_eq!(cell(&p.line_segments[0].b), Some((1, 0)));
    assert_eq!(cell(&p.line_segments[1].b), Some((2, 0)));
    assert!(s.model.nodes[1].edges.is_empty());
}

#[test]
fn layout_possible_refuses_a_fake_node_that_forks_or_ends() {
    let mut forks = scene_with_fake_middle(&[2, 3]);
    assert!(!forks.layout_possible());
    forks.model.nodes[1].dependents = Vec::new();
    forks.model.nodes.truncate(3);
    forks.model.nodes[0].dependents = vec![1, 2];
    assert!(!forks.layout_possible());
}

#[test]
fn layout_keeps_nodes_with_the_same_label_apart() {
    let mut s = scene_of("digraph { a [dv_label=\"Gemini\"] b [dv_label=\"Gemini\"] a -> b }");
    assert_eq!(s.model.nodes[0].label, "Gemini");
    assert_eq!(s.model.nodes[1].label, "Gemini");
    assert!(s.layout_possible());
    s.layout();
    assert_eq!(s.nodes, vec![0, 1]);
    assert_eq!(cell(&s.model.nodes[0].position), Some((0, 0)));
    assert_eq!(cell(&s.model.nodes[1].position), Some((1, 0)));
    assert_eq!(s.model.edges.len(), 2);
    assert_eq!((s.model.edges[0].from, s.model.edges[0].to), (0, 1));
    assert_eq!((s.model.edges[1].from, s.model.edges[1].to), (0, 1));
    assert_eq!(s.model.nodes[0].edges, vec![0, 1]);
}
