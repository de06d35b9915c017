use lib::data_types::{Line, Node, Path, Position};
use lib::model::Model;
use lib::scene::Scene;

/// a -> b, b -> c, d -> c, each edge drawn as one segment.
fn diamond_scene() -> Scene {
    let mut nodes = vec![Node::new("a"), Node::new("b"), Node::new("c"), Node::new("d")];
    let mut edges = Vec::new();
    for (from, to) in [(0usize, 1usize), (1, 2), (3, 2)] {
        let mut p = Path::new(to, from);
        p.line_segments.push(Line::new(Position::origin(), Position::origin()));
        nodes[from].dependents.push(to);
        nodes[from].edges.push(edges.len());
        edges.push(p);
    }
    Scene { nodes: vec![0, 1, 2, 3], model: Model { nodes, edges } }
}

fn node_colours(s: &Scene) -> Vec<u32> {
    s.model.nodes.iter().map(|n| n.colour).collect()
}

fn edge_colours(s: &Scene) -> Vec<u32> {
    s.model.edges.iter().map(|p| p.line_segments[0].colour).collect()
}

#[test]
fn highlight_node_lights_up_and_downstream() {
    let mut s = diamond_scene();
    s.highlight_node(1);
    assert_eq!(node_colours(&s), vec![0xFF0000FF, 0xFF0000FF, 0xFF0000FF, 0xFF000055]);
    assert_eq!(edge_colours(&s), vec![0x000000FF, 0x000000FF, 0x00000055]);
}

#[test]
fn highlight_node_of_a_sink_lights_everything_above() {
    let mut s = diamond_scene();
    s.highlight_node(2);
    assert_eq!(node_colours(&s), vec![0xFF0000FF; 4]);
    assert_eq!(edge_colours(&s), vec![0x000000FF; 3]);
}

#[test]
fn highlight_node_of_a_root() {
    let mut s = diamond_scene();
    s.highlight_node(3);
    assert_eq!(node_colours(&s), vec![0xFF000055, 0xFF000055, 0xFF0000FF, 0xFF0000FF]);
    assert_eq!(edge_colours(&s), vec![0x00000055, 0x00000055, 0x000000FF]);
}

#[test]
fn highlight_node_leaves_unlisted_nodes_alone() {
    let mut s = diamond_scene();
    s.nodes = vec![1];
    s.highlight_node(3);
    assert_eq!(node_colours(&s), vec![0xFF000055, 0xFF000055, 0xFF000055, 0xFF000055]);
    assert_eq!(edge_colours(&s), vec![0x00000055, 0x00000055, 0x000000FF]);
}

#[test]
fn highlight_last_hover_decides() {
    let mut twice = diamond_scene();
    twice.highlight_node(3);
    twice.highlight_node(1);
    let mut once = diamond_scene();
    once.highlight_node(1);
    assert_eq!(node_colours(&twice), node_colours(&once));
    assert_eq!(edge_colours(&twice), edge_colours(&once));
    once.highlight_node(1);
    assert_eq!(node_colours(&twice), node_colours(&once));
    assert_eq!(edge_colours(&twice), edge_colours(&once));
}

#[test]
fn highlight_keeps_the_structure() {
    let mut s = diamond_scene();
    s.highlight_node(0);
    assert_eq!(s.nodes, vec![0, 1, 2, 3]);
    assert_eq!(s.model.nodes[0].dependents, vec![1]);
    assert_eq!(s.model.nodes[3].edges, vec![2]);
    assert_eq!((s.model.edges[2].from, s.model.edges[2].to), (3, 2));
}

#[test]
fn new_scene_from_source() {
    let s = Scene::new("digraph { a [pos=\"1,2\"]; b [pos=\"3,4\"]; a -> b [pos=\"e,3,4 1,2 2,3 3,4\"]; }");
    assert!(s.nodes.is_empty());
    assert_eq!(s.model.nodes.len(), 2);
    assert_eq!(s.model.edges.len(), 1);
}

#[test]
fn new_default_scene_is_empty() {
    let s = Scene::new_default();
    assert!(s.nodes.is_empty());
    assert!(s.model.nodes.is_empty());
    assert!(s.model.edges.is_empty());
}
