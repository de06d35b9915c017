use lib::colours::{colours, colours_highlight};
use lib::data_types::{ColourExt, Node};
use lib::model::{decode_url_encoded_string, Model};

fn model_of(deps: &[&[usize]]) -> Model {
    let mut nodes = Vec::new();
    for (i, ds) in deps.iter().enumerate() {
        let mut n = Node::new(&format!("n{}", i));
        n.dependents = ds.to_vec();
        nodes.push(n);
    }
    Model { nodes, edges: Vec::new() }
}

#[test]
fn decode_url_encoded_string_replaces_colon_and_slash() {
    assert_eq!(decode_url_encoded_string("https%3A%2F%2Fexample.org%2Fa"), "https://example.org/a");
    assert_eq!(decode_url_encoded_string("plain"), "plain");
    assert_eq!(decode_url_encoded_string(""), "");
}

#[test]
fn decode_url_encoded_string_leaves_other_escapes() {
    assert_eq!(decode_url_encoded_string("a%20b%3a"), "a%20b%3a");
    assert_eq!(decode_url_encoded_string("%253A"), "%253A");
    assert_eq!(decode_url_encoded_string("%%3A"), "%:");
}

#[test]
fn decode_url_encoded_string_colons_before_slashes() {
    // "%3" followed by "%2F" decodes the slash only; the colon pass sees "%3%2F"
    assert_eq!(decode_url_encoded_string("%3%2F"), "%3/");
    // a colon pass result never forms a new slash escape
    assert_eq!(decode_url_encoded_string("%2%3AF"), "%2:F");
}

#[test]
fn new_default_model_is_empty() {
    let m = Model::new_default();
    assert!(m.nodes.is_empty());
    assert!(m.edges.is_empty());
}

#[test]
fn from_source_builds_the_graph() {
    let m = Model::from_source("digraph { a [pos=\"1,2\"]; }");
    assert_eq!(m.nodes.len(), 1);
    assert_eq!(m.get_node(0).id, "a");
}

#[test]
fn root_nodes_lists_nodes_nobody_depends_on() {
    let m = model_of(&[&[1], &[2], &[], &[2]]);
    assert_eq!(m.root_nodes(), vec![0, 3]);
    let m = model_of(&[&[], &[0]]);
    assert_eq!(m.root_nodes(), vec![1]);
}

#[test]
fn root_nodes_ignores_self_dependency() {
    let m = model_of(&[&[0, 1], &[]]);
    assert_eq!(m.root_nodes(), vec![0]);
}

#[test]
fn get_root_node_of_a_chain() {
    let m = model_of(&[&[], &[0], &[1]]);
    assert_eq!(m.get_root_node(), 2);
}

#[test]
fn get_node_returns_the_node() {
    let m = model_of(&[&[1], &[]]);
    assert_eq!(m.get_node(1).label, "n1");
    assert_eq!(m.get_node(0).dependents, vec![1]);
}

#[test]
fn set_transparency_replaces_alpha_byte() {
    let mut c: u32 = 0x11223344;
    c.set_transparency(0xAB);
    assert_eq!(c, 0x112233AB);
    c.set_transparency(0x00);
    assert_eq!(c, 0x11223300);
}

#[test]
fn set_transparency_last_write_wins() {
    let mut a: u32 = 0xDEADBEEF;
    a.set_transparency(0x12);
    a.set_transparency(0x34);
    let mut b: u32 = 0xDEADBEEF;
    b.set_transparency(0x34);
    assert_eq!(a, b);
    assert_eq!(a & 0xFF, 0x34);
    assert_eq!(a >> 8, 0xDEADBEEF >> 8);
}

#[test]
fn palettes() {
    let c = colours();
    assert_eq!((c.node, c.edge, c.text), (0x37415155, 0xD1D5DB55, 0x37415135));
    let h = colours_highlight();
    assert_eq!(h.node_hover, 0x7C3AEDFF);
    assert_eq!(h.node_upstream, 0x2563EBFF);
    assert_eq!(h.edge_upstream, 0x60A5FAFF);
    assert_eq!(h.node_downstream, 0xDB2777FF);
    assert_eq!(h.edge_downstream, 0xF472B6FF);
    assert_eq!(h.text, 0x000000FF);
}

#[test]
fn decode_url_encoded_string_settles_in_one_pass() {
    for s in ["%3A%2F", "%%3A3A", "%3%3AA", "%2%2FF", "a%253A%2F%3A"] {
        let once = decode_url_encoded_string(s);
        assert!(!once.contains("%3A") && !once.contains("%2F"), "{}", once);
        assert_eq!(decode_url_encoded_string(&once), once);
    }
}
