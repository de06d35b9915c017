use lib::data_types::{Line, Node, Path, Position};
use lib::error::ParseError;
use lib::graph::{
    adjust_edge_coordinates, build_graph, insert_and_get_index, parse, parse_statements,
    parse_with_layout, segments_present,
};
use lib::is_graphviz_layout;

const TWO_NODES: &str = "digraph {
  graph [bb=\"0,0,54,108\"];
  node [label=\"\\N\"];
  a [pos=\"27,90\", width=0.75];
  b [pos=\"27,18\"];
  a -> b [pos=\"e,27,36.104 27,71.697 27,63.983 27,54.712 27,46.112\"];
}";

fn written(p: &Position) -> Option<(String, String)> {
    match p {
        Position::Written { x, y } => Some((x.clone(), y.clone())),
        Position::Grid { .. } => None,
    }
}

fn pair(x: &str, y: &str) -> Option<(String, String)> {
    Some((x.to_string(), y.to_string()))
}

#[test]
fn graphviz_layout_is_on() {
    assert!(is_graphviz_layout());
}

#[test]
fn parse_two_nodes_and_an_edge() {
    let (nodes, paths) = parse(TWO_NODES).unwrap();
    assert_eq!(nodes.len(), 2);
    assert_eq!(nodes[0].id, "a");
    assert_eq!(nodes[0].label, "a");
    assert_eq!(written(&nodes[0].position), pair("27", "90"));
    assert_eq!(written(&nodes[1].position), pair("27", "18"));
    assert_eq!(nodes[0].dependents, vec![1]);
    assert_eq!(nodes[0].edges, vec![0]);
    assert!(nodes[1].dependents.is_empty());
    assert_eq!(paths.len(), 1);
    assert_eq!(paths[0].from, 0);
    assert_eq!(paths[0].to, 1);
    let segs = &paths[0].line_segments;
    assert_eq!(segs.len(), 3);
    // the ends of the drawn edge are moved onto the node centres
    assert_eq!(written(&segs[0].a), pair("27", "90"));
    assert_eq!(written(&segs[0].b), pair("27", "63.983"));
    assert_eq!(written(&segs[1].a), pair("27", "63.983"));
    assert_eq!(written(&segs[1].b), pair("27", "54.712"));
    assert_eq!(written(&segs[2].a), pair("27", "54.712"));
    assert_eq!(written(&segs[2].b), pair("27", "18"));
    assert_eq!(segs[0].colour, 0x00000055);
}

#[test]
fn parse_nodes_with_the_same_label_stay_apart() {
    let src = "digraph {
  a [dv_label=\"Gemini\", pos=\"1,1\"];
  b [dv_label=\"Gemini\", pos=\"2,2\"];
  a -> b [pos=\"e,2,2 1,1 1.5,1.5 2,2\"];
}";
    let (nodes, paths) = parse(src).unwrap();
    assert_eq!(nodes.len(), 2);
    assert_eq!(nodes[0].label, "Gemini");
    assert_eq!(nodes[1].label, "Gemini");
    assert_eq!(nodes[0].id, "a");
    assert_eq!(nodes[1].id, "b");
    assert_eq!(paths.len(), 1);
    assert_eq!(paths[0].from, 0);
    assert_eq!(paths[0].to, 1);
}

#[test]
fn parse_node_link() {
    let src = "digraph {
  node1 [dv_link=\"link.html#node1\", pos=\"0,0\"];
  node2 [pos=\"0,1\"];
}";
    let (nodes, paths) = parse(src).unwrap();
    assert_eq!(nodes.len(), 2);
    assert_eq!(nodes[0].link, Some("link.html#node1".to_string()));
    assert_eq!(nodes[1].link, None);
    assert!(paths.is_empty());
}

#[test]
fn parse_missing_node_coordinates() {
    match parse("digraph { a; }") {
        Err(ParseError::MissingNodeCoordinates(id)) => assert_eq!(id, b"a".to_vec()),
        _ => panic!("a node needs coordinates"),
    }
}

#[test]
fn parse_missing_edge_coordinates() {
    match parse("digraph { a [pos=\"0,0\"]; b [pos=\"1,1\"]; a -> b; }") {
        Err(ParseError::MissingEdgeCoordinates(to, from)) => {
            assert_eq!(to, b"b".to_vec());
            assert_eq!(from, b"a".to_vec());
        }
        _ => panic!("an edge needs coordinates"),
    }
}

#[test]
fn parse_reports_lexer_and_syntax_errors() {
    assert!(matches!(parse("digraph { a - b }"), Err(ParseError::ExpectedArrowHead)));
    assert!(matches!(parse("graph { }"), Err(ParseError::UnsupportedGraphKind)));
}

#[test]
fn parse_edge_to_undeclared_node_adds_it() {
    let src = "digraph { a [pos=\"5,5\"]; a -> c [pos=\"e,0,0 5,5 2,2 0,0\"]; }";
    let (nodes, paths) = parse(src).unwrap();
    assert_eq!(nodes.len(), 2);
    assert_eq!(nodes[1].id, "c");
    assert!(matches!(nodes[1].position, Position::Grid { column: 0, row: 0 }));
    assert_eq!(paths[0].to, 1);
    assert!(matches!(paths[0].line_segments[1].b, Position::Grid { column: 0, row: 0 }));
}

#[test]
fn parse_without_graphviz_layout() {
    let (nodes, paths) = parse_with_layout("digraph { a -> b; b -> c; }", false).unwrap();
    // the target of an edge is looked up before its source
    assert_eq!(nodes.len(), 3);
    assert_eq!(nodes[0].id, "b");
    assert_eq!(nodes[1].id, "a");
    assert_eq!(nodes[2].id, "c");
    assert_eq!(nodes[1].dependents, vec![0]);
    assert_eq!(nodes[0].dependents, vec![2]);
    assert_eq!(paths.len(), 2);
    assert!(paths[0].line_segments.is_empty());
    assert_eq!((paths[0].from, paths[0].to), (1, 0));
    assert_eq!((paths[1].from, paths[1].to), (0, 2));
}

#[test]
fn segments_present_detects_empty_edge_splines() {
    let (ns, es) = parse_statements("digraph { a [pos=\"0,0\"]; b [pos=\"1,1\"]; a -> b [pos=\"0,0 1,1\"]; }").unwrap();
    assert!(!segments_present(&ns, &es, true));
    assert!(segments_present(&ns, &es, false));
    let (ns, es) = parse_statements(TWO_NODES).unwrap();
    assert!(segments_present(&ns, &es, true));
}

#[test]
fn build_graph_from_statements() {
    let (ns, es) = parse_statements(TWO_NODES).unwrap();
    let (nodes, paths) = build_graph(&ns, &es, true).unwrap();
    assert_eq!(nodes.len(), 2);
    assert_eq!(paths.len(), 1);
    assert_eq!(paths[0].line_segments.len(), 3);
    let (nodes, paths) = build_graph(&ns, &es, false).unwrap();
    assert!(matches!(nodes[0].position, Position::Grid { column: 0, row: 0 }));
    assert!(paths[0].line_segments.is_empty());
}

#[test]
fn insert_and_get_index_finds_or_adds() {
    let mut nodes = vec![Node::new("a"), Node::new("b")];
    assert_eq!(insert_and_get_index(&mut nodes, "b"), 1);
    assert_eq!(nodes.len(), 2);
    assert_eq!(insert_and_get_index(&mut nodes, "c"), 2);
    assert_eq!(nodes.len(), 3);
    assert_eq!(nodes[2].id, "c");
    assert_eq!(nodes[2].label, "c");
    assert_eq!(insert_and_get_index(&mut nodes, "c"), 2);
    assert_eq!(nodes.len(), 3);
}

#[test]
fn adjust_edge_coordinates_moves_ends_to_nodes() {
    let mut a = Node::new("a");
    a.position = Position::Written { x: "10".to_string(), y: "20".to_string() };
    a.dependents = vec![1];
    a.edges = vec![0];
    let mut b = Node::new("b");
    b.position = Position::Written { x: "30".to_string(), y: "40".to_string() };
    let nodes = vec![a, b];
    let w = |x: &str, y: &str| Position::Written { x: x.to_string(), y: y.to_string() };
    let mut path = Path::new(1, 0);
    path.line_segments = vec![Line::new(w("0", "0"), w("1", "1")), Line::new(w("1", "1"), w("2", "2"))];
    let mut edges = vec![path];
    adjust_edge_coordinates(&nodes, &mut edges);
    let segs = &edges[0].line_segments;
    assert_eq!(written(&segs[0].a), pair("10", "20"));
    assert_eq!(written(&segs[0].b), pair("1", "1"));
    assert_eq!(written(&segs[1].a), pair("1", "1"));
    assert_eq!(written(&segs[1].b), pair("30", "40"));
}

#[test]
fn node_constructors() {
    let n = Node::new("x");
    assert!(!n.is_fake_node);
    assert_eq!(n.id, "x");
    assert_eq!(n.label, "x");
    assert_eq!(n.radius, 30);
    assert_eq!(n.colour, 0xFF000055);
    assert_eq!(n.label_size, 10);
    assert_eq!(n.label_colour, 0x00000055);
    assert!(n.edges.is_empty() && n.dependents.is_empty());
    assert!(n.link.is_none());
    let f = Node::new_fake_node();
    assert!(f.is_fake_node);
    assert_eq!(f.colour, 0);
    assert_eq!(f.label, "");
    let p = Path::new(3, 4);
    assert_eq!((p.from, p.to), (4, 3));
    assert!(p.line_segments.is_empty());
    let l = Line::new(Position::origin(), Position::Grid { column: 1, row: 2 });
    assert_eq!(l.colour, 0x00000055);
    assert!(matches!(l.b, Position::Grid { column: 1, row: 2 }));
}

#[test]
fn adjust_edge_coordinates_twice_changes_nothing_more() {
    let (nodes, mut paths) = parse(TWO_NODES).unwrap();
    let before: Vec<(Option<(String, String)>, Option<(String, String)>)> =
        paths[0].line_segments.iter().map(|l| (written(&l.a), written(&l.b))).collect();
    adjust_edge_coordinates(&nodes, &mut paths);
    let after: Vec<(Option<(String, String)>, Option<(String, String)>)> =
        paths[0].line_segments.iter().map(|l| (written(&l.a), written(&l.b))).collect();
    assert_eq!(before, after);
}

#[test]
fn adjust_edge_coordinates_follows_the_listing_nodes() {
    let w = |x: &str, y: &str| Position::Written { x: x.to_string(), y: y.to_string() };
    let mut a = Node::new("a");
    a.position = w("1", "1");
    let mut b = Node::new("b");
    b.position = w("2", "2");
    // node b lists path 0 although the path says it leaves a; path 1 is listed by nobody
    b.edges = vec![0];
    let nodes = vec![a, b];
    let mut p0 = Path::new(0, 0);
    p0.line_segments = vec![Line::new(w("9", "9"), w("8", "8"))];
    let p1 = Path::new(1, 0);
    let mut edges = vec![p0, p1];
    adjust_edge_coordinates(&nodes, &mut edges);
    assert_eq!(written(&edges[0].line_segments[0].a), pair("2", "2"));
    assert_eq!(written(&edges[0].line_segments[0].b), pair("1", "1"));
    assert!(edges[1].line_segments.is_empty());
}

#[test]
fn parse_pairs_each_nodes_edges_with_its_dependents() {
    let (nodes, paths) = parse_with_layout("digraph { a -> b; a -> c; b -> c; a -> b; }", false).unwrap();
    let mut listed = vec![0usize; paths.len()];
    for (i, n) in nodes.iter().enumerate() {
        assert_eq!(n.edges.len(), n.dependents.len());
        for m in 0..n.edges.len() {
            let p = &paths[n.edges[m]];
            assert_eq!(p.from, i);
            assert_eq!(p.to, n.dependents[m]);
            if m > 0 {
                assert!(n.edges[m - 1] < n.edges[m]);
            }
            listed[n.edges[m]] += 1;
        }
    }
    assert_eq!(listed, vec![1; paths.len()]);
}

#[test]
fn parse_refuses_coordinates_that_are_not_numbers() {
    match parse("digraph { a [pos=\"1,x\"]; }") {
        Err(ParseError::InvalidCoordinate(t)) => assert_eq!(t, b"x".to_vec()),
        _ => panic!("x is no number"),
    }
    match parse("digraph { a [pos=\"0,0\"]; b [pos=\"1,1\"]; a -> b [pos=\"e,1,1 0,0 z,1 1,1\"]; }") {
        Err(ParseError::InvalidCoordinate(t)) => assert_eq!(t, b"z".to_vec()),
        _ => panic!("z is no number"),
    }
    // the refusal comes as the statement is read, before a later missing `pos` is noticed
    match parse("digraph { a [pos=\"q,0\"]; b; }") {
        Err(ParseError::InvalidCoordinate(t)) => assert_eq!(t, b"q".to_vec()),
        _ => panic!("q is no number"),
    }
}
