use lib::error::ParseError;
use lib::lexer::{tokenise, Token};
use lib::number::float_text;
use lib::parser::{parse_edge, parse_node, parse_spline, parse_tokens, SegmentText};
use lib::text::{bytes_at, copy_range, find_byte, replace_bytes, split_bytes, split_once_bytes};

fn seg(s: &SegmentText) -> (Vec<u8>, Vec<u8>, Vec<u8>, Vec<u8>) {
    (s.a.x.clone(), s.a.y.clone(), s.b.x.clone(), s.b.y.clone())
}

fn b(s: &str) -> Vec<u8> {
    s.as_bytes().to_vec()
}

#[test]
fn parse_spline_drops_end_marker_and_first_point() {
    let segs = parse_spline(b"e,27,36.104 27,71.697 27,63.983 27,54.712 27,46.112").unwrap();
    assert_eq!(segs.len(), 3);
    assert_eq!(seg(&segs[0]), (b("27"), b("71.697"), b("27"), b("63.983")));
    assert_eq!(seg(&segs[1]), (b("27"), b("63.983"), b("27"), b("54.712")));
    assert_eq!(seg(&segs[2]), (b("27"), b("54.712"), b("27"), b("46.112")));
}

#[test]
fn parse_spline_two_points_give_no_segment() {
    let segs = parse_spline(b"1,2 3,4").unwrap();
    assert_eq!(segs.len(), 0);
}

#[test]
fn parse_spline_three_points_give_one_segment() {
    let segs = parse_spline(b"1,2 3,4 5,6").unwrap();
    assert_eq!(segs.len(), 1);
    assert_eq!(seg(&segs[0]), (b("3"), b("4"), b("5"), b("6")));
}

#[test]
fn parse_spline_point_without_comma() {
    assert!(matches!(parse_spline(b"1,2 34 5,6"), Err(ParseError::ExpectedComma)));
    assert!(matches!(parse_spline(b"12"), Err(ParseError::ExpectedComma)));
}

#[test]
fn parse_spline_splits_at_first_comma() {
    // "1,2,3" cuts into "1" and "2,3", and "2,3" is no number
    match parse_spline(b"0,0 1,2,3 4,5") {
        Err(ParseError::InvalidCoordinate(t)) => assert_eq!(t, b("2,3")),
        _ => panic!("a point with two commas must be refused"),
    }
}

#[test]
fn parse_spline_reports_the_first_bad_point() {
    match parse_spline(b"1,2 q,1 34") {
        Err(ParseError::InvalidCoordinate(t)) => assert_eq!(t, b("q")),
        _ => panic!("the bad x of the second point must be reported"),
    }
    match parse_spline(b"1,2 1,q 34") {
        Err(ParseError::InvalidCoordinate(t)) => assert_eq!(t, b("q")),
        _ => panic!("the bad y of the second point must be reported"),
    }
    assert!(matches!(parse_spline(b"1,2 34 q,1"), Err(ParseError::ExpectedComma)));
    match parse_spline(b"1, 3,4") {
        Err(ParseError::InvalidCoordinate(t)) => assert_eq!(t, b("")),
        _ => panic!("an empty coordinate must be refused"),
    }
}

#[test]
fn parse_spline_reads_number_forms() {
    let segs = parse_spline(b"e,1e2,-3 0.5,.5 5.,+7E-1 inf,NaN").unwrap();
    assert_eq!(segs.len(), 2);
    assert_eq!(seg(&segs[0]), (b("0.5"), b(".5"), b("5."), b("+7E-1")));
    assert_eq!(seg(&segs[1]), (b("5."), b("+7E-1"), b("inf"), b("NaN")));
}

#[test]
fn parse_node_bare() {
    let toks = tokenise("b c").unwrap();
    let (st, next) = parse_node(&toks, 0, &b("a")).unwrap();
    assert_eq!(st.id, b("a"));
    assert!(st.label.is_none());
    assert!(st.coord.is_none());
    assert!(st.link.is_none());
    assert_eq!(next, 0);
}

#[test]
fn parse_node_with_attributes() {
    let toks = tokenise("[pos=\"27,90\", width=0.75, dv_label=\"Gemini\", dv_link=\"x.html#a\"] rest").unwrap();
    let (st, next) = parse_node(&toks, 0, &b("a")).unwrap();
    assert_eq!(st.id, b("a"));
    let c = st.coord.unwrap();
    assert_eq!(c.x, b("27"));
    assert_eq!(c.y, b("90"));
    assert_eq!(st.label, Some(b("Gemini")));
    assert_eq!(st.link, Some(b("x.html#a")));
    assert_eq!(next, toks.len() - 1);
}

#[test]
fn parse_node_position_twice() {
    let toks = tokenise("[pos=\"1,2\", pos=\"3,4\"]").unwrap();
    match parse_node(&toks, 0, &b("a")) {
        Err(ParseError::PositionAlreadyDefined(id)) => assert_eq!(id, b("a")),
        _ => panic!("a second position must be refused"),
    }
}

#[test]
fn parse_node_label_twice() {
    let toks = tokenise("[dv_label=x, dv_label=y]").unwrap();
    match parse_node(&toks, 0, &b("n")) {
        Err(ParseError::LabelAlreadyDefined(id)) => assert_eq!(id, b("n")),
        _ => panic!("a second label must be refused"),
    }
}

#[test]
fn parse_node_link_twice() {
    let toks = tokenise("[dv_link=x, dv_link=y]").unwrap();
    match parse_node(&toks, 0, &b("n")) {
        Err(ParseError::LinkAlreadyDefined(id)) => assert_eq!(id, b("n")),
        _ => panic!("a second link must be refused"),
    }
}

#[test]
fn parse_node_attribute_errors() {
    let cases: Vec<(&str, fn(&ParseError) -> bool)> = vec![
        ("[pos \"1,2\"]", |e| matches!(e, ParseError::ExpectedEquals)),
        ("[pos=]", |e| matches!(e, ParseError::ExpectedCoordinates)),
        ("[pos=1,2]", |e| matches!(e, ParseError::ExpectedComma)),
        ("[dv_link=]", |e| matches!(e, ParseError::ExpectedUrl)),
        ("[dv_label=,]", |e| matches!(e, ParseError::ExpectedString)),
        ("[dv_label=x", |e| matches!(e, ParseError::ExpectedAttributeEnd)),
    ];
    for (src, expected) in cases {
        let toks = tokenise(src).unwrap();
        match parse_node(&toks, 0, &b("a")) {
            Err(e) => assert!(expected(&e), "wrong error for {}: {:?}", src, e),
            Ok(_) => panic!("{} must be refused", src),
        }
    }
}

#[test]
fn parse_node_refuses_a_coordinate_that_is_not_a_number() {
    let toks = tokenise("[pos=\"x,y\"]").unwrap();
    match parse_node(&toks, 0, &b("a")) {
        Err(ParseError::InvalidCoordinate(t)) => assert_eq!(t, b("x")),
        _ => panic!("x is no number"),
    }
    let toks = tokenise("[pos=\"1,y\"]").unwrap();
    match parse_node(&toks, 0, &b("a")) {
        Err(ParseError::InvalidCoordinate(t)) => assert_eq!(t, b("y")),
        _ => panic!("y is no number"),
    }
}

#[test]
fn parse_node_keeps_coordinate_text_as_written() {
    let toks = tokenise("[pos=\"1.50,-2e1\"]").unwrap();
    let (st, _) = parse_node(&toks, 0, &b("a")).unwrap();
    let c = st.coord.unwrap();
    assert_eq!(c.x, b("1.50"));
    assert_eq!(c.y, b("-2e1"));
}

#[test]
fn float_text_follows_the_f32_grammar() {
    let accepted = [
        "1", "-1.5", "+2", ".5", "5.", "1e5", "1E-5", "2.5e+3", "inf", "-INF", "Infinity", "+infinity", "NaN",
        "nan", "007",
    ];
    for t in accepted {
        assert!(float_text(t.as_bytes()), "{} must be read", t);
        assert!(t.parse::<f32>().is_ok());
    }
    let refused = [
        "", "+", "-", ".", "e5", "1e", "1e+", "1.2.3", "1_0", " 1", "1 ", "infin", "infinityy", "na", "0x10",
        "1,2", "--1", "+-1", ".e1",
    ];
    for t in refused {
        assert!(!float_text(t.as_bytes()), "{} must be refused", t);
        assert!(t.parse::<f32>().is_err());
    }
}

#[test]
fn parse_edge_bare_and_with_position() {
    let toks = tokenise("-> b c").unwrap();
    let (e, next) = parse_edge(&toks, 0, &b("a")).unwrap();
    assert_eq!(e.from, b("a"));
    assert_eq!(e.to, b("b"));
    assert!(e.lines.is_none());
    assert_eq!(next, 2);

    let toks = tokenise("-> b [pos=\"e,1,1 0,0 2,2 3,3\", color=red]").unwrap();
    let (e, next) = parse_edge(&toks, 0, &b("a")).unwrap();
    let lines = e.lines.unwrap();
    assert_eq!(lines.len(), 2);
    assert_eq!(seg(&lines[0]), (b("0"), b("0"), b("2"), b("2")));
    assert_eq!(seg(&lines[1]), (b("2"), b("2"), b("3"), b("3")));
    assert_eq!(next, toks.len());
}

#[test]
fn parse_edge_errors() {
    let toks = tokenise("->").unwrap();
    assert!(matches!(parse_edge(&toks, 0, &b("a")), Err(ParseError::ExpectedToken)));
    let toks = tokenise("-> [").unwrap();
    assert!(matches!(parse_edge(&toks, 0, &b("a")), Err(ParseError::ExpectedNodeName)));
    let toks = tokenise("-> b [pos=\"1,1 2,2\", pos=\"1,1 2,2\"]").unwrap();
    assert!(matches!(parse_edge(&toks, 0, &b("a")), Err(ParseError::EdgePositionAlreadyDefined)));
    let toks = tokenise("-> b [pos=]").unwrap();
    assert!(matches!(parse_edge(&toks, 0, &b("a")), Err(ParseError::ExpectedEdgeCoordinates)));
    let toks = tokenise("-> b [pos=\"1,1 22\"]").unwrap();
    assert!(matches!(parse_edge(&toks, 0, &b("a")), Err(ParseError::ExpectedComma)));
    let toks = tokenise("-> b [pos").unwrap();
    assert!(matches!(parse_edge(&toks, 0, &b("a")), Err(ParseError::ExpectedEquals)));
    let toks = tokenise("-> b [").unwrap();
    assert!(matches!(parse_edge(&toks, 0, &b("a")), Err(ParseError::ExpectedAttributeEnd)));
}

#[test]
fn parse_tokens_statements_in_order() {
    let toks = tokenise(
        "digraph { graph [bb=\"0,0,1,1\"]; node [label=\"\\N\"]; a [pos=\"1,2\"]; b; a -> b; b -> c [pos=\"1,1 2,2 3,3\"]; }",
    )
    .unwrap();
    let (ns, es) = parse_tokens(&toks).unwrap();
    assert_eq!(ns.len(), 2);
    assert_eq!(ns[0].id, b("a"));
    assert_eq!(ns[1].id, b("b"));
    assert_eq!(es.len(), 2);
    assert_eq!(es[0].from, b("a"));
    assert_eq!(es[0].to, b("b"));
    assert_eq!(es[1].from, b("b"));
    assert_eq!(es[1].to, b("c"));
    assert_eq!(es[1].lines.as_ref().unwrap().len(), 1);
}

#[test]
fn parse_tokens_ignores_what_follows_the_graph() {
    let toks = tokenise("digraph { a } = = b").unwrap();
    let (ns, es) = parse_tokens(&toks).unwrap();
    assert_eq!(ns.len(), 1);
    assert_eq!(es.len(), 0);
}

#[test]
fn parse_tokens_errors() {
    let cases: Vec<(&str, fn(&ParseError) -> bool)> = vec![
        ("", |e| matches!(e, ParseError::ExpectedGraphKind)),
        ("graph { }", |e| matches!(e, ParseError::UnsupportedGraphKind)),
        ("a { }", |e| matches!(e, ParseError::UnsupportedGraphKind)),
        ("digraph", |e| matches!(e, ParseError::MissingOpenBrace)),
        ("digraph g { }", |e| matches!(e, ParseError::ExpectedOpenBrace)),
        ("digraph {", |e| matches!(e, ParseError::ExpectedToken)),
        ("digraph { a", |e| matches!(e, ParseError::ExpectedToken)),
        ("digraph { [ a = b", |e| matches!(e, ParseError::ExpectedCloseSquare)),
        ("digraph { = }", |e| matches!(e, ParseError::UnexpectedToken(Token::Equal))),
        ("digraph { pos }", |e| matches!(e, ParseError::UnexpectedToken(Token::Pos))),
    ];
    for (src, expected) in cases {
        let toks = tokenise(src).unwrap();
        match parse_tokens(&toks) {
            Err(e) => assert!(expected(&e), "wrong error for {:?}: {:?}", src, e),
            Ok(_) => panic!("{:?} must be refused", src),
        }
    }
}

#[test]
fn text_helpers() {
    assert_eq!(find_byte(b"a,b,c", 0, b','), Some(1));
    assert_eq!(find_byte(b"a,b,c", 2, b','), Some(3));
    assert_eq!(find_byte(b"abc", 0, b','), None);
    assert_eq!(copy_range(b"abcdef", 1, 4), b("bcd"));
    assert_eq!(split_once_bytes(b"1,2,3", b','), Some((b("1"), b("2,3"))));
    assert_eq!(split_once_bytes(b"123", b','), None);
    assert_eq!(split_bytes(b"a b  c", b' '), vec![b("a"), b("b"), b(""), b("c")]);
    assert_eq!(split_bytes(b"", b' '), vec![b("")]);
    assert!(bytes_at(b"xe,1", 1, b"e,"));
    assert!(!bytes_at(b"xe,1", 2, b"e,"));
    assert_eq!(replace_bytes(b"e,1,2 e,3", b"e,", b""), b("1,2 3"));
}
