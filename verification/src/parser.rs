use vstd::prelude::*;

use crate::error::{ParseError, ParseErrorView};
use crate::lexer::{Token, TokenView, tokens_view, COMMA};
use crate::number::{float_text, is_float_text};
use crate::text::{
    first_index_from, is_first_from, replace_all, replace_bytes, split_all, split_bytes, split_once,
    split_once_bytes, byte_strings_view,
};

verus! {

/// A space, which separates the points of an edge's `pos`.
pub const SPACE: u8 = 0x20;

/// A coordinate pair as the source writes it: the text before and after the
/// first comma.
pub struct CoordText {
    pub x: Vec<u8>,
    pub y: Vec<u8>,
}

/// The mathematical value of a [`CoordText`].
pub type CoordView = (Seq<u8>, Seq<u8>);

impl View for CoordText {
    type V = CoordView;

    open spec fn view(&self) -> CoordView {
        (self.x@, self.y@)
    }
}

impl CoordText {
    pub fn duplicate(&self) -> (c: CoordText)
        ensures
            c@ == self@,
    {
        CoordText { x: self.x.clone(), y: self.y.clone() }
    }
}

/// One segment of an edge's spline, from `a` to `b`.
pub struct SegmentText {
    pub a: CoordText,
    pub b: CoordText,
}

/// The mathematical value of a [`SegmentText`].
pub type SegmentView = (CoordView, CoordView);

impl View for SegmentText {
    type V = SegmentView;

    open spec fn view(&self) -> SegmentView {
        (self.a@, self.b@)
    }
}

/// The views of a sequence of segments.
pub open spec fn segments_view(v: Seq<SegmentText>) -> Seq<SegmentView> {
    v.map_values(|s: SegmentText| s@)
}

/// The view of an optional byte string.
pub open spec fn opt_bytes_view(o: Option<Vec<u8>>) -> Option<Seq<u8>> {
    match o {
        Some(v) => Some(v@),
        None => None,
    }
}

/// A node statement: `id` or `id [attributes]`.
pub struct NodeStatement {
    pub id: Vec<u8>,
    pub label: Option<Vec<u8>>,
    pub coord: Option<CoordText>,
    pub link: Option<Vec<u8>>,
}

/// The mathematical value of a [`NodeStatement`].
pub struct NodeStatementView {
    pub id: Seq<u8>,
    pub label: Option<Seq<u8>>,
    pub coord: Option<CoordView>,
    pub link: Option<Seq<u8>>,
}

impl View for NodeStatement {
    type V = NodeStatementView;

    open spec fn view(&self) -> NodeStatementView {
        NodeStatementView {
            id: self.id@,
            label: opt_bytes_view(self.label),
            coord: match self.coord {
                Some(c) => Some(c@),
                None => None,
            },
            link: opt_bytes_view(self.link),
        }
    }
}

/// An edge statement: `from -> to` or `from -> to [attributes]`.
pub struct EdgeStatement {
    pub from: Vec<u8>,
    pub to: Vec<u8>,
    pub lines: Option<Vec<SegmentText>>,
}

/// The mathematical value of an [`EdgeStatement`].
pub struct EdgeStatementView {
    pub from: Seq<u8>,
    pub to: Seq<u8>,
    pub lines: Option<Seq<SegmentView>>,
}

impl View for EdgeStatement {
    type V = EdgeStatementView;

    open spec fn view(&self) -> EdgeStatementView {
        EdgeStatementView {
            from: self.from@,
            to: self.to@,
            lines: match self.lines {
                Some(v) => Some(segments_view(v@)),
                None => None,
            },
        }
    }
}

/// The views of node statements.
pub open spec fn node_statements_view(v: Seq<NodeStatement>) -> Seq<NodeStatementView> {
    v.map_values(|s: NodeStatement| s@)
}

/// The views of edge statements.
pub open spec fn edge_statements_view(v: Seq<EdgeStatement>) -> Seq<EdgeStatementView> {
    v.map_values(|s: EdgeStatement| s@)
}

/// The marker `e,` that starts the end point of a Graphviz spline.
pub open spec fn end_marker() -> Seq<u8> {
    seq![0x65u8, COMMA]
}

/// The error for a coordinate pair that is not two numbers: the first of its
/// two texts that is not one.
pub open spec fn coord_error(xy: CoordView) -> Option<ParseErrorView> {
    if !is_float_text(xy.0) {
        Some(ParseErrorView::InvalidCoordinate(xy.0))
    } else if !is_float_text(xy.1) {
        Some(ParseErrorView::InvalidCoordinate(xy.1))
    } else {
        None
    }
}

/// The point `x,y` that `part` writes: cut at its first comma, each side a
/// number.
pub open spec fn read_point(part: Seq<u8>) -> Result<CoordView, ParseErrorView> {
    match split_once(part, COMMA) {
        None => Err(ParseErrorView::ExpectedComma),
        Some(xy) => match coord_error(xy) {
            Some(e) => Err(e),
            None => Ok(xy),
        },
    }
}

/// The points of the parts, read in order, or the error of the first part
/// that is not a point.
pub open spec fn read_points(parts: Seq<Seq<u8>>) -> Result<Seq<CoordView>, ParseErrorView>
    decreases parts.len(),
{
    if parts.len() == 0 {
        Ok(Seq::empty())
    } else {
        match read_points(parts.drop_last()) {
            Err(e) => Err(e),
            Ok(ps) => match read_point(parts.last()) {
                Err(e) => Err(e),
                Ok(xy) => Ok(ps.push(xy)),
            },
        }
    }
}

/// Once a prefix of the parts fails to read, the whole does, with the same
/// error.
proof fn lemma_read_points_prefix_err(parts: Seq<Seq<u8>>, n: int)
    requires
        0 <= n <= parts.len(),
        read_points(parts.take(n)) is Err,
    ensures
        read_points(parts) == read_points(parts.take(n)),
    decreases parts.len() - n,
{
    if parts.len() == n {
        assert(parts.take(n) =~= parts);
    } else {
        let rest = parts.drop_last();
        assert(rest.take(n) =~= parts.take(n));
        lemma_read_points_prefix_err(rest, n);
    }
}

/// The segments between consecutive points, leaving out the first point
/// (which, in a Graphviz spline, is the end point of the whole edge).
pub open spec fn segments_of(points: Seq<CoordView>) -> Seq<SegmentView> {
    if points.len() >= 2 {
        Seq::new((points.len() - 2) as nat, |k: int| (points[k + 1], points[k + 2]))
    } else {
        Seq::empty()
    }
}

/// The segments that an edge's `pos` text describes, or the error of its
/// first part that is not a point. The `e,` marker is removed wherever it
/// stands and the rest is cut at each space.
pub open spec fn spline_segments(w: Seq<u8>) -> Result<Seq<SegmentView>, ParseErrorView> {
    match read_points(split_all(replace_all(w, end_marker(), Seq::empty()), SPACE)) {
        Ok(points) => Ok(segments_of(points)),
        Err(e) => Err(e),
    }
}

/// The attribute list of a node statement, read from position `p` with
/// the statement `st` gathered so far, up to and including its `]`; the
/// statement and the position after the list.
pub open spec fn node_attrs(t: Seq<TokenView>, p: int, st: NodeStatementView) -> Result<
    (NodeStatementView, int),
    ParseErrorView,
>
    decreases t.len() - p,
{
    if p < 0 || p >= t.len() {
        Err(ParseErrorView::ExpectedAttributeEnd)
    } else {
        match t[p] {
            TokenView::Pos => if st.coord is Some {
                Err(ParseErrorView::PositionAlreadyDefined(st.id))
            } else if !(p + 1 < t.len() && t[p + 1] is Equal) {
                Err(ParseErrorView::ExpectedEquals)
            } else if !(p + 2 < t.len() && t[p + 2] is Word) {
                Err(ParseErrorView::ExpectedCoordinates)
            } else {
                match read_point(t[p + 2]->Word_0) {
                    Ok(xy) => node_attrs(t, p + 3, NodeStatementView { coord: Some(xy), ..st }),
                    Err(e) => Err(e),
                }
            },
            TokenView::Link => if st.link is Some {
                Err(ParseErrorView::LinkAlreadyDefined(st.id))
            } else if !(p + 1 < t.len() && t[p + 1] is Equal) {
                Err(ParseErrorView::ExpectedEquals)
            } else if !(p + 2 < t.len() && t[p + 2] is Word) {
                Err(ParseErrorView::ExpectedUrl)
            } else {
                node_attrs(
                    t,
                    p + 3,
                    NodeStatementView { link: Some(t[p + 2]->Word_0), ..st },
                )
            },
            TokenView::Label => if st.label is Some {
                Err(ParseErrorView::LabelAlreadyDefined(st.id))
            } else if !(p + 1 < t.len() && t[p + 1] is Equal) {
                Err(ParseErrorView::ExpectedEquals)
            } else if !(p + 2 < t.len() && t[p + 2] is Word) {
                Err(ParseErrorView::ExpectedString)
            } else {
                node_attrs(
                    t,
                    p + 3,
                    NodeStatementView { label: Some(t[p + 2]->Word_0), ..st },
                )
            },
            TokenView::CloseSquare => Ok((st, p + 1)),
            _ => node_attrs(t, p + 1, st),
        }
    }
}

/// A bare node statement named `id`.
pub open spec fn bare_node(id: Seq<u8>) -> NodeStatementView {
    NodeStatementView { id, label: None, coord: None, link: None }
}

/// The rest of a node statement named `id`, read from position `p`: the
/// statement and the position after it.
pub open spec fn node_statement(t: Seq<TokenView>, p: int, id: Seq<u8>) -> Result<
    (NodeStatementView, int),
    ParseErrorView,
> {
    if 0 <= p < t.len() && t[p] is OpenSquare {
        node_attrs(t, p + 1, bare_node(id))
    } else {
        Ok((bare_node(id), p))
    }
}

/// The attribute list of an edge statement, read from position `p` with the
/// statement `st` gathered so far.
pub open spec fn edge_attrs(t: Seq<TokenView>, p: int, st: EdgeStatementView) -> Result<
    (EdgeStatementView, int),
    ParseErrorView,
>
    decreases t.len() - p,
{
    if p < 0 || p >= t.len() {
        Err(ParseErrorView::ExpectedAttributeEnd)
    } else {
        match t[p] {
            TokenView::Pos => if st.lines is Some {
                Err(ParseErrorView::EdgePositionAlreadyDefined)
            } else if !(p + 1 < t.len() && t[p + 1] is Equal) {
                Err(ParseErrorView::ExpectedEquals)
            } else if !(p + 2 < t.len() && t[p + 2] is Word) {
                Err(ParseErrorView::ExpectedEdgeCoordinates)
            } else {
                match spline_segments(t[p + 2]->Word_0) {
                    Ok(ls) => edge_attrs(t, p + 3, EdgeStatementView { lines: Some(ls), ..st }),
                    Err(e) => Err(e),
                }
            },
            TokenView::CloseSquare => Ok((st, p + 1)),
            _ => edge_attrs(t, p + 1, st),
        }
    }
}

/// The rest of an edge statement from `from`, read from the arrow at
/// position `p`: the statement and the position after it.
pub open spec fn edge_statement(t: Seq<TokenView>, p: int, from: Seq<u8>) -> Result<
    (EdgeStatementView, int),
    ParseErrorView,
> {
    if p < 0 || p + 1 >= t.len() {
        Err(ParseErrorView::ExpectedToken)
    } else {
        match t[p + 1] {
            TokenView::Word(to) => {
                let bare = EdgeStatementView { from, to, lines: None };
                if p + 2 < t.len() && t[p + 2] is OpenSquare {
                    edge_attrs(t, p + 3, bare)
                } else {
                    Ok((bare, p + 2))
                }
            },
            _ => Err(ParseErrorView::ExpectedNodeName),
        }
    }
}

/// The statements of a graph body from position `p` on, added to those
/// gathered so far, up to the closing `}`.
pub open spec fn statements_from(
    t: Seq<TokenView>,
    p: int,
    ns: Seq<NodeStatementView>,
    es: Seq<EdgeStatementView>,
) -> Result<(Seq<NodeStatementView>, Seq<EdgeStatementView>), ParseErrorView>
    decreases t.len() - p,
{
    if p < 0 || p >= t.len() {
        Err(ParseErrorView::ExpectedToken)
    } else {
        match t[p] {
            TokenView::Word(w) => if p + 1 < t.len() && t[p + 1] is Arrow {
                match edge_statement(t, p + 1, w) {
                    Ok((e, q)) => if p < q <= t.len() {
                        statements_from(t, q, ns, es.push(e))
                    } else {
                        Err(ParseErrorView::ExpectedToken)
                    },
                    Err(x) => Err(x),
                }
            } else {
                match node_statement(t, p + 1, w) {
                    Ok((n, q)) => if p < q <= t.len() {
                        statements_from(t, q, ns.push(n), es)
                    } else {
                        Err(ParseErrorView::ExpectedToken)
                    },
                    Err(x) => Err(x),
                }
            },
            TokenView::OpenSquare => match first_index_from(t, p + 1, TokenView::CloseSquare) {
                Some(k) => if p < k < t.len() {
                    statements_from(t, k + 1, ns, es)
                } else {
                    Err(ParseErrorView::ExpectedCloseSquare)
                },
                None => Err(ParseErrorView::ExpectedCloseSquare),
            },
            TokenView::Node => statements_from(t, p + 1, ns, es),
            TokenView::Graph => statements_from(t, p + 1, ns, es),
            TokenView::CloseBrace => Ok((ns, es)),
            other => Err(ParseErrorView::UnexpectedToken(other)),
        }
    }
}

/// The node and edge statements of a token sequence, each kind in source
/// order: `digraph {`, then statements up to `}`; what follows is ignored.
pub open spec fn statements(t: Seq<TokenView>) -> Result<
    (Seq<NodeStatementView>, Seq<EdgeStatementView>),
    ParseErrorView,
> {
    if t.len() == 0 {
        Err(ParseErrorView::ExpectedGraphKind)
    } else if !(t[0] is Digraph) {
        Err(ParseErrorView::UnsupportedGraphKind)
    } else if t.len() == 1 {
        Err(ParseErrorView::MissingOpenBrace)
    } else if !(t[1] is OpenBrace) {
        Err(ParseErrorView::ExpectedOpenBrace)
    } else {
        statements_from(t, 2, Seq::empty(), Seq::empty())
    }
}

/// The statements of a source text given as bytes.
pub open spec fn source_statements(bytes: Seq<u8>) -> Result<
    (Seq<NodeStatementView>, Seq<EdgeStatementView>),
    ParseErrorView,
> {
    match crate::lexer::lex(bytes) {
        Ok(t) => statements(t),
        Err(e) => Err(e),
    }
}

/// The point `x,y` that `w` writes, or why it is not one.
pub fn parse_point(w: &[u8]) -> (r: Result<CoordText, ParseError>)
    ensures
        match r {
            Ok(c) => read_point(w@) == Ok::<CoordView, ParseErrorView>(c@),
            Err(e) => read_point(w@) == Err::<CoordView, ParseErrorView>(e@),
        },
{
    match split_once_bytes(w, COMMA) {
        Some((x, y)) => {
            if !float_text(x.as_slice()) {
                Err(ParseError::InvalidCoordinate(x))
            } else if !float_text(y.as_slice()) {
                Err(ParseError::InvalidCoordinate(y))
            } else {
                Ok(CoordText { x, y })
            }
        },
        None => Err(ParseError::ExpectedComma),
    }
}

/// The views of a sequence of coordinate pairs.
pub open spec fn coords_view(v: Seq<CoordText>) -> Seq<CoordView> {
    v.map_values(|c: CoordText| c@)
}

/// The segments that an edge's `pos` text describes, or the error of its
/// first part that is not a point.
pub fn parse_spline(w: &[u8]) -> (r: Result<Vec<SegmentText>, ParseError>)
    ensures
        match r {
            Ok(v) => spline_segments(w@) == Ok::<Seq<SegmentView>, ParseErrorView>(segments_view(v@)),
            Err(e) => spline_segments(w@) == Err::<Seq<SegmentView>, ParseErrorView>(e@),
        },
{
    let marker: [u8; 2] = [0x65u8, COMMA];
    let nothing: [u8; 0] = [];
    assert(marker@ =~= end_marker());
    assert(nothing@ =~= Seq::<u8>::empty());
    let stripped = replace_bytes(w, marker.as_slice(), nothing.as_slice());
    let parts = split_bytes(stripped.as_slice(), SPACE);
    let ghost pv = byte_strings_view(parts@);
    let mut points: Vec<CoordText> = Vec::new();
    let mut i: usize = 0;
    proof {
        assert(pv.take(0) =~= Seq::<Seq<u8>>::empty());
        assert(coords_view(points@) =~= Seq::<CoordView>::empty());
    }
    while i < parts.len()
        invariant
            pv == byte_strings_view(parts@),
            pv == split_all(replace_all(w@, end_marker(), Seq::empty()), SPACE),
            0 <= i <= parts@.len(),
            points@.len() == i,
            read_points(pv.take(i as int)) == Ok::<Seq<CoordView>, ParseErrorView>(coords_view(points@)),
        decreases parts@.len() - i,
    {
        assert(pv.take(i + 1).drop_last() =~= pv.take(i as int));
        assert(pv.take(i + 1).last() == pv[i as int]);
        assert(parts@[i as int]@ == pv[i as int]);
        match parse_point(parts[i].as_slice()) {
            Ok(c) => {
                let ghost before = points@;
                points.push(c);
                assert(coords_view(points@) =~= coords_view(before).push(c@));
                i = i + 1;
            },
            Err(e) => {
                proof {
                    lemma_read_points_prefix_err(pv, i + 1);
                }
                return Err(e);
            },
        }
    }
    assert(pv.take(pv.len() as int) =~= pv);
    let ghost all = coords_view(points@);
    let mut segs: Vec<SegmentText> = Vec::new();
    if points.len() >= 2 {
        let mut k: usize = 1;
        while k < points.len() - 1
            invariant
                points@.len() == all.len(),
                all == coords_view(points@),
                1 <= k < points@.len(),
                segs@.len() == k - 1,
                forall|m: int| 0 <= m < segs@.len() ==> #[trigger] segs@[m]@ == (all[m + 1], all[m + 2]),
            decreases points@.len() - k,
        {
            let a = points[k].duplicate();
            let b = points[k + 1].duplicate();
            segs.push(SegmentText { a, b });
            k = k + 1;
        }
        assert(segments_view(segs@) =~= segments_of(all));
    } else {
        assert(segments_view(segs@) =~= segments_of(all));
    }
    Ok(segs)
}

fn is_equal(t: &Token) -> (r: bool)
    ensures
        r == (t@ is Equal),
{
    match t {
        Token::Equal => true,
        _ => false,
    }
}

fn is_open_square(t: &Token) -> (r: bool)
    ensures
        r == (t@ is OpenSquare),
{
    match t {
        Token::OpenSquare => true,
        _ => false,
    }
}

fn is_arrow(t: &Token) -> (r: bool)
    ensures
        r == (t@ is Arrow),
{
    match t {
        Token::Arrow => true,
        _ => false,
    }
}

fn word_of(t: &Token) -> (r: Option<&Vec<u8>>)
    ensures
        match r {
            Some(w) => t@ == TokenView::Word(w@),
            None => !(t@ is Word),
        },
{
    match t {
        Token::Word(w) => Some(w),
        _ => None,
    }
}

/// The rest of a node statement named `word`, read from position `pos`: the
/// statement and the position after it.
pub fn parse_node(toks: &Vec<Token>, pos: usize, word: &Vec<u8>) -> (r: Result<
    (NodeStatement, usize),
    ParseError,
>)
    requires
        pos <= toks@.len(),
    ensures
        match r {
            Ok((st, q)) => node_statement(tokens_view(toks@), pos as int, word@) == Ok::<
                (NodeStatementView, int),
                ParseErrorView,
            >((st@, q as int)) && pos <= q <= toks@.len(),
            Err(e) => node_statement(tokens_view(toks@), pos as int, word@) == Err::<
                (NodeStatementView, int),
                ParseErrorView,
            >(e@),
        },
{
    let ghost t = tokens_view(toks@);
    let id = word.clone();
    if !(pos < toks.len() && is_open_square(&toks[pos])) {
        return Ok((NodeStatement { id, label: None, coord: None, link: None }, pos));
    }
    let mut p: usize = pos + 1;
    let mut label: Option<Vec<u8>> = None;
    let mut coord: Option<CoordText> = None;
    let mut link: Option<Vec<u8>> = None;
    loop
        invariant
            t == tokens_view(toks@),
            pos < p <= toks@.len(),
            id@ == word@,
            node_statement(t, pos as int, word@) == node_attrs(
                t,
                p as int,
                NodeStatement { id, label, coord, link }@,
            ),
        decreases toks@.len() - p,
    {
        let ghost st = NodeStatement { id, label, coord, link }@;
        if p >= toks.len() {
            return Err(ParseError::ExpectedAttributeEnd);
        }
        match &toks[p] {
            Token::Pos => {
                if coord.is_some() {
                    return Err(ParseError::PositionAlreadyDefined(id));
                }
                if !(p + 1 < toks.len() && is_equal(&toks[p + 1])) {
                    return Err(ParseError::ExpectedEquals);
                }
                if p + 2 >= toks.len() {
                    return Err(ParseError::ExpectedCoordinates);
                }
                match word_of(&toks[p + 2]) {
                    Some(w) => match parse_point(w.as_slice()) {
                        Ok(c) => {
                            coord = Some(c);
                            p = p + 3;
                        },
                        Err(e) => {
                            return Err(e);
                        },
                    },
                    None => {
                        return Err(ParseError::ExpectedCoordinates);
                    },
                }
            },
            Token::Link => {
                if link.is_some() {
                    return Err(ParseError::LinkAlreadyDefined(id));
                }
                if !(p + 1 < toks.len() && is_equal(&toks[p + 1])) {
                    return Err(ParseError::ExpectedEquals);
                }
                if p + 2 >= toks.len() {
                    return Err(ParseError::ExpectedUrl);
                }
                match word_of(&toks[p + 2]) {
                    Some(w) => {
                        link = Some(w.clone());
                        p = p + 3;
                    },
                    None => {
                        return Err(ParseError::ExpectedUrl);
                    },
                }
            },
            Token::Label => {
                if label.is_some() {
                    return Err(ParseError::LabelAlreadyDefined(id));
                }
                if !(p + 1 < toks.len() && is_equal(&toks[p + 1])) {
                    return Err(ParseError::ExpectedEquals);
                }
                if p + 2 >= toks.len() {
                    return Err(ParseError::ExpectedString);
                }
                match word_of(&toks[p + 2]) {
                    Some(w) => {
                        label = Some(w.clone());
                        p = p + 3;
                    },
                    None => {
                        return Err(ParseError::ExpectedString);
                    },
                }
            },
            Token::CloseSquare => {
                return Ok((NodeStatement { id, label, coord, link }, p + 1));
            },
            _ => {
                p = p + 1;
            },
        }
    }
}

/// The rest of an edge statement from `from`, read from the arrow at position
/// `pos`: the statement and the position after it.
pub fn parse_edge(toks: &Vec<Token>, pos: usize, from: &Vec<u8>) -> (r: Result<
    (EdgeStatement, usize),
    ParseError,
>)
    ensures
        match r {
            Ok((st, q)) => edge_statement(tokens_view(toks@), pos as int, from@) == Ok::<
                (EdgeStatementView, int),
                ParseErrorView,
            >((st@, q as int)) && pos + 2 <= q <= toks@.len(),
            Err(e) => edge_statement(tokens_view(toks@), pos as int, from@) == Err::<
                (EdgeStatementView, int),
                ParseErrorView,
            >(e@),
        },
{
    let ghost t = tokens_view(toks@);
    let ghost from_view = from@;
    let source = from.clone();
    if toks.len() == 0 || pos >= toks.len() - 1 {
        return Err(ParseError::ExpectedToken);
    }
    let to = match word_of(&toks[pos + 1]) {
        Some(w) => w.clone(),
        None => {
            return Err(ParseError::ExpectedNodeName);
        },
    };
    if !(pos + 2 < toks.len() && is_open_square(&toks[pos + 2])) {
        return Ok((EdgeStatement { from: source, to, lines: None }, pos + 2));
    }
    let mut p: usize = pos + 3;
    let mut lines: Option<Vec<SegmentText>> = None;
    loop
        invariant
            t == tokens_view(toks@),
            pos + 3 <= p <= toks@.len(),
            source@ == from_view,
            from@ == from_view,
            edge_statement(t, pos as int, from_view) == edge_attrs(
                t,
                p as int,
                EdgeStatement { from: source, to, lines }@,
            ),
        decreases toks@.len() - p,
    {
        if p >= toks.len() {
            return Err(ParseError::ExpectedAttributeEnd);
        }
        match &toks[p] {
            Token::Pos => {
                if lines.is_some() {
                    return Err(ParseError::EdgePositionAlreadyDefined);
                }
                if !(p + 1 < toks.len() && is_equal(&toks[p + 1])) {
                    return Err(ParseError::ExpectedEquals);
                }
                if p + 2 >= toks.len() {
                    return Err(ParseError::ExpectedEdgeCoordinates);
                }
                match word_of(&toks[p + 2]) {
                    Some(w) => match parse_spline(w.as_slice()) {
                        Ok(ls) => {
                            lines = Some(ls);
                            p = p + 3;
                        },
                        Err(e) => {
                            return Err(e);
                        },
                    },
                    None => {
                        return Err(ParseError::ExpectedEdgeCoordinates);
                    },
                }
            },
            Token::CloseSquare => {
                return Ok((EdgeStatement { from: source, to, lines }, p + 1));
            },
            _ => {
                p = p + 1;
            },
        }
    }
}

/// The position of the first `]` at or after `from`.
fn find_close_square(toks: &Vec<Token>, from: usize) -> (r: Option<usize>)
    requires
        from <= toks@.len(),
    ensures
        match r {
            Some(k) => from <= k < toks@.len() && first_index_from(
                tokens_view(toks@),
                from as int,
                TokenView::CloseSquare,
            ) == Some(k as int),
            None => first_index_from(tokens_view(toks@), from as int, TokenView::CloseSquare) is None,
        },
{
    let ghost t = tokens_view(toks@);
    let mut k: usize = from;
    while k < toks.len()
        invariant
            t == tokens_view(toks@),
            from <= k <= toks@.len(),
            forall|m: int| from <= m < k ==> t[m] != TokenView::CloseSquare,
        decreases toks@.len() - k,
    {
        match &toks[k] {
            Token::CloseSquare => {
                proof {
                    crate::text::lemma_first_unique(t, from as int, TokenView::CloseSquare, k as int);
                }
                return Some(k);
            },
            _ => {
                k = k + 1;
            },
        }
    }
    assert(!exists|j: int| #[trigger] is_first_from(t, from as int, TokenView::CloseSquare, j));
    None
}

/// The node and edge statements of a token sequence.
pub fn parse_tokens(toks: &Vec<Token>) -> (r: Result<
    (Vec<NodeStatement>, Vec<EdgeStatement>),
    ParseError,
>)
    ensures
        match r {
            Ok((ns, es)) => statements(tokens_view(toks@)) == Ok::<
                (Seq<NodeStatementView>, Seq<EdgeStatementView>),
                ParseErrorView,
            >((node_statements_view(ns@), edge_statements_view(es@))) && ns@.len() + 3 * es@.len()
                < toks@.len(),
            Err(e) => statements(tokens_view(toks@)) == Err::<
                (Seq<NodeStatementView>, Seq<EdgeStatementView>),
                ParseErrorView,
            >(e@),
        },
{
    let ghost t = tokens_view(toks@);
    if toks.len() == 0 {
        return Err(ParseError::ExpectedGraphKind);
    }
    match &toks[0] {
        Token::Digraph => {},
        _ => {
            return Err(ParseError::UnsupportedGraphKind);
        },
    }
    if toks.len() == 1 {
        return Err(ParseError::MissingOpenBrace);
    }
    match &toks[1] {
        Token::OpenBrace => {},
        _ => {
            return Err(ParseError::ExpectedOpenBrace);
        },
    }
    let mut node_statements: Vec<NodeStatement> = Vec::new();
    let mut edge_statements: Vec<EdgeStatement> = Vec::new();
    let mut p: usize = 2;
    assert(node_statements_view(node_statements@) =~= Seq::empty());
    assert(edge_statements_view(edge_statements@) =~= Seq::empty());
    loop
        invariant
            t == tokens_view(toks@),
            2 <= p <= toks@.len(),
            node_statements@.len() + 3 * edge_statements@.len() + 2 <= p,
            statements(t) == statements_from(
                t,
                p as int,
                node_statements_view(node_statements@),
                edge_statements_view(edge_statements@),
            ),
        decreases toks@.len() - p,
    {
        let ghost nsv = node_statements_view(node_statements@);
        let ghost esv = edge_statements_view(edge_statements@);
        if p >= toks.len() {
            return Err(ParseError::ExpectedToken);
        }
        match &toks[p] {
            Token::Word(word) => {
                if p + 1 < toks.len() && is_arrow(&toks[p + 1]) {
                    let (e, q) = parse_edge(toks, p + 1, word)?;
                    let ghost ev = e@;
                    edge_statements.push(e);
                    assert(edge_statements_view(edge_statements@) =~= esv.push(ev));
                    p = q;
                } else {
                    let (n, q) = parse_node(toks, p + 1, word)?;
                    let ghost nv = n@;
                    node_statements.push(n);
                    assert(node_statements_view(node_statements@) =~= nsv.push(nv));
                    p = q;
                }
            },
            Token::OpenSquare => {
                match find_close_square(toks, p + 1) {
                    Some(k) => {
                        p = k + 1;
                    },
                    None => {
                        return Err(ParseError::ExpectedCloseSquare);
                    },
                }
            },
            Token::Node => {
                p = p + 1;
            },
            Token::Graph => {
                p = p + 1;
            },
            Token::CloseBrace => {
                return Ok((node_statements, edge_statements));
            },
            other => {
                return Err(ParseError::UnexpectedToken(other.duplicate()));
            },
        }
    }
}

} // verus!
