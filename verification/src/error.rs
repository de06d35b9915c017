use vstd::prelude::*;

use crate::lexer::{Token, TokenView};

verus! {

/// Why a DOT source text was refused.
#[derive(Debug)]
pub enum ParseError {
    /// A byte that no token starts with.
    UnexpectedCharacter(u8),
    /// A `-` that is not followed by `>`.
    ExpectedArrowHead,
    /// A quoted string without its closing quote.
    UnclosedQuote,
    /// The input holds no token at all.
    ExpectedGraphKind,
    /// The first token is not `digraph`.
    UnsupportedGraphKind,
    /// The input ends after `digraph`.
    MissingOpenBrace,
    /// `digraph` is followed by something other than `{`.
    ExpectedOpenBrace,
    /// The input ends inside the graph body, or after `->`.
    ExpectedToken,
    /// An attribute list of a `node` or `graph` statement is not closed.
    ExpectedCloseSquare,
    /// A token that cannot start a statement.
    UnexpectedToken(Token),
    /// An attribute list of a node or an edge is not closed.
    ExpectedAttributeEnd,
    /// An attribute name is not followed by `=`.
    ExpectedEquals,
    /// `pos=` of a node is not followed by a word.
    ExpectedCoordinates,
    /// `pos=` of an edge is not followed by a word.
    ExpectedEdgeCoordinates,
    /// A coordinate pair without a comma.
    ExpectedComma,
    /// A coordinate (the text given) that is not a floating-point number.
    InvalidCoordinate(Vec<u8>),
    /// A second `pos` for the node with this name.
    PositionAlreadyDefined(Vec<u8>),
    /// `dv_link=` is not followed by a word.
    ExpectedUrl,
    /// A second `dv_link` for the node with this name.
    LinkAlreadyDefined(Vec<u8>),
    /// `dv_label=` is not followed by a word.
    ExpectedString,
    /// A second `dv_label` for the node with this name.
    LabelAlreadyDefined(Vec<u8>),
    /// `->` is not followed by a node name.
    ExpectedNodeName,
    /// A second `pos` for an edge.
    EdgePositionAlreadyDefined,
    /// A node statement without `pos`, where positions come from the source.
    MissingNodeCoordinates(Vec<u8>),
    /// An edge statement (target, then source) without `pos`, where positions
    /// come from the source.
    MissingEdgeCoordinates(Vec<u8>, Vec<u8>),
}

/// The mathematical value of a [`ParseError`].
pub enum ParseErrorView {
    UnexpectedCharacter(u8),
    ExpectedArrowHead,
    UnclosedQuote,
    ExpectedGraphKind,
    UnsupportedGraphKind,
    MissingOpenBrace,
    ExpectedOpenBrace,
    ExpectedToken,
    ExpectedCloseSquare,
    UnexpectedToken(TokenView),
    ExpectedAttributeEnd,
    ExpectedEquals,
    ExpectedCoordinates,
    ExpectedEdgeCoordinates,
    ExpectedComma,
    InvalidCoordinate(Seq<u8>),
    PositionAlreadyDefined(Seq<u8>),
    ExpectedUrl,
    LinkAlreadyDefined(Seq<u8>),
    ExpectedString,
    LabelAlreadyDefined(Seq<u8>),
    ExpectedNodeName,
    EdgePositionAlreadyDefined,
    MissingNodeCoordinates(Seq<u8>),
    MissingEdgeCoordinates(Seq<u8>, Seq<u8>),
}

impl View for ParseError {
    type V = ParseErrorView;

    open spec fn view(&self) -> ParseErrorView {
        match self {
            ParseError::UnexpectedCharacter(b) => ParseErrorView::UnexpectedCharacter(*b),
            ParseError::ExpectedArrowHead => ParseErrorView::ExpectedArrowHead,
            ParseError::UnclosedQuote => ParseErrorView::UnclosedQuote,
            ParseError::ExpectedGraphKind => ParseErrorView::ExpectedGraphKind,
            ParseError::UnsupportedGraphKind => ParseErrorView::UnsupportedGraphKind,
            ParseError::MissingOpenBrace => ParseErrorView::MissingOpenBrace,
            ParseError::ExpectedOpenBrace => ParseErrorView::ExpectedOpenBrace,
            ParseError::ExpectedToken => ParseErrorView::ExpectedToken,
            ParseError::ExpectedCloseSquare => ParseErrorView::ExpectedCloseSquare,
            ParseError::UnexpectedToken(t) => ParseErrorView::UnexpectedToken(t@),
            ParseError::ExpectedAttributeEnd => ParseErrorView::ExpectedAttributeEnd,
            ParseError::ExpectedEquals => ParseErrorView::ExpectedEquals,
            ParseError::ExpectedCoordinates => ParseErrorView::ExpectedCoordinates,
            ParseError::ExpectedEdgeCoordinates => ParseErrorView::ExpectedEdgeCoordinates,
            ParseError::ExpectedComma => ParseErrorView::ExpectedComma,
            ParseError::InvalidCoordinate(c) => ParseErrorView::InvalidCoordinate(c@),
            ParseError::PositionAlreadyDefined(n) => ParseErrorView::PositionAlreadyDefined(n@),
            ParseError::ExpectedUrl => ParseErrorView::ExpectedUrl,
            ParseError::LinkAlreadyDefined(n) => ParseErrorView::LinkAlreadyDefined(n@),
            ParseError::ExpectedString => ParseErrorView::ExpectedString,
            ParseError::LabelAlreadyDefined(n) => ParseErrorView::LabelAlreadyDefined(n@),
            ParseError::ExpectedNodeName => ParseErrorView::ExpectedNodeName,
            ParseError::EdgePositionAlreadyDefined => ParseErrorView::EdgePositionAlreadyDefined,
            ParseError::MissingNodeCoordinates(n) => ParseErrorView::MissingNodeCoordinates(n@),
            ParseError::MissingEdgeCoordinates(t, f) => ParseErrorView::MissingEdgeCoordinates(
                t@,
                f@,
            ),
        }
    }
}

} // verus!
