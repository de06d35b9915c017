use vstd::prelude::*;
use vstd::string::StringSliceAdditionalSpecFns;

use crate::error::{ParseError, ParseErrorView};

verus! {

pub const OPEN_BRACE: u8 = 0x7B;
pub const CLOSE_BRACE: u8 = 0x7D;
pub const OPEN_SQUARE: u8 = 0x5B;
pub const CLOSE_SQUARE: u8 = 0x5D;
pub const COMMA: u8 = 0x2C;
pub const EQUAL: u8 = 0x3D;
pub const DASH: u8 = 0x2D;
pub const GREATER: u8 = 0x3E;
pub const QUOTE: u8 = 0x22;
pub const BACKSLASH: u8 = 0x5C;
pub const SEMICOLON: u8 = 0x3B;
pub const LINE_FEED: u8 = 0x0A;
pub const DOT: u8 = 0x2E;
pub const UNDERSCORE: u8 = 0x5F;

/// A lexical token of the DOT subset that the viewer reads.
#[derive(Debug)]
pub enum Token {
    OpenBrace,
    CloseBrace,
    OpenSquare,
    CloseSquare,
    Comma,
    Equal,
    Arrow,
    Pos,
    Node,
    Graph,
    Digraph,
    Label,
    Link,
    /// An identifier or a quoted string, as the bytes it is made of.
    Word(Vec<u8>),
}

/// The mathematical value of a [`Token`].
pub enum TokenView {
    OpenBrace,
    CloseBrace,
    OpenSquare,
    CloseSquare,
    Comma,
    Equal,
    Arrow,
    Pos,
    Node,
    Graph,
    Digraph,
    Label,
    Link,
    Word(Seq<u8>),
}

impl View for Token {
    type V = TokenView;

    open spec fn view(&self) -> TokenView {
        match self {
            Token::OpenBrace => TokenView::OpenBrace,
            Token::CloseBrace => TokenView::CloseBrace,
            Token::OpenSquare => TokenView::OpenSquare,
            Token::CloseSquare => TokenView::CloseSquare,
            Token::Comma => TokenView::Comma,
            Token::Equal => TokenView::Equal,
            Token::Arrow => TokenView::Arrow,
            Token::Pos => TokenView::Pos,
            Token::Node => TokenView::Node,
            Token::Graph => TokenView::Graph,
            Token::Digraph => TokenView::Digraph,
            Token::Label => TokenView::Label,
            Token::Link => TokenView::Link,
            Token::Word(w) => TokenView::Word(w@),
        }
    }
}

impl Token {
    /// A copy of the token.
    pub fn duplicate(&self) -> (t: Token)
        ensures
            t@ == self@,
    {
        match self {
            Token::OpenBrace => Token::OpenBrace,
            Token::CloseBrace => Token::CloseBrace,
            Token::OpenSquare => Token::OpenSquare,
            Token::CloseSquare => Token::CloseSquare,
            Token::Comma => Token::Comma,
            Token::Equal => Token::Equal,
            Token::Arrow => Token::Arrow,
            Token::Pos => Token::Pos,
            Token::Node => Token::Node,
            Token::Graph => Token::Graph,
            Token::Digraph => Token::Digraph,
            Token::Label => Token::Label,
            Token::Link => Token::Link,
            Token::Word(w) => Token::Word(w.clone()),
        }
    }
}

/// The views of a sequence of tokens.
pub open spec fn tokens_view(ts: Seq<Token>) -> Seq<TokenView> {
    ts.map_values(|t: Token| t@)
}

/// `Ok(prefix + rest)` if `r` is `Ok(rest)`; the error of `r` otherwise.
pub open spec fn prepend<T, E>(prefix: Seq<T>, r: Result<Seq<T>, E>) -> Result<Seq<T>, E> {
    match r {
        Ok(rest) => Ok(prefix + rest),
        Err(e) => Err(e),
    }
}

/// Bytes that may start an unquoted word.
pub open spec fn is_word_start(b: u8) -> bool {
    // a-z, A-Z, 0-9 and '_'
    (0x61u8 <= b <= 0x7Au8) || (0x41u8 <= b <= 0x5Au8) || (0x30u8 <= b <= 0x39u8) || b == UNDERSCORE
}

/// Bytes that may continue an unquoted word.
pub open spec fn is_word_char(b: u8) -> bool {
    is_word_start(b) || b == DOT
}

/// ASCII white space: space, tab, line feed, form feed and carriage return.
pub open spec fn is_space(b: u8) -> bool {
    b == 0x20u8 || b == 0x09u8 || b == 0x0Au8 || b == 0x0Cu8 || b == 0x0Du8
}

/// The end (exclusive) of the run of word bytes that starts at `j`.
pub open spec fn word_end(s: Seq<u8>, j: int) -> int
    decreases s.len() - j,
{
    if 0 <= j < s.len() && is_word_char(s[j]) {
        word_end(s, j + 1)
    } else {
        j
    }
}

/// The text of a quoted string whose first byte after the opening quote is at
/// `i`, and the position just after its closing quote; `None` when the input
/// ends before the closing quote. A backslash is dropped, and so is a line feed
/// right after it.
pub open spec fn quoted(s: Seq<u8>, i: int) -> Option<(Seq<u8>, int)>
    decreases s.len() - i,
{
    if i < 0 || i >= s.len() {
        None
    } else if s[i] == QUOTE {
        Some((Seq::empty(), i + 1))
    } else if s[i] == BACKSLASH {
        if i + 1 < s.len() && s[i + 1] == LINE_FEED {
            quoted(s, i + 2)
        } else {
            quoted(s, i + 1)
        }
    } else {
        match quoted(s, i + 1) {
            Some((w, e)) => Some((seq![s[i]] + w, e)),
            None => None,
        }
    }
}

/// The bytes of the keyword `pos`.
pub open spec fn kw_pos() -> Seq<u8> {
    seq![0x70u8, 0x6Fu8, 0x73u8]
}

/// The bytes of the keyword `digraph`.
pub open spec fn kw_digraph() -> Seq<u8> {
    seq![0x64u8, 0x69u8, 0x67u8, 0x72u8, 0x61u8, 0x70u8, 0x68u8]
}

/// The bytes of the keyword `graph`.
pub open spec fn kw_graph() -> Seq<u8> {
    seq![0x67u8, 0x72u8, 0x61u8, 0x70u8, 0x68u8]
}

/// The bytes of the keyword `node`.
pub open spec fn kw_node() -> Seq<u8> {
    seq![0x6Eu8, 0x6Fu8, 0x64u8, 0x65u8]
}

/// The bytes of the keyword `dv_label`.
pub open spec fn kw_label() -> Seq<u8> {
    seq![0x64u8, 0x76u8, UNDERSCORE, 0x6Cu8, 0x61u8, 0x62u8, 0x65u8, 0x6Cu8]
}

/// The bytes of the keyword `dv_link`.
pub open spec fn kw_link() -> Seq<u8> {
    seq![0x64u8, 0x76u8, UNDERSCORE, 0x6Cu8, 0x69u8, 0x6Eu8, 0x6Bu8]
}

/// The token that a word stands for: a keyword, or the word itself.
pub open spec fn keyword(w: Seq<u8>) -> TokenView {
    if w == kw_pos() {
        TokenView::Pos
    } else if w == kw_digraph() {
        TokenView::Digraph
    } else if w == kw_graph() {
        TokenView::Graph
    } else if w == kw_node() {
        TokenView::Node
    } else if w == kw_label() {
        TokenView::Label
    } else if w == kw_link() {
        TokenView::Link
    } else {
        TokenView::Word(w)
    }
}

/// The tokens of `s` from position `i` on, or the first lexical error.
pub open spec fn lex_from(s: Seq<u8>, i: int) -> Result<Seq<TokenView>, ParseErrorView>
    decreases s.len() - i,
{
    if i < 0 || i >= s.len() {
        Ok(Seq::empty())
    } else {
        let b = s[i];
        if b == OPEN_BRACE {
            prepend(seq![TokenView::OpenBrace], lex_from(s, i + 1))
        } else if b == CLOSE_BRACE {
            prepend(seq![TokenView::CloseBrace], lex_from(s, i + 1))
        } else if b == OPEN_SQUARE {
            prepend(seq![TokenView::OpenSquare], lex_from(s, i + 1))
        } else if b == CLOSE_SQUARE {
            prepend(seq![TokenView::CloseSquare], lex_from(s, i + 1))
        } else if b == COMMA {
            prepend(seq![TokenView::Comma], lex_from(s, i + 1))
        } else if b == EQUAL {
            prepend(seq![TokenView::Equal], lex_from(s, i + 1))
        } else if b == DASH {
            if i + 1 < s.len() && s[i + 1] == GREATER {
                prepend(seq![TokenView::Arrow], lex_from(s, i + 2))
            } else {
                Err(ParseErrorView::ExpectedArrowHead)
            }
        } else if b == QUOTE {
            match quoted(s, i + 1) {
                Some((w, e)) => if i < e <= s.len() {
                    prepend(seq![TokenView::Word(w)], lex_from(s, e))
                } else {
                    Err(ParseErrorView::UnclosedQuote)
                },
                None => Err(ParseErrorView::UnclosedQuote),
            }
        } else if is_word_start(b) {
            let e = word_end(s, i + 1);
            if i < e <= s.len() {
                prepend(seq![keyword(s.subrange(i, e))], lex_from(s, e))
            } else {
                Ok(Seq::empty())
            }
        } else if b == BACKSLASH || b == SEMICOLON || is_space(b) {
            lex_from(s, i + 1)
        } else {
            Err(ParseErrorView::UnexpectedCharacter(b))
        }
    }
}

/// The tokens of a whole input.
pub open spec fn lex(s: Seq<u8>) -> Result<Seq<TokenView>, ParseErrorView> {
    lex_from(s, 0)
}

proof fn lemma_word_end_bounds(s: Seq<u8>, j: int)
    requires
        0 <= j <= s.len(),
    ensures
        j <= word_end(s, j) <= s.len(),
        forall|k: int| j <= k < word_end(s, j) ==> is_word_char(#[trigger] s[k]),
        word_end(s, j) < s.len() ==> !is_word_char(s[word_end(s, j)]),
    decreases s.len() - j,
{
    if j < s.len() && is_word_char(s[j]) {
        lemma_word_end_bounds(s, j + 1);
    }
}

proof fn lemma_quoted_end(s: Seq<u8>, i: int)
    requires
        0 <= i,
    ensures
        quoted(s, i) matches Some((w, e)) ==> i < e <= s.len(),
    decreases s.len() - i,
{
    if 0 <= i < s.len() {
        if s[i] == QUOTE {
        } else if s[i] == BACKSLASH {
            if i + 1 < s.len() && s[i + 1] == LINE_FEED {
                lemma_quoted_end(s, i + 2);
            } else {
                lemma_quoted_end(s, i + 1);
            }
        } else {
            lemma_quoted_end(s, i + 1);
        }
    }
}

/// Bytes that the lexer skips between tokens: white space, `;` and `\`.
pub open spec fn is_skipped(b: u8) -> bool {
    b == BACKSLASH || b == SEMICOLON || is_space(b)
}

/// Where the lexer goes on after the byte at `i`: past the token or the
/// skipped byte that starts there, or `None` where it stops with an error.
pub open spec fn lex_step(s: Seq<u8>, i: int) -> Option<int> {
    let b = s[i];
    if b == OPEN_BRACE || b == CLOSE_BRACE || b == OPEN_SQUARE || b == CLOSE_SQUARE || b == COMMA || b == EQUAL {
        Some(i + 1)
    } else if b == DASH {
        if i + 1 < s.len() && s[i + 1] == GREATER {
            Some(i + 2)
        } else {
            None
        }
    } else if b == QUOTE {
        match quoted(s, i + 1) {
            Some((w, e)) => Some(e),
            None => None,
        }
    } else if is_word_start(b) {
        Some(word_end(s, i + 1))
    } else if is_skipped(b) {
        Some(i + 1)
    } else {
        None
    }
}

/// Lexing `s` from `i` comes to position `p` between two tokens (outside
/// quoted strings and words, and not between `-` and `>`), or stops before
/// `p` with an error that no byte from `p` on decides.
pub open spec fn between_tokens(s: Seq<u8>, i: int, p: int) -> bool
    decreases s.len() - i,
{
    if i == p {
        true
    } else if i < 0 || i > p || i >= s.len() {
        false
    } else {
        match lex_step(s, i) {
            Some(k) => if i < k <= s.len() {
                between_tokens(s, k, p)
            } else {
                false
            },
            None => s[i] != QUOTE,
        }
    }
}

proof fn lemma_word_end_shift(x: Seq<u8>, y: Seq<u8>, j: int)
    requires
        0 <= j,
    ensures
        word_end(x + y, x.len() + j) == x.len() + word_end(y, j),
    decreases y.len() - j,
{
    if j < y.len() {
        assert((x + y)[x.len() + j] == y[j]);
        if is_word_char(y[j]) {
            lemma_word_end_shift(x, y, j + 1);
        }
    }
}

proof fn lemma_quoted_shift(x: Seq<u8>, y: Seq<u8>, j: int)
    requires
        0 <= j,
    ensures
        quoted(x + y, x.len() + j) == match quoted(y, j) {
            Some((v, e)) => Some((v, x.len() + e)),
            None => None,
        },
    decreases y.len() - j,
{
    let s = x + y;
    let i = x.len() + j;
    if j < y.len() {
        assert(s[i] == y[j]);
        if j + 1 < y.len() {
            assert(s[i + 1] == y[j + 1]);
        }
        if y[j] == QUOTE {
        } else if y[j] == BACKSLASH {
            if j + 1 < y.len() && y[j + 1] == LINE_FEED {
                lemma_quoted_shift(x, y, j + 2);
            } else {
                lemma_quoted_shift(x, y, j + 1);
            }
        } else {
            lemma_quoted_shift(x, y, j + 1);
        }
    }
}

/// Lexing only looks forward: what comes before a position does not change
/// the tokens from there on.
proof fn lemma_lex_shift(x: Seq<u8>, y: Seq<u8>, j: int)
    requires
        0 <= j,
    ensures
        lex_from(x + y, x.len() + j) == lex_from(y, j),
    decreases y.len() - j,
{
    let s = x + y;
    let i = x.len() + j;
    if j < y.len() {
        let b = y[j];
        assert(s[i] == b);
        if j + 1 < y.len() {
            assert(s[i + 1] == y[j + 1]);
        }
        if b == OPEN_BRACE || b == CLOSE_BRACE || b == OPEN_SQUARE || b == CLOSE_SQUARE || b == COMMA || b == EQUAL {
            lemma_lex_shift(x, y, j + 1);
        } else if b == DASH {
            if j + 1 < y.len() && y[j + 1] == GREATER {
                lemma_lex_shift(x, y, j + 2);
            }
        } else if b == QUOTE {
            lemma_quoted_shift(x, y, j + 1);
            match quoted(y, j + 1) {
                Some((v, e)) => {
                    if j < e <= y.len() {
                        lemma_lex_shift(x, y, e);
                    }
                },
                None => {},
            }
        } else if is_word_start(b) {
            lemma_word_end_shift(x, y, j + 1);
            let e = word_end(y, j + 1);
            if j < e <= y.len() {
                assert(s.subrange(i, x.len() + e) =~= y.subrange(j, e));
                lemma_lex_shift(x, y, e);
            }
        } else if is_skipped(b) {
            lemma_lex_shift(x, y, j + 1);
        }
    }
}

/// Skipped bytes at a position do not change the tokens from there on.
proof fn lemma_lex_skip(t: Seq<u8>, p: int, n: int)
    requires
        0 <= p,
        0 <= n,
        p + n <= t.len(),
        forall|k: int| p <= k < p + n ==> is_skipped(#[trigger] t[k]),
    ensures
        lex_from(t, p) == lex_from(t, p + n),
    decreases n,
{
    if n > 0 {
        assert(is_skipped(t[p]));
        lemma_lex_skip(t, p + 1, n - 1);
    }
}

proof fn lemma_quoted_local(s: Seq<u8>, t: Seq<u8>, j: int)
    requires
        0 <= j,
        quoted(s, j) is Some,
        quoted(s, j)->Some_0.1 <= t.len(),
        forall|k: int| j <= k < quoted(s, j)->Some_0.1 ==> #[trigger] t[k] == s[k],
    ensures
        quoted(t, j) == quoted(s, j),
    decreases s.len() - j,
{
    let e = quoted(s, j)->Some_0.1;
    lemma_quoted_end(s, j);
    assert(j < e);
    assert(t[j] == s[j]);
    if s[j] == QUOTE {
    } else if s[j] == BACKSLASH {
        if j + 1 < s.len() && s[j + 1] == LINE_FEED {
            assert(quoted(s, j) == quoted(s, j + 2));
            lemma_quoted_end(s, j + 2);
            assert(t[j + 1] == s[j + 1]);
            assert forall|k: int| j + 2 <= k < quoted(s, j + 2)->Some_0.1 implies #[trigger] t[k] == s[k] by {
                assert(j <= k < e);
            }
            lemma_quoted_local(s, t, j + 2);
        } else {
            assert(quoted(s, j) == quoted(s, j + 1));
            lemma_quoted_end(s, j + 1);
            assert forall|k: int| j + 1 <= k < quoted(s, j + 1)->Some_0.1 implies #[trigger] t[k] == s[k] by {
                assert(j <= k < e);
            }
            lemma_quoted_local(s, t, j + 1);
        }
    } else {
        assert(quoted(s, j + 1) is Some);
        assert(quoted(s, j + 1)->Some_0.1 == e);
        lemma_quoted_end(s, j + 1);
        lemma_quoted_local(s, t, j + 1);
    }
}

proof fn lemma_word_end_local(s: Seq<u8>, t: Seq<u8>, j: int)
    requires
        0 <= j <= s.len(),
        word_end(s, j) <= t.len(),
        forall|k: int| j <= k < word_end(s, j) ==> #[trigger] t[k] == s[k],
        word_end(s, j) < t.len() ==> !is_word_char(t[word_end(s, j)]),
    ensures
        word_end(t, j) == word_end(s, j),
    decreases s.len() - j,
{
    lemma_word_end_bounds(s, j);
    if j < s.len() && is_word_char(s[j]) {
        assert(word_end(s, j) == word_end(s, j + 1));
        lemma_word_end_bounds(s, j + 1);
        assert(t[j] == s[j]);
        assert forall|k: int| j + 1 <= k < word_end(s, j + 1) implies #[trigger] t[k] == s[k] by {
            assert(j <= k < word_end(s, j));
        }
        lemma_word_end_local(s, t, j + 1);
    } else if j < t.len() {
        assert(word_end(s, j) == j);
    }
}

/// The text with `w` inserted at position `p`.
pub open spec fn inserted(s: Seq<u8>, p: int, w: Seq<u8>) -> Seq<u8> {
    s.take(p) + w + s.skip(p)
}

proof fn lemma_insert_from(s: Seq<u8>, p: int, w: Seq<u8>, i: int)
    requires
        0 <= i <= p <= s.len(),
        w.len() > 0,
        forall|k: int| 0 <= k < w.len() ==> is_skipped(#[trigger] w[k]),
        between_tokens(s, i, p),
    ensures
        lex_from(inserted(s, p, w), i) == lex_from(s, i),
    decreases s.len() - i,
{
    let t = inserted(s, p, w);
    assert(t.len() == s.len() + w.len());
    assert forall|k: int| 0 <= k < p implies #[trigger] t[k] == s[k] by {}
    assert forall|k: int| 0 <= k < w.len() implies #[trigger] t[p + k] == w[k] by {}
    if i == p {
        assert forall|k: int| p <= k < p + w.len() implies is_skipped(#[trigger] t[k]) by {
            assert(t[p + (k - p)] == w[k - p]);
        }
        lemma_lex_skip(t, p, w.len() as int);
        let x = s.take(p) + w;
        assert(t =~= x + s.skip(p));
        lemma_lex_shift(x, s.skip(p), 0);
        assert(s =~= s.take(p) + s.skip(p));
        lemma_lex_shift(s.take(p), s.skip(p), 0);
    } else {
        let b = s[i];
        assert(t[i] == b);
        if i + 1 < p {
            assert(t[i + 1] == s[i + 1]);
        }
        assert(t[p] == w[0]);
        if b == OPEN_BRACE || b == CLOSE_BRACE || b == OPEN_SQUARE || b == CLOSE_SQUARE || b == COMMA || b == EQUAL {
            lemma_insert_from(s, p, w, i + 1);
        } else if b == DASH {
            if i + 1 < s.len() && s[i + 1] == GREATER {
                assert(between_tokens(s, i + 2, p));
                assert(i + 2 <= p);
                lemma_insert_from(s, p, w, i + 2);
            } else if i + 1 == p {
                assert(is_skipped(w[0]));
                assert(t[i + 1] != GREATER);
            }
        } else if b == QUOTE {
            let (v, e) = quoted(s, i + 1)->Some_0;
            lemma_quoted_end(s, i + 1);
            assert(between_tokens(s, e, p));
            assert(e <= p);
            assert forall|k: int| i + 1 <= k < e implies #[trigger] t[k] == s[k] by {}
            lemma_quoted_local(s, t, i + 1);
            lemma_insert_from(s, p, w, e);
        } else if is_word_start(b) {
            let e = word_end(s, i + 1);
            lemma_word_end_bounds(s, i + 1);
            assert(between_tokens(s, e, p));
            assert(e <= p);
            assert forall|k: int| i + 1 <= k < e implies #[trigger] t[k] == s[k] by {}
            if e < p {
                assert(t[e] == s[e]);
            }
            lemma_word_end_local(s, t, i + 1);
            assert(t.subrange(i, e) =~= s.subrange(i, e));
            lemma_insert_from(s, p, w, e);
        } else if is_skipped(b) {
            lemma_insert_from(s, p, w, i + 1);
        }
    }
}

/// Inserting white space, `;` or `\` where the lexer stands between two
/// tokens (outside quoted strings and words, and not between `-` and `>`),
/// or after an error that the bytes before decide, leaves the tokens, or the
/// error, unchanged.
pub proof fn lemma_lex_insert_skipped(s: Seq<u8>, p: int, w: Seq<u8>)
    requires
        0 <= p <= s.len(),
        between_tokens(s, 0, p),
        forall|k: int| 0 <= k < w.len() ==> is_skipped(#[trigger] w[k]),
    ensures
        lex(inserted(s, p, w)) == lex(s),
{
    if w.len() == 0 {
        assert(inserted(s, p, w) =~= s);
    } else {
        lemma_insert_from(s, p, w, 0);
    }
}

/// Whether `a` and `b` hold the same bytes.
pub fn bytes_equal(a: &[u8], b: &[u8]) -> (r: bool)
    ensures
        r == (a@ == b@),
{
    if a.len() != b.len() {
        return false;
    }
    let mut i: usize = 0;
    while i < a.len()
        invariant
            a@.len() == b@.len(),
            0 <= i <= a@.len(),
            forall|k: int| 0 <= k < i ==> a@[k] == b@[k],
        decreases a@.len() - i,
    {
        if a[i] != b[i] {
            return false;
        }
        i = i + 1;
    }
    assert(a@ =~= b@);
    true
}

/// The token for a word: the keyword it spells, or the word itself.
pub fn tokenise_keywords(word: Vec<u8>) -> (t: Token)
    ensures
        t@ == keyword(word@),
{
    // "pos", "digraph", "graph", "node", "dv_label" and "dv_link"
    let pos: [u8; 3] = [0x70u8, 0x6Fu8, 0x73u8];
    let digraph: [u8; 7] = [0x64u8, 0x69u8, 0x67u8, 0x72u8, 0x61u8, 0x70u8, 0x68u8];
    let graph: [u8; 5] = [0x67u8, 0x72u8, 0x61u8, 0x70u8, 0x68u8];
    let node: [u8; 4] = [0x6Eu8, 0x6Fu8, 0x64u8, 0x65u8];
    let label: [u8; 8] = [0x64u8, 0x76u8, UNDERSCORE, 0x6Cu8, 0x61u8, 0x62u8, 0x65u8, 0x6Cu8];
    let link: [u8; 7] = [0x64u8, 0x76u8, UNDERSCORE, 0x6Cu8, 0x69u8, 0x6Eu8, 0x6Bu8];
    assert(pos@ =~= kw_pos());
    assert(digraph@ =~= kw_digraph());
    assert(graph@ =~= kw_graph());
    assert(node@ =~= kw_node());
    assert(label@ =~= kw_label());
    assert(link@ =~= kw_link());
    if bytes_equal(word.as_slice(), pos.as_slice()) {
        Token::Pos
    } else if bytes_equal(word.as_slice(), digraph.as_slice()) {
        Token::Digraph
    } else if bytes_equal(word.as_slice(), graph.as_slice()) {
        Token::Graph
    } else if bytes_equal(word.as_slice(), node.as_slice()) {
        Token::Node
    } else if bytes_equal(word.as_slice(), label.as_slice()) {
        Token::Label
    } else if bytes_equal(word.as_slice(), link.as_slice()) {
        Token::Link
    } else {
        Token::Word(word)
    }
}

/// Inside a quoted string, just after a backslash at `pos - 1`: the position
/// to go on from, which skips a line feed that follows the backslash.
pub fn handle_backslash(bytes: &[u8], pos: usize) -> (next: usize)
    requires
        pos <= bytes@.len(),
    ensures
        next == if pos < bytes@.len() && bytes@[pos as int] == LINE_FEED {
            pos + 1
        } else {
            pos as int
        },
{
    if pos < bytes.len() && bytes[pos] == LINE_FEED {
        pos + 1
    } else {
        pos
    }
}

/// Reads a quoted string whose text starts at `start`: its text and the
/// position after the closing quote, or `None` if there is no closing quote.
fn read_quoted(bytes: &[u8], start: usize) -> (r: Option<(Vec<u8>, usize)>)
    requires
        start <= bytes@.len(),
    ensures
        match r {
            Some((w, e)) => quoted(bytes@, start as int) == Some((w@, e as int)),
            None => quoted(bytes@, start as int) is None,
        },
{
    let mut word: Vec<u8> = Vec::new();
    let mut i: usize = start;
    while i < bytes.len()
        invariant
            start <= i <= bytes@.len(),
            quoted(bytes@, start as int) == match quoted(bytes@, i as int) {
                Some((w, e)) => Some((word@ + w, e)),
                None => None,
            },
        decreases bytes@.len() - i,
    {
        let b = bytes[i];
        if b == QUOTE {
            assert(word@ + Seq::<u8>::empty() =~= word@);
            return Some((word, i + 1));
        } else if b == BACKSLASH {
            i = handle_backslash(bytes, i + 1);
        } else {
            proof {
                match quoted(bytes@, i + 1) {
                    Some((w, e)) => {
                        assert(word@.push(b) + w =~= word@ + (seq![b] + w));
                    },
                    None => {},
                }
            }
            word.push(b);
            i = i + 1;
        }
    }
    None
}

/// Reads an unquoted word that starts at `start`, up to the first byte that
/// cannot continue it.
fn read_word(bytes: &[u8], start: usize) -> (r: (Vec<u8>, usize))
    requires
        start < bytes@.len(),
    ensures
        r.1 == word_end(bytes@, start + 1),
        r.0@ == bytes@.subrange(start as int, r.1 as int),
{
    proof {
        lemma_word_end_bounds(bytes@, start + 1);
    }
    let mut word: Vec<u8> = Vec::new();
    word.push(bytes[start]);
    let mut i: usize = start + 1;
    while i < bytes.len() && (bytes[i] == DOT || (0x61u8 <= bytes[i] && bytes[i] <= 0x7Au8) || (0x41u8
        <= bytes[i] && bytes[i] <= 0x5Au8) || (0x30u8 <= bytes[i] && bytes[i] <= 0x39u8) || bytes[i]
        == UNDERSCORE)
        invariant
            start + 1 <= i <= bytes@.len(),
            word_end(bytes@, i as int) == word_end(bytes@, start + 1),
            word@ == bytes@.subrange(start as int, i as int),
        decreases bytes@.len() - i,
    {
        word.push(bytes[i]);
        assert(word@ =~= bytes@.subrange(start as int, i + 1));
        i = i + 1;
    }
    (word, i)
}

/// The tokens of a byte string, or the first lexical error in it.
pub fn tokenise_bytes(bytes: &[u8]) -> (res: Result<Vec<Token>, ParseError>)
    ensures
        match res {
            Ok(ts) => lex(bytes@) == Ok::<Seq<TokenView>, ParseErrorView>(tokens_view(ts@))
                && ts@.len() <= bytes@.len(),
            Err(e) => lex(bytes@) == Err::<Seq<TokenView>, ParseErrorView>(e@),
        },
{
    let mut tokens: Vec<Token> = Vec::new();
    let mut i: usize = 0;
    while i < bytes.len()
        invariant
            0 <= i <= bytes@.len(),
            tokens@.len() <= i,
            lex(bytes@) == prepend(tokens_view(tokens@), lex_from(bytes@, i as int)),
        decreases bytes@.len() - i,
    {
        let ghost s = bytes@;
        let ghost before = tokens_view(tokens@);
        let b = bytes[i];
        let single = if b == OPEN_BRACE {
            Some(Token::OpenBrace)
        } else if b == CLOSE_BRACE {
            Some(Token::CloseBrace)
        } else if b == OPEN_SQUARE {
            Some(Token::OpenSquare)
        } else if b == CLOSE_SQUARE {
            Some(Token::CloseSquare)
        } else if b == COMMA {
            Some(Token::Comma)
        } else if b == EQUAL {
            Some(Token::Equal)
        } else {
            None
        };
        if let Some(t) = single {
            let ghost tv = t@;
            tokens.push(t);
            proof {
                assert(tokens_view(tokens@) =~= before + seq![tv]);
                match lex_from(s, i + 1) {
                    Ok(rest) => {
                        assert(before + (seq![tv] + rest) =~= before + seq![tv] + rest);
                    },
                    Err(_) => {},
                }
            }
            i = i + 1;
        } else if b == DASH {
            if i + 1 < bytes.len() && bytes[i + 1] == GREATER {
                tokens.push(Token::Arrow);
                proof {
                    assert(tokens_view(tokens@) =~= before + seq![TokenView::Arrow]);
                    match lex_from(s, i + 2) {
                        Ok(rest) => {
                            assert(before + (seq![TokenView::Arrow] + rest) =~= before
                                + seq![TokenView::Arrow] + rest);
                        },
                        Err(_) => {},
                    }
                }
                i = i + 2;
            } else {
                return Err(ParseError::ExpectedArrowHead);
            }
        } else if b == QUOTE {
            proof {
                lemma_quoted_end(s, i + 1);
            }
            match read_quoted(bytes, i + 1) {
                Some((w, e)) => {
                    let ghost wv = w@;
                    tokens.push(Token::Word(w));
                    proof {
                        assert(tokens_view(tokens@) =~= before + seq![TokenView::Word(wv)]);
                        match lex_from(s, e as int) {
                            Ok(rest) => {
                                assert(before + (seq![TokenView::Word(wv)] + rest) =~= before
                                    + seq![TokenView::Word(wv)] + rest);
                            },
                            Err(_) => {},
                        }
                    }
                    i = e;
                },
                None => {
                    return Err(ParseError::UnclosedQuote);
                },
            }
        } else if (0x61u8 <= b && b <= 0x7Au8) || (0x41u8 <= b && b <= 0x5Au8) || (0x30u8 <= b && b <= 0x39u8)
            || b == UNDERSCORE {
            proof {
                lemma_word_end_bounds(s, i + 1);
            }
            let (w, e) = read_word(bytes, i);
            let t = tokenise_keywords(w);
            let ghost tv = t@;
            tokens.push(t);
            proof {
                assert(tokens_view(tokens@) =~= before + seq![tv]);
                match lex_from(s, e as int) {
                    Ok(rest) => {
                        assert(before + (seq![tv] + rest) =~= before + seq![tv] + rest);
                    },
                    Err(_) => {},
                }
            }
            i = e;
        } else if b == BACKSLASH || b == SEMICOLON || b == 0x20u8 || b == 0x09u8 || b == 0x0Au8 || b
            == 0x0Cu8 || b == 0x0Du8 {
            i = i + 1;
        } else {
            return Err(ParseError::UnexpectedCharacter(b));
        }
    }
    assert(tokens_view(tokens@) + Seq::<TokenView>::empty() =~= tokens_view(tokens@));
    Ok(tokens)
}

/// The tokens of a DOT source text, read byte by byte from its UTF-8
/// encoding, or the first lexical error in it.
pub fn tokenise(src: &str) -> (res: Result<Vec<Token>, ParseError>)
    ensures
        match res {
            Ok(ts) => lex(src.spec_bytes()) == Ok::<Seq<TokenView>, ParseErrorView>(tokens_view(ts@))
                && ts@.len() <= src.spec_bytes().len(),
            Err(e) => lex(src.spec_bytes()) == Err::<Seq<TokenView>, ParseErrorView>(e@),
        },
{
    tokenise_bytes(src.as_bytes())
}

} // verus!
