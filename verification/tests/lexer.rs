use lib::error::ParseError;
use lib::lexer::{handle_backslash, tokenise, tokenise_bytes, tokenise_keywords, Token};

fn word(t: &Token) -> Option<Vec<u8>> {
    match t {
        Token::Word(w) => Some(w.clone()),
        _ => None,
    }
}

#[test]
fn tokenise_simple_digraph() {
    let ts = tokenise("digraph { a -> b; }").unwrap();
    assert_eq!(ts.len(), 6);
    assert!(matches!(ts[0], Token::Digraph));
    assert!(matches!(ts[1], Token::OpenBrace));
    assert_eq!(word(&ts[2]), Some(b"a".to_vec()));
    assert!(matches!(ts[3], Token::Arrow));
    assert_eq!(word(&ts[4]), Some(b"b".to_vec()));
    assert!(matches!(ts[5], Token::CloseBrace));
}

#[test]
fn tokenise_punctuation() {
    let ts = tokenise("[ ] , = { }").unwrap();
    assert_eq!(ts.len(), 6);
    assert!(matches!(ts[0], Token::OpenSquare));
    assert!(matches!(ts[1], Token::CloseSquare));
    assert!(matches!(ts[2], Token::Comma));
    assert!(matches!(ts[3], Token::Equal));
    assert!(matches!(ts[4], Token::OpenBrace));
    assert!(matches!(ts[5], Token::CloseBrace));
}

#[test]
fn tokenise_keywords_in_source() {
    let ts = tokenise("pos node graph digraph dv_label dv_link posx").unwrap();
    assert_eq!(ts.len(), 7);
    assert!(matches!(ts[0], Token::Pos));
    assert!(matches!(ts[1], Token::Node));
    assert!(matches!(ts[2], Token::Graph));
    assert!(matches!(ts[3], Token::Digraph));
    assert!(matches!(ts[4], Token::Label));
    assert!(matches!(ts[5], Token::Link));
    assert_eq!(word(&ts[6]), Some(b"posx".to_vec()));
}

#[test]
fn tokenise_quoted_keyword_stays_word() {
    let ts = tokenise("\"pos\"").unwrap();
    assert_eq!(ts.len(), 1);
    assert_eq!(word(&ts[0]), Some(b"pos".to_vec()));
}

#[test]
fn tokenise_words_with_dots_and_digits() {
    let ts = tokenise("1.5 a.b _x9").unwrap();
    assert_eq!(ts.len(), 3);
    assert_eq!(word(&ts[0]), Some(b"1.5".to_vec()));
    assert_eq!(word(&ts[1]), Some(b"a.b".to_vec()));
    assert_eq!(word(&ts[2]), Some(b"_x9".to_vec()));
}

#[test]
fn tokenise_word_cannot_start_with_dot() {
    match tokenise(".5") {
        Err(ParseError::UnexpectedCharacter(c)) => assert_eq!(c, b'.'),
        _ => panic!("a dot cannot start a word"),
    }
}

#[test]
fn tokenise_quoted_string_keeps_spaces_and_commas() {
    let ts = tokenise("\"27,90 1,2\"").unwrap();
    assert_eq!(ts.len(), 1);
    assert_eq!(word(&ts[0]), Some(b"27,90 1,2".to_vec()));
}

#[test]
fn tokenise_backslash_newline_in_quotes_is_dropped() {
    let ts = tokenise("\"ab\\\ncd\"").unwrap();
    assert_eq!(ts.len(), 1);
    assert_eq!(word(&ts[0]), Some(b"abcd".to_vec()));
}

#[test]
fn tokenise_backslash_before_other_byte_in_quotes_is_dropped() {
    let ts = tokenise("\"\\N\"").unwrap();
    assert_eq!(ts.len(), 1);
    assert_eq!(word(&ts[0]), Some(b"N".to_vec()));
}

#[test]
fn tokenise_skips_backslash_semicolon_and_whitespace() {
    let ts = tokenise(" a ;\\\n\t b ").unwrap();
    assert_eq!(ts.len(), 2);
    assert_eq!(word(&ts[0]), Some(b"a".to_vec()));
    assert_eq!(word(&ts[1]), Some(b"b".to_vec()));
}

#[test]
fn tokenise_empty_source() {
    let ts = tokenise("").unwrap();
    assert_eq!(ts.len(), 0);
}

#[test]
fn tokenise_dash_without_arrow_head() {
    assert!(matches!(tokenise("a - b"), Err(ParseError::ExpectedArrowHead)));
    assert!(matches!(tokenise("a -"), Err(ParseError::ExpectedArrowHead)));
}

#[test]
fn tokenise_unclosed_quote() {
    assert!(matches!(tokenise("\"abc"), Err(ParseError::UnclosedQuote)));
}

#[test]
fn tokenise_unexpected_character() {
    match tokenise("a @ b") {
        Err(ParseError::UnexpectedCharacter(c)) => assert_eq!(c, b'@'),
        _ => panic!("@ is not a token"),
    }
}

#[test]
fn tokenise_non_ascii_byte_in_quotes_is_latin1() {
    let ts = tokenise_bytes(&[b'"', 0xE9, b'"']).unwrap();
    assert_eq!(ts.len(), 1);
    assert_eq!(word(&ts[0]), Some(vec![0xE9]));
}

#[test]
fn tokenise_keywords_table() {
    assert!(matches!(tokenise_keywords(b"pos".to_vec()), Token::Pos));
    assert!(matches!(tokenise_keywords(b"digraph".to_vec()), Token::Digraph));
    assert!(matches!(tokenise_keywords(b"graph".to_vec()), Token::Graph));
    assert!(matches!(tokenise_keywords(b"node".to_vec()), Token::Node));
    assert!(matches!(tokenise_keywords(b"dv_label".to_vec()), Token::Label));
    assert!(matches!(tokenise_keywords(b"dv_link".to_vec()), Token::Link));
    assert_eq!(word(&tokenise_keywords(b"Digraph".to_vec())), Some(b"Digraph".to_vec()));
    assert_eq!(word(&tokenise_keywords(b"label".to_vec())), Some(b"label".to_vec()));
}

#[test]
fn handle_backslash_skips_only_a_line_feed() {
    assert_eq!(handle_backslash(b"\\\nx", 1), 2);
    assert_eq!(handle_backslash(b"\\x", 1), 1);
    assert_eq!(handle_backslash(b"\\", 1), 1);
}

#[test]
fn tokenise_all_ascii_white_space_separates() {
    let ts = tokenise("a\x0C\rb\tc\nd e").unwrap();
    assert_eq!(ts.len(), 5);
    assert_eq!(word(&ts[4]), Some(b"e".to_vec()));
}

#[test]
fn tokenise_ignores_skipped_bytes_between_tokens() {
    let plain = format!("{:?}", tokenise("digraph{a->b[pos=\"1,2\"]}").unwrap());
    let spaced = format!("{:?}", tokenise("digraph {\n  a ->\\ b ; [ pos = \"1,2\" ] ;\t}").unwrap());
    assert_eq!(plain, spaced);
}
