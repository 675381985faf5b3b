use texlog::lexer::{tokenize, Token, TokenKind};

#[test]
fn lex_parens() {
    let s = "((())())";
    let lexed_tokens = tokenize(s);
    assert_eq!(
        lexed_tokens,
        vec![
            Token {
                kind: TokenKind::LeftParen,
                pos: 0,
            },
            Token {
                kind: TokenKind::LeftParen,
                pos: 1,
            },
            Token {
                kind: TokenKind::LeftParen,
                pos: 2,
            },
            Token {
                kind: TokenKind::RightParen,
                pos: 3,
            },
            Token {
                kind: TokenKind::RightParen,
                pos: 4,
            },
            Token {
                kind: TokenKind::LeftParen,
                pos: 5,
            },
            Token {
                kind: TokenKind::RightParen,
                pos: 6,
            },
            Token {
                kind: TokenKind::RightParen,
                pos: 7,
            },
            Token {
                kind: TokenKind::EOF,
                pos: 8,
            },
        ]
    )
}

#[test]
fn lex_path() {
    let s = "(./path/to/interesting/place.awesome)";
    let lexed_tokens = tokenize(s);
    assert_eq!(
        lexed_tokens,
        vec![
            Token {
                kind: TokenKind::LeftParen,
                pos: 0,
            },
            Token {
                kind: TokenKind::Path("./path/to/interesting/place.awesome".to_string()),
                pos: 1,
            },
            Token {
                kind: TokenKind::RightParen,
                pos: 36,
            },
            Token {
                kind: TokenKind::EOF,
                pos: 37,
            },
        ]
    )
}

/// Token completeness on an input without paths: the concatenated
/// renderings of all tokens before the end-of-log sentinel restore the
/// input exactly.
#[test]
fn renderings_restore_input() {
    let s = "hello  world!\npx(a b)\t?\n\n";
    let tokens = tokenize(s);
    let mut rebuilt = String::new();
    for t in &tokens {
        if !t.has_kind(&TokenKind::EOF) {
            rebuilt += t.to_string().as_str();
        }
    }
    assert_eq!(rebuilt, s);
}

/// Exactly one end-of-log sentinel, at the end, at the text's length; a
/// fresh scan of the same input yields it again (pulls past the end of one
/// scan yield nothing further, so the stream never grows).
#[test]
fn eof_unique_and_last() {
    let s = "a(b)c";
    let tokens = tokenize(s);
    let eofs = tokens
        .iter()
        .filter(|t| t.has_kind(&TokenKind::EOF))
        .count();
    assert_eq!(eofs, 1);
    assert!(tokens.last().unwrap().has_kind(&TokenKind::EOF));
    assert_eq!(tokens.last().unwrap().pos, 5);
    assert_eq!(tokenize(s).len(), tokens.len());
}

/// A single newline inside a path is stitched over; the newline is not part
/// of the path's text.
#[test]
fn path_wraps_across_one_newline() {
    let s = "(./a\nb)";
    let tokens = tokenize(s);
    assert_eq!(tokens[1].kind, TokenKind::Path("./ab".to_string()));
    assert_eq!(tokens[2].kind, TokenKind::RightParen);
    assert_eq!(tokens[2].pos, 6);
}

/// A blank line terminates a path.
#[test]
fn path_stops_at_blank_line() {
    let s = "/x\n\ny";
    let tokens = tokenize(s);
    assert_eq!(tokens[0].kind, TokenKind::Path("/x".to_string()));
    assert_eq!(tokens[1].kind, TokenKind::Newline);
    assert_eq!(tokens[2].kind, TokenKind::Newline);
    assert_eq!(tokens[3].kind, TokenKind::Word("y".to_string()));
}

/// A line-initial record marker terminates a path without being consumed.
#[test]
fn path_stops_at_record_marker() {
    let s = "/x\nLaTeX";
    let tokens = tokenize(s);
    assert_eq!(tokens[0].kind, TokenKind::Path("/x".to_string()));
    assert_eq!(tokens[1].kind, TokenKind::Newline);
    assert_eq!(tokens[1].pos, 2);
    assert_eq!(tokens[2].kind, TokenKind::Word("LaTeX".to_string()));

    // without the marker the newline would have been stitched over
    let t2 = tokenize("/x\nyz");
    assert_eq!(t2[0].kind, TokenKind::Path("/xyz".to_string()));
}

/// Words, whitespace runs and punctuation are maximal runs / single
/// characters with the right positions.
#[test]
fn words_whitespace_punctuation() {
    let s = "ab  !x,";
    let tokens = tokenize(s);
    assert_eq!(tokens[0].kind, TokenKind::Word("ab".to_string()));
    assert_eq!(tokens[1].kind, TokenKind::Whitespace("  ".to_string()));
    assert_eq!(tokens[2].kind, TokenKind::ExclamationMark);
    assert_eq!(tokens[2].pos, 4);
    assert_eq!(tokens[3].kind, TokenKind::Word("x".to_string()));
    assert_eq!(tokens[4].kind, TokenKind::Punctuation(','));
    assert_eq!(tokens[4].pos, 6);
}

#[test]
fn token_constructors() {
    let t = Token::new(TokenKind::Punctuation('%'), 7);
    assert!(t.has_kind(&TokenKind::Punctuation('%')));
    assert!(!t.has_kind(&TokenKind::Newline));
    assert_eq!(t.to_string(), "%");
    assert_eq!(t.pos, 7);
}

/// The empty log yields only the end-of-log sentinel.
#[test]
fn empty_input() {
    let tokens = tokenize("");
    assert_eq!(tokens.len(), 1);
    assert_eq!(tokens[0].kind, TokenKind::EOF);
    assert_eq!(tokens[0].pos, 0);
}
