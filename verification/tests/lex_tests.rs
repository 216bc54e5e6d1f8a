use crochet::lex::{tokenize, Token, TokenKind};

fn collect_tokens(src: &str) -> Vec<Token> {
    let mut ts = tokenize(src);
    let mut out = Vec::new();
    while let Some(t) = ts.next() {
        out.push(t);
    }
    out
}

#[test]
fn test_tokenization() {
    let src = "sc 6\ninc 6\nsc 2, [sc, inc] 5";

    let expected = vec![
        Token { kind: TokenKind::Sc, line: 1, col: 1 },
        Token { kind: TokenKind::Number(6), line: 1, col: 4 },
        Token { kind: TokenKind::Newline, line: 1, col: 5 },
        Token { kind: TokenKind::Inc, line: 2, col: 1 },
        Token { kind: TokenKind::Number(6), line: 2, col: 5 },
        Token { kind: TokenKind::Newline, line: 2, col: 6 },
        Token { kind: TokenKind::Sc, line: 3, col: 1 },
        Token { kind: TokenKind::Number(2), line: 3, col: 4 },
        Token { kind: TokenKind::Comma, line: 3, col: 5 },
        Token { kind: TokenKind::LBracket, line: 3, col: 7 },
        Token { kind: TokenKind::Sc, line: 3, col: 8 },
        Token { kind: TokenKind::Comma, line: 3, col: 10 },
        Token { kind: TokenKind::Inc, line: 3, col: 12 },
        Token { kind: TokenKind::RBracket, line: 3, col: 15 },
        Token { kind: TokenKind::Number(5), line: 3, col: 17 },
    ];

    assert_eq!(collect_tokens(src), expected);

    assert_eq!(
        collect_tokens("% hello there %"),
        vec![Token { kind: TokenKind::Comment("hello there".into()), line: 1, col: 1 }]
    );
}

#[test]
fn test_peek_is_stable() {
    let mut ts = tokenize("sc 2");
    let first = ts.peek();
    let second = ts.peek();
    assert_eq!(first, second);
    let taken = ts.next();
    assert_eq!(taken, first);
    assert_eq!(
        taken,
        Some(Token { kind: TokenKind::Sc, line: 1, col: 1 })
    );
    let t = taken.unwrap();
    assert_eq!(t.kind(), TokenKind::Sc);
    assert_eq!(t.source_loc(), (1, 1));
}

#[test]
fn test_keyword_longest_match() {
    let toks = collect_tokens("inc in mr blinc skip 2");
    let kinds: Vec<TokenKind> = toks.into_iter().map(|t| t.kind).collect();
    assert_eq!(
        kinds,
        vec![
            TokenKind::Inc,
            TokenKind::InMr,
            TokenKind::Blinc,
            TokenKind::Skip,
            TokenKind::Number(2),
        ]
    );
}

#[test]
fn test_unterminated_comment_yields_no_token() {
    let mut ts = tokenize("% foobar");
    assert_eq!(ts.peek(), None);
    assert!(!ts.is_empty());
    assert_eq!(ts.current_loc(), (1, 1));
}

#[test]
fn test_number_overflow_yields_no_token() {
    // The run of digits does not fit in a u32, so no token is produced and
    // the stream stays pinned at the start of the literal.
    let mut ts = tokenize("99999999999");
    assert_eq!(ts.peek(), None);
    assert!(!ts.is_empty());
    assert_eq!(ts.current_loc(), (1, 1));
    // The largest representable literal still lexes.
    let mut ts = tokenize("4294967295");
    assert_eq!(
        ts.next(),
        Some(Token { kind: TokenKind::Number(4294967295), line: 1, col: 1 })
    );
}
