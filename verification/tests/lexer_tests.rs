use audion::error::AudionError;
use audion::lexer::Lexer;
use audion::token::TokenKind;

#[test]
fn lexes_a_let_statement() {
    let mut lx = Lexer::new("let x = 42;");
    let toks = lx.tokenize().unwrap();
    assert_eq!(toks.len(), 6);
    assert!(matches!(toks[0].kind, TokenKind::Let));
    assert!(matches!(&toks[1].kind, TokenKind::Ident(s) if s == "x"));
    assert!(matches!(toks[2].kind, TokenKind::Eq));
    assert!(matches!(&toks[3].kind, TokenKind::Number(s) if s == "42"));
    assert!(matches!(toks[4].kind, TokenKind::Semicolon));
    assert!(matches!(toks[5].kind, TokenKind::Eof));
    assert_eq!(toks[0].span.line, 1);
}

#[test]
fn lexes_operators_and_comments() {
    let mut lx = Lexer::new("a <= b // note\n/* block\n */ c => d :: e");
    let toks = lx.tokenize().unwrap();
    assert!(matches!(toks[1].kind, TokenKind::LtEq));
    assert!(matches!(toks[3].kind, TokenKind::Ident(_)));
    assert_eq!(toks[3].span.line, 3);
    assert!(matches!(toks[4].kind, TokenKind::FatArrow));
    assert!(matches!(toks[6].kind, TokenKind::ColonColon));
}

#[test]
fn lexes_string_escapes() {
    let mut lx = Lexer::new("\"a\\nb\\q\"");
    let toks = lx.tokenize().unwrap();
    assert!(matches!(&toks[0].kind, TokenKind::StringLit(s) if s == "a\nb\\q"));
}

#[test]
fn lexes_decimal_numbers() {
    let mut lx = Lexer::new("3.25 7.");
    let toks = lx.tokenize().unwrap();
    assert!(matches!(&toks[0].kind, TokenKind::Number(s) if s == "3.25"));
    assert!(matches!(&toks[1].kind, TokenKind::Number(s) if s == "7"));
    assert!(matches!(toks[2].kind, TokenKind::Dot));
}

#[test]
fn reports_unterminated_string() {
    let mut lx = Lexer::new("\"abc");
    match lx.tokenize() {
        Err(AudionError::LexError { msg, line }) => {
            assert_eq!(msg, "unterminated string");
            assert_eq!(line, 1);
        }
        _ => panic!("expected a lexing error"),
    }
}

#[test]
fn reports_unexpected_character() {
    let mut lx = Lexer::new("x\n@");
    match lx.tokenize() {
        Err(e) => assert_eq!(e.message(), "error[line 2]: unexpected character '@'"),
        Ok(_) => panic!("expected a lexing error"),
    }
}

#[test]
fn tokens_end_with_one_eof_and_follow_one_another() {
    let src = "fn f(a) {\n  // note\n  return a * 2; /* x */ }\n";
    let toks = Lexer::new(src).tokenize().unwrap();
    assert!(matches!(toks.last().unwrap().kind, TokenKind::Eof));
    assert_eq!(toks.iter().filter(|t| matches!(t.kind, TokenKind::Eof)).count(), 1);
    for w in toks.windows(2) {
        assert!(w[0].span.end <= w[1].span.start);
    }
    for t in &toks {
        assert!(t.span.start <= t.span.end && t.span.end <= src.chars().count());
    }
}
