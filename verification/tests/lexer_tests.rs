use lib::lex_error::LexerError;
use lib::lexer::Lexer;
use lib::span::Span;
use lib::token::Token;

fn tokens(src: &str) -> Vec<Token> {
    let (spanned, errors) = Lexer::new(src).tokenize();
    assert!(errors.is_empty(), "unexpected lex errors: {errors:?}");
    spanned.into_iter().map(|s| s.token).collect()
}

fn with_errors(src: &str) -> (Vec<Token>, Vec<LexerError>) {
    let (spanned, errors) = Lexer::new(src).tokenize();
    (spanned.into_iter().map(|s| s.token).collect(), errors)
}

fn float_value(t: &Token) -> f64 {
    match t {
        Token::Float(text) => text.parse::<f64>().unwrap(),
        other => panic!("expected a float, got {other:?}"),
    }
}

// ── Keywords ─────────────────────────────────────────────────────────────

#[test]
fn keywords() {
    // Test each keyword individually because `exec` changes the lex mode
    // for everything that follows it.
    let cases = [
        ("and", Token::And),
        ("catch", Token::Catch),
        ("else", Token::Else),
        ("exit", Token::Exit),
        ("false", Token::False),
        ("fn", Token::Fn),
        ("for", Token::For),
        ("if", Token::If),
        ("import", Token::Import),
        ("in", Token::In),
        ("let", Token::Let),
        ("mut", Token::Mut),
        ("not", Token::Not),
        ("or", Token::Or),
        ("return", Token::Return),
        ("task", Token::Task),
        ("true", Token::True),
        ("try", Token::Try),
        ("while", Token::While),
    ];
    for (src, expected) in &cases {
        let toks = tokens(src);
        assert_eq!(toks[0], *expected, "failed for keyword: {src}");
    }
    // exec is special: it transitions to Exec mode
    let toks_exec = tokens("exec\n");
    assert_eq!(toks_exec[0], Token::Exec);
}

// ── Operators ─────────────────────────────────────────────────────────────

#[test]
fn two_char_operators() {
    let toks = tokens("== != <= >= -> ..");
    assert_eq!(toks[0], Token::EqEq);
    assert_eq!(toks[1], Token::BangEq);
    assert_eq!(toks[2], Token::LtEq);
    assert_eq!(toks[3], Token::GtEq);
    assert_eq!(toks[4], Token::Arrow);
    assert_eq!(toks[5], Token::DotDot);
}

#[test]
fn single_char_operators() {
    let toks = tokens("= < > + - * / % ? . , : ;");
    let expected = [
        Token::Eq,
        Token::Lt,
        Token::Gt,
        Token::Plus,
        Token::Minus,
        Token::Star,
        Token::Slash,
        Token::Percent,
        Token::Question,
        Token::Dot,
        Token::Comma,
        Token::Colon,
        Token::Semi,
    ];
    for (i, exp) in expected.iter().enumerate() {
        assert_eq!(&toks[i], exp);
    }
}

#[test]
fn delimiters() {
    let toks = tokens("{ } ( ) [ ]");
    assert_eq!(toks[0], Token::LBrace);
    assert_eq!(toks[1], Token::RBrace);
    assert_eq!(toks[2], Token::LParen);
    assert_eq!(toks[3], Token::RParen);
    assert_eq!(toks[4], Token::LBracket);
    assert_eq!(toks[5], Token::RBracket);
}

// ── Literals ──────────────────────────────────────────────────────────────

#[test]
fn integer_literals() {
    let toks = tokens("0 42 1_000_000");
    assert_eq!(toks[0], Token::Int(0));
    assert_eq!(toks[1], Token::Int(42));
    assert_eq!(toks[2], Token::Int(1_000_000));
}

#[test]
fn float_literals() {
    let toks = tokens("3.14 0.5 100.0");
    assert_eq!(float_value(&toks[0]), 3.14);
    assert_eq!(float_value(&toks[1]), 0.5);
    assert_eq!(float_value(&toks[2]), 100.0);
}

#[test]
fn plain_string() {
    let toks = tokens(r#""hello world""#);
    assert_eq!(toks[0], Token::Str("hello world".into()));
}

#[test]
fn string_escapes() {
    let toks = tokens(r#""line1\nline2\ttab""#);
    assert_eq!(toks[0], Token::Str("line1\nline2\ttab".into()));
}

#[test]
fn triple_quoted_string() {
    let src = "\"\"\"hello\nworld\"\"\"";
    let toks = tokens(src);
    assert_eq!(toks[0], Token::Str("hello\nworld".into()));
}

// ── F-strings ─────────────────────────────────────────────────────────────

#[test]
fn fstring_no_interp() {
    let toks = tokens(r#"f"hello""#);
    assert_eq!(toks[0], Token::FStrStart);
    assert_eq!(toks[1], Token::FStrText("hello".into()));
    assert_eq!(toks[2], Token::FStrEnd);
    assert_eq!(toks[3], Token::Eof);
}

#[test]
fn fstring_single_interp() {
    let toks = tokens(r#"f"hello {name}""#);
    assert_eq!(toks[0], Token::FStrStart);
    assert_eq!(toks[1], Token::FStrText("hello ".into()));
    assert_eq!(toks[2], Token::FStrOpen);
    assert_eq!(toks[3], Token::Ident("name".into()));
    assert_eq!(toks[4], Token::FStrClose);
    assert_eq!(toks[5], Token::FStrEnd);
}

#[test]
fn fstring_multiple_interps() {
    let toks = tokens(r#"f"{a} and {b}""#);
    assert_eq!(toks[0], Token::FStrStart);
    assert_eq!(toks[1], Token::FStrOpen);
    assert_eq!(toks[2], Token::Ident("a".into()));
    assert_eq!(toks[3], Token::FStrClose);
    assert_eq!(toks[4], Token::FStrText(" and ".into()));
    assert_eq!(toks[5], Token::FStrOpen);
    assert_eq!(toks[6], Token::Ident("b".into()));
    assert_eq!(toks[7], Token::FStrClose);
    assert_eq!(toks[8], Token::FStrEnd);
}

#[test]
fn lexer_fstring_dot_access_in_interp() {
    let toks = tokens(r#"f"{os.platform}""#);
    assert_eq!(toks[0], Token::FStrStart);
    assert_eq!(toks[1], Token::FStrOpen);
    assert_eq!(toks[2], Token::Ident("os".into()));
    assert_eq!(toks[3], Token::Dot);
    assert_eq!(toks[4], Token::Ident("platform".into()));
    assert_eq!(toks[5], Token::FStrClose);
    assert_eq!(toks[6], Token::FStrEnd);
}

// ── Exec lines ────────────────────────────────────────────────────────────

#[test]
fn lexer_exec_simple() {
    let toks = tokens("exec git clone https://github.com/org/repo\n");
    assert_eq!(toks[0], Token::Exec);
    assert_eq!(toks[1], Token::ExecWord("git".into()));
    assert_eq!(toks[2], Token::ExecWord("clone".into()));
    assert_eq!(toks[3], Token::ExecWord("https://github.com/org/repo".into()));
    assert_eq!(toks[4], Token::ExecEnd);
}

#[test]
fn exec_with_interp() {
    let toks = tokens("exec cargo build --{profile}\n");
    assert_eq!(toks[0], Token::Exec);
    assert_eq!(toks[1], Token::ExecWord("cargo".into()));
    assert_eq!(toks[2], Token::ExecWord("build".into()));
    assert_eq!(toks[3], Token::ExecWord("--".into()));
    assert_eq!(toks[4], Token::ExecOpen);
    assert_eq!(toks[5], Token::Ident("profile".into()));
    assert_eq!(toks[6], Token::ExecClose);
    assert_eq!(toks[7], Token::ExecEnd);
}

#[test]
fn exec_question_swallow() {
    let toks = tokens("exec rm -rf dist ?\n");
    assert_eq!(toks[0], Token::Exec);
    assert_eq!(toks[1], Token::ExecWord("rm".into()));
    assert_eq!(toks[2], Token::ExecWord("-rf".into()));
    assert_eq!(toks[3], Token::ExecWord("dist".into()));
    assert_eq!(toks[4], Token::Question);
    assert_eq!(toks[5], Token::Eof);
}

#[test]
fn exec_comment_ends_line() {
    let toks = tokens("exec echo hello // ignored\nlet x = 1\n");
    let end = toks.iter().position(|t| t == &Token::ExecEnd).unwrap();
    assert_eq!(toks[end + 1], Token::Let);
}

// ── Comments ──────────────────────────────────────────────────────────────

#[test]
fn line_comment_skipped() {
    let toks = tokens("let x = 1 // comment\nlet y = 2\n");
    let non: Vec<_> = toks.iter().filter(|t| !matches!(t, Token::Newline | Token::Eof)).collect();
    assert_eq!(non.len(), 8); // let x = 1  let y = 2
}

#[test]
fn block_comment_skipped() {
    let toks = tokens("let /* gone */ x = 1\n");
    let non: Vec<_> = toks.iter().filter(|t| !matches!(t, Token::Newline | Token::Eof)).collect();
    assert_eq!(non[0], &Token::Let);
    assert_eq!(non[1], &Token::Ident("x".into()));
}

// ── Span tracking ─────────────────────────────────────────────────────────

#[test]
fn span_byte_offsets() {
    let src = "let x = 42";
    let (spanned, _) = Lexer::new(src).tokenize();
    assert_eq!(spanned[0].span, Span::new(0, 3)); // let
    assert_eq!(spanned[1].span, Span::new(4, 5)); // x
    assert_eq!(spanned[2].span, Span::new(6, 7)); // =
    assert_eq!(spanned[3].span, Span::new(8, 10)); // 42
}

#[test]
fn span_line_column() {
    let src = "let x = 1\nlet y = 2";
    let (spanned, _) = Lexer::new(src).tokenize();
    let second_let = spanned.iter().filter(|s| s.token == Token::Let).nth(1).unwrap();
    let (line, col) = second_let.span.location(src);
    assert_eq!(line, 2);
    assert_eq!(col, 1);
}

// ── Identifiers ───────────────────────────────────────────────────────────

#[test]
fn dot_access_lexes_as_three_tokens() {
    let toks = tokens("os.platform");
    assert_eq!(toks[0], Token::Ident("os".into()));
    assert_eq!(toks[1], Token::Dot);
    assert_eq!(toks[2], Token::Ident("platform".into()));
}

#[test]
fn let_mut_sequence() {
    let toks = tokens("let mut count = 0\n");
    assert_eq!(toks[0], Token::Let);
    assert_eq!(toks[1], Token::Mut);
    assert_eq!(toks[2], Token::Ident("count".into()));
    assert_eq!(toks[3], Token::Eq);
    assert_eq!(toks[4], Token::Int(0));
}

// ── Error recovery ────────────────────────────────────────────────────────

#[test]
fn unterminated_string() {
    let (_, errs) = with_errors(r#""oops"#);
    assert!(errs.iter().any(|e| matches!(e, LexerError::UnterminatedString { .. })));
}

#[test]
fn invalid_escape() {
    let (_, errs) = with_errors(r#""bad \q escape""#);
    assert!(errs.iter().any(|e| matches!(e, LexerError::InvalidEscape { ch: 'q', .. })));
}

#[test]
fn unterminated_block_comment() {
    let (_, errs) = with_errors("/* no end");
    assert!(errs.iter().any(|e| matches!(e, LexerError::UnterminatedBlock { .. })));
}

#[test]
fn eof_is_always_last_token() {
    for src in ["", "let x = 1\n", "// just a comment\n"] {
        let toks = tokens(src);
        assert_eq!(toks.last(), Some(&Token::Eof), "missing Eof for: {src:?}");
    }
}
