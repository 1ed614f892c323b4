use lib::ast::{BinOp, StmtKind, TypeAnn};
use lib::chunk::Chunk;
use lib::comp_error::CompileError;
use lib::compiler::Compiler;
use lib::lex_error::LexerError;
use lib::lexer::Lexer;
use lib::opcode::Opcode;
use lib::parse_error::ParseError;
use lib::parser::Parser;
use lib::span::Span;
use lib::token::{Spanned, Token};
use lib::text::{join_texts, sort_texts, text_le};
use lib::value::{list_text, map_text, Value};
use std::collections::HashMap;

fn lex(src: &str) -> (Vec<Spanned>, Vec<LexerError>) {
    Lexer::new(src).tokenize()
}

fn parse(src: &str) -> (lib::ast::Script, Vec<ParseError>) {
    let (tokens, _) = lex(src);
    Parser::new(tokens).parse_script()
}

fn compile(src: &str) -> (Chunk, Vec<CompileError>) {
    let (script, _) = parse(src);
    Compiler::compile_script(&script)
}

// ── Span ──────────────────────────────────────────────────────────────────

#[test]
fn span_merge_covers_both() {
    let a = Span::new(4, 9);
    let b = Span::new(2, 6);
    let m = a.merge(b);
    assert_eq!(m, Span::new(2, 9));
    assert_eq!(b.merge(a), m);
    assert!(m.start <= a.start && a.end <= m.end);
    assert!(m.start <= b.start && b.end <= m.end);
}

#[test]
fn span_len_and_empty() {
    assert_eq!(Span::new(3, 10).len(), 7);
    assert!(Span::new(5, 5).is_empty());
    assert!(!Span::new(5, 6).is_empty());
}

#[test]
fn span_to_string_is_start_dot_dot_end() {
    assert_eq!(Span::new(0, 12).to_string(), "0..12");
    assert_eq!(Span::new(105, 2048).to_string(), "105..2048");
}

#[test]
fn span_location_counts_characters_not_bytes() {
    // `é` takes two bytes but one column.
    let src = "é x\nab";
    assert_eq!(Span::new(3, 4).location(src), (1, 3));
    assert_eq!(Span::new(5, 6).location(src), (2, 1));
    assert_eq!(Span::new(6, 7).location(src), (2, 2));
}

#[test]
fn span_location_past_the_end_or_inside_a_character() {
    let src = "é\nb";
    // Offset 1 is inside `é`: the scan runs to the end.
    assert_eq!(Span::new(1, 2).location(src), (2, 2));
    assert_eq!(Span::new(99, 100).location(src), (2, 2));
}

// ── Lexer ─────────────────────────────────────────────────────────────────

#[test]
fn lexer_unexpected_char_is_reported_and_skipped() {
    let (toks, errs) = lex("a @ b");
    assert_eq!(errs, vec![LexerError::UnexpectedChar { ch: '@', span: Span::new(2, 3) }]);
    let kinds: Vec<Token> = toks.into_iter().map(|s| s.token).collect();
    assert_eq!(
        kinds,
        vec![Token::Ident("a".into()), Token::Ident("b".into()), Token::Eof]
    );
}

#[test]
fn lexer_integer_overflow_is_invalid_number() {
    let (toks, errs) = lex("99999999999999999999");
    assert_eq!(errs, vec![LexerError::InvalidNumber { span: Span::new(0, 20) }]);
    assert_eq!(toks[0].token, Token::Int(0));
}

#[test]
fn lexer_largest_integer_fits() {
    let (toks, errs) = lex("9_223_372_036_854_775_807");
    assert!(errs.is_empty());
    assert_eq!(toks[0].token, Token::Int(i64::MAX));
}

#[test]
fn lexer_dot_without_digit_is_not_a_float() {
    let (toks, _) = lex("1..5");
    let kinds: Vec<Token> = toks.into_iter().map(|s| s.token).collect();
    assert_eq!(kinds, vec![Token::Int(1), Token::DotDot, Token::Int(5), Token::Eof]);
}

#[test]
fn lexer_float_keeps_text_without_underscores() {
    let (toks, _) = lex("1_000.25");
    assert_eq!(toks[0].token, Token::Float("1000.25".into()));
    assert_eq!(toks[0].span, Span::new(0, 8));
}

#[test]
fn lexer_invalid_escape_span_covers_backslash_and_byte() {
    let (toks, errs) = lex(r#""a\qb""#);
    assert_eq!(errs, vec![LexerError::InvalidEscape { ch: 'q', span: Span::new(2, 4) }]);
    assert_eq!(toks[0].token, Token::Str("ab".into()));
}

#[test]
fn lexer_string_ends_at_newline_with_error() {
    let (toks, errs) = lex("\"abc\nx");
    assert_eq!(errs, vec![LexerError::UnterminatedString { span: Span::new(0, 5) }]);
    assert_eq!(toks[0].token, Token::Str("abc".into()));
    assert_eq!(toks[1].token, Token::Ident("x".into()));
}

#[test]
fn lexer_spans_spell_their_tokens() {
    let src = "let mut n = 12 + x.y\n";
    let (toks, errs) = lex(src);
    assert!(errs.is_empty());
    let texts: Vec<&str> = toks.iter().map(|s| &src[s.span.start..s.span.end]).collect();
    assert_eq!(texts, vec!["let", "mut", "n", "=", "12", "+", "x", ".", "y", "\n", ""]);
}

#[test]
fn lexer_tokens_in_order_and_eof_last() {
    let src = "exec ls {dir} ?\nlet s = f\"a{b}c\"";
    let (toks, _) = lex(src);
    assert_eq!(toks.last().unwrap().token, Token::Eof);
    assert_eq!(toks.iter().filter(|s| s.token == Token::Eof).count(), 1);
    for w in toks.windows(2) {
        assert!(w[0].span.end <= w[1].span.start);
    }
    for s in &toks {
        assert!(s.span.start <= s.span.end && s.span.end <= src.len());
    }
}

#[test]
fn lexer_error_messages() {
    let sp = Span::new(3, 4);
    assert_eq!(
        LexerError::UnexpectedChar { ch: '@', span: sp }.to_string(),
        "unexpected character '@' at 3..4"
    );
    assert_eq!(
        LexerError::UnterminatedString { span: sp }.to_string(),
        "unterminated string starting at 3..4"
    );
    assert_eq!(
        LexerError::UnterminatedBlock { span: sp }.to_string(),
        "unterminated block comment starting at 3..4"
    );
    assert_eq!(
        LexerError::InvalidEscape { ch: 'q', span: sp }.to_string(),
        "invalid escape sequence '\\q' at 3..4"
    );
    assert_eq!(LexerError::InvalidNumber { span: sp }.to_string(), "invalid number literal at 3..4");
}

// ── Tokens ────────────────────────────────────────────────────────────────

#[test]
fn lexer_backslash_at_end_of_string_is_reported_twice() {
    let (toks, errs) = lex("\"ab\\");
    assert!(matches!(&toks[0].token, Token::Str(s) if s == "ab"));
    assert_eq!(toks[0].span, Span::new(0, 4));
    assert_eq!(
        errs,
        vec![
            LexerError::UnterminatedString { span: Span::new(0, 4) },
            LexerError::UnterminatedString { span: Span::new(0, 4) },
        ]
    );
}

#[test]
fn lexer_fstring_run_without_text_is_dropped_with_its_end() {
    let (toks, errs) = lex("f\"\\q\"");
    let kinds: Vec<Token> = toks.iter().map(|t| t.token.clone()).collect();
    assert_eq!(kinds, vec![Token::FStrStart, Token::Eof]);
    assert_eq!(
        errs,
        vec![
            LexerError::InvalidEscape { ch: 'q', span: Span::new(2, 4) },
            LexerError::UnterminatedString { span: Span::new(5, 5) },
        ]
    );
}

#[test]
fn token_word_round_trip() {
    let toks = vec![
        Token::And, Token::Catch, Token::Else, Token::Exec, Token::Exit, Token::False,
        Token::Fn, Token::For, Token::If, Token::Import, Token::In, Token::Let, Token::Mut,
        Token::Not, Token::Or, Token::Return, Token::Task, Token::True, Token::Try,
        Token::While, Token::Ident("deploy_2".to_string()),
    ];
    for t in toks {
        assert_eq!(Token::from_word(&t.to_string()), t);
    }
}

#[test]
fn lexer_token_count_is_bounded_by_source_length() {
    for src in ["", "a", "f\"{x}\"", "exec ls {d}\n", "let x = [1, 2]\n", "exec", "f\"{", "exec {"] {
        let (toks, _) = lex(src);
        assert!(toks.len() <= src.len() + 1);
    }
    // One token per byte and the end: the bound is reached.
    assert_eq!(lex("\n\n").0.len(), 3);
    // An exec line left open at the end closes without reading a byte.
    let kinds: Vec<Token> = lex("exec").0.into_iter().map(|s| s.token).collect();
    assert_eq!(kinds, vec![Token::Exec, Token::ExecEnd, Token::Eof]);
}

#[test]
fn token_from_word_keywords_and_idents() {
    assert_eq!(Token::from_word("while"), Token::While);
    assert_eq!(Token::from_word("task"), Token::Task);
    assert_eq!(Token::from_word("whiles"), Token::Ident("whiles".into()));
    assert_eq!(Token::from_word("_x1"), Token::Ident("_x1".into()));
}

#[test]
fn token_to_string() {
    assert_eq!(Token::Int(-42).to_string(), "-42");
    assert_eq!(Token::Int(i64::MIN).to_string(), "-9223372036854775808");
    assert_eq!(Token::Str("hi".into()).to_string(), "\"hi\"");
    assert_eq!(Token::FStrStart.to_string(), "f\"");
    assert_eq!(Token::LBrace.to_string(), "{");
    assert_eq!(Token::Arrow.to_string(), "->");
    assert_eq!(Token::Return.to_string(), "return");
    assert_eq!(Token::ExecEnd.to_string(), "<exec-end>");
    assert_eq!(Token::Newline.to_string(), "<newline>");
    assert_eq!(Token::Eof.to_string(), "<eof>");
    assert_eq!(Token::ExecWord("--flag".into()).to_string(), "--flag");
}

// ── AST names ─────────────────────────────────────────────────────────────

#[test]
fn binop_and_type_names() {
    assert_eq!(BinOp::Add.to_string(), "+");
    assert_eq!(BinOp::NotEq.to_string(), "!=");
    assert_eq!(BinOp::And.to_string(), "and");
    assert_eq!(TypeAnn::Dict.to_string(), "map");
    assert_eq!(TypeAnn::String.to_string(), "string");
}

// ── Parser ────────────────────────────────────────────────────────────────

#[test]
fn parser_reads_nothing_after_the_first_eof() {
    let (mut tokens, _) = lex("let x = 1\n");
    let (more, _) = lex("let y = 2\n");
    let whole = Parser::new(tokens.clone()).parse_script();
    tokens.extend(more);
    let (script, errors) = Parser::new(tokens).parse_script();
    assert_eq!(script.stmts.len(), 1);
    assert_eq!(script.stmts.len(), whole.0.stmts.len());
    assert_eq!(script.span, whole.0.span);
    assert_eq!(errors.len(), whole.1.len());
}

#[test]
fn parser_unknown_type_is_invalid() {
    let (_, errs) = parse("let x: number = 1\n");
    assert_eq!(errs.len(), 1);
    assert!(matches!(errs[0], ParseError::Invalid { msg: "unknown type", .. }));
}

#[test]
fn parser_error_messages() {
    let sp = Span::new(0, 1);
    let e = ParseError::Expected { expected: "')'", got: Token::Comma, span: sp };
    assert_eq!(e.to_string(), "expected ')', got `,`");
    assert_eq!(e.span(), sp);
    let u = ParseError::Unexpected { got: Token::Eof, span: sp, msg: "expected an expression" };
    assert_eq!(u.to_string(), "expected an expression, got `<eof>`");
    let eof = ParseError::UnexpectedEof { span: sp, msg: "block" };
    assert_eq!(eof.to_string(), "unexpected end of file: block");
    let inv = ParseError::Invalid { span: sp, msg: "unknown type" };
    assert_eq!(inv.to_string(), "unknown type");
}

#[test]
fn parser_expression_without_operand_is_reported() {
    let (script, errs) = parse("let x = )\nlet y = 2\n");
    assert_eq!(errs.len(), 1);
    assert!(matches!(
        &errs[0],
        ParseError::Unexpected { got: Token::RParen, msg: "expected an expression", .. }
    ));
    assert_eq!(script.stmts.len(), 1);
    assert!(matches!(script.stmts[0].kind, StmtKind::Let { .. }));
}

// ── Chunk ─────────────────────────────────────────────────────────────────

#[test]
fn add_const_deduplicates_strings_only() {
    let mut c = Chunk::new("t");
    let a = c.add_const(Value::str("x"));
    let b = c.add_const(Value::Int(7));
    let a2 = c.add_const(Value::str("x"));
    let b2 = c.add_const(Value::Int(7));
    assert_eq!(a, 0);
    assert_eq!(b, 1);
    assert_eq!(a2, 0);
    assert_eq!(b2, 2);
    assert_eq!(c.consts.len(), 3);
    assert!(matches!(&c.consts[a2], Value::Str(s) if s.as_str() == "x"));
}

#[test]
fn emit_jump_then_patch_targets_the_end() {
    let mut c = Chunk::new("t");
    c.emit(Opcode::LoadTrue, 1);
    let j = c.emit_jump(Opcode::JumpIfFalse(99), 1);
    assert_eq!(j, 1);
    assert_eq!(c.code[j], Opcode::JumpIfFalse(0));
    c.emit(Opcode::Pop, 2);
    c.emit(Opcode::Pop, 2);
    c.patch_jump(j);
    assert_eq!(c.code[j], Opcode::JumpIfFalse(4));
    assert_eq!(c.len(), 4);
    assert_eq!(c.lines, vec![1, 1, 2, 2]);
    assert!(!c.is_empty());
}

#[test]
fn opcode_to_string() {
    assert_eq!(Opcode::LoadConst(3).to_string(), "LOAD_CONST    3");
    assert_eq!(Opcode::CmpNotEq.to_string(), "CMP_NEQ");
    assert_eq!(Opcode::Jump(12).to_string(), "JUMP          12");
    assert_eq!(
        Opcode::CallMethod { method: 2, argc: 1 }.to_string(),
        "CALL_METHOD   method=2 argc=1"
    );
    assert_eq!(
        Opcode::Exec { argc: 3, swallow: true, capture: false }.to_string(),
        "EXEC          argc=3 swallow=true capture=false"
    );
    assert_eq!(
        Opcode::ImportFields { module: 0, fields: vec![(1, 0), (2, 1)] }.to_string(),
        "IMPORT_FIELDS module=0 n=2"
    );
    assert_eq!(Opcode::ReturnNil.to_string(), "RETURN_NIL");
}

// ── Compiler ──────────────────────────────────────────────────────────────

#[test]
fn compile_ends_with_return_nil() {
    let (chunk, errs) = compile("let x = 1\nexec echo hi\n");
    assert!(errs.is_empty());
    assert_eq!(*chunk.code.last().unwrap(), Opcode::ReturnNil);
    assert_eq!(chunk.code.len(), chunk.lines.len());
    assert_eq!(chunk.name, "<script>");
    let (empty, _) = compile("");
    assert_eq!(empty.code, vec![Opcode::ReturnNil]);
}

#[test]
fn compile_error_messages() {
    let sp = Span::new(0, 1);
    let e = CompileError::ImmutableAssign { name: "x".into(), span: sp };
    assert_eq!(e.to_string(), "cannot assign to immutable variable `x`");
    assert_eq!(e.span(), sp);
    assert_eq!(
        CompileError::UndeclaredVar { name: "y".into(), span: sp }.to_string(),
        "use of undeclared variable `y`"
    );
    assert_eq!(
        CompileError::ReturnOutsideFunction { span: sp }.to_string(),
        "`return` outside of a function"
    );
    assert_eq!(
        CompileError::Overflow { msg: "too many locals", span: sp }.to_string(),
        "compiler limit exceeded: too many locals"
    );
    assert_eq!(CompileError::Invalid { msg: "odd".into(), span: sp }.to_string(), "odd");
}

#[test]
fn compile_return_inside_fn_is_fine() {
    let (_, errs) = compile("fn f() {\n  return 1\n}\n");
    assert!(errs.is_empty());
}

#[test]
fn compile_immutable_assign_reports_name() {
    let (_, errs) = compile("let k = 1\nk = 2\n");
    assert_eq!(errs.len(), 1);
    assert!(matches!(&errs[0], CompileError::ImmutableAssign { name, .. } if name == "k"));
}

#[test]
fn chunk_disassembly_lines() {
    let (chunk, errs) = compile("let x = 1\n");
    assert!(errs.is_empty());
    let lines = chunk.disassembly(&vec!["1".to_string()]);
    assert_eq!(
        lines,
        vec![
            "=== <script> ===".to_string(),
            "constants (1):".to_string(),
            "  [  0] 1".to_string(),
            "code (3 instructions):".to_string(),
            format!("     0  line   8  {}", Opcode::LoadConst(0).to_string()),
            format!("     1  line   0  {}", Opcode::DefineLocal(0).to_string()),
            format!("     2  line   0  {}", Opcode::ReturnNil.to_string()),
            String::new(),
        ]
    );
}

#[test]
fn compile_import_fields_pairs_name_constant_then_slot() {
    let (chunk, errs) = compile("import os.{ platform, arch }\n");
    assert!(errs.is_empty());
    assert_eq!(chunk.consts.len(), 3);
    assert!(matches!(&chunk.consts[1], Value::Str(s) if s.as_str() == "platform"));
    assert!(matches!(&chunk.consts[2], Value::Str(s) if s.as_str() == "arch"));
    assert_eq!(chunk.code[0], Opcode::ImportFields { module: 0, fields: vec![(1, 0), (2, 1)] });
}

#[test]
fn compile_records_source_lines() {
    let (chunk, errs) = compile("let x = 1\nx\n");
    assert!(errs.is_empty());
    assert_eq!(
        chunk.code,
        vec![Opcode::LoadConst(0), Opcode::DefineLocal(0), Opcode::LoadLocal(0), Opcode::Pop, Opcode::ReturnNil]
    );
    assert_eq!(chunk.lines, vec![8, 0, 10, 10, 0]);
}

#[test]
fn compile_block_locals_are_popped_at_scope_end() {
    let (chunk, errs) = compile("if true {\n  let a = 1\n}\n");
    assert!(errs.is_empty());
    assert_eq!(
        chunk.code,
        vec![
            Opcode::LoadTrue,
            Opcode::JumpIfFalse(6),
            Opcode::LoadConst(0),
            Opcode::DefineLocal(0),
            Opcode::Pop,
            Opcode::Jump(6),
            Opcode::ReturnNil,
        ]
    );
    assert_eq!(chunk.lines[4], 0);
}

#[test]
fn compile_string_pool_holds_each_string_once() {
    let (chunk, errs) = compile("let a = \"x\"\nlet b = \"x\"\nlet c = \"y\"\nlet d = a\n");
    assert!(errs.is_empty());
    assert_eq!(chunk.consts.len(), 2);
    assert!(matches!(&chunk.consts[0], Value::Str(s) if s.as_str() == "x"));
    assert!(matches!(&chunk.consts[1], Value::Str(s) if s.as_str() == "y"));
    assert_eq!(chunk.code[2], Opcode::LoadConst(0));
}

// ── Values ────────────────────────────────────────────────────────────────

#[test]
fn value_truthiness() {
    assert!(!Value::Nil.is_truthy());
    assert!(!Value::Bool(false).is_truthy());
    assert!(Value::Bool(true).is_truthy());
    assert!(!Value::Int(0).is_truthy());
    assert!(Value::Int(-3).is_truthy());
    assert!(!Value::Float("0.0".into()).is_truthy());
    assert!(Value::Float("0.5".into()).is_truthy());
    assert!(!Value::str("").is_truthy());
    assert!(Value::str("a").is_truthy());
    assert!(Value::list(vec![]).is_truthy());
    assert!(Value::list(vec![Value::Nil]).is_truthy());
    assert!(Value::map(HashMap::new()).is_truthy());
    let mut m = HashMap::new();
    m.insert("k".to_string(), Value::Int(1));
    assert!(Value::map(m).is_truthy());
}

#[test]
fn value_float_truthiness_follows_rounding_to_a_double() {
    let tiny = |zeros: usize, digits: &str| format!("0.{}{}", "0".repeat(zeros), digits);
    // Below half the smallest positive double: rounds to 0.0, so falsy.
    assert!(!Value::Float(tiny(330, "1")).is_truthy());
    assert!(!Value::Float(tiny(323, "247032")).is_truthy());
    // Just above it: rounds to the smallest positive double, so truthy.
    assert!(Value::Float(tiny(323, "247033")).is_truthy());
    assert!(Value::Float(tiny(322, "1")).is_truthy());
    for text in [tiny(330, "1"), tiny(323, "247032"), tiny(323, "247033"), "12.5".to_string(), "0.0".to_string()] {
        let as_f64: f64 = text.parse().unwrap();
        assert_eq!(Value::Float(text).is_truthy(), as_f64 != 0.0);
    }
}

#[test]
fn value_kind_names() {
    assert_eq!(Value::Nil.kind_name(), "nil");
    assert_eq!(Value::Int(1).kind_name(), "int");
    assert_eq!(Value::Float("1.5".into()).kind_name(), "float");
    assert_eq!(Value::str("s").kind_name(), "string");
    assert_eq!(Value::list(vec![]).kind_name(), "list");
    assert_eq!(Value::map(HashMap::new()).kind_name(), "map");
}

#[test]
fn text_order_is_the_order_of_bytes() {
    assert!(text_le("a", "b"));
    assert!(text_le("ab", "abc"));
    assert!(text_le("", ""));
    assert!(!text_le("b", "a"));
    assert!(!text_le("abc", "ab"));
    // 'é' is encoded as 0xC3 0xA9, after every ASCII byte.
    assert!(text_le("z", "é"));
    assert!(!text_le("é", "z"));
}

#[test]
fn texts_sort_and_join() {
    let v: Vec<String> = vec!["b".into(), "a".into(), "B".into(), "ab".into(), "a".into()];
    let s = sort_texts(v);
    assert_eq!(s, vec!["B", "a", "a", "ab", "b"]);
    assert_eq!(join_texts(&s, "-"), "B-a-a-ab-b");
    assert_eq!(join_texts(&Vec::new(), ", "), "");
}

#[test]
fn value_list_and_map_texts() {
    assert_eq!(list_text(&vec!["1".to_string(), "x".to_string()]), "[1, x]");
    assert_eq!(list_text(&Vec::new()), "[]");
    assert_eq!(map_text(vec!["b: 2".to_string(), "a: 1".to_string()]), "{a: 1, b: 2}");
    assert_eq!(map_text(Vec::new()), "{}");
}
