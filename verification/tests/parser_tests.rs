use lib::ast::{BinOp, ExecPart, ExprKind, FStrPart, Script, StmtKind, TypeAnn, UnaryOp};
use lib::lexer::Lexer;
use lib::parse_error::ParseError;
use lib::parser::Parser;

fn parse(src: &str) -> (Script, Vec<ParseError>) {
    let (tokens, _) = Lexer::new(src).tokenize();
    Parser::new(tokens).parse_script()
}

fn parse_ok(src: &str) -> Script {
    let (script, errors) = parse(src);
    assert!(errors.is_empty(), "parse errors: {errors:?}");
    script
}

fn first_stmt(src: &str) -> StmtKind {
    parse_ok(src).stmts.into_iter().next().unwrap().kind
}

fn first_expr(src: &str) -> ExprKind {
    match first_stmt(src) {
        StmtKind::ExprStmt(e) => e.kind,
        StmtKind::Let { value, .. } => value.kind,
        other => panic!("expected expr stmt, got {other:?}"),
    }
}

#[test]
fn import_simple() {
    let s = first_stmt("import os");
    assert!(matches!(s, StmtKind::Import { module, items: None } if module == "os"));
}

#[test]
fn import_selective() {
    let s = first_stmt("import os.{ platform, arch }");
    match s {
        StmtKind::Import { module, items: Some(items) } => {
            assert_eq!(module, "os");
            assert_eq!(items, ["platform", "arch"]);
        }
        other => panic!("{other:?}"),
    }
}

#[test]
fn let_immutable() {
    let s = first_stmt("let x = 42");
    match s {
        StmtKind::Let { name, mutable, value, .. } => {
            assert_eq!(name, "x");
            assert!(!mutable);
            assert!(matches!(value.kind, ExprKind::Int(42)));
        }
        other => panic!("{other:?}"),
    }
}

#[test]
fn let_mutable() {
    let s = first_stmt("let mut count = 0");
    match s {
        StmtKind::Let { mutable, .. } => assert!(mutable),
        other => panic!("{other:?}"),
    }
}

#[test]
fn let_string() {
    let s = first_stmt(r#"let name = "alice""#);
    match s {
        StmtKind::Let { value, .. } => {
            assert!(matches!(value.kind, ExprKind::Str(s) if s == "alice"))
        }
        other => panic!("{other:?}"),
    }
}

#[test]
fn let_with_type_annotation() {
    let s = first_stmt("let x: int = 1");
    match s {
        StmtKind::Let { ty: Some(TypeAnn::Int), .. } => {}
        other => panic!("{other:?}"),
    }
}

#[test]
fn assign() {
    let s = first_stmt("x = 10");
    match s {
        StmtKind::Assig { name, value } => {
            assert_eq!(name, "x");
            assert!(matches!(value.kind, ExprKind::Int(10)));
        }
        other => panic!("{other:?}"),
    }
}

#[test]
fn expr_binop_add() {
    let e = first_expr("let x = 1 + 2");
    assert!(matches!(e, ExprKind::BinOp { op: BinOp::Add, .. }));
}

#[test]
fn expr_binop_precedence() {
    let e = first_expr("let x = 1 + 2 * 3");
    match e {
        ExprKind::BinOp { op: BinOp::Add, left, right } => {
            assert!(matches!(left.kind, ExprKind::Int(1)));
            assert!(matches!(right.kind, ExprKind::BinOp { op: BinOp::Mul, .. }));
        }
        other => panic!("{other:?}"),
    }
}

#[test]
fn expr_comparison() {
    let e = first_expr("let x = a == b");
    assert!(matches!(e, ExprKind::BinOp { op: BinOp::Eq, .. }));
}

#[test]
fn expr_unary_not() {
    let e = first_expr("let x = not true");
    assert!(matches!(e, ExprKind::UnaryOp { op: UnaryOp::Not, .. }));
}

#[test]
fn expr_unary_neg() {
    let e = first_expr("let x = -1");
    assert!(matches!(e, ExprKind::UnaryOp { op: UnaryOp::Neg, .. }));
}

#[test]
fn expr_and_or() {
    let e = first_expr("let x = a and b");
    assert!(matches!(e, ExprKind::BinOp { op: BinOp::And, .. }));

    let e2 = first_expr("let x = a or b");
    assert!(matches!(e2, ExprKind::Or { .. }));
}

#[test]
fn expr_field_access() {
    let e = first_expr("let x = os.platform");
    match e {
        ExprKind::Field { field, .. } => assert_eq!(field, "platform"),
        other => panic!("{other:?}"),
    }
}

#[test]
fn expr_method_call() {
    let e = first_expr(r#"let x = env.get("HOME")"#);
    match e {
        ExprKind::MethodCall { method, args, .. } => {
            assert_eq!(method, "get");
            assert_eq!(args.len(), 1);
        }
        other => panic!("{other:?}"),
    }
}

#[test]
fn expr_fn_call() {
    let e = first_expr("let x = add(1, 2)");
    match e {
        ExprKind::Call { args, .. } => assert_eq!(args.len(), 2),
        other => panic!("{other:?}"),
    }
}

#[test]
fn expr_list_literal() {
    let e = first_expr(r#"let x = ["a", "b", "c"]"#);
    match e {
        ExprKind::List(items) => assert_eq!(items.len(), 3),
        other => panic!("{other:?}"),
    }
}

#[test]
fn expr_map_literal() {
    let e = first_expr(r#"let x = { host: "localhost", port: 8080 }"#);
    match e {
        ExprKind::Dict(entries) => assert_eq!(entries.len(), 2),
        other => panic!("{other:?}"),
    }
}

#[test]
fn expr_range() {
    let e = first_expr("let x = 0..10");
    assert!(matches!(e, ExprKind::Range { .. }));
}

#[test]
fn expr_index() {
    let e = first_expr("let x = items[0]");
    assert!(matches!(e, ExprKind::Index { .. }));
}

#[test]
fn fstring_plain_text() {
    let e = first_expr(r#"let x = f"hello""#);
    match e {
        ExprKind::FStr(parts) => {
            assert_eq!(parts.len(), 1);
            assert!(matches!(&parts[0], FStrPart::Text(t) if t == "hello"));
        }
        other => panic!("{other:?}"),
    }
}

#[test]
fn fstring_with_interp() {
    let e = first_expr(r#"let x = f"hello {name}""#);
    match e {
        ExprKind::FStr(parts) => {
            assert_eq!(parts.len(), 2);
            assert!(matches!(&parts[0], FStrPart::Text(t) if t == "hello "));
            assert!(matches!(&parts[1], FStrPart::Interp(_)));
        }
        other => panic!("{other:?}"),
    }
}

#[test]
fn parser_fstring_dot_access_in_interp() {
    let e = first_expr(r#"let x = f"dist/{os.platform}""#);
    match e {
        ExprKind::FStr(parts) => {
            assert_eq!(parts.len(), 2);
            match &parts[1] {
                FStrPart::Interp(expr) => {
                    assert!(matches!(&expr.kind, ExprKind::Field { field, .. } if field == "platform"))
                }
                other => panic!("{other:?}"),
            }
        }
        other => panic!("{other:?}"),
    }
}

#[test]
fn parser_exec_simple() {
    let s = first_stmt("exec git clone https://github.com/org/repo");
    match s {
        StmtKind::Exec { parts, swallow } => {
            assert!(!swallow);
            assert!(matches!(&parts[0], ExecPart::Word(w) if w == "git"));
        }
        other => panic!("{other:?}"),
    }
}

#[test]
fn full_script_parses() {
    let src = r#"
import os
import env

let profile = env.get("PROFILE") or "release"
let target = f"dist/{os.platform}-{os.arch}"

task build {
    exec echo "building"
    exec cargo build --{profile}
}

task deploy {
    build()
    try {
        exec scp {target}/app server:/usr/local/bin/app
    } catch (err) {
        exec echo "failed"
        exit 1
    }
}
"#;
    let (script, errors) = parse(src);
    assert!(errors.is_empty(), "errors: {errors:?}");
    assert_eq!(script.stmts.len(), 6);
}

#[test]
fn recovers_from_bad_stmt() {
    let (script, errors) = parse("@ bad\nlet x = 1");
    if !errors.is_empty() {
        for err in errors {
            println!("{err:?}");
        }
    }
    assert!(script.stmts.iter().any(|s| matches!(&s.kind, StmtKind::Let { name, .. } if name == "x")));
}
