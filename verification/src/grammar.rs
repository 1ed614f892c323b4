use crate::ast::{BinOp, TypeAnn, UnaryOp};
use crate::parse_error::ParseError;
use crate::span::{merged, Span};
use crate::syntax::{SExecPart, SExpr, SExprKind, SFStrPart, SIfBranch, SParam, SStmt, SStmtKind};
use crate::token::{Spanned, Token};
use vstd::prelude::*;
use vstd::utf8::encode_utf8;

verus! {

// How the parser reads a token stream `t`, stated as functions of `t` and a position `i`
// in it. Each gives what the parser's function of the same name returns when it starts
// at `i`, with the position where it stops. The parser only stands at positions inside
// the stream and only moves forward; `clamp` and the progress checks keep these
// functions total on other positions, which the parser never reaches.

/// A result of reading an expression, and the position after it.
pub type ExprRead = (Result<SExpr, ParseError>, int);

/// A result of reading a list of expressions, and the position after it.
pub type ExprsRead = (Result<Seq<SExpr>, ParseError>, int);

/// The position after `i`: the next token, except at the last one.
pub open spec fn nxt(t: Seq<Spanned>, i: int) -> int {
    if i + 1 < t.len() {
        i + 1
    } else {
        i
    }
}

/// The position `j`, kept at or after `i` and inside the stream.
pub open spec fn clamp(t: Seq<Spanned>, i: int, j: int) -> int {
    if j < i {
        i
    } else if j < t.len() {
        j
    } else if i < t.len() {
        t.len() - 1
    } else {
        i
    }
}

/// The number of newline tokens from `i` on.
pub open spec fn nl_run(t: Seq<Spanned>, i: int) -> nat
    decreases t.len() - i,
{
    if 0 <= i < t.len() - 1 && t[i].token is Newline {
        1 + nl_run(t, i + 1)
    } else {
        0
    }
}

/// The position after the newlines from `i` on.
pub open spec fn skip_nl(t: Seq<Spanned>, i: int) -> int {
    clamp(t, i, i + nl_run(t, i))
}

/// The error for a position that the parser cannot reach.
pub open spec fn stalled() -> ParseError {
    ParseError::UnexpectedEof { span: Span { start: 0, end: 0 }, msg: "" }
}

/// The error for a missing token, written `label`, where `t[i]` stands.
pub open spec fn expected(t: Seq<Spanned>, i: int, label: &'static str) -> ParseError {
    ParseError::Expected { expected: label, got: t[i].token, span: t[i].span }
}

/// The node for the binary operator `op` on `l` and `r`.
pub open spec fn bin_node(op: BinOp, l: SExpr, r: SExpr) -> SExpr {
    SExpr {
        kind: SExprKind::BinOp { op, left: Box::new(l), right: Box::new(r) },
        span: merged(l.span, r.span),
    }
}

/// The operator of a comparison token.
pub open spec fn cmp_op(t: Token) -> Option<BinOp> {
    match t {
        Token::EqEq => Some(BinOp::Eq),
        Token::BangEq => Some(BinOp::NotEq),
        Token::Lt => Some(BinOp::Lt),
        Token::LtEq => Some(BinOp::LtEq),
        Token::Gt => Some(BinOp::Gt),
        Token::GtEq => Some(BinOp::GtEq),
        _ => None,
    }
}

/// The operator of an additive token.
pub open spec fn add_op(t: Token) -> Option<BinOp> {
    match t {
        Token::Plus => Some(BinOp::Add),
        Token::Minus => Some(BinOp::Sub),
        _ => None,
    }
}

/// The operator of a multiplicative token.
pub open spec fn mul_op(t: Token) -> Option<BinOp> {
    match t {
        Token::Star => Some(BinOp::Mul),
        Token::Slash => Some(BinOp::Div),
        Token::Percent => Some(BinOp::Mod),
        _ => None,
    }
}

/// An expression.
pub closed spec fn p_expr(t: Seq<Spanned>, i: int) -> ExprRead
    decreases t.len() - i, 40int,
{
    p_or(t, i)
}

/// `a or b or …`, grouped to the left.
pub closed spec fn p_or(t: Seq<Spanned>, i: int) -> ExprRead
    decreases t.len() - i, 38int,
{
    match p_and(t, i) {
        (Err(e), j) => (Err(e), j),
        (Ok(l), j) => p_or_more(t, clamp(t, i, j), l),
    }
}

/// The rest of an `or` chain whose left part `l` has been read.
pub closed spec fn p_or_more(t: Seq<Spanned>, i: int, l: SExpr) -> ExprRead
    decreases t.len() - i, 37int,
{
    if 0 <= i < t.len() && t[i].token is Or {
        match p_and(t, nxt(t, i)) {
            (Err(e), j) => (Err(e), j),
            (Ok(r), j) => {
                let k = clamp(t, nxt(t, i), j);
                let node = SExpr {
                    kind: SExprKind::Or { left: Box::new(l), right: Box::new(r) },
                    span: merged(l.span, r.span),
                };
                if k > i {
                    p_or_more(t, k, node)
                } else {
                    (Err(stalled()), k)
                }
            },
        }
    } else {
        (Ok(l), i)
    }
}

/// `a and b and …`, grouped to the left.
pub closed spec fn p_and(t: Seq<Spanned>, i: int) -> ExprRead
    decreases t.len() - i, 36int,
{
    match p_not(t, i) {
        (Err(e), j) => (Err(e), j),
        (Ok(l), j) => p_and_more(t, clamp(t, i, j), l),
    }
}

/// The rest of an `and` chain whose left part `l` has been read.
pub closed spec fn p_and_more(t: Seq<Spanned>, i: int, l: SExpr) -> ExprRead
    decreases t.len() - i, 35int,
{
    if 0 <= i < t.len() && t[i].token is And {
        match p_not(t, nxt(t, i)) {
            (Err(e), j) => (Err(e), j),
            (Ok(r), j) => {
                let k = clamp(t, nxt(t, i), j);
                if k > i {
                    p_and_more(t, k, bin_node(BinOp::And, l, r))
                } else {
                    (Err(stalled()), k)
                }
            },
        }
    } else {
        (Ok(l), i)
    }
}

/// `not x`, or a comparison. The span of `not x` starts at the token after `not`.
pub closed spec fn p_not(t: Seq<Spanned>, i: int) -> ExprRead
    decreases t.len() - i, 34int,
{
    if 0 <= i < t.len() && t[i].token is Not {
        let n = nxt(t, i);
        if n > i {
            match p_not(t, n) {
                (Err(e), j) => (Err(e), j),
                (Ok(x), j) => (
                    Ok(
                        SExpr {
                            kind: SExprKind::UnaryOp { op: UnaryOp::Not, operand: Box::new(x) },
                            span: merged(t[n].span, x.span),
                        },
                    ),
                    j,
                ),
            }
        } else {
            (Err(stalled()), n)
        }
    } else {
        p_comparison(t, i)
    }
}

/// `a == b`, `a < b`, …, grouped to the left.
pub closed spec fn p_comparison(t: Seq<Spanned>, i: int) -> ExprRead
    decreases t.len() - i, 32int,
{
    match p_additive(t, i) {
        (Err(e), j) => (Err(e), j),
        (Ok(l), j) => p_comparison_more(t, clamp(t, i, j), l),
    }
}

/// The rest of a comparison chain whose left part `l` has been read.
pub closed spec fn p_comparison_more(t: Seq<Spanned>, i: int, l: SExpr) -> ExprRead
    decreases t.len() - i, 31int,
{
    if 0 <= i < t.len() && cmp_op(t[i].token) is Some {
        match p_additive(t, nxt(t, i)) {
            (Err(e), j) => (Err(e), j),
            (Ok(r), j) => {
                let k = clamp(t, nxt(t, i), j);
                if k > i {
                    p_comparison_more(t, k, bin_node(cmp_op(t[i].token)->0, l, r))
                } else {
                    (Err(stalled()), k)
                }
            },
        }
    } else {
        (Ok(l), i)
    }
}

/// `a + b`, `a - b`, grouped to the left.
pub closed spec fn p_additive(t: Seq<Spanned>, i: int) -> ExprRead
    decreases t.len() - i, 30int,
{
    match p_multiplicative(t, i) {
        (Err(e), j) => (Err(e), j),
        (Ok(l), j) => p_additive_more(t, clamp(t, i, j), l),
    }
}

/// The rest of an additive chain whose left part `l` has been read.
pub closed spec fn p_additive_more(t: Seq<Spanned>, i: int, l: SExpr) -> ExprRead
    decreases t.len() - i, 29int,
{
    if 0 <= i < t.len() && add_op(t[i].token) is Some {
        match p_multiplicative(t, nxt(t, i)) {
            (Err(e), j) => (Err(e), j),
            (Ok(r), j) => {
                let k = clamp(t, nxt(t, i), j);
                if k > i {
                    p_additive_more(t, k, bin_node(add_op(t[i].token)->0, l, r))
                } else {
                    (Err(stalled()), k)
                }
            },
        }
    } else {
        (Ok(l), i)
    }
}

/// `a * b`, `a / b`, `a % b`, grouped to the left.
pub closed spec fn p_multiplicative(t: Seq<Spanned>, i: int) -> ExprRead
    decreases t.len() - i, 28int,
{
    match p_unary(t, i) {
        (Err(e), j) => (Err(e), j),
        (Ok(l), j) => p_multiplicative_more(t, clamp(t, i, j), l),
    }
}

/// The rest of a multiplicative chain whose left part `l` has been read.
pub closed spec fn p_multiplicative_more(t: Seq<Spanned>, i: int, l: SExpr) -> ExprRead
    decreases t.len() - i, 27int,
{
    if 0 <= i < t.len() && mul_op(t[i].token) is Some {
        match p_unary(t, nxt(t, i)) {
            (Err(e), j) => (Err(e), j),
            (Ok(r), j) => {
                let k = clamp(t, nxt(t, i), j);
                if k > i {
                    p_multiplicative_more(t, k, bin_node(mul_op(t[i].token)->0, l, r))
                } else {
                    (Err(stalled()), k)
                }
            },
        }
    } else {
        (Ok(l), i)
    }
}

/// `-x`, or a postfix expression. The span of `-x` starts at the token after `-`.
pub closed spec fn p_unary(t: Seq<Spanned>, i: int) -> ExprRead
    decreases t.len() - i, 26int,
{
    if 0 <= i < t.len() && t[i].token is Minus {
        let n = nxt(t, i);
        if n > i {
            match p_unary(t, n) {
                (Err(e), j) => (Err(e), j),
                (Ok(x), j) => (
                    Ok(
                        SExpr {
                            kind: SExprKind::UnaryOp { op: UnaryOp::Neg, operand: Box::new(x) },
                            span: merged(t[n].span, x.span),
                        },
                    ),
                    j,
                ),
            }
        } else {
            (Err(stalled()), n)
        }
    } else {
        p_postfix(t, i)
    }
}

/// A primary expression followed by field reads, method calls, indexing, calls and ranges.
pub closed spec fn p_postfix(t: Seq<Spanned>, i: int) -> ExprRead
    decreases t.len() - i, 24int,
{
    match p_primary(t, i) {
        (Err(e), j) => (Err(e), j),
        (Ok(x), j) => p_postfix_more(t, clamp(t, i, j), x),
    }
}

/// The postfix operations that follow the expression `x`.
pub closed spec fn p_postfix_more(t: Seq<Spanned>, i: int, x: SExpr) -> ExprRead
    decreases t.len() - i, 23int,
{
    if !(0 <= i < t.len()) {
        (Ok(x), i)
    } else {
        match t[i].token {
            Token::Dot => {
                let f = nxt(t, i);
                match t[f].token {
                    Token::Ident(name) => {
                        let a = nxt(t, f);
                        if t[a].token is LParen {
                            match p_args(t, a) {
                                (Err(e), j) => (Err(e), j),
                                (Ok(args), j) => {
                                    let k = clamp(t, a, j);
                                    let node = SExpr {
                                        kind: SExprKind::MethodCall {
                                            object: Box::new(x),
                                            method: name@,
                                            args,
                                        },
                                        span: merged(x.span, t[k].span),
                                    };
                                    if k > i {
                                        p_postfix_more(t, k, node)
                                    } else {
                                        (Err(stalled()), k)
                                    }
                                },
                            }
                        } else {
                            let node = SExpr {
                                kind: SExprKind::Field { object: Box::new(x), field: name@ },
                                span: merged(x.span, t[f].span),
                            };
                            if a > i {
                                p_postfix_more(t, a, node)
                            } else {
                                (Err(stalled()), a)
                            }
                        }
                    },
                    _ => (Err(expected(t, f, "identifier")), f),
                }
            },
            Token::LBracket => {
                let n = nxt(t, i);
                if n > i {
                    match p_expr(t, n) {
                        (Err(e), j) => (Err(e), j),
                        (Ok(index), j) => {
                            let k = clamp(t, n, j);
                            if t[k].token is RBracket {
                                let node = SExpr {
                                    kind: SExprKind::Index {
                                        object: Box::new(x),
                                        index: Box::new(index),
                                    },
                                    span: merged(x.span, t[k].span),
                                };
                                p_postfix_more(t, nxt(t, k), node)
                            } else {
                                (Err(expected(t, k, "']'")), k)
                            }
                        },
                    }
                } else {
                    (Err(stalled()), n)
                }
            },
            Token::LParen => match p_args(t, i) {
                (Err(e), j) => (Err(e), j),
                (Ok(args), j) => {
                    let k = clamp(t, i, j);
                    let node = SExpr {
                        kind: SExprKind::Call { callee: Box::new(x), args },
                        span: merged(x.span, t[k].span),
                    };
                    if k > i {
                        p_postfix_more(t, k, node)
                    } else {
                        (Err(stalled()), k)
                    }
                },
            },
            Token::DotDot => match p_primary(t, nxt(t, i)) {
                (Err(e), j) => (Err(e), j),
                (Ok(end), j) => {
                    let k = clamp(t, nxt(t, i), j);
                    let node = SExpr {
                        kind: SExprKind::Range { start: Box::new(x), end: Box::new(end) },
                        span: merged(x.span, end.span),
                    };
                    if k > i {
                        p_postfix_more(t, k, node)
                    } else {
                        (Err(stalled()), k)
                    }
                },
            },
            _ => (Ok(x), i),
        }
    }
}

/// `(a, b, …)`: arguments in parentheses, with newlines allowed around them.
pub closed spec fn p_args(t: Seq<Spanned>, i: int) -> ExprsRead
    decreases t.len() - i, 20int,
{
    if 0 <= i < t.len() && t[i].token is LParen {
        let n = nxt(t, i);
        if n > i {
            p_args_more(t, n, seq![])
        } else {
            (Err(stalled()), n)
        }
    } else {
        (Err(expected(t, i, "'('")), i)
    }
}

/// The rest of an argument list after the arguments `acc`.
pub closed spec fn p_args_more(t: Seq<Spanned>, i: int, acc: Seq<SExpr>) -> ExprsRead
    decreases t.len() - i, 45int,
{
    let k = skip_nl(t, i);
    if t[k].token is RParen {
        (Ok(acc), nxt(t, k))
    } else {
        match p_expr(t, k) {
            (Err(e), j) => (Err(e), j),
            (Ok(a), j) => {
                let m = skip_nl(t, clamp(t, k, j));
                if t[m].token is Comma {
                    let n = nxt(t, m);
                    if n > i {
                        p_args_more(t, n, acc.push(a))
                    } else {
                        (Err(stalled()), n)
                    }
                } else if t[m].token is RParen {
                    (Ok(acc.push(a)), nxt(t, m))
                } else {
                    (Err(expected(t, m, "')'")), m)
                }
            },
        }
    }
}

/// A literal, a name, an expression in parentheses, an f-string, a list or a map.
pub closed spec fn p_primary(t: Seq<Spanned>, i: int) -> ExprRead
    decreases t.len() - i, 22int,
{
    if !(0 <= i < t.len()) {
        (Err(stalled()), i)
    } else {
        let sp = t[i].span;
        let n = nxt(t, i);
        match t[i].token {
            Token::Int(v) => (Ok(SExpr { kind: SExprKind::Int(v), span: sp }), n),
            Token::Float(x) => (Ok(SExpr { kind: SExprKind::Float(x@), span: sp }), n),
            Token::Str(s) => (Ok(SExpr { kind: SExprKind::Str(s@), span: sp }), n),
            Token::True => (Ok(SExpr { kind: SExprKind::Bool(true), span: sp }), n),
            Token::False => (Ok(SExpr { kind: SExprKind::Bool(false), span: sp }), n),
            Token::FStrStart => p_fstr(t, i),
            Token::Ident(name) => (Ok(SExpr { kind: SExprKind::Ident(name@), span: sp }), n),
            Token::LParen => if n > i {
                match p_expr(t, n) {
                    (Err(e), j) => (Err(e), j),
                    (Ok(inner), j) => {
                        let k = clamp(t, n, j);
                        if t[k].token is RParen {
                            (Ok(inner), nxt(t, k))
                        } else {
                            (Err(expected(t, k, "')'")), k)
                        }
                    },
                }
            } else {
                (Err(stalled()), n)
            },
            Token::LBracket => p_list(t, i),
            Token::LBrace => p_map(t, i),
            other => (
                Err(ParseError::Unexpected { got: other, span: sp, msg: "expected an expression" }),
                i,
            ),
        }
    }
}

/// `f"…"`: text runs and `{expr}` parts up to the closing quote.
pub closed spec fn p_fstr(t: Seq<Spanned>, i: int) -> ExprRead
    decreases t.len() - i, 20int,
{
    let n = nxt(t, i);
    if n > i {
        p_fstr_more(t, n, t[i].span, seq![])
    } else {
        (Err(stalled()), n)
    }
}

/// The rest of an f-string that starts with the span `start`, after the parts `parts`.
pub closed spec fn p_fstr_more(t: Seq<Spanned>, i: int, start: Span, parts: Seq<SFStrPart>) -> ExprRead
    decreases t.len() - i, 45int,
{
    if !(0 <= i < t.len()) {
        (Err(stalled()), i)
    } else {
        let n = nxt(t, i);
        match t[i].token {
            Token::FStrEnd => (
                Ok(SExpr { kind: SExprKind::FStr(parts), span: merged(start, t[n].span) }),
                n,
            ),
            Token::FStrText(x) => if n > i {
                p_fstr_more(t, n, start, parts.push(SFStrPart::Text(x@)))
            } else {
                (Err(stalled()), n)
            },
            Token::FStrOpen => match p_expr(t, n) {
                (Err(e), j) => (Err(e), j),
                (Ok(x), j) => {
                    let k = clamp(t, n, j);
                    if t[k].token is FStrClose {
                        let m = nxt(t, k);
                        if m > i {
                            p_fstr_more(t, m, start, parts.push(SFStrPart::Interp(x)))
                        } else {
                            (Err(stalled()), m)
                        }
                    } else {
                        (Err(expected(t, k, "'}'")), k)
                    }
                },
            },
            _ => (Ok(SExpr { kind: SExprKind::FStr(parts), span: merged(start, t[i].span) }), i),
        }
    }
}

/// `[a, b, …]`, with newlines allowed around the items and a comma after the last.
pub closed spec fn p_list(t: Seq<Spanned>, i: int) -> ExprRead
    decreases t.len() - i, 20int,
{
    let n = nxt(t, i);
    if n > i {
        p_list_more(t, n, t[i].span, seq![])
    } else {
        (Err(stalled()), n)
    }
}

/// The rest of a list that starts with the span `start`, after the items `items`.
pub closed spec fn p_list_more(t: Seq<Spanned>, i: int, start: Span, items: Seq<SExpr>) -> ExprRead
    decreases t.len() - i, 45int,
{
    let k = skip_nl(t, i);
    if t[k].token is RBracket {
        let n = nxt(t, k);
        (Ok(SExpr { kind: SExprKind::List(items), span: merged(start, t[n].span) }), n)
    } else {
        match p_expr(t, k) {
            (Err(e), j) => (Err(e), j),
            (Ok(x), j) => {
                let m = skip_nl(t, clamp(t, k, j));
                if t[m].token is Comma {
                    let n = nxt(t, m);
                    if n > i {
                        p_list_more(t, n, start, items.push(x))
                    } else {
                        (Err(stalled()), n)
                    }
                } else if t[m].token is RBracket {
                    let n = nxt(t, m);
                    (
                        Ok(
                            SExpr {
                                kind: SExprKind::List(items.push(x)),
                                span: merged(start, t[n].span),
                            },
                        ),
                        n,
                    )
                } else {
                    (Err(expected(t, m, "']'")), m)
                }
            },
        }
    }
}

/// `{ key: value, … }`, with newlines allowed around the entries and a comma after the last.
pub closed spec fn p_map(t: Seq<Spanned>, i: int) -> ExprRead
    decreases t.len() - i, 20int,
{
    let n = nxt(t, i);
    if n > i {
        p_map_more(t, n, t[i].span, seq![])
    } else {
        (Err(stalled()), n)
    }
}

/// The rest of a map that starts with the span `start`, after the entries `entries`.
pub closed spec fn p_map_more(
    t: Seq<Spanned>,
    i: int,
    start: Span,
    entries: Seq<(Seq<char>, SExpr)>,
) -> ExprRead
    decreases t.len() - i, 45int,
{
    let k = skip_nl(t, i);
    if t[k].token is RBrace {
        let n = nxt(t, k);
        (Ok(SExpr { kind: SExprKind::Dict(entries), span: merged(start, t[n].span) }), n)
    } else {
        match t[k].token {
            Token::Ident(key) => {
                let c = nxt(t, k);
                if t[c].token is Colon {
                    match p_expr(t, nxt(t, c)) {
                        (Err(e), j) => (Err(e), j),
                        (Ok(v), j) => {
                            let m = skip_nl(t, clamp(t, nxt(t, c), j));
                            let more = entries.push((key@, v));
                            if t[m].token is Comma {
                                let n = nxt(t, m);
                                if n > i {
                                    p_map_more(t, n, start, more)
                                } else {
                                    (Err(stalled()), n)
                                }
                            } else if t[m].token is RBrace {
                                let n = nxt(t, m);
                                (
                                    Ok(
                                        SExpr {
                                            kind: SExprKind::Dict(more),
                                            span: merged(start, t[n].span),
                                        },
                                    ),
                                    n,
                                )
                            } else {
                                (Err(expected(t, m, "'}'")), m)
                            }
                        },
                    }
                } else {
                    (Err(expected(t, c, "':'")), c)
                }
            },
            _ => (Err(expected(t, k, "identifier")), k),
        }
    }
}

/// A result of reading a statement, and the position after it.
pub type StmtRead = (Result<SStmt, ParseError>, int);

/// A result of reading the form of a statement, and the position after it.
pub type KindRead = (Result<SStmtKind, ParseError>, int);

/// A result of reading a block of statements, and the position after it.
pub type BlockRead = (Result<Seq<SStmt>, ParseError>, int);

/// A result of reading one branch of an `if`, and the position after it.
pub type BranchRead = (Result<SIfBranch, ParseError>, int);

/// A result of reading a type annotation, and the position after it.
pub type TypeRead = (Result<TypeAnn, ParseError>, int);

/// A result of reading a parameter list, and the position after it.
pub type ParamsRead = (Result<Seq<SParam>, ParseError>, int);

/// A token that begins a statement of its own; error recovery stops before it.
pub open spec fn is_stmt_keyword(t: Token) -> bool {
    ||| t is Let
    ||| t is Fn
    ||| t is Task
    ||| t is If
    ||| t is For
    ||| t is While
    ||| t is Try
    ||| t is Import
    ||| t is Return
    ||| t is Exit
    ||| t is Exec
}

/// The type whose name is spelled by the bytes `name`, if any.
pub open spec fn type_named(name: Seq<u8>) -> Option<TypeAnn> {
    if name == seq![115u8, 116u8, 114u8, 105u8, 110u8, 103u8] {  // "string"
        Some(TypeAnn::String)
    } else if name == seq![105u8, 110u8, 116u8] {  // "int"
        Some(TypeAnn::Int)
    } else if name == seq![102u8, 108u8, 111u8, 97u8, 116u8] {  // "float"
        Some(TypeAnn::Float)
    } else if name == seq![98u8, 111u8, 111u8, 108u8] {  // "bool"
        Some(TypeAnn::Bool)
    } else if name == seq![108u8, 105u8, 115u8, 116u8] {  // "list"
        Some(TypeAnn::List)
    } else if name == seq![109u8, 97u8, 112u8] {  // "map"
        Some(TypeAnn::Dict)
    } else if name == seq![97u8, 110u8, 121u8] {  // "any"
        Some(TypeAnn::Any)
    } else {
        None
    }
}


/// The position after an optional newline at `k`: a statement ends with a newline, or at
/// the end of the source, or where the next token stands.
pub open spec fn eol(t: Seq<Spanned>, k: int) -> int {
    if 0 <= k < t.len() && t[k].token is Newline {
        nxt(t, k)
    } else {
        k
    }
}

/// The first token after position `i` that is not a newline, or `Eof`.
pub open spec fn peek2_tok(t: Seq<Spanned>, i: int) -> Token {
    if i + 1 < t.len() {
        t[skip_nl(t, i + 1)].token
    } else {
        Token::Eof
    }
}

/// A type annotation: one of the type names.
pub open spec fn p_type_ann(t: Seq<Spanned>, i: int) -> TypeRead {
    match t[i].token {
        Token::Ident(n) => match type_named(encode_utf8(n@)) {
            Some(ty) => (Ok(ty), nxt(t, i)),
            None => (Err(ParseError::Invalid { span: t[i].span, msg: "unknown type" }), nxt(t, i)),
        },
        _ => (Err(expected(t, i, "identifier")), i),
    }
}

/// A statement, with its span from its first token to the token after it.
pub closed spec fn p_stmt(t: Seq<Spanned>, i: int) -> StmtRead
    decreases t.len() - i, 120int,
{
    let kind = match t[i].token {
        Token::Import => p_import(t, i),
        Token::Let => p_let(t, i),
        Token::Fn => p_fn(t, i),
        Token::Task => p_task(t, i),
        Token::Return => p_return(t, i),
        Token::If => p_if(t, i),
        Token::For => p_for(t, i),
        Token::While => p_while(t, i),
        Token::Try => p_try(t, i),
        Token::Exec => p_exec(t, i),
        Token::Exit => p_exit(t, i),
        Token::Ident(_) if peek2_tok(t, i) is Eq => p_assign(t, i),
        _ => match p_expr(t, i) {
            (Err(e), j) => (Err(e), j),
            (Ok(x), j) => (Ok(SStmtKind::ExprStmt(x)), eol(t, clamp(t, i, j))),
        },
    };
    match kind {
        (Err(e), j) => (Err(e), j),
        (Ok(k), j) => {
            let e = clamp(t, i, j);
            (Ok(SStmt { kind: k, span: merged(t[i].span, t[e].span) }), e)
        },
    }
}

/// `import module` or `import module.{ name, … }`.
pub open spec fn p_import(t: Seq<Spanned>, i: int) -> KindRead {
    let n = nxt(t, i);
    match t[n].token {
        Token::Ident(m) => {
            let a = nxt(t, n);
            if t[a].token is Dot {
                let b = nxt(t, a);
                if t[b].token is LBrace {
                    p_import_more(t, nxt(t, b), m@, seq![])
                } else {
                    (Err(expected(t, b, "'{'")), b)
                }
            } else {
                (Ok(SStmtKind::Import { module: m@, items: None }), eol(t, a))
            }
        },
        _ => (Err(expected(t, n, "identifier")), n),
    }
}

/// The rest of the names of `import module.{ … }` after the names `names`.
pub closed spec fn p_import_more(t: Seq<Spanned>, i: int, m: Seq<char>, names: Seq<Seq<char>>) -> KindRead
    decreases t.len() - i,
{
    let k = skip_nl(t, i);
    if !(0 <= k < t.len()) {
        (Err(stalled()), k)
    } else if t[k].token is RBrace {
        (Ok(SStmtKind::Import { module: m, items: Some(names) }), eol(t, nxt(t, k)))
    } else {
        match t[k].token {
            Token::Ident(x) => {
                let more = names.push(x@);
                let c = skip_nl(t, nxt(t, k));
                if t[c].token is Comma {
                    let n = nxt(t, c);
                    if n > i {
                        p_import_more(t, n, m, more)
                    } else {
                        (Err(stalled()), n)
                    }
                } else if t[c].token is RBrace {
                    (Ok(SStmtKind::Import { module: m, items: Some(more) }), eol(t, nxt(t, c)))
                } else {
                    (Err(expected(t, c, "'}'")), c)
                }
            },
            _ => (Err(expected(t, k, "identifier")), k),
        }
    }
}

/// `let [mut] name [: type] = value`.
pub open spec fn p_let(t: Seq<Spanned>, i: int) -> KindRead {
    let n = nxt(t, i);
    let mutable = t[n].token is Mut;
    let a = if mutable {
        nxt(t, n)
    } else {
        n
    };
    match t[a].token {
        Token::Ident(name) => {
            let b = nxt(t, a);
            let (ty, d) = if t[b].token is Colon {
                match p_type_ann(t, nxt(t, b)) {
                    (Err(e), j) => (Err(e), j),
                    (Ok(ty), j) => (Ok(Some(ty)), j),
                }
            } else {
                (Ok(None), b)
            };
            match ty {
                Err(e) => (Err(e), d),
                Ok(ty) => if t[d].token is Eq {
                    match p_expr(t, nxt(t, d)) {
                        (Err(e), j) => (Err(e), j),
                        (Ok(v), j) => (
                            Ok(SStmtKind::Let { name: name@, mutable, ty, value: v }),
                            eol(t, clamp(t, nxt(t, d), j)),
                        ),
                    }
                } else {
                    (Err(expected(t, d, "'='")), d)
                },
            }
        },
        _ => (Err(expected(t, a, "identifier")), a),
    }
}

/// `name = value`.
pub open spec fn p_assign(t: Seq<Spanned>, i: int) -> KindRead {
    match t[i].token {
        Token::Ident(name) => {
            let n = nxt(t, i);
            if t[n].token is Eq {
                match p_expr(t, nxt(t, n)) {
                    (Err(e), j) => (Err(e), j),
                    (Ok(v), j) => (
                        Ok(SStmtKind::Assig { name: name@, value: v }),
                        eol(t, clamp(t, nxt(t, n), j)),
                    ),
                }
            } else {
                (Err(expected(t, n, "'='")), n)
            }
        },
        _ => (Err(expected(t, i, "identifier")), i),
    }
}

/// `fn name(params) [-> type] { body }`.
pub closed spec fn p_fn(t: Seq<Spanned>, i: int) -> KindRead
    decreases t.len() - i, 118int,
{
    let n = nxt(t, i);
    match t[n].token {
        Token::Ident(name) => match p_params(t, nxt(t, n)) {
            (Err(e), j) => (Err(e), j),
            (Ok(params), j) => {
                let a = clamp(t, nxt(t, n), j);
                let (ret, b) = if t[a].token is Arrow {
                    match p_type_ann(t, nxt(t, a)) {
                        (Err(e), j2) => (Err(e), j2),
                        (Ok(ty), j2) => (Ok(Some(ty)), j2),
                    }
                } else {
                    (Ok(None), a)
                };
                match ret {
                    Err(e) => (Err(e), b),
                    Ok(ret) => match p_block(t, clamp(t, a, b)) {
                        (Err(e), j3) => (Err(e), j3),
                        (Ok(body), j3) => (
                            Ok(SStmtKind::Fn { name: name@, params, ret, body }),
                            clamp(t, clamp(t, a, b), j3),
                        ),
                    },
                }
            },
        },
        _ => (Err(expected(t, n, "identifier")), n),
    }
}

/// `task name { body }`.
pub closed spec fn p_task(t: Seq<Spanned>, i: int) -> KindRead
    decreases t.len() - i, 118int,
{
    let n = nxt(t, i);
    match t[n].token {
        Token::Ident(name) => match p_block(t, nxt(t, n)) {
            (Err(e), j) => (Err(e), j),
            (Ok(body), j) => (
                Ok(SStmtKind::Task { name: name@, body }),
                clamp(t, nxt(t, n), j),
            ),
        },
        _ => (Err(expected(t, n, "identifier")), n),
    }
}

/// `return [value]`: no value when the line, the source or the block ends.
pub open spec fn p_return(t: Seq<Spanned>, i: int) -> KindRead {
    let n = nxt(t, i);
    if t[n].token is Newline || t[n].token is Eof || t[n].token is RBrace {
        (Ok(SStmtKind::Return { value: None }), eol(t, n))
    } else {
        match p_expr(t, n) {
            (Err(e), j) => (Err(e), j),
            (Ok(v), j) => (Ok(SStmtKind::Return { value: Some(v) }), eol(t, clamp(t, n, j))),
        }
    }
}

/// `if cond { … } else if cond { … } … else { … }`.
pub closed spec fn p_if(t: Seq<Spanned>, i: int) -> KindRead
    decreases t.len() - i, 118int,
{
    match p_if_branch(t, i) {
        (Err(e), j) => (Err(e), j),
        (Ok(b), j) => p_if_more(t, clamp(t, i, j), seq![b]),
    }
}

/// The rest of an `if` after the branches `branches`: `else if` branches, an `else`
/// block, or nothing (newlines before a missing `else` are left in place).
pub closed spec fn p_if_more(t: Seq<Spanned>, i: int, branches: Seq<SIfBranch>) -> KindRead
    decreases t.len() - i, 117int,
{
    let k = skip_nl(t, i);
    if 0 <= k < t.len() && t[k].token is Else {
        let m = skip_nl(t, nxt(t, k));
        if t[m].token is If {
            match p_if_branch(t, m) {
                (Err(e), j) => (Err(e), j),
                (Ok(b), j) => {
                    let n = clamp(t, m, j);
                    if n > i {
                        p_if_more(t, n, branches.push(b))
                    } else {
                        (Err(stalled()), n)
                    }
                },
            }
        } else {
            match p_block(t, m) {
                (Err(e), j) => (Err(e), j),
                (Ok(body), j) => (
                    Ok(SStmtKind::If { branches, else_: Some(body) }),
                    clamp(t, m, j),
                ),
            }
        }
    } else {
        (Ok(SStmtKind::If { branches, else_: None }), i)
    }
}

/// `if cond { body }`, with its span from `if` to the token after the block.
pub closed spec fn p_if_branch(t: Seq<Spanned>, i: int) -> BranchRead
    decreases t.len() - i, 116int,
{
    if 0 <= i < t.len() && t[i].token is If {
        let n = nxt(t, i);
        match p_expr(t, n) {
            (Err(e), j) => (Err(e), j),
            (Ok(cond), j) => {
                let a = clamp(t, n, j);
                match p_block(t, a) {
                    (Err(e), j2) => (Err(e), j2),
                    (Ok(body), j2) => {
                        let e = clamp(t, a, j2);
                        (Ok(SIfBranch { cond, body, span: merged(t[i].span, t[e].span) }), e)
                    },
                }
            },
        }
    } else {
        (Err(expected(t, i, "'if'")), i)
    }
}

/// `for name in iter { body }`.
pub closed spec fn p_for(t: Seq<Spanned>, i: int) -> KindRead
    decreases t.len() - i, 118int,
{
    let n = nxt(t, i);
    match t[n].token {
        Token::Ident(name) => {
            let a = nxt(t, n);
            if t[a].token is In {
                let b = nxt(t, a);
                match p_expr(t, b) {
                    (Err(e), j) => (Err(e), j),
                    (Ok(iter), j) => {
                        let c = clamp(t, b, j);
                        match p_block(t, c) {
                            (Err(e), j2) => (Err(e), j2),
                            (Ok(body), j2) => (
                                Ok(SStmtKind::For { name: name@, iter, body }),
                                clamp(t, c, j2),
                            ),
                        }
                    },
                }
            } else {
                (Err(expected(t, a, "'in'")), a)
            }
        },
        _ => (Err(expected(t, n, "identifier")), n),
    }
}

/// `while cond { body }`.
pub closed spec fn p_while(t: Seq<Spanned>, i: int) -> KindRead
    decreases t.len() - i, 118int,
{
    let n = nxt(t, i);
    match p_expr(t, n) {
        (Err(e), j) => (Err(e), j),
        (Ok(cond), j) => {
            let a = clamp(t, n, j);
            match p_block(t, a) {
                (Err(e), j2) => (Err(e), j2),
                (Ok(body), j2) => (Ok(SStmtKind::While { cond, body }), clamp(t, a, j2)),
            }
        },
    }
}

/// `try { body } catch (name) { handler }`, with newlines allowed before `catch`.
pub closed spec fn p_try(t: Seq<Spanned>, i: int) -> KindRead
    decreases t.len() - i, 118int,
{
    let n = nxt(t, i);
    match p_block(t, n) {
        (Err(e), j) => (Err(e), j),
        (Ok(body), j) => {
            let c = skip_nl(t, clamp(t, n, j));
            if !(t[c].token is Catch) {
                (Err(expected(t, c, "'catch'")), c)
            } else {
                let l = nxt(t, c);
                if !(t[l].token is LParen) {
                    (Err(expected(t, l, "'('")), l)
                } else {
                    let v = nxt(t, l);
                    match t[v].token {
                        Token::Ident(var) => {
                            let r = nxt(t, v);
                            if !(t[r].token is RParen) {
                                (Err(expected(t, r, "')'")), r)
                            } else {
                                match p_block(t, nxt(t, r)) {
                                    (Err(e), j2) => (Err(e), j2),
                                    (Ok(handler), j2) => (
                                        Ok(SStmtKind::Try { body, catch_var: var@, handler }),
                                        clamp(t, nxt(t, r), j2),
                                    ),
                                }
                            }
                        },
                        _ => (Err(expected(t, v, "identifier")), v),
                    }
                }
            }
        },
    }
}

/// `exec` and the words and `{expr}` parts of its line.
pub open spec fn p_exec(t: Seq<Spanned>, i: int) -> KindRead {
    p_exec_more(t, nxt(t, i), seq![])
}

/// The rest of an exec line after the parts `parts`: it ends at the end of the line, or
/// with `?`, which lets the command fail.
pub closed spec fn p_exec_more(t: Seq<Spanned>, i: int, parts: Seq<SExecPart>) -> KindRead
    decreases t.len() - i,
{
    if !(0 <= i < t.len()) {
        (Err(stalled()), i)
    } else {
        let n = nxt(t, i);
        match t[i].token {
            Token::ExecEnd => (Ok(SStmtKind::Exec { parts, swallow: false }), n),
            Token::Question => (Ok(SStmtKind::Exec { parts, swallow: true }), n),
            Token::ExecWord(w) => if n > i {
                p_exec_more(t, n, parts.push(SExecPart::Word(w@)))
            } else {
                (Err(stalled()), n)
            },
            Token::ExecOpen => match p_expr(t, n) {
                (Err(e), j) => (Err(e), j),
                (Ok(x), j) => {
                    let k = clamp(t, n, j);
                    if t[k].token is ExecClose {
                        let m = nxt(t, k);
                        if m > i {
                            p_exec_more(t, m, parts.push(SExecPart::Interp(x)))
                        } else {
                            (Err(stalled()), m)
                        }
                    } else {
                        (Err(expected(t, k, "'}'")), k)
                    }
                },
            },
            Token::Eof => (Ok(SStmtKind::Exec { parts, swallow: false }), i),
            Token::Newline => (Ok(SStmtKind::Exec { parts, swallow: false }), i),
            other => (
                Err(
                    ParseError::Unexpected {
                        got: other,
                        span: t[i].span,
                        msg: "unexpected token in exec line",
                    },
                ),
                i,
            ),
        }
    }
}

/// `exit [code]`: no code when the line or the source ends.
pub open spec fn p_exit(t: Seq<Spanned>, i: int) -> KindRead {
    let n = nxt(t, i);
    if t[n].token is Newline || t[n].token is Eof {
        (Ok(SStmtKind::Exit { code: None }), eol(t, n))
    } else {
        match p_expr(t, n) {
            (Err(e), j) => (Err(e), j),
            (Ok(v), j) => (Ok(SStmtKind::Exit { code: Some(v) }), eol(t, clamp(t, n, j))),
        }
    }
}

/// `{ statements }`, with newlines allowed before the brace.
pub closed spec fn p_block(t: Seq<Spanned>, i: int) -> BlockRead
    decreases t.len() - i, 114int,
{
    let k = skip_nl(t, i);
    if t[k].token is LBrace {
        let n = nxt(t, k);
        if n > i {
            p_block_more(t, n, seq![])
        } else {
            (Err(stalled()), n)
        }
    } else {
        (Err(expected(t, k, "'{'")), k)
    }
}

/// The rest of a block after the statements `stmts`: it ends at `}`; the end of the
/// source before it is an error.
pub closed spec fn p_block_more(t: Seq<Spanned>, i: int, stmts: Seq<SStmt>) -> BlockRead
    decreases t.len() - i, 122int,
{
    let k = skip_nl(t, i);
    if t[k].token is RBrace {
        (Ok(stmts), nxt(t, k))
    } else if t[k].token is Eof {
        (Err(expected(t, k, "'}'")), k)
    } else {
        match p_stmt(t, k) {
            (Err(e), j) => (Err(e), j),
            (Ok(s), j) => {
                let n = clamp(t, k, j);
                if n > i {
                    p_block_more(t, n, stmts.push(s))
                } else {
                    (Err(stalled()), n)
                }
            },
        }
    }
}

/// `(name: type, …)`: parameters in parentheses, with newlines allowed around them.
pub open spec fn p_params(t: Seq<Spanned>, i: int) -> ParamsRead {
    if t[i].token is LParen {
        p_params_more(t, nxt(t, i), seq![])
    } else {
        (Err(expected(t, i, "'('")), i)
    }
}

/// The rest of a parameter list after the parameters `ps`. The span of a parameter runs
/// from its name to the token after its type.
pub closed spec fn p_params_more(t: Seq<Spanned>, i: int, ps: Seq<SParam>) -> ParamsRead
    decreases t.len() - i,
{
    let k = skip_nl(t, i);
    if !(0 <= k < t.len()) {
        (Err(stalled()), k)
    } else if t[k].token is RParen {
        (Ok(ps), nxt(t, k))
    } else {
        match t[k].token {
            Token::Ident(name) => {
                let c = nxt(t, k);
                if t[c].token is Colon {
                    match p_type_ann(t, nxt(t, c)) {
                        (Err(e), j) => (Err(e), j),
                        (Ok(ty), j) => {
                            let e = clamp(t, nxt(t, c), j);
                            let more = ps.push(
                                SParam { name: name@, ty, span: merged(t[k].span, t[e].span) },
                            );
                            let m = skip_nl(t, e);
                            if t[m].token is Comma {
                                let n = nxt(t, m);
                                if n > i {
                                    p_params_more(t, n, more)
                                } else {
                                    (Err(stalled()), n)
                                }
                            } else if t[m].token is RParen {
                                (Ok(more), nxt(t, m))
                            } else {
                                (Err(expected(t, m, "')'")), m)
                            }
                        },
                    }
                } else {
                    (Err(expected(t, c, "':'")), c)
                }
            },
            _ => (Err(expected(t, k, "identifier")), k),
        }
    }
}

/// Where recovery from a failed statement stops: at a statement keyword or `Eof`, or
/// past the first newline.
pub closed spec fn p_recover(t: Seq<Spanned>, i: int) -> int
    decreases t.len() - i,
{
    if !(0 <= i < t.len() - 1) || t[i].token is Eof || is_stmt_keyword(t[i].token) {
        i
    } else if t[i].token is Newline {
        i + 1
    } else {
        p_recover(t, i + 1)
    }
}

/// The statements of a script from `i` on, and the errors of those that failed, with
/// the position of the `Eof` where reading stops. A statement that fails is reported,
/// and reading goes on after recovery.
pub closed spec fn p_script_more(
    t: Seq<Spanned>,
    i: int,
    stmts: Seq<SStmt>,
    errors: Seq<ParseError>,
) -> (Seq<SStmt>, Seq<ParseError>, int)
    decreases t.len() - i,
{
    if !(0 <= i < t.len()) || t[i].token is Eof {
        (stmts, errors, i)
    } else {
        let (st, e2, k) = match p_stmt(t, i) {
            (Ok(s), j) => (stmts.push(s), errors, skip_nl(t, clamp(t, i, j))),
            (Err(e), j) => (stmts, errors.push(e), skip_nl(t, clamp(t, i, p_recover(t, clamp(t, i, j))))),
        };
        if k > i {
            p_script_more(t, k, st, e2)
        } else {
            (st, e2, k)
        }
    }
}

/// The stream of the integer literal `a`, the token `op`, the integer literal `b` and the
/// end, at the spans `s0` to `s3`.
pub open spec fn binary_stream(a: i64, op: Token, b: i64, s0: Span, s1: Span, s2: Span, s3: Span) -> Seq<Spanned> {
    seq![
        Spanned { token: Token::Int(a), span: s0 },
        Spanned { token: op, span: s1 },
        Spanned { token: Token::Int(b), span: s2 },
        Spanned { token: Token::Eof, span: s3 },
    ]
}

/// The integer literal `v` at `sp`.
pub open spec fn int_node(v: i64, sp: Span) -> SExpr {
    SExpr { kind: SExprKind::Int(v), span: sp }
}

/// Between two integer literals, an operator token reads as the operation it names, with
/// the literals as its left and right operands: `*` multiplies, `/` divides, `%` takes the
/// remainder, `+` adds, `-` subtracts, and `==`, `!=`, `<`, `<=`, `>`, `>=` compare.
pub proof fn law_operator_tokens(a: i64, op: Token, b: i64, s0: Span, s1: Span, s2: Span, s3: Span)
    requires
        op is Star || op is Slash || op is Percent || op is Plus || op is Minus || op is EqEq || op is BangEq || op is Lt || op is LtEq || op is Gt || op is GtEq,
    ensures
        ({
            let t = binary_stream(a, op, b, s0, s1, s2, s3);
            let l = int_node(a, s0);
            let r = int_node(b, s2);
            &&& (op is Star ==> p_expr(t, 0) == (Ok::<SExpr, ParseError>(bin_node(BinOp::Mul, l, r)), 3int))
            &&& (op is Slash ==> p_expr(t, 0) == (Ok::<SExpr, ParseError>(bin_node(BinOp::Div, l, r)), 3int))
            &&& (op is Percent ==> p_expr(t, 0) == (Ok::<SExpr, ParseError>(bin_node(BinOp::Mod, l, r)), 3int))
            &&& (op is Plus ==> p_expr(t, 0) == (Ok::<SExpr, ParseError>(bin_node(BinOp::Add, l, r)), 3int))
            &&& (op is Minus ==> p_expr(t, 0) == (Ok::<SExpr, ParseError>(bin_node(BinOp::Sub, l, r)), 3int))
            &&& (op is EqEq ==> p_expr(t, 0) == (Ok::<SExpr, ParseError>(bin_node(BinOp::Eq, l, r)), 3int))
            &&& (op is BangEq ==> p_expr(t, 0) == (Ok::<SExpr, ParseError>(bin_node(BinOp::NotEq, l, r)), 3int))
            &&& (op is Lt ==> p_expr(t, 0) == (Ok::<SExpr, ParseError>(bin_node(BinOp::Lt, l, r)), 3int))
            &&& (op is LtEq ==> p_expr(t, 0) == (Ok::<SExpr, ParseError>(bin_node(BinOp::LtEq, l, r)), 3int))
            &&& (op is Gt ==> p_expr(t, 0) == (Ok::<SExpr, ParseError>(bin_node(BinOp::Gt, l, r)), 3int))
            &&& (op is GtEq ==> p_expr(t, 0) == (Ok::<SExpr, ParseError>(bin_node(BinOp::GtEq, l, r)), 3int))
        }),
{
    let t = binary_stream(a, op, b, s0, s1, s2, s3);
    let l = int_node(a, s0);
    let r = int_node(b, s2);
    lemma_int_operand(t, 0, a);
    lemma_int_operand(t, 2, b);
    let node = if mul_op(op) is Some {
        bin_node(mul_op(op)->0, l, r)
    } else if add_op(op) is Some {
        bin_node(add_op(op)->0, l, r)
    } else {
        bin_node(cmp_op(op)->0, l, r)
    };
    lemma_chains_end(t, 3, node);
    lemma_chains_end(t, 3, r);
    if mul_op(op) is Some {
        lemma_mul_step(t, l, r);
        lemma_from_multiplicative(t, node);
    } else {
        lemma_no_mul(t, 1, l);
        assert(p_multiplicative(t, 0) == (Ok::<SExpr, ParseError>(l), 1int));
        assert(p_multiplicative(t, 2) == (Ok::<SExpr, ParseError>(r), 3int));
        if add_op(op) is Some {
            lemma_add_step(t, l, r);
            lemma_from_additive(t, node);
        } else {
            lemma_no_add(t, 1, l);
            assert(p_additive(t, 0) == (Ok::<SExpr, ParseError>(l), 1int));
            assert(p_additive(t, 2) == (Ok::<SExpr, ParseError>(r), 3int));
            lemma_cmp_step(t, l, r);
            lemma_from_comparison(t, node);
        }
    }
}

/// Before an integer literal, `-` reads as negation and `not` as logical negation, of that
/// literal; between two integer literals, `and` and `or` read as the conjunction and the
/// disjunction of the two.
pub proof fn law_logic_and_sign_tokens(a: i64, b: i64, s0: Span, s1: Span, s2: Span, s3: Span)
    ensures
        ({
            let neg = seq![
                Spanned { token: Token::Minus, span: s0 },
                Spanned { token: Token::Int(a), span: s1 },
                Spanned { token: Token::Eof, span: s2 },
            ];
            let x = int_node(a, s1);
            p_expr(neg, 0) == (Ok::<SExpr, ParseError>(SExpr {
                kind: SExprKind::UnaryOp { op: UnaryOp::Neg, operand: Box::new(x) },
                span: merged(s1, s1),
            }), 2int)
        }),
        ({
            let not = seq![
                Spanned { token: Token::Not, span: s0 },
                Spanned { token: Token::Int(a), span: s1 },
                Spanned { token: Token::Eof, span: s2 },
            ];
            let x = int_node(a, s1);
            p_expr(not, 0) == (Ok::<SExpr, ParseError>(SExpr {
                kind: SExprKind::UnaryOp { op: UnaryOp::Not, operand: Box::new(x) },
                span: merged(s1, s1),
            }), 2int)
        }),
        ({
            let t = binary_stream(a, Token::And, b, s0, s1, s2, s3);
            p_expr(t, 0) == (Ok::<SExpr, ParseError>(bin_node(BinOp::And, int_node(a, s0), int_node(b, s2))), 3int)
        }),
        ({
            let t = binary_stream(a, Token::Or, b, s0, s1, s2, s3);
            let l = int_node(a, s0);
            let r = int_node(b, s2);
            p_expr(t, 0) == (Ok::<SExpr, ParseError>(SExpr {
                kind: SExprKind::Or { left: Box::new(l), right: Box::new(r) },
                span: merged(l.span, r.span),
            }), 3int)
        }),
{
    lemma_neg_stream(a, s0, s1, s2);
    lemma_not_stream(a, s0, s1, s2);
    lemma_and_stream(a, b, s0, s1, s2, s3);
    lemma_or_stream(a, b, s0, s1, s2, s3);
}

/// A unary expression read up to `e`, where no binary operator follows, is the whole
/// comparison, and, without `not` in front, the whole negation level.
proof fn lemma_operand_levels(t: Seq<Spanned>, i: int, x: SExpr, e: int)
    requires
        0 <= i < e < t.len(),
        p_unary(t, i) == (Ok::<SExpr, ParseError>(x), e),
        mul_op(t[e].token) is None,
        add_op(t[e].token) is None,
        cmp_op(t[e].token) is None,
        !(t[i].token is Not),
    ensures
        p_not(t, i) == (Ok::<SExpr, ParseError>(x), e),
{
    lemma_no_mul(t, e, x);
    assert(p_multiplicative(t, i) == (Ok::<SExpr, ParseError>(x), e));
    lemma_no_add(t, e, x);
    assert(p_additive(t, i) == (Ok::<SExpr, ParseError>(x), e));
    assert(p_comparison_more(t, e, x) == (Ok::<SExpr, ParseError>(x), e));
    assert(p_comparison(t, i) == (Ok::<SExpr, ParseError>(x), e));
}

proof fn lemma_neg_stream(a: i64, s0: Span, s1: Span, s2: Span) 
    ensures
        ({
            let t = seq![
                Spanned { token: Token::Minus, span: s0 },
                Spanned { token: Token::Int(a), span: s1 },
                Spanned { token: Token::Eof, span: s2 },
            ];
            let x = int_node(a, s1);
            p_expr(t, 0) == (Ok::<SExpr, ParseError>(SExpr {
                kind: SExprKind::UnaryOp { op: UnaryOp::Neg, operand: Box::new(x) },
                span: merged(s1, s1),
            }), 2int)
        }),
{
    let t = seq![
        Spanned { token: Token::Minus, span: s0 },
        Spanned { token: Token::Int(a), span: s1 },
        Spanned { token: Token::Eof, span: s2 },
    ];
    let x = int_node(a, s1);
    let node = SExpr {
        kind: SExprKind::UnaryOp { op: UnaryOp::Neg, operand: Box::new(x) },
        span: merged(s1, s1),
    };
    lemma_int_operand(t, 1, a);
    assert(p_unary(t, 0) == (Ok::<SExpr, ParseError>(node), 2int));
    lemma_chains_end(t, 2, node);
    lemma_operand_levels(t, 0, node, 2);
    assert(p_and(t, 0) == (Ok::<SExpr, ParseError>(node), 2int));
    assert(p_or(t, 0) == (Ok::<SExpr, ParseError>(node), 2int));
}

proof fn lemma_not_stream(a: i64, s0: Span, s1: Span, s2: Span) 
    ensures
        ({
            let t = seq![
                Spanned { token: Token::Not, span: s0 },
                Spanned { token: Token::Int(a), span: s1 },
                Spanned { token: Token::Eof, span: s2 },
            ];
            let x = int_node(a, s1);
            p_expr(t, 0) == (Ok::<SExpr, ParseError>(SExpr {
                kind: SExprKind::UnaryOp { op: UnaryOp::Not, operand: Box::new(x) },
                span: merged(s1, s1),
            }), 2int)
        }),
{
    let t = seq![
        Spanned { token: Token::Not, span: s0 },
        Spanned { token: Token::Int(a), span: s1 },
        Spanned { token: Token::Eof, span: s2 },
    ];
    let x = int_node(a, s1);
    let node = SExpr {
        kind: SExprKind::UnaryOp { op: UnaryOp::Not, operand: Box::new(x) },
        span: merged(s1, s1),
    };
    lemma_int_operand(t, 1, a);
    lemma_chains_end(t, 2, x);
    lemma_operand_levels(t, 1, x, 2);
    assert(p_not(t, 0) == (Ok::<SExpr, ParseError>(node), 2int));
    lemma_chains_end(t, 2, node);
    assert(p_and(t, 0) == (Ok::<SExpr, ParseError>(node), 2int));
    assert(p_or(t, 0) == (Ok::<SExpr, ParseError>(node), 2int));
}

proof fn lemma_and_stream(a: i64, b: i64, s0: Span, s1: Span, s2: Span, s3: Span)
    ensures
        ({
            let t = binary_stream(a, Token::And, b, s0, s1, s2, s3);
            p_expr(t, 0) == (Ok::<SExpr, ParseError>(bin_node(BinOp::And, int_node(a, s0), int_node(b, s2))), 3int)
        }),
{
    let t = binary_stream(a, Token::And, b, s0, s1, s2, s3);
    let l = int_node(a, s0);
    let r = int_node(b, s2);
    let node = bin_node(BinOp::And, l, r);
    lemma_int_operand(t, 0, a);
    lemma_int_operand(t, 2, b);
    lemma_chains_end(t, 3, r);
    lemma_chains_end(t, 3, node);
    lemma_operand_levels(t, 0, l, 1);
    lemma_operand_levels(t, 2, r, 3);
    assert(p_and_more(t, 1, l) == (Ok::<SExpr, ParseError>(node), 3int));
    assert(p_and(t, 0) == (Ok::<SExpr, ParseError>(node), 3int));
    assert(p_or(t, 0) == (Ok::<SExpr, ParseError>(node), 3int));
}

proof fn lemma_or_stream(a: i64, b: i64, s0: Span, s1: Span, s2: Span, s3: Span)
    ensures
        ({
            let t = binary_stream(a, Token::Or, b, s0, s1, s2, s3);
            let l = int_node(a, s0);
            let r = int_node(b, s2);
            p_expr(t, 0) == (Ok::<SExpr, ParseError>(SExpr {
                kind: SExprKind::Or { left: Box::new(l), right: Box::new(r) },
                span: merged(l.span, r.span),
            }), 3int)
        }),
{
    let t = binary_stream(a, Token::Or, b, s0, s1, s2, s3);
    let l = int_node(a, s0);
    let r = int_node(b, s2);
    let node = SExpr {
        kind: SExprKind::Or { left: Box::new(l), right: Box::new(r) },
        span: merged(l.span, r.span),
    };
    lemma_int_operand(t, 0, a);
    lemma_int_operand(t, 2, b);
    lemma_chains_end(t, 3, r);
    lemma_chains_end(t, 3, node);
    lemma_operand_levels(t, 0, l, 1);
    lemma_operand_levels(t, 2, r, 3);
    assert(p_and_more(t, 1, l) == (Ok::<SExpr, ParseError>(l), 1int));
    assert(p_and(t, 0) == (Ok::<SExpr, ParseError>(l), 1int));
    assert(p_and(t, 2) == (Ok::<SExpr, ParseError>(r), 3int));
    assert(p_or_more(t, 1, l) == (Ok::<SExpr, ParseError>(node), 3int));
    assert(p_or(t, 0) == (Ok::<SExpr, ParseError>(node), 3int));
}

/// The stream of the integer literals `a`, `b`, `c` with the tokens `p` and `q` between
/// them, and the end, at the spans `sp`.
pub open spec fn chain_stream(a: i64, p: Token, b: i64, q: Token, c: i64, sp: Seq<Span>) -> Seq<Spanned> {
    seq![
        Spanned { token: Token::Int(a), span: sp[0] },
        Spanned { token: p, span: sp[1] },
        Spanned { token: Token::Int(b), span: sp[2] },
        Spanned { token: q, span: sp[3] },
        Spanned { token: Token::Int(c), span: sp[4] },
        Spanned { token: Token::Eof, span: sp[5] },
    ]
}

/// `*`, `/` and `%` bind tighter than `+` and `-`, on either side; operators of the same
/// level group to the left.
pub proof fn law_precedence_and_grouping(a: i64, p: Token, b: i64, q: Token, c: i64, sp: Seq<Span>)
    requires
        sp.len() == 6,
        (mul_op(p) is Some || add_op(p) is Some),
        (mul_op(q) is Some || add_op(q) is Some),
    ensures
        ({
            let t = chain_stream(a, p, b, q, c, sp);
            let x = int_node(a, sp[0]);
            let y = int_node(b, sp[2]);
            let z = int_node(c, sp[4]);
            &&& (add_op(p) is Some && mul_op(q) is Some ==> p_expr(t, 0) == (Ok::<SExpr, ParseError>(
                bin_node(add_op(p)->0, x, bin_node(mul_op(q)->0, y, z)),
            ), 5int))
            &&& (mul_op(p) is Some && add_op(q) is Some ==> p_expr(t, 0) == (Ok::<SExpr, ParseError>(
                bin_node(add_op(q)->0, bin_node(mul_op(p)->0, x, y), z),
            ), 5int))
            &&& (add_op(p) is Some && add_op(q) is Some ==> p_expr(t, 0) == (Ok::<SExpr, ParseError>(
                bin_node(add_op(q)->0, bin_node(add_op(p)->0, x, y), z),
            ), 5int))
            &&& (mul_op(p) is Some && mul_op(q) is Some ==> p_expr(t, 0) == (Ok::<SExpr, ParseError>(
                bin_node(mul_op(q)->0, bin_node(mul_op(p)->0, x, y), z),
            ), 5int))
        }),
{
    let t = chain_stream(a, p, b, q, c, sp);
    let x = int_node(a, sp[0]);
    let y = int_node(b, sp[2]);
    let z = int_node(c, sp[4]);
    lemma_int_operand(t, 0, a);
    lemma_int_operand(t, 2, b);
    lemma_int_operand(t, 4, c);
    lemma_chains_end(t, 5, z);
    assert(p_multiplicative(t, 4) == (Ok::<SExpr, ParseError>(z), 5int));
    if add_op(p) is Some && mul_op(q) is Some {
        let m = bin_node(mul_op(q)->0, y, z);
        let n = bin_node(add_op(p)->0, x, m);
        lemma_chains_end(t, 5, m);
        lemma_chains_end(t, 5, n);
        assert(p_multiplicative_more(t, 3, y) == (Ok::<SExpr, ParseError>(m), 5int));
        assert(p_multiplicative(t, 2) == (Ok::<SExpr, ParseError>(m), 5int));
        lemma_no_mul(t, 1, x);
        assert(p_multiplicative(t, 0) == (Ok::<SExpr, ParseError>(x), 1int));
        assert(p_additive_more(t, 1, x) == (Ok::<SExpr, ParseError>(n), 5int));
        assert(p_additive(t, 0) == (Ok::<SExpr, ParseError>(n), 5int));
        lemma_top_levels(t, n, 5);
    } else if mul_op(p) is Some && add_op(q) is Some {
        let m = bin_node(mul_op(p)->0, x, y);
        let n = bin_node(add_op(q)->0, m, z);
        lemma_chains_end(t, 5, n);
        lemma_no_mul(t, 3, m);
        assert(p_multiplicative_more(t, 1, x) == (Ok::<SExpr, ParseError>(m), 3int));
        assert(p_multiplicative(t, 0) == (Ok::<SExpr, ParseError>(m), 3int));
        assert(p_additive_more(t, 3, m) == (Ok::<SExpr, ParseError>(n), 5int));
        assert(p_additive(t, 0) == (Ok::<SExpr, ParseError>(n), 5int));
        lemma_top_levels(t, n, 5);
    } else if add_op(p) is Some && add_op(q) is Some {
        let m = bin_node(add_op(p)->0, x, y);
        let n = bin_node(add_op(q)->0, m, z);
        lemma_chains_end(t, 5, n);
        lemma_no_mul(t, 1, x);
        lemma_no_mul(t, 3, y);
        assert(p_multiplicative(t, 0) == (Ok::<SExpr, ParseError>(x), 1int));
        assert(p_multiplicative(t, 2) == (Ok::<SExpr, ParseError>(y), 3int));
        assert(p_additive_more(t, 3, m) == (Ok::<SExpr, ParseError>(n), 5int));
        assert(p_additive_more(t, 1, x) == (Ok::<SExpr, ParseError>(n), 5int));
        assert(p_additive(t, 0) == (Ok::<SExpr, ParseError>(n), 5int));
        lemma_top_levels(t, n, 5);
    } else {
        let m = bin_node(mul_op(p)->0, x, y);
        let n = bin_node(mul_op(q)->0, m, z);
        lemma_chains_end(t, 5, n);
        assert(p_multiplicative_more(t, 3, m) == (Ok::<SExpr, ParseError>(n), 5int));
        assert(p_multiplicative_more(t, 1, x) == (Ok::<SExpr, ParseError>(n), 5int));
        assert(p_multiplicative(t, 0) == (Ok::<SExpr, ParseError>(n), 5int));
        assert(p_additive(t, 0) == (Ok::<SExpr, ParseError>(n), 5int));
        lemma_top_levels(t, n, 5);
    }
}

/// A sum read from the start up to the end `e`, with nothing in front, is the whole
/// expression.
proof fn lemma_top_levels(t: Seq<Spanned>, x: SExpr, e: int)
    requires
        0 < e < t.len(),
        t[e].token is Eof,
        !(t[0].token is Not),
        p_additive(t, 0) == (Ok::<SExpr, ParseError>(x), e),
    ensures
        p_expr(t, 0) == (Ok::<SExpr, ParseError>(x), e),
{
    lemma_chains_end(t, e, x);
    assert(p_comparison(t, 0) == (Ok::<SExpr, ParseError>(x), e));
    assert(p_not(t, 0) == (Ok::<SExpr, ParseError>(x), e));
    assert(p_and(t, 0) == (Ok::<SExpr, ParseError>(x), e));
    assert(p_or(t, 0) == (Ok::<SExpr, ParseError>(x), e));
}

/// `true` reads as the value true and `false` as the value false.
pub proof fn law_boolean_tokens(v: bool, s0: Span, s1: Span)
    ensures
        ({
            let t = seq![
                Spanned { token: if v { Token::True } else { Token::False }, span: s0 },
                Spanned { token: Token::Eof, span: s1 },
            ];
            p_expr(t, 0) == (Ok::<SExpr, ParseError>(SExpr { kind: SExprKind::Bool(v), span: s0 }), 1int)
        }),
{
    let t = seq![
        Spanned { token: if v { Token::True } else { Token::False }, span: s0 },
        Spanned { token: Token::Eof, span: s1 },
    ];
    let x = SExpr { kind: SExprKind::Bool(v), span: s0 };
    assert(p_primary(t, 0) == (Ok::<SExpr, ParseError>(x), 1int));
    assert(p_postfix_more(t, 1, x) == (Ok::<SExpr, ParseError>(x), 1int));
    assert(p_postfix(t, 0) == (Ok::<SExpr, ParseError>(x), 1int));
    assert(p_unary(t, 0) == (Ok::<SExpr, ParseError>(x), 1int));
    lemma_chains_end(t, 1, x);
    lemma_operand_levels(t, 0, x, 1);
    assert(p_and(t, 0) == (Ok::<SExpr, ParseError>(x), 1int));
    assert(p_or(t, 0) == (Ok::<SExpr, ParseError>(x), 1int));
}

/// An integer literal followed by a token that continues no postfix expression reads as
/// that literal, up to the next token.
proof fn lemma_int_operand(t: Seq<Spanned>, i: int, v: i64)
    requires
        0 <= i,
        i + 1 < t.len(),
        t[i].token == Token::Int(v),
        !(t[i + 1].token is Dot || t[i + 1].token is LBracket || t[i + 1].token is LParen
            || t[i + 1].token is DotDot),
    ensures
        p_unary(t, i) == (Ok::<SExpr, ParseError>(int_node(v, t[i].span)), i + 1),
{
    let x = int_node(v, t[i].span);
    assert(p_primary(t, i) == (Ok::<SExpr, ParseError>(x), i + 1));
    assert(p_postfix_more(t, i + 1, x) == (Ok::<SExpr, ParseError>(x), i + 1));
    assert(p_postfix(t, i) == (Ok::<SExpr, ParseError>(x), i + 1));
}

/// At the end of the stream every chain of operators is over.
proof fn lemma_chains_end(t: Seq<Spanned>, i: int, x: SExpr)
    requires
        0 <= i < t.len(),
        t[i].token is Eof,
    ensures
        p_multiplicative_more(t, i, x) == (Ok::<SExpr, ParseError>(x), i),
        p_additive_more(t, i, x) == (Ok::<SExpr, ParseError>(x), i),
        p_comparison_more(t, i, x) == (Ok::<SExpr, ParseError>(x), i),
        p_and_more(t, i, x) == (Ok::<SExpr, ParseError>(x), i),
        p_or_more(t, i, x) == (Ok::<SExpr, ParseError>(x), i),
{
}

proof fn lemma_no_mul(t: Seq<Spanned>, i: int, x: SExpr)
    requires
        0 <= i < t.len(),
        mul_op(t[i].token) is None,
    ensures
        p_multiplicative_more(t, i, x) == (Ok::<SExpr, ParseError>(x), i),
{
}

proof fn lemma_no_add(t: Seq<Spanned>, i: int, x: SExpr)
    requires
        0 <= i < t.len(),
        add_op(t[i].token) is None,
    ensures
        p_additive_more(t, i, x) == (Ok::<SExpr, ParseError>(x), i),
{
}

proof fn lemma_mul_step(t: Seq<Spanned>, l: SExpr, r: SExpr)
    requires
        t.len() == 4,
        mul_op(t[1].token) is Some,
        p_unary(t, 0) == (Ok::<SExpr, ParseError>(l), 1int),
        p_unary(t, 2) == (Ok::<SExpr, ParseError>(r), 3int),
        p_multiplicative_more(t, 3, bin_node(mul_op(t[1].token)->0, l, r)) == (Ok::<SExpr, ParseError>(bin_node(mul_op(t[1].token)->0, l, r)), 3int),
    ensures
        p_multiplicative(t, 0) == (Ok::<SExpr, ParseError>(bin_node(mul_op(t[1].token)->0, l, r)), 3int),
{
    assert(p_multiplicative_more(t, 1, l) == (Ok::<SExpr, ParseError>(bin_node(mul_op(t[1].token)->0, l, r)), 3int));
}

proof fn lemma_add_step(t: Seq<Spanned>, l: SExpr, r: SExpr)
    requires
        t.len() == 4,
        add_op(t[1].token) is Some,
        p_multiplicative(t, 0) == (Ok::<SExpr, ParseError>(l), 1int),
        p_multiplicative(t, 2) == (Ok::<SExpr, ParseError>(r), 3int),
        p_additive_more(t, 3, bin_node(add_op(t[1].token)->0, l, r)) == (Ok::<SExpr, ParseError>(bin_node(add_op(t[1].token)->0, l, r)), 3int),
    ensures
        p_additive(t, 0) == (Ok::<SExpr, ParseError>(bin_node(add_op(t[1].token)->0, l, r)), 3int),
{
    assert(p_additive_more(t, 1, l) == (Ok::<SExpr, ParseError>(bin_node(add_op(t[1].token)->0, l, r)), 3int));
}

proof fn lemma_cmp_step(t: Seq<Spanned>, l: SExpr, r: SExpr)
    requires
        t.len() == 4,
        cmp_op(t[1].token) is Some,
        p_additive(t, 0) == (Ok::<SExpr, ParseError>(l), 1int),
        p_additive(t, 2) == (Ok::<SExpr, ParseError>(r), 3int),
        p_comparison_more(t, 3, bin_node(cmp_op(t[1].token)->0, l, r)) == (Ok::<SExpr, ParseError>(bin_node(cmp_op(t[1].token)->0, l, r)), 3int),
    ensures
        p_comparison(t, 0) == (Ok::<SExpr, ParseError>(bin_node(cmp_op(t[1].token)->0, l, r)), 3int),
{
    assert(p_comparison_more(t, 1, l) == (Ok::<SExpr, ParseError>(bin_node(cmp_op(t[1].token)->0, l, r)), 3int));
}

proof fn lemma_from_multiplicative(t: Seq<Spanned>, x: SExpr)
    requires
        t.len() == 4,
        !(t[0].token is Minus || t[0].token is Not),
        p_multiplicative(t, 0) == (Ok::<SExpr, ParseError>(x), 3int),
        p_additive_more(t, 3, x) == (Ok::<SExpr, ParseError>(x), 3int),
        p_comparison_more(t, 3, x) == (Ok::<SExpr, ParseError>(x), 3int),
        p_and_more(t, 3, x) == (Ok::<SExpr, ParseError>(x), 3int),
        p_or_more(t, 3, x) == (Ok::<SExpr, ParseError>(x), 3int),
    ensures
        p_expr(t, 0) == (Ok::<SExpr, ParseError>(x), 3int),
{
    assert(p_additive(t, 0) == (Ok::<SExpr, ParseError>(x), 3int));
    lemma_from_additive(t, x);
}

proof fn lemma_from_additive(t: Seq<Spanned>, x: SExpr)
    requires
        t.len() == 4,
        !(t[0].token is Not),
        p_additive(t, 0) == (Ok::<SExpr, ParseError>(x), 3int),
        p_comparison_more(t, 3, x) == (Ok::<SExpr, ParseError>(x), 3int),
        p_and_more(t, 3, x) == (Ok::<SExpr, ParseError>(x), 3int),
        p_or_more(t, 3, x) == (Ok::<SExpr, ParseError>(x), 3int),
    ensures
        p_expr(t, 0) == (Ok::<SExpr, ParseError>(x), 3int),
{
    assert(p_comparison(t, 0) == (Ok::<SExpr, ParseError>(x), 3int));
    lemma_from_comparison(t, x);
}

proof fn lemma_from_comparison(t: Seq<Spanned>, x: SExpr)
    requires
        t.len() == 4,
        !(t[0].token is Not),
        p_comparison(t, 0) == (Ok::<SExpr, ParseError>(x), 3int),
        p_and_more(t, 3, x) == (Ok::<SExpr, ParseError>(x), 3int),
        p_or_more(t, 3, x) == (Ok::<SExpr, ParseError>(x), 3int),
    ensures
        p_expr(t, 0) == (Ok::<SExpr, ParseError>(x), 3int),
{
    assert(p_not(t, 0) == (Ok::<SExpr, ParseError>(x), 3int));
    assert(p_and(t, 0) == (Ok::<SExpr, ParseError>(x), 3int));
    assert(p_or(t, 0) == (Ok::<SExpr, ParseError>(x), 3int));
}

/// `p_expr` unfolded once.
pub proof fn lemma_p_expr(t: Seq<Spanned>, i: int)
    ensures
        p_expr(t, i) == {
            p_or(t, i)
        },
{
}

/// `p_or` unfolded once.
pub proof fn lemma_p_or(t: Seq<Spanned>, i: int)
    ensures
        p_or(t, i) == {
            match p_and(t, i) {
                (Err(e), j) => (Err(e), j),
                (Ok(l), j) => p_or_more(t, clamp(t, i, j), l),
            }
        },
{
}

/// `p_or_more` unfolded once.
pub proof fn lemma_p_or_more(t: Seq<Spanned>, i: int, l: SExpr)
    ensures
        p_or_more(t, i, l) == {
            if 0 <= i < t.len() && t[i].token is Or {
                match p_and(t, nxt(t, i)) {
                    (Err(e), j) => (Err(e), j),
                    (Ok(r), j) => {
                        let k = clamp(t, nxt(t, i), j);
                        let node = SExpr {
                            kind: SExprKind::Or { left: Box::new(l), right: Box::new(r) },
                            span: merged(l.span, r.span),
                        };
                        if k > i {
                            p_or_more(t, k, node)
                        } else {
                            (Err(stalled()), k)
                        }
                    },
                }
            } else {
                (Ok(l), i)
            }
        },
{
}

/// `p_and` unfolded once.
pub proof fn lemma_p_and(t: Seq<Spanned>, i: int)
    ensures
        p_and(t, i) == {
            match p_not(t, i) {
                (Err(e), j) => (Err(e), j),
                (Ok(l), j) => p_and_more(t, clamp(t, i, j), l),
            }
        },
{
}

/// `p_and_more` unfolded once.
pub proof fn lemma_p_and_more(t: Seq<Spanned>, i: int, l: SExpr)
    ensures
        p_and_more(t, i, l) == {
            if 0 <= i < t.len() && t[i].token is And {
                match p_not(t, nxt(t, i)) {
                    (Err(e), j) => (Err(e), j),
                    (Ok(r), j) => {
                        let k = clamp(t, nxt(t, i), j);
                        if k > i {
                            p_and_more(t, k, bin_node(BinOp::And, l, r))
                        } else {
                            (Err(stalled()), k)
                        }
                    },
                }
            } else {
                (Ok(l), i)
            }
        },
{
}

/// `p_not` unfolded once.
pub proof fn lemma_p_not(t: Seq<Spanned>, i: int)
    ensures
        p_not(t, i) == {
            if 0 <= i < t.len() && t[i].token is Not {
                let n = nxt(t, i);
                if n > i {
                    match p_not(t, n) {
                        (Err(e), j) => (Err(e), j),
                        (Ok(x), j) => (
                            Ok(
                                SExpr {
                                    kind: SExprKind::UnaryOp { op: UnaryOp::Not, operand: Box::new(x) },
                                    span: merged(t[n].span, x.span),
                                },
                            ),
                            j,
                        ),
                    }
                } else {
                    (Err(stalled()), n)
                }
            } else {
                p_comparison(t, i)
            }
        },
{
}

/// `p_comparison` unfolded once.
pub proof fn lemma_p_comparison(t: Seq<Spanned>, i: int)
    ensures
        p_comparison(t, i) == {
            match p_additive(t, i) {
                (Err(e), j) => (Err(e), j),
                (Ok(l), j) => p_comparison_more(t, clamp(t, i, j), l),
            }
        },
{
}

/// `p_comparison_more` unfolded once.
pub proof fn lemma_p_comparison_more(t: Seq<Spanned>, i: int, l: SExpr)
    ensures
        p_comparison_more(t, i, l) == {
            if 0 <= i < t.len() && cmp_op(t[i].token) is Some {
                match p_additive(t, nxt(t, i)) {
                    (Err(e), j) => (Err(e), j),
                    (Ok(r), j) => {
                        let k = clamp(t, nxt(t, i), j);
                        if k > i {
                            p_comparison_more(t, k, bin_node(cmp_op(t[i].token)->0, l, r))
                        } else {
                            (Err(stalled()), k)
                        }
                    },
                }
            } else {
                (Ok(l), i)
            }
        },
{
}

/// `p_additive` unfolded once.
pub proof fn lemma_p_additive(t: Seq<Spanned>, i: int)
    ensures
        p_additive(t, i) == {
            match p_multiplicative(t, i) {
                (Err(e), j) => (Err(e), j),
                (Ok(l), j) => p_additive_more(t, clamp(t, i, j), l),
            }
        },
{
}

/// `p_additive_more` unfolded once.
pub proof fn lemma_p_additive_more(t: Seq<Spanned>, i: int, l: SExpr)
    ensures
        p_additive_more(t, i, l) == {
            if 0 <= i < t.len() && add_op(t[i].token) is Some {
                match p_multiplicative(t, nxt(t, i)) {
                    (Err(e), j) => (Err(e), j),
                    (Ok(r), j) => {
                        let k = clamp(t, nxt(t, i), j);
                        if k > i {
                            p_additive_more(t, k, bin_node(add_op(t[i].token)->0, l, r))
                        } else {
                            (Err(stalled()), k)
                        }
                    },
                }
            } else {
                (Ok(l), i)
            }
        },
{
}

/// `p_multiplicative` unfolded once.
pub proof fn lemma_p_multiplicative(t: Seq<Spanned>, i: int)
    ensures
        p_multiplicative(t, i) == {
            match p_unary(t, i) {
                (Err(e), j) => (Err(e), j),
                (Ok(l), j) => p_multiplicative_more(t, clamp(t, i, j), l),
            }
        },
{
}

/// `p_multiplicative_more` unfolded once.
pub proof fn lemma_p_multiplicative_more(t: Seq<Spanned>, i: int, l: SExpr)
    ensures
        p_multiplicative_more(t, i, l) == {
            if 0 <= i < t.len() && mul_op(t[i].token) is Some {
                match p_unary(t, nxt(t, i)) {
                    (Err(e), j) => (Err(e), j),
                    (Ok(r), j) => {
                        let k = clamp(t, nxt(t, i), j);
                        if k > i {
                            p_multiplicative_more(t, k, bin_node(mul_op(t[i].token)->0, l, r))
                        } else {
                            (Err(stalled()), k)
                        }
                    },
                }
            } else {
                (Ok(l), i)
            }
        },
{
}

/// `p_unary` unfolded once.
pub proof fn lemma_p_unary(t: Seq<Spanned>, i: int)
    ensures
        p_unary(t, i) == {
            if 0 <= i < t.len() && t[i].token is Minus {
                let n = nxt(t, i);
                if n > i {
                    match p_unary(t, n) {
                        (Err(e), j) => (Err(e), j),
                        (Ok(x), j) => (
                            Ok(
                                SExpr {
                                    kind: SExprKind::UnaryOp { op: UnaryOp::Neg, operand: Box::new(x) },
                                    span: merged(t[n].span, x.span),
                                },
                            ),
                            j,
                        ),
                    }
                } else {
                    (Err(stalled()), n)
                }
            } else {
                p_postfix(t, i)
            }
        },
{
}

/// `p_postfix` unfolded once.
pub proof fn lemma_p_postfix(t: Seq<Spanned>, i: int)
    ensures
        p_postfix(t, i) == {
            match p_primary(t, i) {
                (Err(e), j) => (Err(e), j),
                (Ok(x), j) => p_postfix_more(t, clamp(t, i, j), x),
            }
        },
{
}

/// `p_postfix_more` unfolded once.
pub proof fn lemma_p_postfix_more(t: Seq<Spanned>, i: int, x: SExpr)
    ensures
        p_postfix_more(t, i, x) == {
            if !(0 <= i < t.len()) {
                (Ok(x), i)
            } else {
                match t[i].token {
                    Token::Dot => {
                        let f = nxt(t, i);
                        match t[f].token {
                            Token::Ident(name) => {
                                let a = nxt(t, f);
                                if t[a].token is LParen {
                                    match p_args(t, a) {
                                        (Err(e), j) => (Err(e), j),
                                        (Ok(args), j) => {
                                            let k = clamp(t, a, j);
                                            let node = SExpr {
                                                kind: SExprKind::MethodCall {
                                                    object: Box::new(x),
                                                    method: name@,
                                                    args,
                                                },
                                                span: merged(x.span, t[k].span),
                                            };
                                            if k > i {
                                                p_postfix_more(t, k, node)
                                            } else {
                                                (Err(stalled()), k)
                                            }
                                        },
                                    }
                                } else {
                                    let node = SExpr {
                                        kind: SExprKind::Field { object: Box::new(x), field: name@ },
                                        span: merged(x.span, t[f].span),
                                    };
                                    if a > i {
                                        p_postfix_more(t, a, node)
                                    } else {
                                        (Err(stalled()), a)
                                    }
                                }
                            },
                            _ => (Err(expected(t, f, "identifier")), f),
                        }
                    },
                    Token::LBracket => {
                        let n = nxt(t, i);
                        if n > i {
                            match p_expr(t, n) {
                                (Err(e), j) => (Err(e), j),
                                (Ok(index), j) => {
                                    let k = clamp(t, n, j);
                                    if t[k].token is RBracket {
                                        let node = SExpr {
                                            kind: SExprKind::Index {
                                                object: Box::new(x),
                                                index: Box::new(index),
                                            },
                                            span: merged(x.span, t[k].span),
                                        };
                                        p_postfix_more(t, nxt(t, k), node)
                                    } else {
                                        (Err(expected(t, k, "']'")), k)
                                    }
                                },
                            }
                        } else {
                            (Err(stalled()), n)
                        }
                    },
                    Token::LParen => match p_args(t, i) {
                        (Err(e), j) => (Err(e), j),
                        (Ok(args), j) => {
                            let k = clamp(t, i, j);
                            let node = SExpr {
                                kind: SExprKind::Call { callee: Box::new(x), args },
                                span: merged(x.span, t[k].span),
                            };
                            if k > i {
                                p_postfix_more(t, k, node)
                            } else {
                                (Err(stalled()), k)
                            }
                        },
                    },
                    Token::DotDot => match p_primary(t, nxt(t, i)) {
                        (Err(e), j) => (Err(e), j),
                        (Ok(end), j) => {
                            let k = clamp(t, nxt(t, i), j);
                            let node = SExpr {
                                kind: SExprKind::Range { start: Box::new(x), end: Box::new(end) },
                                span: merged(x.span, end.span),
                            };
                            if k > i {
                                p_postfix_more(t, k, node)
                            } else {
                                (Err(stalled()), k)
                            }
                        },
                    },
                    _ => (Ok(x), i),
                }
            }
        },
{
}

/// `p_args` unfolded once.
pub proof fn lemma_p_args(t: Seq<Spanned>, i: int)
    ensures
        p_args(t, i) == {
            if 0 <= i < t.len() && t[i].token is LParen {
                let n = nxt(t, i);
                if n > i {
                    p_args_more(t, n, seq![])
                } else {
                    (Err(stalled()), n)
                }
            } else {
                (Err(expected(t, i, "'('")), i)
            }
        },
{
}

/// `p_args_more` unfolded once.
pub proof fn lemma_p_args_more(t: Seq<Spanned>, i: int, acc: Seq<SExpr>)
    ensures
        p_args_more(t, i, acc) == {
            let k = skip_nl(t, i);
            if t[k].token is RParen {
                (Ok(acc), nxt(t, k))
            } else {
                match p_expr(t, k) {
                    (Err(e), j) => (Err(e), j),
                    (Ok(a), j) => {
                        let m = skip_nl(t, clamp(t, k, j));
                        if t[m].token is Comma {
                            let n = nxt(t, m);
                            if n > i {
                                p_args_more(t, n, acc.push(a))
                            } else {
                                (Err(stalled()), n)
                            }
                        } else if t[m].token is RParen {
                            (Ok(acc.push(a)), nxt(t, m))
                        } else {
                            (Err(expected(t, m, "')'")), m)
                        }
                    },
                }
            }
        },
{
}

/// `p_primary` unfolded once.
pub proof fn lemma_p_primary(t: Seq<Spanned>, i: int)
    ensures
        p_primary(t, i) == {
            if !(0 <= i < t.len()) {
                (Err(stalled()), i)
            } else {
                let sp = t[i].span;
                let n = nxt(t, i);
                match t[i].token {
                    Token::Int(v) => (Ok(SExpr { kind: SExprKind::Int(v), span: sp }), n),
                    Token::Float(x) => (Ok(SExpr { kind: SExprKind::Float(x@), span: sp }), n),
                    Token::Str(s) => (Ok(SExpr { kind: SExprKind::Str(s@), span: sp }), n),
                    Token::True => (Ok(SExpr { kind: SExprKind::Bool(true), span: sp }), n),
                    Token::False => (Ok(SExpr { kind: SExprKind::Bool(false), span: sp }), n),
                    Token::FStrStart => p_fstr(t, i),
                    Token::Ident(name) => (Ok(SExpr { kind: SExprKind::Ident(name@), span: sp }), n),
                    Token::LParen => if n > i {
                        match p_expr(t, n) {
                            (Err(e), j) => (Err(e), j),
                            (Ok(inner), j) => {
                                let k = clamp(t, n, j);
                                if t[k].token is RParen {
                                    (Ok(inner), nxt(t, k))
                                } else {
                                    (Err(expected(t, k, "')'")), k)
                                }
                            },
                        }
                    } else {
                        (Err(stalled()), n)
                    },
                    Token::LBracket => p_list(t, i),
                    Token::LBrace => p_map(t, i),
                    other => (
                        Err(ParseError::Unexpected { got: other, span: sp, msg: "expected an expression" }),
                        i,
                    ),
                }
            }
        },
{
}

/// `p_fstr` unfolded once.
pub proof fn lemma_p_fstr(t: Seq<Spanned>, i: int)
    ensures
        p_fstr(t, i) == {
            let n = nxt(t, i);
            if n > i {
                p_fstr_more(t, n, t[i].span, seq![])
            } else {
                (Err(stalled()), n)
            }
        },
{
}

/// `p_fstr_more` unfolded once.
pub proof fn lemma_p_fstr_more(t: Seq<Spanned>, i: int, start: Span, parts: Seq<SFStrPart>)
    ensures
        p_fstr_more(t, i, start, parts) == {
            if !(0 <= i < t.len()) {
                (Err(stalled()), i)
            } else {
                let n = nxt(t, i);
                match t[i].token {
                    Token::FStrEnd => (
                        Ok(SExpr { kind: SExprKind::FStr(parts), span: merged(start, t[n].span) }),
                        n,
                    ),
                    Token::FStrText(x) => if n > i {
                        p_fstr_more(t, n, start, parts.push(SFStrPart::Text(x@)))
                    } else {
                        (Err(stalled()), n)
                    },
                    Token::FStrOpen => match p_expr(t, n) {
                        (Err(e), j) => (Err(e), j),
                        (Ok(x), j) => {
                            let k = clamp(t, n, j);
                            if t[k].token is FStrClose {
                                let m = nxt(t, k);
                                if m > i {
                                    p_fstr_more(t, m, start, parts.push(SFStrPart::Interp(x)))
                                } else {
                                    (Err(stalled()), m)
                                }
                            } else {
                                (Err(expected(t, k, "'}'")), k)
                            }
                        },
                    },
                    _ => (Ok(SExpr { kind: SExprKind::FStr(parts), span: merged(start, t[i].span) }), i),
                }
            }
        },
{
}

/// `p_list` unfolded once.
pub proof fn lemma_p_list(t: Seq<Spanned>, i: int)
    ensures
        p_list(t, i) == {
            let n = nxt(t, i);
            if n > i {
                p_list_more(t, n, t[i].span, seq![])
            } else {
                (Err(stalled()), n)
            }
        },
{
}

/// `p_list_more` unfolded once.
pub proof fn lemma_p_list_more(t: Seq<Spanned>, i: int, start: Span, items: Seq<SExpr>)
    ensures
        p_list_more(t, i, start, items) == {
            let k = skip_nl(t, i);
            if t[k].token is RBracket {
                let n = nxt(t, k);
                (Ok(SExpr { kind: SExprKind::List(items), span: merged(start, t[n].span) }), n)
            } else {
                match p_expr(t, k) {
                    (Err(e), j) => (Err(e), j),
                    (Ok(x), j) => {
                        let m = skip_nl(t, clamp(t, k, j));
                        if t[m].token is Comma {
                            let n = nxt(t, m);
                            if n > i {
                                p_list_more(t, n, start, items.push(x))
                            } else {
                                (Err(stalled()), n)
                            }
                        } else if t[m].token is RBracket {
                            let n = nxt(t, m);
                            (
                                Ok(
                                    SExpr {
                                        kind: SExprKind::List(items.push(x)),
                                        span: merged(start, t[n].span),
                                    },
                                ),
                                n,
                            )
                        } else {
                            (Err(expected(t, m, "']'")), m)
                        }
                    },
                }
            }
        },
{
}

/// `p_map` unfolded once.
pub proof fn lemma_p_map(t: Seq<Spanned>, i: int)
    ensures
        p_map(t, i) == {
            let n = nxt(t, i);
            if n > i {
                p_map_more(t, n, t[i].span, seq![])
            } else {
                (Err(stalled()), n)
            }
        },
{
}

/// `p_map_more` unfolded once.
pub proof fn lemma_p_map_more(
    t: Seq<Spanned>,
    i: int,
    start: Span,
    entries: Seq<(Seq<char>, SExpr)>,
)
    ensures
        p_map_more(t, i, start, entries) == {
            let k = skip_nl(t, i);
            if t[k].token is RBrace {
                let n = nxt(t, k);
                (Ok(SExpr { kind: SExprKind::Dict(entries), span: merged(start, t[n].span) }), n)
            } else {
                match t[k].token {
                    Token::Ident(key) => {
                        let c = nxt(t, k);
                        if t[c].token is Colon {
                            match p_expr(t, nxt(t, c)) {
                                (Err(e), j) => (Err(e), j),
                                (Ok(v), j) => {
                                    let m = skip_nl(t, clamp(t, nxt(t, c), j));
                                    let more = entries.push((key@, v));
                                    if t[m].token is Comma {
                                        let n = nxt(t, m);
                                        if n > i {
                                            p_map_more(t, n, start, more)
                                        } else {
                                            (Err(stalled()), n)
                                        }
                                    } else if t[m].token is RBrace {
                                        let n = nxt(t, m);
                                        (
                                            Ok(
                                                SExpr {
                                                    kind: SExprKind::Dict(more),
                                                    span: merged(start, t[n].span),
                                                },
                                            ),
                                            n,
                                        )
                                    } else {
                                        (Err(expected(t, m, "'}'")), m)
                                    }
                                },
                            }
                        } else {
                            (Err(expected(t, c, "':'")), c)
                        }
                    },
                    _ => (Err(expected(t, k, "identifier")), k),
                }
            }
        },
{
}

/// `p_stmt` unfolded once.
pub proof fn lemma_p_stmt(t: Seq<Spanned>, i: int)
    ensures
        p_stmt(t, i) == {
            let kind = match t[i].token {
                Token::Import => p_import(t, i),
                Token::Let => p_let(t, i),
                Token::Fn => p_fn(t, i),
                Token::Task => p_task(t, i),
                Token::Return => p_return(t, i),
                Token::If => p_if(t, i),
                Token::For => p_for(t, i),
                Token::While => p_while(t, i),
                Token::Try => p_try(t, i),
                Token::Exec => p_exec(t, i),
                Token::Exit => p_exit(t, i),
                Token::Ident(_) if peek2_tok(t, i) is Eq => p_assign(t, i),
                _ => match p_expr(t, i) {
                    (Err(e), j) => (Err(e), j),
                    (Ok(x), j) => (Ok(SStmtKind::ExprStmt(x)), eol(t, clamp(t, i, j))),
                },
            };
            match kind {
                (Err(e), j) => (Err(e), j),
                (Ok(k), j) => {
                    let e = clamp(t, i, j);
                    (Ok(SStmt { kind: k, span: merged(t[i].span, t[e].span) }), e)
                },
            }
        },
{
}

/// `p_import_more` unfolded once.
pub proof fn lemma_p_import_more(t: Seq<Spanned>, i: int, m: Seq<char>, names: Seq<Seq<char>>)
    ensures
        p_import_more(t, i, m, names) == {
            let k = skip_nl(t, i);
            if !(0 <= k < t.len()) {
                (Err(stalled()), k)
            } else if t[k].token is RBrace {
                (Ok(SStmtKind::Import { module: m, items: Some(names) }), eol(t, nxt(t, k)))
            } else {
                match t[k].token {
                    Token::Ident(x) => {
                        let more = names.push(x@);
                        let c = skip_nl(t, nxt(t, k));
                        if t[c].token is Comma {
                            let n = nxt(t, c);
                            if n > i {
                                p_import_more(t, n, m, more)
                            } else {
                                (Err(stalled()), n)
                            }
                        } else if t[c].token is RBrace {
                            (Ok(SStmtKind::Import { module: m, items: Some(more) }), eol(t, nxt(t, c)))
                        } else {
                            (Err(expected(t, c, "'}'")), c)
                        }
                    },
                    _ => (Err(expected(t, k, "identifier")), k),
                }
            }
        },
{
}

/// `p_fn` unfolded once.
pub proof fn lemma_p_fn(t: Seq<Spanned>, i: int)
    ensures
        p_fn(t, i) == {
            let n = nxt(t, i);
            match t[n].token {
                Token::Ident(name) => match p_params(t, nxt(t, n)) {
                    (Err(e), j) => (Err(e), j),
                    (Ok(params), j) => {
                        let a = clamp(t, nxt(t, n), j);
                        let (ret, b) = if t[a].token is Arrow {
                            match p_type_ann(t, nxt(t, a)) {
                                (Err(e), j2) => (Err(e), j2),
                                (Ok(ty), j2) => (Ok(Some(ty)), j2),
                            }
                        } else {
                            (Ok(None), a)
                        };
                        match ret {
                            Err(e) => (Err(e), b),
                            Ok(ret) => match p_block(t, clamp(t, a, b)) {
                                (Err(e), j3) => (Err(e), j3),
                                (Ok(body), j3) => (
                                    Ok(SStmtKind::Fn { name: name@, params, ret, body }),
                                    clamp(t, clamp(t, a, b), j3),
                                ),
                            },
                        }
                    },
                },
                _ => (Err(expected(t, n, "identifier")), n),
            }
        },
{
}

/// `p_task` unfolded once.
pub proof fn lemma_p_task(t: Seq<Spanned>, i: int)
    ensures
        p_task(t, i) == {
            let n = nxt(t, i);
            match t[n].token {
                Token::Ident(name) => match p_block(t, nxt(t, n)) {
                    (Err(e), j) => (Err(e), j),
                    (Ok(body), j) => (
                        Ok(SStmtKind::Task { name: name@, body }),
                        clamp(t, nxt(t, n), j),
                    ),
                },
                _ => (Err(expected(t, n, "identifier")), n),
            }
        },
{
}

/// `p_if` unfolded once.
pub proof fn lemma_p_if(t: Seq<Spanned>, i: int)
    ensures
        p_if(t, i) == {
            match p_if_branch(t, i) {
                (Err(e), j) => (Err(e), j),
                (Ok(b), j) => p_if_more(t, clamp(t, i, j), seq![b]),
            }
        },
{
}

/// `p_if_more` unfolded once.
pub proof fn lemma_p_if_more(t: Seq<Spanned>, i: int, branches: Seq<SIfBranch>)
    ensures
        p_if_more(t, i, branches) == {
            let k = skip_nl(t, i);
            if 0 <= k < t.len() && t[k].token is Else {
                let m = skip_nl(t, nxt(t, k));
                if t[m].token is If {
                    match p_if_branch(t, m) {
                        (Err(e), j) => (Err(e), j),
                        (Ok(b), j) => {
                            let n = clamp(t, m, j);
                            if n > i {
                                p_if_more(t, n, branches.push(b))
                            } else {
                                (Err(stalled()), n)
                            }
                        },
                    }
                } else {
                    match p_block(t, m) {
                        (Err(e), j) => (Err(e), j),
                        (Ok(body), j) => (
                            Ok(SStmtKind::If { branches, else_: Some(body) }),
                            clamp(t, m, j),
                        ),
                    }
                }
            } else {
                (Ok(SStmtKind::If { branches, else_: None }), i)
            }
        },
{
}

/// `p_if_branch` unfolded once.
pub proof fn lemma_p_if_branch(t: Seq<Spanned>, i: int)
    ensures
        p_if_branch(t, i) == {
            if 0 <= i < t.len() && t[i].token is If {
                let n = nxt(t, i);
                match p_expr(t, n) {
                    (Err(e), j) => (Err(e), j),
                    (Ok(cond), j) => {
                        let a = clamp(t, n, j);
                        match p_block(t, a) {
                            (Err(e), j2) => (Err(e), j2),
                            (Ok(body), j2) => {
                                let e = clamp(t, a, j2);
                                (Ok(SIfBranch { cond, body, span: merged(t[i].span, t[e].span) }), e)
                            },
                        }
                    },
                }
            } else {
                (Err(expected(t, i, "'if'")), i)
            }
        },
{
}

/// `p_for` unfolded once.
pub proof fn lemma_p_for(t: Seq<Spanned>, i: int)
    ensures
        p_for(t, i) == {
            let n = nxt(t, i);
            match t[n].token {
                Token::Ident(name) => {
                    let a = nxt(t, n);
                    if t[a].token is In {
                        let b = nxt(t, a);
                        match p_expr(t, b) {
                            (Err(e), j) => (Err(e), j),
                            (Ok(iter), j) => {
                                let c = clamp(t, b, j);
                                match p_block(t, c) {
                                    (Err(e), j2) => (Err(e), j2),
                                    (Ok(body), j2) => (
                                        Ok(SStmtKind::For { name: name@, iter, body }),
                                        clamp(t, c, j2),
                                    ),
                                }
                            },
                        }
                    } else {
                        (Err(expected(t, a, "'in'")), a)
                    }
                },
                _ => (Err(expected(t, n, "identifier")), n),
            }
        },
{
}

/// `p_while` unfolded once.
pub proof fn lemma_p_while(t: Seq<Spanned>, i: int)
    ensures
        p_while(t, i) == {
            let n = nxt(t, i);
            match p_expr(t, n) {
                (Err(e), j) => (Err(e), j),
                (Ok(cond), j) => {
                    let a = clamp(t, n, j);
                    match p_block(t, a) {
                        (Err(e), j2) => (Err(e), j2),
                        (Ok(body), j2) => (Ok(SStmtKind::While { cond, body }), clamp(t, a, j2)),
                    }
                },
            }
        },
{
}

/// `p_try` unfolded once.
pub proof fn lemma_p_try(t: Seq<Spanned>, i: int)
    ensures
        p_try(t, i) == {
            let n = nxt(t, i);
            match p_block(t, n) {
                (Err(e), j) => (Err(e), j),
                (Ok(body), j) => {
                    let c = skip_nl(t, clamp(t, n, j));
                    if !(t[c].token is Catch) {
                        (Err(expected(t, c, "'catch'")), c)
                    } else {
                        let l = nxt(t, c);
                        if !(t[l].token is LParen) {
                            (Err(expected(t, l, "'('")), l)
                        } else {
                            let v = nxt(t, l);
                            match t[v].token {
                                Token::Ident(var) => {
                                    let r = nxt(t, v);
                                    if !(t[r].token is RParen) {
                                        (Err(expected(t, r, "')'")), r)
                                    } else {
                                        match p_block(t, nxt(t, r)) {
                                            (Err(e), j2) => (Err(e), j2),
                                            (Ok(handler), j2) => (
                                                Ok(SStmtKind::Try { body, catch_var: var@, handler }),
                                                clamp(t, nxt(t, r), j2),
                                            ),
                                        }
                                    }
                                },
                                _ => (Err(expected(t, v, "identifier")), v),
                            }
                        }
                    }
                },
            }
        },
{
}

/// `p_exec_more` unfolded once.
pub proof fn lemma_p_exec_more(t: Seq<Spanned>, i: int, parts: Seq<SExecPart>)
    ensures
        p_exec_more(t, i, parts) == {
            if !(0 <= i < t.len()) {
                (Err(stalled()), i)
            } else {
                let n = nxt(t, i);
                match t[i].token {
                    Token::ExecEnd => (Ok(SStmtKind::Exec { parts, swallow: false }), n),
                    Token::Question => (Ok(SStmtKind::Exec { parts, swallow: true }), n),
                    Token::ExecWord(w) => if n > i {
                        p_exec_more(t, n, parts.push(SExecPart::Word(w@)))
                    } else {
                        (Err(stalled()), n)
                    },
                    Token::ExecOpen => match p_expr(t, n) {
                        (Err(e), j) => (Err(e), j),
                        (Ok(x), j) => {
                            let k = clamp(t, n, j);
                            if t[k].token is ExecClose {
                                let m = nxt(t, k);
                                if m > i {
                                    p_exec_more(t, m, parts.push(SExecPart::Interp(x)))
                                } else {
                                    (Err(stalled()), m)
                                }
                            } else {
                                (Err(expected(t, k, "'}'")), k)
                            }
                        },
                    },
                    Token::Eof => (Ok(SStmtKind::Exec { parts, swallow: false }), i),
                    Token::Newline => (Ok(SStmtKind::Exec { parts, swallow: false }), i),
                    other => (
                        Err(
                            ParseError::Unexpected {
                                got: other,
                                span: t[i].span,
                                msg: "unexpected token in exec line",
                            },
                        ),
                        i,
                    ),
                }
            }
        },
{
}

/// `p_block` unfolded once.
pub proof fn lemma_p_block(t: Seq<Spanned>, i: int)
    ensures
        p_block(t, i) == {
            let k = skip_nl(t, i);
            if t[k].token is LBrace {
                let n = nxt(t, k);
                if n > i {
                    p_block_more(t, n, seq![])
                } else {
                    (Err(stalled()), n)
                }
            } else {
                (Err(expected(t, k, "'{'")), k)
            }
        },
{
}

/// `p_block_more` unfolded once.
pub proof fn lemma_p_block_more(t: Seq<Spanned>, i: int, stmts: Seq<SStmt>)
    ensures
        p_block_more(t, i, stmts) == {
            let k = skip_nl(t, i);
            if t[k].token is RBrace {
                (Ok(stmts), nxt(t, k))
            } else if t[k].token is Eof {
                (Err(expected(t, k, "'}'")), k)
            } else {
                match p_stmt(t, k) {
                    (Err(e), j) => (Err(e), j),
                    (Ok(s), j) => {
                        let n = clamp(t, k, j);
                        if n > i {
                            p_block_more(t, n, stmts.push(s))
                        } else {
                            (Err(stalled()), n)
                        }
                    },
                }
            }
        },
{
}

/// `p_params_more` unfolded once.
pub proof fn lemma_p_params_more(t: Seq<Spanned>, i: int, ps: Seq<SParam>)
    ensures
        p_params_more(t, i, ps) == {
            let k = skip_nl(t, i);
            if !(0 <= k < t.len()) {
                (Err(stalled()), k)
            } else if t[k].token is RParen {
                (Ok(ps), nxt(t, k))
            } else {
                match t[k].token {
                    Token::Ident(name) => {
                        let c = nxt(t, k);
                        if t[c].token is Colon {
                            match p_type_ann(t, nxt(t, c)) {
                                (Err(e), j) => (Err(e), j),
                                (Ok(ty), j) => {
                                    let e = clamp(t, nxt(t, c), j);
                                    let more = ps.push(
                                        SParam { name: name@, ty, span: merged(t[k].span, t[e].span) },
                                    );
                                    let m = skip_nl(t, e);
                                    if t[m].token is Comma {
                                        let n = nxt(t, m);
                                        if n > i {
                                            p_params_more(t, n, more)
                                        } else {
                                            (Err(stalled()), n)
                                        }
                                    } else if t[m].token is RParen {
                                        (Ok(more), nxt(t, m))
                                    } else {
                                        (Err(expected(t, m, "')'")), m)
                                    }
                                },
                            }
                        } else {
                            (Err(expected(t, c, "':'")), c)
                        }
                    },
                    _ => (Err(expected(t, k, "identifier")), k),
                }
            }
        },
{
}

/// `p_recover` unfolded once.
pub proof fn lemma_p_recover(t: Seq<Spanned>, i: int)
    ensures
        p_recover(t, i) == {
            if !(0 <= i < t.len() - 1) || t[i].token is Eof || is_stmt_keyword(t[i].token) {
                i
            } else if t[i].token is Newline {
                i + 1
            } else {
                p_recover(t, i + 1)
            }
        },
{
}

/// `p_script_more` unfolded once.
pub proof fn lemma_p_script_more(
    t: Seq<Spanned>,
    i: int,
    stmts: Seq<SStmt>,
    errors: Seq<ParseError>,
)
    ensures
        p_script_more(t, i, stmts, errors) == {
            if !(0 <= i < t.len()) || t[i].token is Eof {
                (stmts, errors, i)
            } else {
                let (st, e2, k) = match p_stmt(t, i) {
                    (Ok(s), j) => (stmts.push(s), errors, skip_nl(t, clamp(t, i, j))),
                    (Err(e), j) => (stmts, errors.push(e), skip_nl(t, clamp(t, i, p_recover(t, clamp(t, i, j))))),
                };
                if k > i {
                    p_script_more(t, k, st, e2)
                } else {
                    (st, e2, k)
                }
            }
        },
{
}

} // verus!
