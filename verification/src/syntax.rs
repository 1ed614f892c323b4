use crate::ast::{
    BinOp, ExecPart, Expr, ExprKind, FStrPart, IfBranch, Param, Stmt, StmtKind, TypeAnn, UnaryOp,
};
use crate::span::Span;
use vstd::prelude::*;

verus! {

/// An expression as a mathematical value: the syntax tree of `Expr`, with text as
/// sequences of characters and lists as sequences.
pub enum SExprKind {
    Int(i64),
    Float(Seq<char>),
    Bool(bool),
    Str(Seq<char>),
    FStr(Seq<SFStrPart>),
    List(Seq<SExpr>),
    Dict(Seq<(Seq<char>, SExpr)>),
    Ident(Seq<char>),
    Field { object: Box<SExpr>, field: Seq<char> },
    Index { object: Box<SExpr>, index: Box<SExpr> },
    BinOp { op: BinOp, left: Box<SExpr>, right: Box<SExpr> },
    UnaryOp { op: UnaryOp, operand: Box<SExpr> },
    Call { callee: Box<SExpr>, args: Seq<SExpr> },
    MethodCall { object: Box<SExpr>, method: Seq<char>, args: Seq<SExpr> },
    Or { left: Box<SExpr>, right: Box<SExpr> },
    Range { start: Box<SExpr>, end: Box<SExpr> },
}

pub struct SExpr {
    pub kind: SExprKind,
    pub span: Span,
}

pub enum SFStrPart {
    Text(Seq<char>),
    Interp(SExpr),
}

/// The value of the expression `e`.
pub open spec fn expr_v(e: Expr) -> SExpr
    decreases e,
{
    let kind = match e.kind {
        ExprKind::Int(n) => SExprKind::Int(n),
        ExprKind::Float(x) => SExprKind::Float(x@),
        ExprKind::Bool(b) => SExprKind::Bool(b),
        ExprKind::Str(s) => SExprKind::Str(s@),
        ExprKind::FStr(parts) => SExprKind::FStr(fparts_v(parts@)),
        ExprKind::List(items) => SExprKind::List(exprs_v(items@)),
        ExprKind::Dict(entries) => SExprKind::Dict(entries_v(entries@)),
        ExprKind::Ident(n) => SExprKind::Ident(n@),
        ExprKind::Field { object, field } => SExprKind::Field {
            object: Box::new(expr_v(*object)),
            field: field@,
        },
        ExprKind::Index { object, index } => SExprKind::Index {
            object: Box::new(expr_v(*object)),
            index: Box::new(expr_v(*index)),
        },
        ExprKind::BinOp { op, left, right } => SExprKind::BinOp {
            op,
            left: Box::new(expr_v(*left)),
            right: Box::new(expr_v(*right)),
        },
        ExprKind::UnaryOp { op, operand } => SExprKind::UnaryOp {
            op,
            operand: Box::new(expr_v(*operand)),
        },
        ExprKind::Call { callee, args } => SExprKind::Call {
            callee: Box::new(expr_v(*callee)),
            args: exprs_v(args@),
        },
        ExprKind::MethodCall { object, method, args } => SExprKind::MethodCall {
            object: Box::new(expr_v(*object)),
            method: method@,
            args: exprs_v(args@),
        },
        ExprKind::Or { left, right } => SExprKind::Or {
            left: Box::new(expr_v(*left)),
            right: Box::new(expr_v(*right)),
        },
        ExprKind::Range { start, end } => SExprKind::Range {
            start: Box::new(expr_v(*start)),
            end: Box::new(expr_v(*end)),
        },
    };
    SExpr { kind, span: e.span }
}

/// The values of the expressions `s`, in order.
pub open spec fn exprs_v(s: Seq<Expr>) -> Seq<SExpr>
    decreases s,
{
    if s.len() == 0 {
        seq![]
    } else {
        exprs_v(s.drop_last()).push(expr_v(s.last()))
    }
}

/// The values of the f-string parts `s`, in order.
pub open spec fn fparts_v(s: Seq<FStrPart>) -> Seq<SFStrPart>
    decreases s,
{
    if s.len() == 0 {
        seq![]
    } else {
        let p = match s.last() {
            FStrPart::Text(t) => SFStrPart::Text(t@),
            FStrPart::Interp(e) => SFStrPart::Interp(expr_v(e)),
        };
        fparts_v(s.drop_last()).push(p)
    }
}

/// The values of the map entries `s`, in order.
pub open spec fn entries_v(s: Seq<(String, Expr)>) -> Seq<(Seq<char>, SExpr)>
    decreases s,
{
    if s.len() == 0 {
        seq![]
    } else {
        entries_v(s.drop_last()).push((s.last().0@, expr_v(s.last().1)))
    }
}

/// A statement as a mathematical value: the syntax tree of `Stmt`.
pub enum SStmtKind {
    Import { module: Seq<char>, items: Option<Seq<Seq<char>>> },
    Let { name: Seq<char>, mutable: bool, ty: Option<TypeAnn>, value: SExpr },
    Assig { name: Seq<char>, value: SExpr },
    Fn { name: Seq<char>, params: Seq<SParam>, ret: Option<TypeAnn>, body: Seq<SStmt> },
    Task { name: Seq<char>, body: Seq<SStmt> },
    Return { value: Option<SExpr> },
    If { branches: Seq<SIfBranch>, else_: Option<Seq<SStmt>> },
    For { name: Seq<char>, iter: SExpr, body: Seq<SStmt> },
    While { cond: SExpr, body: Seq<SStmt> },
    Try { body: Seq<SStmt>, catch_var: Seq<char>, handler: Seq<SStmt> },
    Exec { parts: Seq<SExecPart>, swallow: bool },
    Exit { code: Option<SExpr> },
    ExprStmt(SExpr),
}

pub struct SStmt {
    pub kind: SStmtKind,
    pub span: Span,
}

pub struct SIfBranch {
    pub cond: SExpr,
    pub body: Seq<SStmt>,
    pub span: Span,
}

pub enum SExecPart {
    Word(Seq<char>),
    Interp(SExpr),
}

pub struct SParam {
    pub name: Seq<char>,
    pub ty: TypeAnn,
    pub span: Span,
}

/// The value of an optional expression.
pub open spec fn opt_expr_v(e: Option<Expr>) -> Option<SExpr> {
    match e {
        Some(x) => Some(expr_v(x)),
        None => None,
    }
}

/// The texts of the names `s`, in order.
pub open spec fn names_v(s: Seq<String>) -> Seq<Seq<char>> {
    s.map_values(|n: String| n@)
}

/// The value of a parameter.
pub open spec fn param_v(p: Param) -> SParam {
    SParam { name: p.name@, ty: p.ty, span: p.span }
}

/// The values of the parameters `s`, in order.
pub open spec fn params_v(s: Seq<Param>) -> Seq<SParam> {
    s.map_values(|p: Param| param_v(p))
}

/// The value of an exec-line part.
pub open spec fn epart_v(p: ExecPart) -> SExecPart {
    match p {
        ExecPart::Word(w) => SExecPart::Word(w@),
        ExecPart::Interp(e) => SExecPart::Interp(expr_v(e)),
    }
}

/// The values of the exec-line parts `s`, in order.
pub open spec fn eparts_v(s: Seq<ExecPart>) -> Seq<SExecPart> {
    s.map_values(|p: ExecPart| epart_v(p))
}

/// The value of the statement `s`.
pub open spec fn stmt_v(s: Stmt) -> SStmt
    decreases s,
{
    SStmt { kind: stmt_kind_v(s.kind), span: s.span }
}

/// The value of the form of a statement.
pub open spec fn stmt_kind_v(k: StmtKind) -> SStmtKind
    decreases k,
{
    match k {
        StmtKind::Import { module, items } => SStmtKind::Import {
            module: module@,
            items: match items {
                Some(v) => Some(names_v(v@)),
                None => None,
            },
        },
        StmtKind::Let { name, mutable, ty, value } => SStmtKind::Let {
            name: name@,
            mutable,
            ty,
            value: expr_v(value),
        },
        StmtKind::Assig { name, value } => SStmtKind::Assig { name: name@, value: expr_v(value) },
        StmtKind::Fn { name, params, ret, body } => SStmtKind::Fn {
            name: name@,
            params: params_v(params@),
            ret,
            body: stmts_v(body@),
        },
        StmtKind::Task { name, body } => SStmtKind::Task { name: name@, body: stmts_v(body@) },
        StmtKind::Return { value } => SStmtKind::Return { value: opt_expr_v(value) },
        StmtKind::If { branches, else_ } => SStmtKind::If {
            branches: branches_v(branches@),
            else_: match else_ {
                Some(b) => Some(stmts_v(b@)),
                None => None,
            },
        },
        StmtKind::For { name, iter, body } => SStmtKind::For {
            name: name@,
            iter: expr_v(iter),
            body: stmts_v(body@),
        },
        StmtKind::While { cond, body } => SStmtKind::While {
            cond: expr_v(cond),
            body: stmts_v(body@),
        },
        StmtKind::Try { body, catch_var, handler } => SStmtKind::Try {
            body: stmts_v(body@),
            catch_var: catch_var@,
            handler: stmts_v(handler@),
        },
        StmtKind::Exec { parts, swallow } => SStmtKind::Exec { parts: eparts_v(parts@), swallow },
        StmtKind::Exit { code } => SStmtKind::Exit { code: opt_expr_v(code) },
        StmtKind::ExprStmt(e) => SStmtKind::ExprStmt(expr_v(e)),
    }
}

/// The values of the statements `s`, in order.
pub open spec fn stmts_v(s: Seq<Stmt>) -> Seq<SStmt>
    decreases s,
{
    if s.len() == 0 {
        seq![]
    } else {
        stmts_v(s.drop_last()).push(stmt_v(s.last()))
    }
}

/// The values of the branches `s`, in order.
pub open spec fn branches_v(s: Seq<IfBranch>) -> Seq<SIfBranch>
    decreases s,
{
    if s.len() == 0 {
        seq![]
    } else {
        branches_v(s.drop_last()).push(branch_v(s.last()))
    }
}

/// The value of a branch of an `if`.
pub open spec fn branch_v(b: IfBranch) -> SIfBranch
    decreases b,
{
    SIfBranch { cond: expr_v(b.cond), body: stmts_v(b.body@), span: b.span }
}

/// `exprs_v` keeps the length and maps each expression to its value.
pub proof fn lemma_exprs_v(s: Seq<Expr>)
    ensures
        exprs_v(s).len() == s.len(),
        forall|k: int| 0 <= k < s.len() ==> #[trigger] exprs_v(s)[k] == expr_v(s[k]),
        forall|k: int| 0 <= k <= s.len() ==> #[trigger] exprs_v(s.take(k)) == exprs_v(s).take(k),
    decreases s.len(),
{
    if s.len() > 0 {
        lemma_exprs_v(s.drop_last());
        assert forall|k: int| 0 <= k <= s.len() implies #[trigger] exprs_v(s.take(k)) == exprs_v(s).take(k) by {
            if k < s.len() {
                assert(s.take(k) =~= s.drop_last().take(k));
                assert(exprs_v(s).take(k) =~= exprs_v(s.drop_last()).take(k));
            } else {
                assert(s.take(k) =~= s);
                assert(exprs_v(s).take(k) =~= exprs_v(s));
            }
        }
    } else {
        assert forall|k: int| 0 <= k <= s.len() implies #[trigger] exprs_v(s.take(k)) == exprs_v(s).take(k) by {
            assert(s.take(k) =~= s);
            assert(exprs_v(s).take(k) =~= exprs_v(s));
        }
    }
}

/// The value of an f-string part.
pub open spec fn fpart_v(p: FStrPart) -> SFStrPart {
    match p {
        FStrPart::Text(t) => SFStrPart::Text(t@),
        FStrPart::Interp(e) => SFStrPart::Interp(expr_v(e)),
    }
}

/// `fparts_v` keeps the length and maps each part to its value.
pub proof fn lemma_fparts_v(s: Seq<FStrPart>)
    ensures
        fparts_v(s).len() == s.len(),
        forall|k: int| 0 <= k < s.len() ==> #[trigger] fparts_v(s)[k] == fpart_v(s[k]),
    decreases s.len(),
{
    if s.len() > 0 {
        lemma_fparts_v(s.drop_last());
    }
}

/// `entries_v` keeps the length and maps each entry to its value.
pub proof fn lemma_entries_v(s: Seq<(String, Expr)>)
    ensures
        entries_v(s).len() == s.len(),
        forall|k: int| 0 <= k < s.len() ==> #[trigger] entries_v(s)[k] == (s[k].0@, expr_v(s[k].1)),
    decreases s.len(),
{
    if s.len() > 0 {
        lemma_entries_v(s.drop_last());
    }
}

/// `stmts_v` keeps the length and maps each statement to its value.
pub proof fn lemma_stmts_v(s: Seq<Stmt>)
    ensures
        stmts_v(s).len() == s.len(),
        forall|k: int| 0 <= k < s.len() ==> #[trigger] stmts_v(s)[k] == stmt_v(s[k]),
    decreases s.len(),
{
    if s.len() > 0 {
        lemma_stmts_v(s.drop_last());
    }
}

/// `branches_v` keeps the length and maps each branch to its value.
pub proof fn lemma_branches_v(s: Seq<IfBranch>)
    ensures
        branches_v(s).len() == s.len(),
        forall|k: int| 0 <= k < s.len() ==> #[trigger] branches_v(s)[k] == branch_v(s[k]),
    decreases s.len(),
{
    if s.len() > 0 {
        lemma_branches_v(s.drop_last());
    }
}

impl View for Expr {
    type V = SExpr;

    open spec fn view(&self) -> SExpr {
        expr_v(*self)
    }
}

impl View for Stmt {
    type V = SStmt;

    open spec fn view(&self) -> SStmt {
        stmt_v(*self)
    }
}

} // verus!
