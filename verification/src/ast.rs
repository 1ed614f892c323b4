use crate::span::Span;
use vstd::prelude::*;

verus! {

/// A complete parsed script: a sequence of statements.
#[derive(Debug)]
pub struct Script {
    pub stmts: Vec<Stmt>,
    pub span: Span,
}

#[derive(Debug)]
pub struct Stmt {
    pub kind: StmtKind,
    pub span: Span,
}

#[derive(Debug)]
#[allow(inconsistent_fields)]
pub enum StmtKind {
    Import { module: String, items: Option<Vec<String>> },
    Let { name: String, mutable: bool, ty: Option<TypeAnn>, value: Expr },
    Assig { name: String, value: Expr },
    Fn { name: String, params: Vec<Param>, ret: Option<TypeAnn>, body: Vec<Stmt> },
    Task { name: String, body: Vec<Stmt> },
    Return { value: Option<Expr> },
    If { branches: Vec<IfBranch>, else_: Option<Vec<Stmt>> },
    For { name: String, iter: Expr, body: Vec<Stmt> },
    While { cond: Expr, body: Vec<Stmt> },
    Try { body: Vec<Stmt>, catch_var: String, handler: Vec<Stmt> },
    Exec { parts: Vec<ExecPart>, swallow: bool },
    Exit { code: Option<Expr> },
    ExprStmt(Expr),
}

#[derive(Debug)]
pub struct IfBranch {
    pub cond: Expr,
    pub body: Vec<Stmt>,
    pub span: Span,
}

#[derive(Debug)]
pub enum ExecPart {
    /// A raw literal word (possibly containing flags, paths, URLs)
    Word(String),
    /// An interpolated `{expr}` within the exec line
    Interp(Expr),
}

#[derive(Debug)]
pub struct Expr {
    pub kind: ExprKind,
    pub span: Span,
}

/// An expression. A float literal keeps the text of its digits (see `Token::Float`).
#[derive(Debug)]
#[allow(inconsistent_fields)]
pub enum ExprKind {
    Int(i64),
    Float(String),
    Bool(bool),
    Str(String),
    /// `f"text {expr} text …"`
    FStr(Vec<FStrPart>),
    /// `[a, b, c]`
    List(Vec<Expr>),
    /// `{ key: value, … }`
    Dict(Vec<(String, Expr)>),
    /// A bare name: `x`, `os`, `tools`
    Ident(String),
    /// `expr.field`
    Field { object: Box<Expr>, field: String },
    /// `expr[index]`
    Index { object: Box<Expr>, index: Box<Expr> },
    /// Binary: `a + b`, `a == b`, `a and b`, …
    BinOp { op: BinOp, left: Box<Expr>, right: Box<Expr> },
    /// Unary: `not x`, `-x`
    UnaryOp { op: UnaryOp, operand: Box<Expr> },
    /// `name(args)` — function or task call
    Call { callee: Box<Expr>, args: Vec<Expr> },
    /// `expr.method(args)` — module method call: `env.get("VAR")`
    MethodCall { object: Box<Expr>, method: String, args: Vec<Expr> },
    /// `expr or default` — fallback / short-circuit
    Or { left: Box<Expr>, right: Box<Expr> },
    /// `a..b` range literal
    Range { start: Box<Expr>, end: Box<Expr> },
}

#[derive(Debug)]
pub enum FStrPart {
    /// A literal text run: `"hello "`
    Text(String),
    /// An interpolated expression: `{name}`
    Interp(Expr),
}

#[derive(Debug, Clone, Copy, PartialEq, Eq, Structural)]
pub enum BinOp {
    // Arithmetic
    Add,
    Sub,
    Mul,
    Div,
    Mod,
    // Comparison
    Eq,
    NotEq,
    Lt,
    LtEq,
    Gt,
    GtEq,
    // Logical
    And,
}

#[derive(Debug, Clone, Copy, PartialEq, Eq, Structural)]
pub enum UnaryOp {
    Neg,  // -x
    Not,  // not x
}

#[derive(Debug, Clone)]
pub struct Param {
    pub name: String,
    pub ty: TypeAnn,
    pub span: Span,
}

/// PSH is dynamically typed at runtime, but allows optional annotations
/// for documentation and future type-checking.
#[derive(Debug, Clone, Copy, PartialEq, Eq, Structural)]
pub enum TypeAnn {
    String,
    Int,
    Float,
    Bool,
    List,
    Dict,
    Any,
}

/// How a binary operator is written in source.
pub open spec fn binop_text(op: BinOp) -> Seq<char> {
    match op {
        BinOp::Add => "+"@,
        BinOp::Sub => "-"@,
        BinOp::Mul => "*"@,
        BinOp::Div => "/"@,
        BinOp::Mod => "%"@,
        BinOp::Eq => "=="@,
        BinOp::NotEq => "!="@,
        BinOp::Lt => "<"@,
        BinOp::LtEq => "<="@,
        BinOp::Gt => ">"@,
        BinOp::GtEq => ">="@,
        BinOp::And => "and"@,
    }
}

impl BinOp {
    /// The operator as it is written in source.
    pub fn to_string(&self) -> (r: String)
        ensures
            r@ == binop_text(*self),
    {
        match self {
            BinOp::Add => "+".to_owned(),
            BinOp::Sub => "-".to_owned(),
            BinOp::Mul => "*".to_owned(),
            BinOp::Div => "/".to_owned(),
            BinOp::Mod => "%".to_owned(),
            BinOp::Eq => "==".to_owned(),
            BinOp::NotEq => "!=".to_owned(),
            BinOp::Lt => "<".to_owned(),
            BinOp::LtEq => "<=".to_owned(),
            BinOp::Gt => ">".to_owned(),
            BinOp::GtEq => ">=".to_owned(),
            BinOp::And => "and".to_owned(),
        }
    }
}

/// The name that a type annotation is written with.
pub open spec fn type_ann_text(t: TypeAnn) -> Seq<char> {
    match t {
        TypeAnn::String => "string"@,
        TypeAnn::Int => "int"@,
        TypeAnn::Float => "float"@,
        TypeAnn::Bool => "bool"@,
        TypeAnn::List => "list"@,
        TypeAnn::Dict => "map"@,
        TypeAnn::Any => "any"@,
    }
}

impl TypeAnn {
    /// The name that the annotation is written with.
    pub fn to_string(&self) -> (r: String)
        ensures
            r@ == type_ann_text(*self),
    {
        match self {
            TypeAnn::String => "string".to_owned(),
            TypeAnn::Int => "int".to_owned(),
            TypeAnn::Float => "float".to_owned(),
            TypeAnn::Bool => "bool".to_owned(),
            TypeAnn::List => "list".to_owned(),
            TypeAnn::Dict => "map".to_owned(),
            TypeAnn::Any => "any".to_owned(),
        }
    }
}

} // verus!
