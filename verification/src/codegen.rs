use crate::ast::{BinOp, UnaryOp};
use crate::chunk::Chunk;
use crate::comp_error::CompileError;
use crate::opcode::{with_target, Opcode};
use crate::span::Span;
use crate::syntax::{SExecPart, SExpr, SExprKind, SFStrPart, SIfBranch, SParam, SStmt, SStmtKind};
use crate::value::Value;
use vstd::prelude::*;

verus! {

// What the compiler emits, stated over mathematical values: the compiler's state as a
// `CState`, and for each form of the syntax tree the state after compiling it.

/// An instruction as a value: `ImportFields` keeps its pairs as a sequence.
pub enum Op {
    Plain(Opcode),
    ImportFields { module: usize, fields: Seq<(usize, usize)> },
}

/// The value of an instruction.
pub open spec fn op_v(op: Opcode) -> Op {
    match op {
        Opcode::ImportFields { module, fields } => Op::ImportFields { module, fields: fields@ },
        _ => Op::Plain(op),
    }
}

/// The values of the instructions `s`, in order.
pub open spec fn code_v(s: Seq<Opcode>) -> Seq<Op> {
    s.map_values(|o: Opcode| op_v(o))
}

/// A constant as a value. A function or a task carries its own chunk.
pub enum Const {
    Int(i64),
    Float(Seq<char>),
    Str(Seq<char>),
    Function { name: Seq<char>, params: Seq<Seq<char>>, chunk: ChunkV },
    Task { name: Seq<char>, chunk: ChunkV },
    Other,
}

/// A chunk as a value: its name, its instructions with their source lines, its constants.
pub struct ChunkV {
    pub name: Seq<char>,
    pub code: Seq<Op>,
    pub lines: Seq<u32>,
    pub consts: Seq<Const>,
}

/// The value of a runtime value kept as a constant.
pub open spec fn const_v(v: Value) -> Const
    decreases v,
{
    match v {
        Value::Int(n) => Const::Int(n),
        Value::Float(x) => Const::Float(x@),
        Value::Str(s) => Const::Str(s@),
        Value::Function { name, params, chunk } => Const::Function {
            name: name@,
            params: params@.map_values(|p: String| p@),
            chunk: ChunkV {
                name: chunk.name@,
                code: code_v(chunk.code@),
                lines: chunk.lines@,
                consts: consts_v(chunk.consts@),
            },
        },
        Value::Task { name, chunk } => Const::Task {
            name: name@,
            chunk: ChunkV {
                name: chunk.name@,
                code: code_v(chunk.code@),
                lines: chunk.lines@,
                consts: consts_v(chunk.consts@),
            },
        },
        _ => Const::Other,
    }
}

/// The values of the constants `s`, in order.
pub open spec fn consts_v(s: Seq<Value>) -> Seq<Const>
    decreases s,
{
    if s.len() == 0 {
        seq![]
    } else {
        consts_v(s.drop_last()).push(const_v(s.last()))
    }
}

/// A local variable as a value.
pub struct LocalV {
    pub name: Seq<char>,
    pub slot: usize,
    pub mutable: bool,
    pub depth: int,
}

/// A compile error as a value.
pub enum CErr {
    ImmutableAssign { name: Seq<char>, span: Span },
    ReturnOutsideFunction { span: Span },
    Other,
}

/// The value of a compile error.
pub open spec fn err_v(e: CompileError) -> CErr {
    match e {
        CompileError::ImmutableAssign { name, span } => CErr::ImmutableAssign { name: name@, span },
        CompileError::ReturnOutsideFunction { span } => CErr::ReturnOutsideFunction { span },
        _ => CErr::Other,
    }
}

/// The values of the compile errors `s`, in order.
pub open spec fn errs_v(s: Seq<CompileError>) -> Seq<CErr> {
    s.map_values(|e: CompileError| err_v(e))
}

/// The compiler's state: the name, code with source lines, and constants of the chunk
/// being built, the locals in scope with the current scope depth, whether a function body
/// is being compiled, and the errors found.
pub struct CState {
    pub name: Seq<char>,
    pub code: Seq<Op>,
    pub lines: Seq<u32>,
    pub consts: Seq<Const>,
    pub locals: Seq<LocalV>,
    pub depth: int,
    pub in_function: bool,
    pub errors: Seq<CErr>,
}

/// The index of the first string constant with the text `s`, if any.
pub open spec fn find_c(cs: Seq<Const>, s: Seq<char>) -> Option<int>
    decreases cs.len(),
{
    if cs.len() == 0 {
        None
    } else {
        match find_c(cs.drop_last(), s) {
            Some(i) => Some(i),
            None => if cs.last() == Const::Str(s) {
                Some(cs.len() - 1)
            } else {
                None
            },
        }
    }
}

/// `st` with the constant `c` added, and its index: a string already in the pool is not
/// added again.
pub open spec fn add_c(st: CState, c: Const) -> (CState, int) {
    let found = match c {
        Const::Str(s) => find_c(st.consts, s),
        _ => None,
    };
    match found {
        Some(i) => (st, i),
        None => (CState { consts: st.consts.push(c), ..st }, st.consts.len() as int),
    }
}

/// `st` with the instruction `op` from the source line `line` added.
pub open spec fn emit_c(st: CState, op: Opcode, line: u32) -> CState {
    CState { code: st.code.push(Op::Plain(op)), lines: st.lines.push(line), ..st }
}

/// `st` with the constant `c` added and an instruction `LoadConst` of it.
pub open spec fn load_c(st: CState, c: Const, line: u32) -> CState {
    let (s1, i) = add_c(st, c);
    emit_c(s1, Opcode::LoadConst(i as usize), line)
}

/// `st` with the jump at `j` aimed at the end of the code.
pub open spec fn patch_c(st: CState, j: int) -> CState {
    let target = st.code.len() as usize;
    let op = match st.code[j] {
        Op::Plain(o) => Op::Plain(with_target(o, target)),
        other => other,
    };
    CState { code: st.code.update(j, op), ..st }
}

/// The index of the last local named `name`, if any: the one in the innermost scope.
pub open spec fn last_named(ls: Seq<LocalV>, name: Seq<char>) -> Option<int>
    decreases ls.len(),
{
    if ls.len() == 0 {
        None
    } else if ls.last().name == name {
        Some(ls.len() - 1)
    } else {
        last_named(ls.drop_last(), name)
    }
}

/// The instruction for a binary operator other than `and`.
pub open spec fn binop_code(op: BinOp) -> Opcode {
    match op {
        BinOp::Add => Opcode::Add,
        BinOp::Sub => Opcode::Sub,
        BinOp::Mul => Opcode::Mul,
        BinOp::Div => Opcode::Div,
        BinOp::Mod => Opcode::Mod,
        BinOp::Eq => Opcode::CmpEq,
        BinOp::NotEq => Opcode::CmpNotEq,
        BinOp::Lt => Opcode::CmpLt,
        BinOp::LtEq => Opcode::CmpLtEq,
        BinOp::Gt => Opcode::CmpGt,
        BinOp::GtEq => Opcode::CmpGtEq,
        BinOp::And => Opcode::Nop,
    }
}

/// A binary operator other than `and` compiles to the code of its left operand, then that
/// of its right operand, then one instruction of the same operation: `+` adds, `-`
/// subtracts, `*` multiplies, `/` divides, `%` takes the remainder, and each comparison
/// compares the same way.
pub proof fn law_binop_compiles_to_its_operation(
    op: BinOp,
    l: SExpr,
    r: SExpr,
    span: Span,
    st: CState,
)
    requires
        op != BinOp::And,
    ensures
        ({
            let e = SExpr {
                kind: SExprKind::BinOp { op, left: Box::new(l), right: Box::new(r) },
                span,
            };
            let operands = c_expr(r, c_expr(l, st));
            let code = c_expr(e, st).code;
            &&& code.len() == operands.code.len() + 1
            &&& code.drop_last() == operands.code
            &&& (op == BinOp::Add ==> code.last() == Op::Plain(Opcode::Add))
            &&& (op == BinOp::Sub ==> code.last() == Op::Plain(Opcode::Sub))
            &&& (op == BinOp::Mul ==> code.last() == Op::Plain(Opcode::Mul))
            &&& (op == BinOp::Div ==> code.last() == Op::Plain(Opcode::Div))
            &&& (op == BinOp::Mod ==> code.last() == Op::Plain(Opcode::Mod))
            &&& (op == BinOp::Eq ==> code.last() == Op::Plain(Opcode::CmpEq))
            &&& (op == BinOp::NotEq ==> code.last() == Op::Plain(Opcode::CmpNotEq))
            &&& (op == BinOp::Lt ==> code.last() == Op::Plain(Opcode::CmpLt))
            &&& (op == BinOp::LtEq ==> code.last() == Op::Plain(Opcode::CmpLtEq))
            &&& (op == BinOp::Gt ==> code.last() == Op::Plain(Opcode::CmpGt))
            &&& (op == BinOp::GtEq ==> code.last() == Op::Plain(Opcode::CmpGtEq))
        }),
{
    let e = SExpr { kind: SExprKind::BinOp { op, left: Box::new(l), right: Box::new(r) }, span };
    lemma_c_expr(e, st);
    let operands = c_expr(r, c_expr(l, st));
    assert(c_expr(e, st).code.drop_last() =~= operands.code);
}

/// A unary operator compiles to the code of its operand, then one instruction of the same
/// operation: `-x` negates and `not x` inverts.
pub proof fn law_unary_compiles_to_its_operation(op: UnaryOp, x: SExpr, span: Span, st: CState)
    ensures
        ({
            let e = SExpr { kind: SExprKind::UnaryOp { op, operand: Box::new(x) }, span };
            let operand = c_expr(x, st);
            let code = c_expr(e, st).code;
            &&& code.len() == operand.code.len() + 1
            &&& code.drop_last() == operand.code
            &&& (op == UnaryOp::Neg ==> code.last() == Op::Plain(Opcode::Neg))
            &&& (op == UnaryOp::Not ==> code.last() == Op::Plain(Opcode::Not))
        }),
{
    let e = SExpr { kind: SExprKind::UnaryOp { op, operand: Box::new(x) }, span };
    lemma_c_expr(e, st);
    assert(c_expr(e, st).code.drop_last() =~= c_expr(x, st).code);
}

/// The last instruction that an expression compiles to does what the expression says:
/// `true` and `false` load themselves, indexing reads an element, a list or a map literal
/// builds one of as many items or entries as it has, and a call passes as many arguments as
/// it has.
pub proof fn law_expression_final_instruction(e: SExpr, st: CState)
    ensures
        ({
            let code = c_expr(e, st).code;
            &&& code.len() >= 1
            &&& (e.kind == SExprKind::Bool(true) ==> code.last() == Op::Plain(Opcode::LoadTrue))
            &&& (e.kind == SExprKind::Bool(false) ==> code.last() == Op::Plain(Opcode::LoadFalse))
            &&& (e.kind is Index ==> code.last() == Op::Plain(Opcode::GetIndex))
            &&& (e.kind matches SExprKind::List(items) ==> code.last() == Op::Plain(
                Opcode::MakeList(items.len() as usize),
            ))
            &&& (e.kind matches SExprKind::Dict(entries) ==> code.last() == Op::Plain(
                Opcode::MakeMap(entries.len() as usize),
            ))
            &&& (e.kind matches SExprKind::Call { args, .. } ==> code.last() == Op::Plain(
                Opcode::Call(args.len() as usize),
            ))
        }) || !(e.kind is Bool || e.kind is Index || e.kind is List || e.kind is Dict
            || e.kind is Call),
{
    lemma_c_expr(e, st);
}

/// Compiling the expression `e` in the state `st`: code that leaves its value on the
/// stack. `and` and `or` jump past their right operand when the left one decides.
pub closed spec fn c_expr(e: SExpr, st: CState) -> CState
    decreases e,
{
    let line = e.span.start as u32;
    match e.kind {
        SExprKind::Int(n) => load_c(st, Const::Int(n), line),
        SExprKind::Float(x) => load_c(st, Const::Float(x), line),
        SExprKind::Bool(b) => emit_c(
            st,
            if b {
                Opcode::LoadTrue
            } else {
                Opcode::LoadFalse
            },
            line,
        ),
        SExprKind::Str(s) => load_c(st, Const::Str(s), line),
        SExprKind::Ident(name) => match last_named(st.locals, name) {
            Some(k) => emit_c(st, Opcode::LoadLocal(st.locals[k].slot), line),
            None => {
                let (s1, i) = add_c(st, Const::Str(name));
                emit_c(s1, Opcode::LoadGlobal(i as usize), line)
            },
        },
        SExprKind::FStr(parts) => if parts.len() == 0 {
            load_c(st, Const::Str(seq![]), line)
        } else {
            let s1 = c_fparts(parts, st, line);
            if parts.len() > 1 {
                emit_c(s1, Opcode::BuildStr(parts.len() as usize), line)
            } else {
                s1
            }
        },
        SExprKind::List(items) => emit_c(
            c_exprs(items, st),
            Opcode::MakeList(items.len() as usize), line),
        SExprKind::Dict(entries) => emit_c(
            c_entries(entries, st, line),
            Opcode::MakeMap(entries.len() as usize), line),
        SExprKind::Field { object, field } => {
            let (s1, i) = add_c(c_expr(*object, st), Const::Str(field));
            emit_c(s1, Opcode::GetField(i as usize), line)
        },
        SExprKind::Index { object, index } => emit_c(
            c_expr(*index, c_expr(*object, st)),
            Opcode::GetIndex,
            line,
        ),
        SExprKind::BinOp { op, left, right } => if op == BinOp::And {
            let s1 = c_expr(*left, st);
            let s2 = emit_c(s1, Opcode::JumpIfFalseAnd(0), line);
            patch_c(c_expr(*right, s2), s1.code.len() as int)
        } else {
            emit_c(c_expr(*right, c_expr(*left, st)), binop_code(op), line)
        },
        SExprKind::UnaryOp { op, operand } => emit_c(
            c_expr(*operand, st),
            if op == UnaryOp::Neg {
                Opcode::Neg
            } else {
                Opcode::Not
            },
            line,
        ),
        SExprKind::Call { callee, args } => emit_c(
            c_exprs(args, c_expr(*callee, st)),
            Opcode::Call(args.len() as usize), line),
        SExprKind::MethodCall { object, method, args } => {
            let (s1, i) = add_c(c_exprs(args, c_expr(*object, st)), Const::Str(method));
            emit_c(s1, Opcode::CallMethod { method: i as usize, argc: args.len() as usize }, line)
        },
        SExprKind::Or { left, right } => {
            let s1 = c_expr(*left, st);
            let s2 = emit_c(s1, Opcode::JumpIfTrueOr(0), line);
            patch_c(c_expr(*right, s2), s1.code.len() as int)
        },
        SExprKind::Range { start, end } => emit_c(
            emit_c(c_expr(*end, c_expr(*start, st)), Opcode::MakeList(2), line),
            Opcode::Nop,
            line,
        ),
    }
}

/// Compiling the expressions `es` one after the other.
pub closed spec fn c_exprs(es: Seq<SExpr>, st: CState) -> CState
    decreases es,
{
    if es.len() == 0 {
        st
    } else {
        c_expr(es.last(), c_exprs(es.drop_last(), st))
    }
}

/// Compiling the parts of an f-string one after the other: a text part is loaded as a
/// constant, an interpolated one is computed and turned into a string.
pub closed spec fn c_fparts(ps: Seq<SFStrPart>, st: CState, line: u32) -> CState
    decreases ps,
{
    if ps.len() == 0 {
        st
    } else {
        let s1 = c_fparts(ps.drop_last(), st, line);
        match ps.last() {
            SFStrPart::Text(t) => load_c(s1, Const::Str(t), line),
            SFStrPart::Interp(x) => emit_c(c_expr(x, s1), Opcode::BuildStr(1), line),
        }
    }
}

/// Compiling the entries of a map one after the other: each key as a string constant,
/// then its value.
pub closed spec fn c_entries(es: Seq<(Seq<char>, SExpr)>, st: CState, line: u32) -> CState
    decreases es,
{
    if es.len() == 0 {
        st
    } else {
        let s1 = c_entries(es.drop_last(), st, line);
        c_expr(es.last().1, load_c(s1, Const::Str(es.last().0), line))
    }
}

/// `st` one scope deeper.
pub open spec fn begin_c(st: CState) -> CState {
    CState { depth: st.depth + 1, ..st }
}

/// `st` with a local `name` added at the current depth, in the next slot.
pub open spec fn declare_c(st: CState, name: Seq<char>, mutable: bool) -> CState {
    CState {
        locals: st.locals.push(
            LocalV { name, slot: st.locals.len() as usize, mutable, depth: st.depth },
        ),
        ..st
    }
}

/// Where the run of locals at depth `d` that ends the list begins.
pub open spec fn scope_start(ls: Seq<LocalV>, d: int) -> int
    decreases ls.len(),
{
    if ls.len() > 0 && ls.last().depth == d {
        scope_start(ls.drop_last(), d)
    } else {
        ls.len() as int
    }
}

/// `st` after leaving the innermost scope: each of its locals is popped off the stack and
/// forgotten.
pub open spec fn end_scope_c(st: CState) -> CState {
    let keep = scope_start(st.locals, st.depth);
    CState {
        code: st.code + Seq::new((st.locals.len() - keep) as nat, |i: int| Op::Plain(Opcode::Pop)),
        lines: st.lines + Seq::new((st.locals.len() - keep) as nat, |i: int| 0u32),
        locals: st.locals.take(keep),
        depth: st.depth - 1,
        ..st
    }
}

/// `st` with each jump at the indices `js` aimed at the end of the code, in order.
pub open spec fn patch_all(st: CState, js: Seq<int>) -> CState
    decreases js.len(),
{
    if js.len() == 0 {
        st
    } else {
        patch_c(patch_all(st, js.drop_last()), js.last())
    }
}

/// The locals that the parameters of a function start as: one mutable local per
/// parameter, in order, at depth zero.
pub open spec fn param_locals(ps: Seq<SParam>) -> Seq<LocalV> {
    Seq::new(
        ps.len(),
        |k: int| LocalV { name: ps[k].name, slot: k as usize, mutable: true, depth: 0 },
    )
}

/// The state a chunk named `name` is compiled from: nothing emitted yet, with the given
/// locals.
pub open spec fn fresh_c(name: Seq<char>, locals: Seq<LocalV>, in_function: bool) -> CState {
    CState {
        name,
        code: seq![],
        lines: seq![],
        consts: seq![],
        locals,
        depth: 0,
        in_function,
        errors: seq![],
    }
}

/// The chunk that the state `st` has built.
pub open spec fn chunk_of(st: CState) -> ChunkV {
    ChunkV { name: st.name, code: st.code, lines: st.lines, consts: st.consts }
}

/// The value of a chunk.
pub open spec fn chunk_v(c: Chunk) -> ChunkV {
    ChunkV { name: c.name@, code: code_v(c.code@), lines: c.lines@, consts: consts_v(c.consts@) }
}

/// The name of the chunk a whole script is compiled into.
pub open spec fn script_name() -> Seq<char> {
    seq!['<', 's', 'c', 'r', 'i', 'p', 't', '>']
}

/// The name of the local that holds a `for` loop's iterator.
pub open spec fn iter_name() -> Seq<char> {
    seq!['<', 'i', 't', 'e', 'r', '>']
}

/// Importing the fields `fs` one after the other: each name is added as a string constant
/// and declared as a local; the pairs of constant and slot come out in order.
pub closed spec fn c_fields(fs: Seq<Seq<char>>, st: CState) -> (CState, Seq<(usize, usize)>)
    decreases fs.len(),
{
    if fs.len() == 0 {
        (st, seq![])
    } else {
        let (s1, pairs) = c_fields(fs.drop_last(), st);
        let (s2, i) = add_c(s1, Const::Str(fs.last()));
        (declare_c(s2, fs.last(), false), pairs.push((i as usize, s2.locals.len() as usize)))
    }
}

/// Compiling the parts of an exec line one after the other: a word is loaded as a string
/// constant, an interpolated expression is computed and turned into a string.
pub closed spec fn c_eparts(ps: Seq<SExecPart>, st: CState, line: u32) -> CState
    decreases ps.len(),
{
    if ps.len() == 0 {
        st
    } else {
        let s1 = c_eparts(ps.drop_last(), st, line);
        match ps.last() {
            SExecPart::Word(w) => load_c(s1, Const::Str(w), line),
            SExecPart::Interp(x) => emit_c(c_expr(x, s1), Opcode::BuildStr(1), line),
        }
    }
}

/// A function or task body compiled from `f0`, closed with `ReturnNil`; if it has errors
/// they are added to `st`, else `c` built from its code and constants is loaded and bound
/// to the global `name`.
pub open spec fn c_nested(st: CState, f1: CState, name: Seq<char>, c: Const, line: u32) -> CState {
    if f1.errors.len() > 0 {
        CState { errors: st.errors + f1.errors, ..st }
    } else {
        let s1 = load_c(st, c, line);
        let (s2, i) = add_c(s1, Const::Str(name));
        emit_c(s2, Opcode::StoreGlobal(i as usize), line)
    }
}

/// Compiling the statement `s` in the state `st`.
pub closed spec fn c_stmt(s: SStmt, st: CState) -> CState
    decreases s,
{
    let line = s.span.start as u32;
    match s.kind {
        SStmtKind::Import { module, items } => {
            let (s1, m) = add_c(st, Const::Str(module));
            match items {
                None => {
                    let s2 = emit_c(s1, Opcode::ImportModule(m as usize), line);
                    emit_c(
                        declare_c(s2, module, false),
                        Opcode::DefineLocal(s2.locals.len() as usize), line)
                },
                Some(fs) => {
                    let (s2, pairs) = c_fields(fs, s1);
                    CState {
                        code: s2.code.push(Op::ImportFields { module: m as usize, fields: pairs }),
                        lines: s2.lines.push(line),
                        ..s2
                    }
                },
            }
        },
        SStmtKind::Let { name, mutable, value, .. } => {
            let s1 = c_expr(value, st);
            emit_c(
                declare_c(s1, name, mutable),
                Opcode::DefineLocal(s1.locals.len() as usize), line)
        },
        SStmtKind::Assig { name, value } => match last_named(st.locals, name) {
            Some(k) => if !st.locals[k].mutable {
                CState { errors: st.errors.push(CErr::ImmutableAssign { name, span: s.span }), ..st }
            } else {
                emit_c(c_expr(value, st), Opcode::StoreLocal(st.locals[k].slot), line)
            },
            None => {
                let (s1, i) = add_c(st, Const::Str(name));
                emit_c(c_expr(value, s1), Opcode::StoreGlobal(i as usize), line)
            },
        },
        SStmtKind::Fn { name, params, body, .. } => {
            let f1 = emit_c(
                c_body(body, fresh_c(name, param_locals(params), true)),
                Opcode::ReturnNil,
                line,
            );
            c_nested(
                st,
                f1,
                name,
                Const::Function {
                    name,
                    params: params.map_values(|p: SParam| p.name),
                    chunk: chunk_of(f1),
                },
                line,
            )
        },
        SStmtKind::Task { name, body } => {
            let f1 = emit_c(c_body(body, fresh_c(name, seq![], false)), Opcode::ReturnNil, line);
            c_nested(st, f1, name, Const::Task { name, chunk: chunk_of(f1) }, line)
        },
        SStmtKind::Return { value } => if !st.in_function {
            CState { errors: st.errors.push(CErr::ReturnOutsideFunction { span: s.span }), ..st }
        } else {
            match value {
                Some(v) => emit_c(c_expr(v, st), Opcode::Return, line),
                None => emit_c(st, Opcode::ReturnNil, line),
            }
        },
        SStmtKind::If { branches, else_ } => {
            let (s1, js) = c_branches(branches, st, line);
            let s2 = match else_ {
                Some(b) => end_scope_c(c_body(b, begin_c(s1))),
                None => s1,
            };
            patch_all(s2, js)
        },
        SStmtKind::For { name, iter, body } => {
            let s1 = emit_c(c_expr(iter, st), Opcode::MakeIter, line);
            let islot = s1.locals.len() as usize;
            let s2 = emit_c(declare_c(s1, iter_name(), false), Opcode::DefineLocal(islot), line);
            let start = s2.code.len() as usize;
            let s3 = emit_c(emit_c(s2, Opcode::LoadLocal(islot), line), Opcode::IterNext, line);
            let s4 = emit_c(s3, Opcode::JumpIfFalse(0), line);
            let s5 = begin_c(s4);
            let s6 = emit_c(
                declare_c(s5, name, false),
                Opcode::DefineLocal(s5.locals.len() as usize), line);
            let s7 = end_scope_c(c_body(body, s6));
            let s8 = emit_c(
                patch_c(emit_c(s7, Opcode::Jump(start), line), s3.code.len() as int),
                Opcode::Pop,
                line,
            );
            // The loop variable went with the body's scope; the iterator goes too.
            CState { locals: st.locals, ..s8 }
        },
        SStmtKind::While { cond, body } => {
            let start = st.code.len() as usize;
            let s1 = c_expr(cond, st);
            let s2 = emit_c(s1, Opcode::JumpIfFalse(0), line);
            let s3 = end_scope_c(c_body(body, begin_c(s2)));
            patch_c(emit_c(s3, Opcode::Jump(start), line), s1.code.len() as int)
        },
        SStmtKind::Try { body, catch_var, handler } => {
            let s1 = emit_c(st, Opcode::PushTry(0), line);
            let s2 = emit_c(end_scope_c(c_body(body, begin_c(s1))), Opcode::PopTry, line);
            let s3 = patch_c(emit_c(s2, Opcode::Jump(0), line), st.code.len() as int);
            let s4 = begin_c(s3);
            let s5 = emit_c(
                declare_c(s4, catch_var, false),
                Opcode::DefineLocal(s4.locals.len() as usize), line);
            patch_c(end_scope_c(c_body(handler, s5)), s2.code.len() as int)
        },
        SStmtKind::Exec { parts, swallow } => emit_c(
            c_eparts(parts, st, line),
            Opcode::Exec { argc: parts.len() as usize, swallow, capture: false }, line),
        SStmtKind::Exit { code } => {
            let s1 = match code {
                Some(x) => c_expr(x, st),
                None => load_c(st, Const::Int(0), line),
            };
            emit_c(s1, Opcode::Exit, line)
        },
        SStmtKind::ExprStmt(x) => emit_c(c_expr(x, st), Opcode::Pop, line),
    }
}

/// Compiling the statements `b` one after the other.
pub closed spec fn c_body(b: Seq<SStmt>, st: CState) -> CState
    decreases b,
{
    if b.len() == 0 {
        st
    } else {
        c_stmt(b.last(), c_body(b.drop_last(), st))
    }
}

/// Compiling the branches of an `if` one after the other: each condition, a jump past its
/// body when it is false (from the branch's line), the body in a scope of its own, and a
/// jump to the end (from the line `line` of the `if`), whose index is collected.
pub closed spec fn c_branches(bs: Seq<SIfBranch>, st: CState, line: u32) -> (CState, Seq<int>)
    decreases bs,
{
    if bs.len() == 0 {
        (st, seq![])
    } else {
        let (s0, js) = c_branches(bs.drop_last(), st, line);
        let s1 = c_expr(bs.last().cond, s0);
        let s2 = emit_c(s1, Opcode::JumpIfFalse(0), bs.last().span.start as u32);
        let s3 = end_scope_c(c_body(bs.last().body, begin_c(s2)));
        let s4 = emit_c(s3, Opcode::Jump(0), line);
        (patch_c(s4, s1.code.len() as int), js.push(s3.code.len() as int))
    }
}

/// Compiling a whole script: its statements from an empty state, then `ReturnNil`.
pub open spec fn compile_c(b: Seq<SStmt>) -> CState {
    emit_c(c_body(b, fresh_c(script_name(), seq![], false)), Opcode::ReturnNil, 0)
}

/// No string is held twice among the constants `cs`.
pub open spec fn strs_unique(cs: Seq<Const>) -> bool {
    forall|i: int, j: int| 0 <= i < j < cs.len() && cs[i] is Str ==> cs[i] != cs[j]
}

/// A string that `find_c` does not find is not among the constants.
proof fn lemma_find_c_none(cs: Seq<Const>, s: Seq<char>)
    ensures
        find_c(cs, s) is None ==> forall|i: int| 0 <= i < cs.len() ==> cs[i] != Const::Str(s),
    decreases cs.len(),
{
    if cs.len() > 0 {
        lemma_find_c_none(cs.drop_last(), s);
        if find_c(cs, s) is None {
            assert forall|i: int| 0 <= i < cs.len() implies cs[i] != Const::Str(s) by {
                if i < cs.len() - 1 {
                    assert(cs[i] == cs.drop_last()[i]);
                }
            }
        }
    }
}

/// Adding a constant keeps each string held at most once.
proof fn lemma_add_c_unique(st: CState, c: Const)
    requires
        strs_unique(st.consts),
    ensures
        strs_unique(add_c(st, c).0.consts),
{
    if let Const::Str(s) = c {
        lemma_find_c_none(st.consts, s);
    }
    let cs = add_c(st, c).0.consts;
    if cs != st.consts {
        assert forall|i: int, j: int| 0 <= i < j < cs.len() && cs[i] is Str implies cs[i] != cs[j] by {
            if j == cs.len() - 1 {
                assert(cs[j] == c);
            }
        }
    }
}

/// Aiming jumps leaves the constants as they are.
proof fn lemma_patch_all_consts(st: CState, js: Seq<int>)
    ensures
        patch_all(st, js).consts == st.consts,
    decreases js.len(),
{
    if js.len() > 0 {
        lemma_patch_all_consts(st, js.drop_last());
    }
}

/// Compiling an expression keeps each string constant held at most once.
proof fn lemma_expr_unique(e: SExpr, st: CState)
    requires
        strs_unique(st.consts),
    ensures
        strs_unique(c_expr(e, st).consts),
    decreases e,
{
    match e.kind {
        SExprKind::Int(n) => lemma_add_c_unique(st, Const::Int(n)),
        SExprKind::Float(x) => lemma_add_c_unique(st, Const::Float(x)),
        SExprKind::Str(s) => lemma_add_c_unique(st, Const::Str(s)),
        SExprKind::Ident(name) => lemma_add_c_unique(st, Const::Str(name)),
        SExprKind::FStr(parts) => {
            lemma_add_c_unique(st, Const::Str(seq![]));
            lemma_fparts_unique(parts, st, e.span.start as u32);
        },
        SExprKind::List(items) => lemma_exprs_unique(items, st),
        SExprKind::Dict(entries) => lemma_entries_unique(entries, st, e.span.start as u32),
        SExprKind::Field { object, field } => {
            lemma_expr_unique(*object, st);
            lemma_add_c_unique(c_expr(*object, st), Const::Str(field));
        },
        SExprKind::Index { object, index } => {
            lemma_expr_unique(*object, st);
            lemma_expr_unique(*index, c_expr(*object, st));
        },
        SExprKind::BinOp { op, left, right } => {
            lemma_expr_unique(*left, st);
            let s1 = c_expr(*left, st);
            lemma_expr_unique(*right, s1);
            lemma_expr_unique(*right, emit_c(s1, Opcode::JumpIfFalseAnd(0), e.span.start as u32));
        },
        SExprKind::UnaryOp { operand, .. } => lemma_expr_unique(*operand, st),
        SExprKind::Call { callee, args } => {
            lemma_expr_unique(*callee, st);
            lemma_exprs_unique(args, c_expr(*callee, st));
        },
        SExprKind::MethodCall { object, method, args } => {
            lemma_expr_unique(*object, st);
            lemma_exprs_unique(args, c_expr(*object, st));
            lemma_add_c_unique(c_exprs(args, c_expr(*object, st)), Const::Str(method));
        },
        SExprKind::Or { left, right } => {
            lemma_expr_unique(*left, st);
            let s1 = c_expr(*left, st);
            lemma_expr_unique(*right, emit_c(s1, Opcode::JumpIfTrueOr(0), e.span.start as u32));
        },
        SExprKind::Range { start, end } => {
            lemma_expr_unique(*start, st);
            lemma_expr_unique(*end, c_expr(*start, st));
        },
        _ => {},
    }
}

/// Compiling expressions keeps each string constant held at most once.
proof fn lemma_exprs_unique(es: Seq<SExpr>, st: CState)
    requires
        strs_unique(st.consts),
    ensures
        strs_unique(c_exprs(es, st).consts),
    decreases es,
{
    if es.len() > 0 {
        lemma_exprs_unique(es.drop_last(), st);
        lemma_expr_unique(es.last(), c_exprs(es.drop_last(), st));
    }
}

/// Compiling f-string parts keeps each string constant held at most once.
proof fn lemma_fparts_unique(ps: Seq<SFStrPart>, st: CState, line: u32)
    requires
        strs_unique(st.consts),
    ensures
        strs_unique(c_fparts(ps, st, line).consts),
    decreases ps,
{
    if ps.len() > 0 {
        lemma_fparts_unique(ps.drop_last(), st, line);
        let s1 = c_fparts(ps.drop_last(), st, line);
        match ps.last() {
            SFStrPart::Text(t) => lemma_add_c_unique(s1, Const::Str(t)),
            SFStrPart::Interp(x) => lemma_expr_unique(x, s1),
        }
    }
}

/// Compiling map entries keeps each string constant held at most once.
proof fn lemma_entries_unique(es: Seq<(Seq<char>, SExpr)>, st: CState, line: u32)
    requires
        strs_unique(st.consts),
    ensures
        strs_unique(c_entries(es, st, line).consts),
    decreases es,
{
    if es.len() > 0 {
        lemma_entries_unique(es.drop_last(), st, line);
        let s1 = c_entries(es.drop_last(), st, line);
        lemma_add_c_unique(s1, Const::Str(es.last().0));
        lemma_expr_unique(es.last().1, load_c(s1, Const::Str(es.last().0), line));
    }
}

/// Importing fields keeps each string constant held at most once.
proof fn lemma_fields_unique(fs: Seq<Seq<char>>, st: CState)
    requires
        strs_unique(st.consts),
    ensures
        strs_unique(c_fields(fs, st).0.consts),
    decreases fs.len(),
{
    if fs.len() > 0 {
        lemma_fields_unique(fs.drop_last(), st);
        lemma_add_c_unique(c_fields(fs.drop_last(), st).0, Const::Str(fs.last()));
    }
}

/// Compiling the parts of an exec line keeps each string constant held at most once.
proof fn lemma_eparts_unique(ps: Seq<SExecPart>, st: CState, line: u32)
    requires
        strs_unique(st.consts),
    ensures
        strs_unique(c_eparts(ps, st, line).consts),
    decreases ps.len(),
{
    if ps.len() > 0 {
        lemma_eparts_unique(ps.drop_last(), st, line);
        let s1 = c_eparts(ps.drop_last(), st, line);
        match ps.last() {
            SExecPart::Word(w) => lemma_add_c_unique(s1, Const::Str(w)),
            SExecPart::Interp(x) => lemma_expr_unique(x, s1),
        }
    }
}

/// Binding a nested chunk keeps each string constant held at most once.
proof fn lemma_nested_unique(st: CState, f1: CState, name: Seq<char>, c: Const, line: u32)
    requires
        strs_unique(st.consts),
    ensures
        strs_unique(c_nested(st, f1, name, c, line).consts),
{
    lemma_add_c_unique(st, c);
    lemma_add_c_unique(load_c(st, c, line), Const::Str(name));
}

/// Compiling a statement keeps each string constant held at most once.
proof fn lemma_stmt_unique(s: SStmt, st: CState)
    requires
        strs_unique(st.consts),
    ensures
        strs_unique(c_stmt(s, st).consts),
    decreases s,
{
    let line = s.span.start as u32;
    match s.kind {
        SStmtKind::Import { module, items } => {
            lemma_add_c_unique(st, Const::Str(module));
            if let Some(fs) = items {
                lemma_fields_unique(fs, add_c(st, Const::Str(module)).0);
            }
        },
        SStmtKind::Let { value, .. } => lemma_expr_unique(value, st),
        SStmtKind::Assig { name, value } => {
            lemma_expr_unique(value, st);
            lemma_add_c_unique(st, Const::Str(name));
            lemma_expr_unique(value, add_c(st, Const::Str(name)).0);
        },
        SStmtKind::Fn { name, params, body, .. } => {
            let f1 = emit_c(
                c_body(body, fresh_c(name, param_locals(params), true)),
                Opcode::ReturnNil,
                line,
            );
            lemma_nested_unique(
                st,
                f1,
                name,
                Const::Function {
                    name,
                    params: params.map_values(|p: SParam| p.name),
                    chunk: chunk_of(f1),
                },
                line,
            );
        },
        SStmtKind::Task { name, body } => {
            let f1 = emit_c(c_body(body, fresh_c(name, seq![], false)), Opcode::ReturnNil, line);
            lemma_nested_unique(st, f1, name, Const::Task { name, chunk: chunk_of(f1) }, line);
        },
        SStmtKind::Return { value } => {
            if let Some(v) = value {
                lemma_expr_unique(v, st);
            }
        },
        SStmtKind::If { branches, else_ } => {
            lemma_branches_unique(branches, st, line);
            let (s1, js) = c_branches(branches, st, line);
            if let Some(b) = else_ {
                lemma_body_unique(b, begin_c(s1));
            }
            let s2 = match else_ {
                Some(b) => end_scope_c(c_body(b, begin_c(s1))),
                None => s1,
            };
            lemma_patch_all_consts(s2, js);
        },
        SStmtKind::For { name, iter, body } => {
            lemma_expr_unique(iter, st);
            let s1 = emit_c(c_expr(iter, st), Opcode::MakeIter, line);
            let islot = s1.locals.len() as usize;
            let s2 = emit_c(declare_c(s1, iter_name(), false), Opcode::DefineLocal(islot), line);
            let s3 = emit_c(emit_c(s2, Opcode::LoadLocal(islot), line), Opcode::IterNext, line);
            let s5 = begin_c(emit_c(s3, Opcode::JumpIfFalse(0), line));
            let s6 = emit_c(
                declare_c(s5, name, false),
                Opcode::DefineLocal(s5.locals.len() as usize), line);
            lemma_body_unique(body, s6);
        },
        SStmtKind::While { cond, body } => {
            lemma_expr_unique(cond, st);
            lemma_body_unique(body, begin_c(emit_c(c_expr(cond, st), Opcode::JumpIfFalse(0), line)));
        },
        SStmtKind::Try { body, catch_var, handler } => {
            let s1 = emit_c(st, Opcode::PushTry(0), line);
            lemma_body_unique(body, begin_c(s1));
            let s2 = emit_c(end_scope_c(c_body(body, begin_c(s1))), Opcode::PopTry, line);
            let s4 = begin_c(patch_c(emit_c(s2, Opcode::Jump(0), line), st.code.len() as int));
            let s5 = emit_c(
                declare_c(s4, catch_var, false),
                Opcode::DefineLocal(s4.locals.len() as usize), line);
            lemma_body_unique(handler, s5);
        },
        SStmtKind::Exec { parts, .. } => lemma_eparts_unique(parts, st, line),
        SStmtKind::Exit { code } => {
            lemma_add_c_unique(st, Const::Int(0));
            if let Some(x) = code {
                lemma_expr_unique(x, st);
            }
        },
        SStmtKind::ExprStmt(x) => lemma_expr_unique(x, st),
    }
}

/// Compiling statements keeps each string constant held at most once.
proof fn lemma_body_unique(b: Seq<SStmt>, st: CState)
    requires
        strs_unique(st.consts),
    ensures
        strs_unique(c_body(b, st).consts),
    decreases b,
{
    if b.len() > 0 {
        lemma_body_unique(b.drop_last(), st);
        lemma_stmt_unique(b.last(), c_body(b.drop_last(), st));
    }
}

/// Compiling the branches of an `if` keeps each string constant held at most once.
proof fn lemma_branches_unique(bs: Seq<SIfBranch>, st: CState, line: u32)
    requires
        strs_unique(st.consts),
    ensures
        strs_unique(c_branches(bs, st, line).0.consts),
    decreases bs,
{
    if bs.len() > 0 {
        lemma_branches_unique(bs.drop_last(), st, line);
        let s0 = c_branches(bs.drop_last(), st, line).0;
        lemma_expr_unique(bs.last().cond, s0);
        let s1 = c_expr(bs.last().cond, s0);
        let s2 = emit_c(s1, Opcode::JumpIfFalse(0), bs.last().span.start as u32);
        lemma_body_unique(bs.last().body, begin_c(s2));
    }
}

/// The constant pool of a compiled script holds each string at most once: a string
/// constant is added only where the pool does not hold it yet.
pub proof fn law_script_strings_unique(b: Seq<SStmt>)
    ensures
        strs_unique(compile_c(b).consts),
{
    lemma_body_unique(b, fresh_c(script_name(), seq![], false));
}

/// Each local's slot is its position among the locals.
pub open spec fn slots_ok(ls: Seq<LocalV>) -> bool {
    forall|k: int| 0 <= k < ls.len() ==> #[trigger] ls[k].slot == k as usize
}

/// Aiming jumps leaves the locals as they are.
proof fn lemma_patch_all_locals(st: CState, js: Seq<int>)
    ensures
        patch_all(st, js).locals == st.locals,
    decreases js.len(),
{
    if js.len() > 0 {
        lemma_patch_all_locals(st, js.drop_last());
    }
}

/// Compiling an expression leaves the locals as they are.
proof fn lemma_expr_locals(e: SExpr, st: CState)
    ensures
        c_expr(e, st).locals == st.locals,
    decreases e,
{
    let line = e.span.start as u32;
    match e.kind {
        SExprKind::FStr(parts) => lemma_fparts_locals(parts, st, line),
        SExprKind::List(items) => lemma_exprs_locals(items, st),
        SExprKind::Dict(entries) => lemma_entries_locals(entries, st, line),
        SExprKind::Field { object, .. } => lemma_expr_locals(*object, st),
        SExprKind::Index { object, index } => {
            lemma_expr_locals(*object, st);
            lemma_expr_locals(*index, c_expr(*object, st));
        },
        SExprKind::BinOp { left, right, .. } => {
            lemma_expr_locals(*left, st);
            let s1 = c_expr(*left, st);
            lemma_expr_locals(*right, s1);
            lemma_expr_locals(*right, emit_c(s1, Opcode::JumpIfFalseAnd(0), line));
        },
        SExprKind::UnaryOp { operand, .. } => lemma_expr_locals(*operand, st),
        SExprKind::Call { callee, args } => {
            lemma_expr_locals(*callee, st);
            lemma_exprs_locals(args, c_expr(*callee, st));
        },
        SExprKind::MethodCall { object, args, .. } => {
            lemma_expr_locals(*object, st);
            lemma_exprs_locals(args, c_expr(*object, st));
        },
        SExprKind::Or { left, right } => {
            lemma_expr_locals(*left, st);
            lemma_expr_locals(*right, emit_c(c_expr(*left, st), Opcode::JumpIfTrueOr(0), line));
        },
        SExprKind::Range { start, end } => {
            lemma_expr_locals(*start, st);
            lemma_expr_locals(*end, c_expr(*start, st));
        },
        _ => {},
    }
}

/// Compiling expressions leaves the locals as they are.
proof fn lemma_exprs_locals(es: Seq<SExpr>, st: CState)
    ensures
        c_exprs(es, st).locals == st.locals,
    decreases es,
{
    if es.len() > 0 {
        lemma_exprs_locals(es.drop_last(), st);
        lemma_expr_locals(es.last(), c_exprs(es.drop_last(), st));
    }
}

/// Compiling f-string parts leaves the locals as they are.
proof fn lemma_fparts_locals(ps: Seq<SFStrPart>, st: CState, line: u32)
    ensures
        c_fparts(ps, st, line).locals == st.locals,
    decreases ps,
{
    if ps.len() > 0 {
        lemma_fparts_locals(ps.drop_last(), st, line);
        if let SFStrPart::Interp(x) = ps.last() {
            lemma_expr_locals(x, c_fparts(ps.drop_last(), st, line));
        }
    }
}

/// Compiling map entries leaves the locals as they are.
proof fn lemma_entries_locals(es: Seq<(Seq<char>, SExpr)>, st: CState, line: u32)
    ensures
        c_entries(es, st, line).locals == st.locals,
    decreases es,
{
    if es.len() > 0 {
        lemma_entries_locals(es.drop_last(), st, line);
        let s1 = c_entries(es.drop_last(), st, line);
        lemma_expr_locals(es.last().1, load_c(s1, Const::Str(es.last().0), line));
    }
}

/// Compiling the parts of an exec line leaves the locals as they are.
proof fn lemma_eparts_locals(ps: Seq<SExecPart>, st: CState, line: u32)
    ensures
        c_eparts(ps, st, line).locals == st.locals,
    decreases ps.len(),
{
    if ps.len() > 0 {
        lemma_eparts_locals(ps.drop_last(), st, line);
        if let SExecPart::Interp(x) = ps.last() {
            lemma_expr_locals(x, c_eparts(ps.drop_last(), st, line));
        }
    }
}

/// Declaring a local puts it in the next slot.
proof fn lemma_declare_slots(st: CState, name: Seq<char>, mutable: bool)
    requires
        slots_ok(st.locals),
    ensures
        slots_ok(declare_c(st, name, mutable).locals),
{
    let ls = declare_c(st, name, mutable).locals;
    assert forall|k: int| 0 <= k < ls.len() implies #[trigger] ls[k].slot == k as usize by {
        if k < st.locals.len() {
            assert(ls[k] == st.locals[k]);
        }
    }
}

/// Leaving a scope keeps the locals before it.
proof fn lemma_end_scope_slots(st: CState)
    requires
        slots_ok(st.locals),
    ensures
        slots_ok(end_scope_c(st).locals),
{
    lemma_scope_start(st.locals, st.depth);
    let ls = end_scope_c(st).locals;
    assert forall|k: int| 0 <= k < ls.len() implies #[trigger] ls[k].slot == k as usize by {
        assert(ls[k] == st.locals[k]);
    }
}

/// The run that `scope_start` finds lies within the locals.
proof fn lemma_scope_start(ls: Seq<LocalV>, d: int)
    ensures
        0 <= scope_start(ls, d) <= ls.len(),
    decreases ls.len(),
{
    if ls.len() > 0 && ls.last().depth == d {
        lemma_scope_start(ls.drop_last(), d);
    }
}

/// Importing fields puts each in the next slot.
proof fn lemma_fields_slots(fs: Seq<Seq<char>>, st: CState)
    requires
        slots_ok(st.locals),
    ensures
        slots_ok(c_fields(fs, st).0.locals),
    decreases fs.len(),
{
    if fs.len() > 0 {
        lemma_fields_slots(fs.drop_last(), st);
        let s2 = add_c(c_fields(fs.drop_last(), st).0, Const::Str(fs.last())).0;
        lemma_declare_slots(s2, fs.last(), false);
    }
}

/// Compiling a statement keeps each local's slot equal to its position.
proof fn lemma_stmt_slots(s: SStmt, st: CState)
    requires
        slots_ok(st.locals),
    ensures
        slots_ok(c_stmt(s, st).locals),
    decreases s,
{
    let line = s.span.start as u32;
    match s.kind {
        SStmtKind::Import { module, items } => {
            let s1 = add_c(st, Const::Str(module)).0;
            match items {
                None => {
                    let s2 = emit_c(s1, Opcode::ImportModule(add_c(st, Const::Str(module)).1 as usize), line);
                    lemma_declare_slots(s2, module, false);
                },
                Some(fs) => lemma_fields_slots(fs, s1),
            }
        },
        SStmtKind::Let { name, mutable, value, .. } => {
            lemma_expr_locals(value, st);
            lemma_declare_slots(c_expr(value, st), name, mutable);
        },
        SStmtKind::Assig { name, value } => {
            lemma_expr_locals(value, st);
            lemma_expr_locals(value, add_c(st, Const::Str(name)).0);
        },
        SStmtKind::Return { value } => {
            if let Some(v) = value {
                lemma_expr_locals(v, st);
            }
        },
        SStmtKind::If { branches, else_ } => {
            lemma_branches_slots(branches, st, line);
            let (s1, js) = c_branches(branches, st, line);
            if let Some(b) = else_ {
                lemma_body_slots(b, begin_c(s1));
                lemma_end_scope_slots(c_body(b, begin_c(s1)));
            }
            let s2 = match else_ {
                Some(b) => end_scope_c(c_body(b, begin_c(s1))),
                None => s1,
            };
            lemma_patch_all_locals(s2, js);
        },
        SStmtKind::For { name, iter, body } => {
            lemma_expr_locals(iter, st);
            let s1 = emit_c(c_expr(iter, st), Opcode::MakeIter, line);
            let islot = s1.locals.len() as usize;
            lemma_declare_slots(s1, iter_name(), false);
            let s2 = emit_c(declare_c(s1, iter_name(), false), Opcode::DefineLocal(islot), line);
            let s3 = emit_c(emit_c(s2, Opcode::LoadLocal(islot), line), Opcode::IterNext, line);
            let s5 = begin_c(emit_c(s3, Opcode::JumpIfFalse(0), line));
            lemma_declare_slots(s5, name, false);
            let s6 = emit_c(
                declare_c(s5, name, false),
                Opcode::DefineLocal(s5.locals.len() as usize),
                line,
            );
            lemma_body_slots(body, s6);
        },
        SStmtKind::While { cond, body } => {
            lemma_expr_locals(cond, st);
            let s3 = begin_c(emit_c(c_expr(cond, st), Opcode::JumpIfFalse(0), line));
            lemma_body_slots(body, s3);
            lemma_end_scope_slots(c_body(body, s3));
        },
        SStmtKind::Try { body, catch_var, handler } => {
            let s1 = begin_c(emit_c(st, Opcode::PushTry(0), line));
            lemma_body_slots(body, s1);
            lemma_end_scope_slots(c_body(body, s1));
            let s2 = emit_c(end_scope_c(c_body(body, s1)), Opcode::PopTry, line);
            let s4 = begin_c(patch_c(emit_c(s2, Opcode::Jump(0), line), st.code.len() as int));
            lemma_declare_slots(s4, catch_var, false);
            let s5 = emit_c(
                declare_c(s4, catch_var, false),
                Opcode::DefineLocal(s4.locals.len() as usize),
                line,
            );
            lemma_body_slots(handler, s5);
            lemma_end_scope_slots(c_body(handler, s5));
        },
        SStmtKind::Exec { parts, .. } => lemma_eparts_locals(parts, st, line),
        SStmtKind::Exit { code } => {
            if let Some(x) = code {
                lemma_expr_locals(x, st);
            }
        },
        SStmtKind::ExprStmt(x) => lemma_expr_locals(x, st),
        _ => {},
    }
}

/// Compiling statements keeps each local's slot equal to its position.
proof fn lemma_body_slots(b: Seq<SStmt>, st: CState)
    requires
        slots_ok(st.locals),
    ensures
        slots_ok(c_body(b, st).locals),
    decreases b,
{
    if b.len() > 0 {
        lemma_body_slots(b.drop_last(), st);
        lemma_stmt_slots(b.last(), c_body(b.drop_last(), st));
    }
}

/// Compiling the branches of an `if` keeps each local's slot equal to its position.
proof fn lemma_branches_slots(bs: Seq<SIfBranch>, st: CState, line: u32)
    requires
        slots_ok(st.locals),
    ensures
        slots_ok(c_branches(bs, st, line).0.locals),
    decreases bs,
{
    if bs.len() > 0 {
        lemma_branches_slots(bs.drop_last(), st, line);
        let s0 = c_branches(bs.drop_last(), st, line).0;
        lemma_expr_locals(bs.last().cond, s0);
        let s2 = begin_c(
            emit_c(c_expr(bs.last().cond, s0), Opcode::JumpIfFalse(0), bs.last().span.start as u32),
        );
        lemma_body_slots(bs.last().body, s2);
        lemma_end_scope_slots(c_body(bs.last().body, s2));
    }
}

/// Each local in scope keeps its position as its slot through the compiling of any
/// statement, so two locals in scope (within the range of slots) never share a slot.
pub proof fn law_local_slots_distinct(s: SStmt, st: CState)
    requires
        slots_ok(st.locals),
    ensures
        slots_ok(c_stmt(s, st).locals),
        forall|i: int, j: int|
            0 <= i < j < c_stmt(s, st).locals.len() && j <= usize::MAX ==> c_stmt(s, st).locals[i].slot
                != c_stmt(s, st).locals[j].slot,
{
    lemma_stmt_slots(s, st);
    let ls = c_stmt(s, st).locals;
    assert forall|i: int, j: int| 0 <= i < j < ls.len() && j <= usize::MAX implies ls[i].slot
        != ls[j].slot by {
        assert(ls[i].slot == i as usize);
        assert(ls[j].slot == j as usize);
    }
}

/// `c_expr` unfolded once.
pub proof fn lemma_c_expr(e: SExpr, st: CState)
    ensures
        c_expr(e, st) == {
            let line = e.span.start as u32;
            match e.kind {
                SExprKind::Int(n) => load_c(st, Const::Int(n), line),
                SExprKind::Float(x) => load_c(st, Const::Float(x), line),
                SExprKind::Bool(b) => emit_c(
                    st,
                    if b {
                        Opcode::LoadTrue
                    } else {
                        Opcode::LoadFalse
                    },
                    line,
                ),
                SExprKind::Str(s) => load_c(st, Const::Str(s), line),
                SExprKind::Ident(name) => match last_named(st.locals, name) {
                    Some(k) => emit_c(st, Opcode::LoadLocal(st.locals[k].slot), line),
                    None => {
                        let (s1, i) = add_c(st, Const::Str(name));
                        emit_c(s1, Opcode::LoadGlobal(i as usize), line)
                    },
                },
                SExprKind::FStr(parts) => if parts.len() == 0 {
                    load_c(st, Const::Str(seq![]), line)
                } else {
                    let s1 = c_fparts(parts, st, line);
                    if parts.len() > 1 {
                        emit_c(s1, Opcode::BuildStr(parts.len() as usize), line)
                    } else {
                        s1
                    }
                },
                SExprKind::List(items) => emit_c(
                    c_exprs(items, st),
                    Opcode::MakeList(items.len() as usize), line),
                SExprKind::Dict(entries) => emit_c(
                    c_entries(entries, st, line),
                    Opcode::MakeMap(entries.len() as usize), line),
                SExprKind::Field { object, field } => {
                    let (s1, i) = add_c(c_expr(*object, st), Const::Str(field));
                    emit_c(s1, Opcode::GetField(i as usize), line)
                },
                SExprKind::Index { object, index } => emit_c(
                    c_expr(*index, c_expr(*object, st)),
                    Opcode::GetIndex,
                    line,
                ),
                SExprKind::BinOp { op, left, right } => if op == BinOp::And {
                    let s1 = c_expr(*left, st);
                    let s2 = emit_c(s1, Opcode::JumpIfFalseAnd(0), line);
                    patch_c(c_expr(*right, s2), s1.code.len() as int)
                } else {
                    emit_c(c_expr(*right, c_expr(*left, st)), binop_code(op), line)
                },
                SExprKind::UnaryOp { op, operand } => emit_c(
                    c_expr(*operand, st),
                    if op == UnaryOp::Neg {
                        Opcode::Neg
                    } else {
                        Opcode::Not
                    },
                    line,
                ),
                SExprKind::Call { callee, args } => emit_c(
                    c_exprs(args, c_expr(*callee, st)),
                    Opcode::Call(args.len() as usize), line),
                SExprKind::MethodCall { object, method, args } => {
                    let (s1, i) = add_c(c_exprs(args, c_expr(*object, st)), Const::Str(method));
                    emit_c(s1, Opcode::CallMethod { method: i as usize, argc: args.len() as usize }, line)
                },
                SExprKind::Or { left, right } => {
                    let s1 = c_expr(*left, st);
                    let s2 = emit_c(s1, Opcode::JumpIfTrueOr(0), line);
                    patch_c(c_expr(*right, s2), s1.code.len() as int)
                },
                SExprKind::Range { start, end } => emit_c(
                    emit_c(c_expr(*end, c_expr(*start, st)), Opcode::MakeList(2), line),
                    Opcode::Nop,
                    line,
                ),
            }
        },
{
}

/// `c_exprs` unfolded once.
pub proof fn lemma_c_exprs(es: Seq<SExpr>, st: CState)
    ensures
        c_exprs(es, st) == {
            if es.len() == 0 {
                st
            } else {
                c_expr(es.last(), c_exprs(es.drop_last(), st))
            }
        },
{
}

/// `c_fparts` unfolded once.
pub proof fn lemma_c_fparts(ps: Seq<SFStrPart>, st: CState, line: u32)
    ensures
        c_fparts(ps, st, line) == {
            if ps.len() == 0 {
                st
            } else {
                let s1 = c_fparts(ps.drop_last(), st, line);
                match ps.last() {
                    SFStrPart::Text(t) => load_c(s1, Const::Str(t), line),
                    SFStrPart::Interp(x) => emit_c(c_expr(x, s1), Opcode::BuildStr(1), line),
                }
            }
        },
{
}

/// `c_entries` unfolded once.
pub proof fn lemma_c_entries(es: Seq<(Seq<char>, SExpr)>, st: CState, line: u32)
    ensures
        c_entries(es, st, line) == {
            if es.len() == 0 {
                st
            } else {
                let s1 = c_entries(es.drop_last(), st, line);
                c_expr(es.last().1, load_c(s1, Const::Str(es.last().0), line))
            }
        },
{
}

/// `c_fields` unfolded once.
pub proof fn lemma_c_fields(fs: Seq<Seq<char>>, st: CState)
    ensures
        c_fields(fs, st) == {
            if fs.len() == 0 {
                (st, seq![])
            } else {
                let (s1, pairs) = c_fields(fs.drop_last(), st);
                let (s2, i) = add_c(s1, Const::Str(fs.last()));
                (declare_c(s2, fs.last(), false), pairs.push((i as usize, s2.locals.len() as usize)))
            }
        },
{
}

/// `c_eparts` unfolded once.
pub proof fn lemma_c_eparts(ps: Seq<SExecPart>, st: CState, line: u32)
    ensures
        c_eparts(ps, st, line) == {
            if ps.len() == 0 {
                st
            } else {
                let s1 = c_eparts(ps.drop_last(), st, line);
                match ps.last() {
                    SExecPart::Word(w) => load_c(s1, Const::Str(w), line),
                    SExecPart::Interp(x) => emit_c(c_expr(x, s1), Opcode::BuildStr(1), line),
                }
            }
        },
{
}

/// `c_stmt` unfolded once.
pub proof fn lemma_c_stmt(s: SStmt, st: CState)
    ensures
        c_stmt(s, st) == {
            let line = s.span.start as u32;
            match s.kind {
                SStmtKind::Import { module, items } => {
                    let (s1, m) = add_c(st, Const::Str(module));
                    match items {
                        None => {
                            let s2 = emit_c(s1, Opcode::ImportModule(m as usize), line);
                            emit_c(
                                declare_c(s2, module, false),
                                Opcode::DefineLocal(s2.locals.len() as usize), line)
                        },
                        Some(fs) => {
                            let (s2, pairs) = c_fields(fs, s1);
                            CState {
                                code: s2.code.push(Op::ImportFields { module: m as usize, fields: pairs }),
                                lines: s2.lines.push(line),
                                ..s2
                            }
                        },
                    }
                },
                SStmtKind::Let { name, mutable, value, .. } => {
                    let s1 = c_expr(value, st);
                    emit_c(
                        declare_c(s1, name, mutable),
                        Opcode::DefineLocal(s1.locals.len() as usize), line)
                },
                SStmtKind::Assig { name, value } => match last_named(st.locals, name) {
                    Some(k) => if !st.locals[k].mutable {
                        CState { errors: st.errors.push(CErr::ImmutableAssign { name, span: s.span }), ..st }
                    } else {
                        emit_c(c_expr(value, st), Opcode::StoreLocal(st.locals[k].slot), line)
                    },
                    None => {
                        let (s1, i) = add_c(st, Const::Str(name));
                        emit_c(c_expr(value, s1), Opcode::StoreGlobal(i as usize), line)
                    },
                },
                SStmtKind::Fn { name, params, body, .. } => {
                    let f1 = emit_c(
                        c_body(body, fresh_c(name, param_locals(params), true)),
                        Opcode::ReturnNil,
                        line,
                    );
                    c_nested(
                        st,
                        f1,
                        name,
                        Const::Function {
                            name,
                            params: params.map_values(|p: SParam| p.name),
                            chunk: chunk_of(f1),
                        },
                        line,
                    )
                },
                SStmtKind::Task { name, body } => {
                    let f1 = emit_c(c_body(body, fresh_c(name, seq![], false)), Opcode::ReturnNil, line);
                    c_nested(st, f1, name, Const::Task { name, chunk: chunk_of(f1) }, line)
                },
                SStmtKind::Return { value } => if !st.in_function {
                    CState { errors: st.errors.push(CErr::ReturnOutsideFunction { span: s.span }), ..st }
                } else {
                    match value {
                        Some(v) => emit_c(c_expr(v, st), Opcode::Return, line),
                        None => emit_c(st, Opcode::ReturnNil, line),
                    }
                },
                SStmtKind::If { branches, else_ } => {
                    let (s1, js) = c_branches(branches, st, line);
                    let s2 = match else_ {
                        Some(b) => end_scope_c(c_body(b, begin_c(s1))),
                        None => s1,
                    };
                    patch_all(s2, js)
                },
                SStmtKind::For { name, iter, body } => {
                    let s1 = emit_c(c_expr(iter, st), Opcode::MakeIter, line);
                    let islot = s1.locals.len() as usize;
                    let s2 = emit_c(declare_c(s1, iter_name(), false), Opcode::DefineLocal(islot), line);
                    let start = s2.code.len() as usize;
                    let s3 = emit_c(emit_c(s2, Opcode::LoadLocal(islot), line), Opcode::IterNext, line);
                    let s4 = emit_c(s3, Opcode::JumpIfFalse(0), line);
                    let s5 = begin_c(s4);
                    let s6 = emit_c(
                        declare_c(s5, name, false),
                        Opcode::DefineLocal(s5.locals.len() as usize), line);
                    let s7 = end_scope_c(c_body(body, s6));
                    let s8 = emit_c(
                        patch_c(emit_c(s7, Opcode::Jump(start), line), s3.code.len() as int),
                        Opcode::Pop,
                        line,
                    );
                    // The loop variable went with the body's scope; the iterator goes too.
                    CState { locals: st.locals, ..s8 }
                },
                SStmtKind::While { cond, body } => {
                    let start = st.code.len() as usize;
                    let s1 = c_expr(cond, st);
                    let s2 = emit_c(s1, Opcode::JumpIfFalse(0), line);
                    let s3 = end_scope_c(c_body(body, begin_c(s2)));
                    patch_c(emit_c(s3, Opcode::Jump(start), line), s1.code.len() as int)
                },
                SStmtKind::Try { body, catch_var, handler } => {
                    let s1 = emit_c(st, Opcode::PushTry(0), line);
                    let s2 = emit_c(end_scope_c(c_body(body, begin_c(s1))), Opcode::PopTry, line);
                    let s3 = patch_c(emit_c(s2, Opcode::Jump(0), line), st.code.len() as int);
                    let s4 = begin_c(s3);
                    let s5 = emit_c(
                        declare_c(s4, catch_var, false),
                        Opcode::DefineLocal(s4.locals.len() as usize), line);
                    patch_c(end_scope_c(c_body(handler, s5)), s2.code.len() as int)
                },
                SStmtKind::Exec { parts, swallow } => emit_c(
                    c_eparts(parts, st, line),
                    Opcode::Exec { argc: parts.len() as usize, swallow, capture: false }, line),
                SStmtKind::Exit { code } => {
                    let s1 = match code {
                        Some(x) => c_expr(x, st),
                        None => load_c(st, Const::Int(0), line),
                    };
                    emit_c(s1, Opcode::Exit, line)
                },
                SStmtKind::ExprStmt(x) => emit_c(c_expr(x, st), Opcode::Pop, line),
            }
        },
{
}

/// `c_body` unfolded once.
pub proof fn lemma_c_body(b: Seq<SStmt>, st: CState)
    ensures
        c_body(b, st) == {
            if b.len() == 0 {
                st
            } else {
                c_stmt(b.last(), c_body(b.drop_last(), st))
            }
        },
{
}

/// `c_branches` unfolded once.
pub proof fn lemma_c_branches(bs: Seq<SIfBranch>, st: CState, line: u32)
    ensures
        c_branches(bs, st, line) == {
            if bs.len() == 0 {
                (st, seq![])
            } else {
                let (s0, js) = c_branches(bs.drop_last(), st, line);
                let s1 = c_expr(bs.last().cond, s0);
                let s2 = emit_c(s1, Opcode::JumpIfFalse(0), bs.last().span.start as u32);
                let s3 = end_scope_c(c_body(bs.last().body, begin_c(s2)));
                let s4 = emit_c(s3, Opcode::Jump(0), line);
                (patch_c(s4, s1.code.len() as int), js.push(s3.code.len() as int))
            }
        },
{
}

} // verus!
