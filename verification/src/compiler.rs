use crate::ast::{
    BinOp, ExecPart, Expr, ExprKind, FStrPart, IfBranch, Param, Script, Stmt, StmtKind, UnaryOp,
};
use crate::chunk::{
    chunk_wf, find_str, is_str_const, lemma_prefix_trans, op_ok, pool_add, prefix_of, Chunk,
};
use crate::codegen::{
    add_c, c_entries, c_expr, c_exprs, c_fparts, code_v, const_v, consts_v, emit_c, errs_v, find_c,
    last_named, lemma_c_entries, lemma_c_expr, lemma_c_exprs, lemma_c_fparts, load_c, op_v, patch_c,
    CState, Const, LocalV, Op, begin_c, c_body, c_branches, c_eparts, c_fields, c_stmt, compile_c,
    declare_c, end_scope_c, err_v, fresh_c, iter_name, lemma_c_body, lemma_c_branches,
    lemma_c_eparts, lemma_c_fields, lemma_c_stmt, param_locals, patch_all, scope_start, chunk_of,
    chunk_v, script_name, law_script_strings_unique, strs_unique,
};
use crate::syntax::{
    branch_v, branches_v, entries_v, eparts_v, expr_v, exprs_v, fpart_v, fparts_v, lemma_branches_v,
    lemma_entries_v, lemma_exprs_v, lemma_fparts_v, lemma_stmts_v, names_v, params_v, stmt_v,
    stmts_v, SParam,
};
use crate::comp_error::CompileError;
use crate::opcode::{is_jump, with_target, Opcode};
use crate::span::Span;
use crate::value::Value;
use std::rc::Rc;
use vstd::prelude::*;

verus! {

type CResult<T> = Result<T, CompileError>;

/// A local variable in scope.
#[derive(Debug)]
struct Local {
    name: String,
    slot: usize,
    mutable: bool,
    depth: usize,
}

#[derive(Debug)]
struct LoopCtx {
    /// Instruction index of the loop's condition / iter-check (continue target)
    continue_ip: usize,
    /// Instruction indices of pending `Jump` instructions needing break targets.
    break_patches: Vec<usize>,
}

/// How deeply the statement nests scopes: its blocks, and the blocks within them, each add
/// one; the body of a function or task counts from zero again.
pub open spec fn stmt_nest(s: Stmt) -> nat
    decreases s,
{
    match s.kind {
        StmtKind::Fn { body, .. } => body_nest(body@),
        StmtKind::Task { body, .. } => body_nest(body@),
        StmtKind::If { branches, else_ } => 1 + max_nat(
            branches_nest(branches@),
            match else_ {
                Some(b) => body_nest(b@),
                None => 0,
            },
        ),
        StmtKind::For { body, .. } => 1 + body_nest(body@),
        StmtKind::While { body, .. } => 1 + body_nest(body@),
        StmtKind::Try { body, handler, .. } => 1 + max_nat(body_nest(body@), body_nest(handler@)),
        _ => 0,
    }
}

/// The deepest nesting among the statements.
pub open spec fn body_nest(b: Seq<Stmt>) -> nat
    decreases b,
{
    if b.len() == 0 {
        0
    } else {
        max_nat(body_nest(b.drop_last()), stmt_nest(b.last()))
    }
}

/// The deepest nesting among the bodies of the branches.
pub open spec fn branches_nest(b: Seq<IfBranch>) -> nat
    decreases b,
{
    if b.len() == 0 {
        0
    } else {
        max_nat(branches_nest(b.drop_last()), body_nest(b.last().body@))
    }
}

pub open spec fn max_nat(a: nat, b: nat) -> nat {
    if a >= b {
        a
    } else {
        b
    }
}

proof fn lemma_body_nest(b: Seq<Stmt>, k: int)
    requires
        0 <= k < b.len(),
    ensures
        stmt_nest(b[k]) <= body_nest(b),
    decreases b.len(),
{
    if k < b.len() - 1 {
        lemma_body_nest(b.drop_last(), k);
    }
}

proof fn lemma_branches_nest(b: Seq<IfBranch>, k: int)
    requires
        0 <= k < b.len(),
    ensures
        body_nest(b[k].body@) <= branches_nest(b),
    decreases b.len(),
{
    if k < b.len() - 1 {
        lemma_branches_nest(b.drop_last(), k);
    }
}

pub struct Compiler {
    chunk: Chunk,
    locals: Vec<Local>,
    scope_depth: usize,
    loop_stack: Vec<LoopCtx>,
    /// true only when compiling a function body, not a task
    in_function: bool,
    errors: Vec<CompileError>,
}

/// The value of a local variable.
spec fn local_v(l: Local) -> LocalV {
    LocalV { name: l.name@, slot: l.slot, mutable: l.mutable, depth: l.depth as int }
}

/// The values of the locals `s`, in order.
spec fn locals_v(s: Seq<Local>) -> Seq<LocalV> {
    s.map_values(|l: Local| local_v(l))
}

proof fn lemma_code_v_push(s: Seq<Opcode>, o: Opcode)
    ensures
        code_v(s.push(o)) == code_v(s).push(op_v(o)),
{
    assert(code_v(s.push(o)) =~= code_v(s).push(op_v(o)));
}

proof fn lemma_code_v_update(s: Seq<Opcode>, j: int, o: Opcode)
    requires
        0 <= j < s.len(),
    ensures
        code_v(s.update(j, o)) == code_v(s).update(j, op_v(o)),
{
    assert(code_v(s.update(j, o)) =~= code_v(s).update(j, op_v(o)));
}

proof fn lemma_consts_v_push(s: Seq<Value>, v: Value)
    ensures
        consts_v(s.push(v)) == consts_v(s).push(const_v(v)),
{
    assert(s.push(v).drop_last() =~= s);
}

proof fn lemma_consts_v_len(s: Seq<Value>)
    ensures
        consts_v(s).len() == s.len(),
    decreases s.len(),
{
    if s.len() > 0 {
        lemma_consts_v_len(s.drop_last());
    }
}

/// Past the last local named `name`, searching the whole list and searching only the part
/// before that point agree.
proof fn lemma_last_named(ls: Seq<LocalV>, name: Seq<char>, i: int)
    requires
        0 <= i <= ls.len(),
        forall|j: int| i <= j < ls.len() ==> (#[trigger] ls[j]).name != name,
    ensures
        last_named(ls, name) == last_named(ls.take(i), name),
    decreases ls.len(),
{
    if i == ls.len() {
        assert(ls.take(i) =~= ls);
    } else {
        lemma_last_named(ls.drop_last(), name, i);
        assert(ls.drop_last().take(i) =~= ls.take(i));
    }
}

/// What `last_named` finds is a local of that name.
proof fn lemma_last_named_found(ls: Seq<LocalV>, name: Seq<char>)
    ensures
        last_named(ls, name) matches Some(k) ==> 0 <= k < ls.len() && ls[k].name == name,
    decreases ls.len(),
{
    if ls.len() > 0 {
        lemma_last_named_found(ls.drop_last(), name);
    }
}

/// Looking a string up among constants gives the same index as looking it up among
/// their values.
proof fn lemma_find_v(cs: Seq<Value>, s: Seq<char>)
    ensures
        find_str(cs, s) == find_c(consts_v(cs), s),
    decreases cs.len(),
{
    if cs.len() > 0 {
        lemma_find_v(cs.drop_last(), s);
        lemma_consts_v_len(cs.drop_last());
        assert(consts_v(cs).drop_last() =~= consts_v(cs.drop_last()));
        assert(consts_v(cs).last() == const_v(cs.last()));
        match cs.last() {
            Value::Str(c) => {
                assert(const_v(cs.last()) == Const::Str(c@));
            },
            _ => {
                assert(!(const_v(cs.last()) is Str));
            },
        }
    }
}

/// Adding a constant to the pool and then taking values is taking values and then adding.
proof fn lemma_pool_add_v(cs: Seq<Value>, v: Value, st: CState)
    requires
        st.consts == consts_v(cs),
    ensures
        ({
            let (c2, i) = pool_add(cs, v);
            let (s2, k) = add_c(st, const_v(v));
            &&& consts_v(c2) == s2.consts
            &&& i == k
            &&& s2 == CState { consts: s2.consts, ..st }
        }),
{
    lemma_consts_v_len(cs);
    lemma_consts_v_push(cs, v);
    if let Value::Str(x) = v {
        lemma_find_v(cs, x@);
    }
}

impl Compiler {
    /// The value of the compiler's state.
    spec fn model(&self) -> CState {
        CState {
            name: self.chunk.name@,
            code: code_v(self.chunk.code@),
            lines: self.chunk.lines@,
            consts: consts_v(self.chunk.consts@),
            locals: locals_v(self.locals@),
            depth: self.scope_depth as int,
            in_function: self.in_function,
            errors: errs_v(self.errors@),
        }
    }
}

impl Compiler {
    /// The compiler's state is consistent.
    spec fn wf(&self) -> bool {
        &&& chunk_wf(&self.chunk)
        &&& locals_ok(self.locals@, self.scope_depth)
        &&& forall|i: int| 0 <= i < self.loop_stack@.len() ==> (#[trigger] self.loop_stack@[i]).break_patches@.len() == 0
    }

    /// `new` only added to what `old` had emitted and reported, and is at the same depth.
    spec fn grew(old: &Self, new: &Self) -> bool {
        &&& new.wf()
        &&& prefix_of(old.chunk.code@, new.chunk.code@)
        &&& prefix_of(old.chunk.consts@, new.chunk.consts@)
        &&& prefix_of(old.errors@, new.errors@)
        &&& new.scope_depth == old.scope_depth
        &&& new.in_function == old.in_function
        &&& new.loop_stack@ == old.loop_stack@
    }

    /// Compile a whole script into one chunk named `<script>`, which ends with `ReturnNil`.
    /// Give the errors found with it.
    pub fn compile_script(script: &Script) -> (r: (Chunk, Vec<CompileError>))
        requires
            body_nest(script.stmts@) < usize::MAX,
        ensures
            chunk_wf(&r.0),
            chunk_v(r.0) == chunk_of(compile_c(stmts_v(script.stmts@))),
            errs_v(r.1@) == compile_c(stmts_v(script.stmts@)).errors,
            strs_unique(consts_v(r.0.consts@)),
            r.0.code@.len() >= 1,
            r.0.code@.last() == Opcode::ReturnNil,
    {
        let ghost ss = stmts_v(script.stmts@);
        proof {
            reveal_strlit("<script>");
            assert("<script>"@ =~= script_name());
        }
        let mut c = Compiler::new("<script>");
        let ghost m0 = c.model();
        proof {
            lemma_stmts_v(script.stmts@);
            lemma_c_body(ss.take(0), m0);
        }
        let mut i: usize = 0;
        while i < script.stmts.len()
            invariant
                c.wf(),
                c.scope_depth == 0,
                body_nest(script.stmts@) < usize::MAX,
                i <= script.stmts@.len(),
                ss == stmts_v(script.stmts@),
                ss.len() == script.stmts@.len(),
                forall|k: int| 0 <= k < script.stmts@.len() ==> #[trigger] ss[k] == stmt_v(script.stmts@[k]),
                m0 == fresh_c(script_name(), seq![], false),
                c.model() == c_body(ss.take(i as int), m0),
            decreases script.stmts.len() - i,
        {
            proof {
                lemma_body_nest(script.stmts@, i as int);
                lemma_c_body(ss.take(i + 1), m0);
                assert(ss.take(i + 1).drop_last() =~= ss.take(i as int));
            }
            c.compile_stmt(&script.stmts[i]);
            i = i + 1;
        }
        proof {
            assert(ss.take(i as int) =~= ss);
        }
        c.emit(Opcode::ReturnNil, 0);
        proof {
            law_script_strings_unique(ss);
        }
        (c.chunk, c.errors)
    }

    fn new(name: &str) -> (r: Self)
        ensures
            r.wf(),
            r.chunk.code@.len() == 0,
            r.chunk.consts@.len() == 0,
            r.locals@.len() == 0,
            r.errors@.len() == 0,
            r.scope_depth == 0,
            !r.in_function,
            r.model() == fresh_c(name@, seq![], false),
    {
        proof {
            assert(code_v(Seq::<Opcode>::empty()) =~= seq![]);
            assert(locals_v(Seq::<Local>::empty()) =~= seq![]);
            assert(errs_v(Seq::<CompileError>::empty()) =~= seq![]);
        }
        Self {
            chunk: Chunk::new(name),
            locals: Vec::new(),
            scope_depth: 0,
            loop_stack: Vec::new(),
            in_function: false,
            errors: Vec::new(),
        }
    }

    fn err(&mut self, e: CompileError)
        ensures
            final(self).errors@ == old(self).errors@.push(e),
            final(self).chunk == old(self).chunk,
            final(self).loop_stack@ == old(self).loop_stack@,
            final(self).locals@ == old(self).locals@,
            final(self).scope_depth == old(self).scope_depth,
            final(self).in_function == old(self).in_function,
            final(self).model() == (CState {
                errors: old(self).model().errors.push(err_v(e)),
                ..old(self).model()
            }),
    {
        proof {
            assert(errs_v(self.errors@.push(e)) =~= errs_v(self.errors@).push(err_v(e)));
        }
        self.errors.push(e);
    }

    /// Emit `op`, which points where it should once it is in the code.
    fn emit(&mut self, op: Opcode, line: u32) -> (r: usize)
        requires
            old(self).wf(),
            op_ok(op, old(self).chunk.consts@, old(self).chunk.code@.len() + 1),
        ensures
            Self::grew(&*old(self), &*final(self)),
            r == old(self).chunk.code@.len(),
            final(self).chunk.code@ == old(self).chunk.code@.push(op),
            final(self).chunk.consts@ == old(self).chunk.consts@,
            final(self).errors@ == old(self).errors@,
            final(self).locals@ == old(self).locals@,
            final(self).model() == (CState {
                code: old(self).model().code.push(op_v(op)),
                lines: old(self).model().lines.push(line),
                ..old(self).model()
            }),
    {
        proof {
            lemma_code_v_push(self.chunk.code@, op);
        }
        self.chunk.emit(op, line)
    }

    /// Emit a jump to be patched later.
    fn emit_jump(&mut self, op: Opcode, line: u32) -> (r: usize)
        requires
            old(self).wf(),
            is_jump(op),
        ensures
            Self::grew(&*old(self), &*final(self)),
            r == old(self).chunk.code@.len(),
            final(self).chunk.code@ == old(self).chunk.code@.push(with_target(op, 0)),
            final(self).chunk.consts@ == old(self).chunk.consts@,
            final(self).errors@ == old(self).errors@,
            final(self).locals@ == old(self).locals@,
            final(self).model() == emit_c(old(self).model(), with_target(op, 0), line),
    {
        proof {
            lemma_code_v_push(self.chunk.code@, with_target(op, 0));
        }
        self.chunk.emit_jump(op, line)
    }

    /// Point the jump at `j` at the end of the code.
    fn patch_jump(&mut self, j: usize)
        requires
            old(self).wf(),
            j < old(self).chunk.code@.len(),
            is_jump(old(self).chunk.code@[j as int]),
        ensures
            final(self).wf(),
            final(self).chunk.code@ == old(self).chunk.code@.update(
                j as int,
                with_target(old(self).chunk.code@[j as int], old(self).chunk.code@.len() as usize),
            ),
            final(self).chunk.consts@ == old(self).chunk.consts@,
            final(self).errors@ == old(self).errors@,
            final(self).locals@ == old(self).locals@,
            final(self).scope_depth == old(self).scope_depth,
            final(self).in_function == old(self).in_function,
            final(self).loop_stack@ == old(self).loop_stack@,
            final(self).model() == patch_c(old(self).model(), j as int),
    {
        proof {
            lemma_code_v_update(
                self.chunk.code@,
                j as int,
                with_target(self.chunk.code@[j as int], self.chunk.code@.len() as usize),
            );
        }
        self.chunk.patch_jump(j);
    }

    /// Add a string constant (or find it) and give its index.
    fn add_str(&mut self, s: &str) -> (r: usize)
        requires
            old(self).wf(),
        ensures
            Self::grew(&*old(self), &*final(self)),
            is_str_const(final(self).chunk.consts@, r),
            final(self).chunk.code@ == old(self).chunk.code@,
            final(self).errors@ == old(self).errors@,
            final(self).locals@ == old(self).locals@,
            (final(self).model(), r as int) == add_c(old(self).model(), Const::Str(s@)),
    {
        let v = Value::str(s);
        proof {
            lemma_pool_add_v(self.chunk.consts@, v, self.model());
        }
        let r = self.chunk.add_const(v);
        proof {
            if r == old(self).chunk.consts@.len() {
                assert(self.chunk.consts@[r as int] == v);
            } else {
                crate::chunk::lemma_find_str_is_str(old(self).chunk.consts@, s@);
            }
        }
        r
    }

    /// Add a constant and give its index.
    fn add_value(&mut self, v: Value) -> (r: usize)
        requires
            old(self).wf(),
        ensures
            Self::grew(&*old(self), &*final(self)),
            r < final(self).chunk.consts@.len(),
            final(self).chunk.code@ == old(self).chunk.code@,
            final(self).errors@ == old(self).errors@,
            final(self).locals@ == old(self).locals@,
            (final(self).model(), r as int) == add_c(old(self).model(), const_v(v)),
    {
        proof {
            lemma_pool_add_v(self.chunk.consts@, v, self.model());
        }
        self.chunk.add_const(v)
    }
}

/// The locals are ordered by scope depth, none deeper than `depth`.
spec fn locals_ok(locals: Seq<Local>, depth: usize) -> bool {
    &&& forall|i: int, j: int| 0 <= i <= j < locals.len() ==> #[trigger] locals[i].depth <= #[trigger] locals[j].depth
    &&& forall|i: int| 0 <= i < locals.len() ==> #[trigger] locals[i].depth <= depth
}

impl Compiler {
    /// `new` only added to what `old` had emitted and reported.
    spec fn grew_code(old: &Self, new: &Self) -> bool {
        &&& new.wf()
        &&& prefix_of(old.chunk.code@, new.chunk.code@)
        &&& prefix_of(old.chunk.consts@, new.chunk.consts@)
        &&& prefix_of(old.errors@, new.errors@)
    }

    fn begin_scope(&mut self)
        requires
            old(self).wf(),
            old(self).scope_depth < usize::MAX,
        ensures
            final(self).wf(),
            final(self).scope_depth == old(self).scope_depth + 1,
            final(self).chunk == old(self).chunk,
            final(self).loop_stack@ == old(self).loop_stack@,
            final(self).locals@ == old(self).locals@,
            final(self).errors@ == old(self).errors@,
            final(self).in_function == old(self).in_function,
            final(self).model() == begin_c(old(self).model()),
    {
        self.scope_depth = self.scope_depth + 1;
    }

    /// Leave the innermost scope: pop each of its locals off the stack and forget them.
    fn end_scope(&mut self)
        requires
            old(self).wf(),
            old(self).scope_depth >= 1,
        ensures
            Self::grew_code(&*old(self), &*final(self)),
            final(self).scope_depth == old(self).scope_depth - 1,
            final(self).in_function == old(self).in_function,
            final(self).errors@ == old(self).errors@,
            final(self).chunk.consts@ == old(self).chunk.consts@,
            final(self).locals@.len() <= old(self).locals@.len(),
            final(self).locals@ == old(self).locals@.take(final(self).locals@.len() as int),
            final(self).loop_stack@ == old(self).loop_stack@,
            forall|i: int|
                final(self).locals@.len() <= i < old(self).locals@.len() ==> #[trigger] old(
                    self,
                ).locals@[i].depth == old(self).scope_depth,
            final(self).chunk.code@ == old(self).chunk.code@ + Seq::new(
                (old(self).locals@.len() - final(self).locals@.len()) as nat,
                |i: int| Opcode::Pop,
            ),
            final(self).model() == end_scope_c(old(self).model()),
    {
        let depth = self.scope_depth;
        let ghost lv = locals_v(self.locals@);
        let mut keep = self.locals.len();
        proof {
            assert(lv.take(keep as int) =~= lv);
        }
        while keep > 0 && self.locals[keep - 1].depth == depth
            invariant
                keep <= self.locals@.len(),
                lv == locals_v(self.locals@),
                forall|i: int| keep <= i < self.locals@.len() ==> #[trigger] self.locals@[i].depth == depth,
                scope_start(lv, depth as int) == scope_start(lv.take(keep as int), depth as int),
            decreases keep,
        {
            proof {
                assert(lv.take(keep as int).drop_last() =~= lv.take(keep - 1));
            }
            keep = keep - 1;
        }
        proof {
            assert(scope_start(lv, depth as int) == keep);
        }
        let pops = self.locals.len() - keep;
        let mut k: usize = 0;
        let ghost code0 = self.chunk.code@;
        let ghost lines0 = self.chunk.lines@;
        while k < pops
            invariant
                chunk_wf(&self.chunk),
                self.locals@ == old(self).locals@,
                self.scope_depth == old(self).scope_depth,
                self.errors@ == old(self).errors@,
                self.in_function == old(self).in_function,
                self.loop_stack@ == old(self).loop_stack@,
                prefix_of(old(self).chunk.code@, self.chunk.code@),
                self.chunk.consts@ == old(self).chunk.consts@,
                code0 == old(self).chunk.code@,
                lines0 == old(self).chunk.lines@,
                self.chunk.name == old(self).chunk.name,
                k <= pops,
                self.chunk.code@ == code0 + Seq::new(k as nat, |i: int| Opcode::Pop),
                self.chunk.lines@ == lines0 + Seq::new(k as nat, |i: int| 0u32),
            decreases pops - k,
        {
            self.chunk.emit(Opcode::Pop, 0);
            k = k + 1;
            assert(self.chunk.code@ =~= code0 + Seq::new(k as nat, |i: int| Opcode::Pop));
            assert(self.chunk.lines@ =~= lines0 + Seq::new(k as nat, |i: int| 0u32));
        }
        self.locals.truncate(keep);
        self.scope_depth = self.scope_depth - 1;
        proof {
            assert(locals_v(self.locals@) =~= lv.take(keep as int));
            assert(code_v(self.chunk.code@) =~= code_v(code0) + Seq::new(
                pops as nat,
                |i: int| Op::Plain(Opcode::Pop),
            ));
            if keep > 0 {
                assert(old(self).locals@[keep - 1].depth < depth);
                assert forall|i: int| 0 <= i < self.locals@.len() implies #[trigger] self.locals@[i].depth
                    <= self.scope_depth by {
                    assert(old(self).locals@[i].depth <= old(self).locals@[keep - 1].depth);
                }
            }
            assert forall|i: int, j: int|
                0 <= i <= j < self.locals@.len() implies #[trigger] self.locals@[i].depth
                <= #[trigger] self.locals@[j].depth by {
                assert(self.locals@[i] == old(self).locals@[i]);
                assert(self.locals@[j] == old(self).locals@[j]);
            }
        }
    }

    /// Add a local for `name` at the current depth; give its slot.
    fn declare_local(&mut self, name: &str, mutable: bool) -> (r: usize)
        requires
            old(self).wf(),
        ensures
            final(self).wf(),
            r == old(self).locals@.len(),
            final(self).locals@.len() == old(self).locals@.len() + 1,
            prefix_of(old(self).locals@, final(self).locals@),
            final(self).locals@.last().name@ == name@,
            final(self).locals@.last().slot == r,
            final(self).locals@.last().mutable == mutable,
            final(self).locals@.last().depth == old(self).scope_depth,
            final(self).chunk == old(self).chunk,
            final(self).loop_stack@ == old(self).loop_stack@,
            final(self).errors@ == old(self).errors@,
            final(self).scope_depth == old(self).scope_depth,
            final(self).in_function == old(self).in_function,
            final(self).model() == declare_c(old(self).model(), name@, mutable),
    {
        let slot = self.locals.len();
        let l = Local { name: name.to_owned(), slot, mutable, depth: self.scope_depth };
        proof {
            assert(locals_v(self.locals@.push(l)) =~= locals_v(self.locals@).push(local_v(l)));
        }
        self.locals.push(l);
        slot
    }

    /// Resolve a name to a local, searching the innermost scope first: the index of the
    /// last local with that name.
    fn resolve_local(&self, name: &String) -> (r: Option<usize>)
        ensures
            match r {
                Some(i) => i < self.locals@.len() && self.locals@[i as int].name@ == name@
                    && forall|j: int| i < j < self.locals@.len() ==> #[trigger] self.locals@[j].name@ != name@,
                None => forall|j: int| 0 <= j < self.locals@.len() ==> #[trigger] self.locals@[j].name@ != name@,
            },
            match last_named(locals_v(self.locals@), name@) {
                Some(k) => r == Some(k as usize),
                None => r is None,
            },
    {
        let ghost ls = locals_v(self.locals@);
        proof {
            lemma_last_named_found(ls, name@);
        }
        let mut i = self.locals.len();
        while i > 0
            invariant
                i <= self.locals@.len(),
                ls == locals_v(self.locals@),
                forall|j: int| i <= j < self.locals@.len() ==> #[trigger] self.locals@[j].name@ != name@,
            decreases i,
        {
            if self.locals[i - 1].name == *name {
                proof {
                    lemma_last_named(ls, name@, i as int);
                    assert(ls.take(i as int).drop_last() =~= ls.take(i - 1));
                }
                return Some(i - 1);
            }
            i = i - 1;
        }
        proof {
            lemma_last_named(ls, name@, 0);
        }
        None
    }

    /// The line recorded for code from `span`: its start offset.
    fn line(span: Span) -> (r: u32)
        ensures
            r == span.start as u32,
    {
        span.start as u32
    }
}

impl Compiler {
    /// Only code and constants were added; locals and errors are as they were.
    spec fn grew_expr(old: &Self, new: &Self) -> bool {
        &&& Self::grew(old, new)
        &&& new.locals@ == old.locals@
        &&& new.errors@ == old.errors@
    }

    /// Compile `expr` to code that leaves its value on the stack.
    fn compile_expr(&mut self, expr: &Expr)
        requires
            old(self).wf(),
        ensures
            Self::grew_expr(&*old(self), &*final(self)),
            final(self).model() == c_expr(expr@, old(self).model()),
        decreases expr, 1nat,
    {
        proof {
            lemma_c_expr(expr@, self.model());
        }
        let line = Self::line(expr.span);
        match &expr.kind {
            ExprKind::Int(n) => {
                let i = self.add_value(Value::Int(*n));
                self.emit(Opcode::LoadConst(i), line);
            },
            ExprKind::Float(f) => {
                let i = self.add_value(Value::Float(f.clone()));
                self.emit(Opcode::LoadConst(i), line);
            },
            ExprKind::Bool(b) => {
                self.emit(
                    if *b {
                        Opcode::LoadTrue
                    } else {
                        Opcode::LoadFalse
                    },
                    line,
                );
            },
            ExprKind::Str(s) => {
                let i = self.add_str(s.as_str());
                self.emit(Opcode::LoadConst(i), line);
            },
            ExprKind::Ident(name) => self.compile_ident(name, expr.span, line),
            ExprKind::FStr(parts) => {
                proof {
                    lemma_fparts_v(parts@);
                }
                self.compile_fstr(parts, line);
            },
            ExprKind::List(items) => {
                proof {
                    lemma_exprs_v(items@);
                }
                self.compile_list(items, line);
            },
            ExprKind::Dict(entries) => {
                proof {
                    lemma_entries_v(entries@);
                }
                self.compile_map(entries, line);
            },
            ExprKind::Field { object, field } => {
                self.compile_expr(object);
                let idx = self.add_str(field.as_str());
                self.emit(Opcode::GetField(idx), line);
            },
            ExprKind::Index { object, index } => {
                self.compile_expr(object);
                self.compile_expr(index);
                self.emit(Opcode::GetIndex, line);
            },
            ExprKind::BinOp { op, left, right } => self.compile_binop(
                *op,
                left,
                right,
                line,
                Ghost(*expr),
            ),
            ExprKind::UnaryOp { op, operand } => {
                self.compile_expr(operand);
                match op {
                    UnaryOp::Neg => {
                        self.emit(Opcode::Neg, line);
                    },
                    UnaryOp::Not => {
                        self.emit(Opcode::Not, line);
                    },
                }
            },
            ExprKind::Call { callee, args } => {
                self.compile_expr(callee);
                self.compile_exprs(args);
                proof {
                    lemma_exprs_v(args@);
                }
                self.emit(Opcode::Call(args.len()), line);
            },
            ExprKind::MethodCall { object, method, args } => {
                self.compile_expr(object);
                self.compile_exprs(args);
                let method_idx = self.add_str(method.as_str());
                proof {
                    lemma_exprs_v(args@);
                }
                self.emit(Opcode::CallMethod { method: method_idx, argc: args.len() }, line);
            },
            ExprKind::Or { left, right } => self.compile_or(left, right, line, Ghost(*expr)),
            ExprKind::Range { start, end } => {
                self.compile_expr(start);
                self.compile_expr(end);
                self.emit(Opcode::MakeList(2), line);
                self.emit(Opcode::Nop, line);
            },
        }
    }

    /// Compile the expressions one after the other.
    fn compile_exprs(&mut self, items: &Vec<Expr>)
        requires
            old(self).wf(),
        ensures
            Self::grew_expr(&*old(self), &*final(self)),
            final(self).model() == c_exprs(exprs_v(items@), old(self).model()),
        decreases items, 2nat,
    {
        let ghost es = exprs_v(items@);
        let ghost m0 = self.model();
        proof {
            lemma_exprs_v(items@);
            lemma_c_exprs(es.take(0), m0);
        }
        let mut i: usize = 0;
        while i < items.len()
            invariant
                Self::grew_expr(&*old(self), &*self),
                i <= items@.len(),
                es == exprs_v(items@),
                es.len() == items@.len(),
                forall|k: int| 0 <= k < items@.len() ==> #[trigger] es[k] == expr_v(items@[k]),
                m0 == old(self).model(),
                self.model() == c_exprs(es.take(i as int), m0),
            decreases items.len() - i,
        {
            self.compile_expr(&items[i]);
            proof {
                lemma_c_exprs(es.take(i + 1), m0);
                assert(es.take(i + 1).drop_last() =~= es.take(i as int));
            }
            i = i + 1;
        }
        proof {
            assert(es.take(i as int) =~= es);
        }
    }

    /// Load the local `name` if one is in scope, else the global of that name.
    fn compile_ident(&mut self, name: &String, span: Span, line: u32)
        requires
            old(self).wf(),
        ensures
            Self::grew_expr(&*old(self), &*final(self)),
            final(self).model() == (match last_named(old(self).model().locals, name@) {
                Some(k) => emit_c(
                    old(self).model(),
                    Opcode::LoadLocal(old(self).model().locals[k].slot),
                    line,
                ),
                None => {
                    let (s1, i) = add_c(old(self).model(), Const::Str(name@));
                    emit_c(s1, Opcode::LoadGlobal(i as usize), line)
                },
            }),
    {
        proof {
            lemma_last_named_found(locals_v(self.locals@), name@);
        }
        match self.resolve_local(name) {
            Some(i) => {
                let slot = self.locals[i].slot;
                self.emit(Opcode::LoadLocal(slot), line);
            },
            None => {
                let idx = self.add_str(name.as_str());
                self.emit(Opcode::LoadGlobal(idx), line);
            },
        }
    }

    /// A binary operator: both operands, then the operator's instruction; `and` jumps past
    /// its right operand when the left one is false.
    fn compile_binop(
        &mut self,
        op: BinOp,
        left: &Expr,
        right: &Expr,
        line: u32,
        owner: Ghost<Expr>,
    )
        requires
            line == owner@.span.start as u32,
            old(self).wf(),
            owner@.kind matches ExprKind::BinOp { op: o, left: l, right: r } && o == op && *l == *left
                && *r == *right,
        ensures
            Self::grew_expr(&*old(self), &*final(self)),
            final(self).model() == c_expr(owner@@, old(self).model()),
        decreases owner@, 0nat,
    {
        proof {
            lemma_c_expr(owner@@, self.model());
        }
        if op == BinOp::And {
            self.compile_expr(left);
            let short = self.emit_jump(Opcode::JumpIfFalseAnd(0), line);
            self.compile_expr(right);
            self.patch_jump(short);
            return ;
        }
        self.compile_expr(left);
        self.compile_expr(right);

        let instr = match op {
            BinOp::Add => Opcode::Add,
            BinOp::Sub => Opcode::Sub,
            BinOp::Mul => Opcode::Mul,
            BinOp::Div => Opcode::Div,
            BinOp::Mod => Opcode::Mod,
            BinOp::Eq => Opcode::CmpEq,
            BinOp::NotEq => Opcode::CmpNotEq,
            BinOp::Lt => Opcode::CmpLt,
            BinOp::LtEq => Opcode::CmpLtEq,
            BinOp::Gt => Opcode::CmpGt,
            BinOp::GtEq => Opcode::CmpGtEq,
            BinOp::And => Opcode::Nop,
        };
        self.emit(instr, line);
    }

    /// `or`: the left operand, a jump past the right one when it is true, the right one.
    fn compile_or(&mut self, left: &Expr, right: &Expr, line: u32, owner: Ghost<Expr>)
        requires
            line == owner@.span.start as u32,
            old(self).wf(),
            owner@.kind matches ExprKind::Or { left: l, right: r } && *l == *left && *r == *right,
        ensures
            Self::grew_expr(&*old(self), &*final(self)),
            final(self).model() == c_expr(owner@@, old(self).model()),
        decreases owner@, 0nat,
    {
        proof {
            lemma_c_expr(owner@@, self.model());
        }
        self.compile_expr(left);
        let short = self.emit_jump(Opcode::JumpIfTrueOr(0), line);
        self.compile_expr(right);
        self.patch_jump(short);
    }

    /// An f-string: each part in turn, then one `BuildStr` that joins them when there are
    /// several; the empty f-string loads the empty string.
    fn compile_fstr(&mut self, parts: &Vec<FStrPart>, line: u32)
        requires
            old(self).wf(),
        ensures
            Self::grew_expr(&*old(self), &*final(self)),
            final(self).model() == (if parts@.len() == 0 {
                load_c(old(self).model(), Const::Str(seq![]), line)
            } else {
                let s1 = c_fparts(fparts_v(parts@), old(self).model(), line);
                if parts@.len() > 1 {
                    emit_c(s1, Opcode::BuildStr(parts@.len() as usize), line)
                } else {
                    s1
                }
            }),
        decreases parts, 2nat,
    {
        let n = parts.len();
        if n == 0 {
            let i = self.add_str("");
            proof {
                reveal_strlit("");
                assert(""@ =~= Seq::<char>::empty());
            }
            self.emit(Opcode::LoadConst(i), line);
            return ;
        }
        let ghost ps = fparts_v(parts@);
        let ghost m0 = self.model();
        proof {
            lemma_fparts_v(parts@);
            lemma_c_fparts(ps.take(0), m0, line);
        }
        let mut k: usize = 0;
        while k < n
            invariant
                Self::grew_expr(&*old(self), &*self),
                n == parts@.len(),
                k <= n,
                ps == fparts_v(parts@),
                ps.len() == n,
                forall|j: int| 0 <= j < n ==> #[trigger] ps[j] == fpart_v(parts@[j]),
                m0 == old(self).model(),
                self.model() == c_fparts(ps.take(k as int), m0, line),
            decreases n - k,
        {
            proof {
                lemma_c_fparts(ps.take(k + 1), m0, line);
                assert(ps.take(k + 1).drop_last() =~= ps.take(k as int));
            }
            match &parts[k] {
                FStrPart::Text(t) => {
                    let i = self.add_str(t.as_str());
                    self.emit(Opcode::LoadConst(i), line);
                },
                FStrPart::Interp(expr) => {
                    self.compile_expr(expr);
                    self.emit(Opcode::BuildStr(1), line);
                },
            }
            k = k + 1;
        }
        proof {
            assert(ps.take(n as int) =~= ps);
        }
        if n > 1 {
            self.emit(Opcode::BuildStr(n), line);
        }
    }

    /// A list: its items, then `MakeList` of their number.
    fn compile_list(&mut self, items: &Vec<Expr>, line: u32)
        requires
            old(self).wf(),
        ensures
            Self::grew_expr(&*old(self), &*final(self)),
            final(self).model() == emit_c(
                c_exprs(exprs_v(items@), old(self).model()),
                Opcode::MakeList(items@.len() as usize),
                line,
            ),
        decreases items, 3nat,
    {
        self.compile_exprs(items);
        self.emit(Opcode::MakeList(items.len()), line);
    }

    /// A map: each key as a string constant followed by its value, then `MakeMap` of
    /// their number.
    fn compile_map(&mut self, entries: &Vec<(String, Expr)>, line: u32)
        requires
            old(self).wf(),
        ensures
            Self::grew_expr(&*old(self), &*final(self)),
            final(self).model() == emit_c(
                c_entries(entries_v(entries@), old(self).model(), line),
                Opcode::MakeMap(entries@.len() as usize),
                line,
            ),
        decreases entries, 2nat,
    {
        let ghost es = entries_v(entries@);
        let ghost m0 = self.model();
        proof {
            lemma_entries_v(entries@);
            lemma_c_entries(es.take(0), m0, line);
        }
        let mut k: usize = 0;
        while k < entries.len()
            invariant
                Self::grew_expr(&*old(self), &*self),
                k <= entries@.len(),
                es == entries_v(entries@),
                es.len() == entries@.len(),
                forall|j: int| 0 <= j < entries@.len() ==> #[trigger] es[j] == (entries@[j].0@, expr_v(entries@[j].1)),
                m0 == old(self).model(),
                self.model() == c_entries(es.take(k as int), m0, line),
            decreases entries.len() - k,
        {
            proof {
                lemma_c_entries(es.take(k + 1), m0, line);
                assert(es.take(k + 1).drop_last() =~= es.take(k as int));
            }
            let (key, val) = &entries[k];
            let i = self.add_str(key.as_str());
            self.emit(Opcode::LoadConst(i), line);
            self.compile_expr(val);
            k = k + 1;
        }
        proof {
            assert(es.take(k as int) =~= es);
        }
        self.emit(Opcode::MakeMap(entries.len()), line);
    }
}

/// After a scope has been entered and left, the locals are those from before it.
proof fn lemma_scope_restored(before: Seq<Local>, mid: Seq<Local>, after: Seq<Local>, d: usize)
    requires
        forall|i: int| 0 <= i < before.len() ==> #[trigger] before[i].depth <= d,
        prefix_of(before, mid),
        forall|k: int| before.len() <= k < mid.len() ==> #[trigger] mid[k].depth == d + 1,
        after.len() <= mid.len(),
        after == mid.take(after.len() as int),
        forall|k: int| after.len() <= k < mid.len() ==> #[trigger] mid[k].depth == d + 1,
        forall|i: int| 0 <= i < after.len() ==> #[trigger] after[i].depth <= d,
    ensures
        after == before,
{
    if after.len() > before.len() {
        let b = before.len() as int;
        assert(after[b] == mid[b]);
        assert(mid[b].depth == d + 1);
        assert(after[b].depth <= d);
    }
    if after.len() < before.len() {
        let a = after.len() as int;
        assert(mid[a] == before[a]);
        assert(before[a].depth <= d);
        assert(mid[a].depth == d + 1);
    }
    assert(after.len() == before.len());
    assert forall|i: int| 0 <= i < after.len() implies after[i] == before[i] by {
        assert(after[i] == mid[i]);
        assert(mid[i] == before[i]);
    }
    assert(after =~= before);
}

impl Compiler {
    /// The locals of `old` are kept, and any added are at the current depth.
    spec fn locals_added(old: &Self, new: &Self) -> bool {
        &&& prefix_of(old.locals@, new.locals@)
        &&& forall|k: int| old.locals@.len() <= k < new.locals@.len() ==> #[trigger] new.locals@[k].depth == new.scope_depth
    }

    /// Compile one statement.
    fn compile_stmt(&mut self, stmt: &Stmt)
        requires
            old(self).wf(),
            old(self).scope_depth + stmt_nest(*stmt) <= usize::MAX,
        ensures
            Self::grew(&*old(self), &*final(self)),
            Self::locals_added(&*old(self), &*final(self)),
            final(self).model() == c_stmt(stmt@, old(self).model()),
        decreases stmt, 1nat,
    {
        let line = Self::line(stmt.span);
        match &stmt.kind {
            StmtKind::Import { module, items } => self.compile_import(module, items, line, Ghost(*stmt)),
            StmtKind::Let { name, mutable, value, .. } => self.compile_let(
                name,
                *mutable,
                value,
                line,
                Ghost(*stmt),
            ),
            StmtKind::Assig { name, value } => self.compile_assign(
                name,
                value,
                stmt.span,
                line,
                Ghost(*stmt),
            ),
            StmtKind::Fn { name, params, body, .. } => self.compile_fn(
                name,
                params,
                body,
                stmt.span,
                line,
                Ghost(*stmt),
            ),
            StmtKind::Task { name, body } => self.compile_task(name, body, line, Ghost(*stmt)),
            StmtKind::Return { value } => self.compile_return(value, stmt.span, line, Ghost(*stmt)),
            StmtKind::If { branches, else_ } => self.compile_if(branches, else_, line, Ghost(*stmt)),
            StmtKind::For { name, iter, body } => self.compile_for(name, iter, body, line, Ghost(*stmt)),
            StmtKind::While { cond, body } => self.compile_while(cond, body, line, Ghost(*stmt)),
            StmtKind::Try { body, catch_var, handler } => self.compile_try(
                body,
                catch_var,
                handler,
                line,
                Ghost(*stmt),
            ),
            StmtKind::Exec { parts, swallow } => {
                proof {
                    lemma_c_stmt(stmt@, self.model());
                }
                self.compile_exec(parts, *swallow, false, line);
            },
            StmtKind::Exit { code } => self.compile_exit(code, line, Ghost(*stmt)),
            StmtKind::ExprStmt(expr) => {
                proof {
                    lemma_c_stmt(stmt@, self.model());
                }
                self.compile_expr(expr);
                self.emit(Opcode::Pop, line);
            },
        }
    }

    /// Compile the statements one after the other.
    fn compile_body(&mut self, body: &Vec<Stmt>)
        requires
            old(self).wf(),
            old(self).scope_depth + body_nest(body@) <= usize::MAX,
        ensures
            Self::grew(&*old(self), &*final(self)),
            Self::locals_added(&*old(self), &*final(self)),
            final(self).model() == c_body(stmts_v(body@), old(self).model()),
        decreases body, 2nat,
    {
        let ghost ss = stmts_v(body@);
        let ghost m0 = self.model();
        proof {
            lemma_stmts_v(body@);
            lemma_c_body(ss.take(0), m0);
        }
        let mut i: usize = 0;
        while i < body.len()
            invariant
                Self::grew(&*old(self), &*self),
                Self::locals_added(&*old(self), &*self),
                old(self).scope_depth + body_nest(body@) <= usize::MAX,
                i <= body@.len(),
                ss == stmts_v(body@),
                ss.len() == body@.len(),
                forall|k: int| 0 <= k < body@.len() ==> #[trigger] ss[k] == stmt_v(body@[k]),
                m0 == old(self).model(),
                self.model() == c_body(ss.take(i as int), m0),
            decreases body.len() - i,
        {
            proof {
                lemma_body_nest(body@, i as int);
                lemma_c_body(ss.take(i + 1), m0);
                assert(ss.take(i + 1).drop_last() =~= ss.take(i as int));
            }
            self.compile_stmt(&body[i]);
            i = i + 1;
        }
        proof {
            assert(ss.take(i as int) =~= ss);
        }
    }

    fn compile_import(
        &mut self,
        module: &String,
        items: &Option<Vec<String>>,
        line: u32,
        owner: Ghost<Stmt>,
    )
        requires
            line == owner@.span.start as u32,
            old(self).wf(),
            owner@.kind == (StmtKind::Import { module: *module, items: *items }),
        ensures
            Self::grew(&*old(self), &*final(self)),
            Self::locals_added(&*old(self), &*final(self)),
            final(self).model() == c_stmt(owner@@, old(self).model()),
    {
        proof {
            lemma_c_stmt(owner@@, self.model());
        }
        let mod_idx = self.add_str(module.as_str());

        match items {
            None => {
                self.emit(Opcode::ImportModule(mod_idx), line);
                let slot = self.declare_local(module.as_str(), false);
                self.emit(Opcode::DefineLocal(slot), line);
            },
            Some(fields) => {
                let ghost fs = names_v(fields@);
                let ghost m1 = self.model();
                proof {
                    lemma_c_fields(fs.take(0), m1);
                }
                let mut field_locals: Vec<(usize, usize)> = Vec::new();
                let mut k: usize = 0;
                while k < fields.len()
                    invariant
                        Self::grew(&*old(self), &*self),
                        Self::locals_added(&*old(self), &*self),
                        self.errors@ == old(self).errors@,
                        self.chunk.code@ == old(self).chunk.code@,
                        is_str_const(self.chunk.consts@, mod_idx),
                        k <= fields@.len(),
                        field_locals@.len() == k,
                        forall|j: int|
                            0 <= j < k ==> is_str_const(self.chunk.consts@, #[trigger] field_locals@[j].0),
                        fs == names_v(fields@),
                        c_fields(fs.take(k as int), m1) == (self.model(), field_locals@),
                    decreases fields.len() - k,
                {
                    proof {
                        lemma_c_fields(fs.take(k + 1), m1);
                        assert(fs.take(k + 1).drop_last() =~= fs.take(k as int));
                    }
                    let field_idx = self.add_str(fields[k].as_str());
                    let slot = self.declare_local(fields[k].as_str(), false);
                    field_locals.push((field_idx, slot));
                    k = k + 1;
                }
                proof {
                    assert(fs.take(k as int) =~= fs);
                }
                self.emit(Opcode::ImportFields { module: mod_idx, fields: field_locals }, line);
            },
        }
    }

    fn compile_let(&mut self, name: &String, mutable: bool, value: &Expr, line: u32, owner: Ghost<Stmt>)
        requires
            line == owner@.span.start as u32,
            old(self).wf(),
            owner@.kind matches StmtKind::Let { name: n, mutable: m, value: v, .. } && n == *name && m
                == mutable && v == *value,
        ensures
            Self::grew(&*old(self), &*final(self)),
            Self::locals_added(&*old(self), &*final(self)),
            final(self).model() == c_stmt(owner@@, old(self).model()),
    {
        proof {
            lemma_c_stmt(owner@@, self.model());
        }
        self.compile_expr(value);
        let slot = self.declare_local(name.as_str(), mutable);
        self.emit(Opcode::DefineLocal(slot), line);
    }

    fn compile_assign(
        &mut self,
        name: &String,
        value: &Expr,
        span: Span,
        line: u32,
        owner: Ghost<Stmt>,
    )
        requires
            line == owner@.span.start as u32,
            old(self).wf(),
            owner@.kind == (StmtKind::Assig { name: *name, value: *value }),
            owner@.span == span,
        ensures
            Self::grew(&*old(self), &*final(self)),
            final(self).locals@ == old(self).locals@,
            final(self).model() == c_stmt(owner@@, old(self).model()),
    {
        proof {
            lemma_c_stmt(owner@@, self.model());
            lemma_last_named_found(locals_v(self.locals@), name@);
        }
        match self.resolve_local(name) {
            Some(i) => {
                if !self.locals[i].mutable {
                    self.err(CompileError::ImmutableAssign { name: name.clone(), span });
                } else {
                    let slot = self.locals[i].slot;
                    self.compile_expr(value);
                    self.emit(Opcode::StoreLocal(slot), line);
                }
            },
            None => {
                let idx = self.add_str(name.as_str());
                self.compile_expr(value);
                self.emit(Opcode::StoreGlobal(idx), line);
            },
        }
    }

    /// Compile a function: its body into a chunk of its own, with the parameters as its
    /// first locals; the errors found there are passed on, else the function is loaded as
    /// a constant and bound to a global of its name.
    fn compile_fn(
        &mut self,
        name: &String,
        params: &Vec<Param>,
        body: &Vec<Stmt>,
        span: Span,
        line: u32,
        owner: Ghost<Stmt>,
    )
        requires
            line == owner@.span.start as u32,
            old(self).wf(),
            body_nest(body@) <= usize::MAX,
            owner@.kind matches StmtKind::Fn { name: n, params: p, body: b, .. } && n == *name && p
                == *params && b == *body,
        ensures
            Self::grew(&*old(self), &*final(self)),
            final(self).locals@ == old(self).locals@,
            final(self).model() == c_stmt(owner@@, old(self).model()),
        decreases body, 3nat,
    {
        proof {
            lemma_c_stmt(owner@@, self.model());
        }
        let ghost ps = params_v(params@);
        let mut fc = Compiler::new(name.as_str());
        fc.in_function = true;
        proof {
            assert(param_locals(ps).take(0) =~= Seq::<LocalV>::empty());
        }

        let mut k: usize = 0;
        while k < params.len()
            invariant
                fc.wf(),
                fc.scope_depth == 0,
                k <= params@.len(),
                ps == params_v(params@),
                fc.model() == fresh_c(name@, param_locals(ps).take(k as int), true),
            decreases params.len() - k,
        {
            fc.declare_local(params[k].name.as_str(), true);
            proof {
                assert(param_locals(ps).take(k + 1) =~= param_locals(ps).take(k as int).push(
                    param_locals(ps)[k as int],
                ));
            }
            k = k + 1;
        }
        proof {
            assert(param_locals(ps).take(k as int) =~= param_locals(ps));
        }

        fc.compile_body(body);
        fc.emit(Opcode::ReturnNil, line);

        if fc.errors.len() > 0 {
            let ghost e0 = self.errors@;
            let ghost e1 = fc.errors@;
            self.errors.append(&mut fc.errors);
            assert forall|i: int| 0 <= i < e0.len() implies self.errors@[i] == e0[i] by {}
            proof {
                assert(errs_v(e0 + e1) =~= errs_v(e0) + errs_v(e1));
            }
            return ;
        }

        let mut param_names: Vec<String> = Vec::new();
        let mut k: usize = 0;
        while k < params.len()
            invariant
                k <= params@.len(),
                param_names@.len() == k,
                forall|j: int| 0 <= j < k ==> (#[trigger] param_names@[j])@ == params@[j].name@,
            decreases params.len() - k,
        {
            param_names.push(params[k].name.clone());
            k = k + 1;
        }
        proof {
            assert(param_names@.map_values(|p: String| p@) =~= ps.map_values(|p: SParam| p.name));
        }
        let fn_val = Value::Function {
            name: Rc::new(name.clone()),
            params: Rc::new(param_names),
            chunk: Rc::new(fc.chunk),
        };

        let const_idx = self.add_value(fn_val);
        self.emit(Opcode::LoadConst(const_idx), line);

        let name_idx = self.add_str(name.as_str());
        self.emit(Opcode::StoreGlobal(name_idx), line);
    }

    /// Compile a task: like a function without parameters, whose body may not `return`.
    fn compile_task(&mut self, name: &String, body: &Vec<Stmt>, line: u32, owner: Ghost<Stmt>)
        requires
            line == owner@.span.start as u32,
            old(self).wf(),
            body_nest(body@) <= usize::MAX,
            owner@.kind == (StmtKind::Task { name: *name, body: *body }),
        ensures
            Self::grew(&*old(self), &*final(self)),
            final(self).locals@ == old(self).locals@,
            final(self).model() == c_stmt(owner@@, old(self).model()),
        decreases body, 3nat,
    {
        proof {
            lemma_c_stmt(owner@@, self.model());
        }
        let mut tc = Compiler::new(name.as_str());

        tc.compile_body(body);
        tc.emit(Opcode::ReturnNil, line);

        if tc.errors.len() > 0 {
            let ghost e0 = self.errors@;
            let ghost e1 = tc.errors@;
            self.errors.append(&mut tc.errors);
            assert forall|i: int| 0 <= i < e0.len() implies self.errors@[i] == e0[i] by {}
            proof {
                assert(errs_v(e0 + e1) =~= errs_v(e0) + errs_v(e1));
            }
            return ;
        }

        let task_val = Value::Task { name: Rc::new(name.clone()), chunk: Rc::new(tc.chunk) };

        let const_idx = self.add_value(task_val);
        self.emit(Opcode::LoadConst(const_idx), line);

        let name_idx = self.add_str(name.as_str());
        self.emit(Opcode::StoreGlobal(name_idx), line);
    }

    fn compile_return(&mut self, value: &Option<Expr>, span: Span, line: u32, owner: Ghost<Stmt>)
        requires
            line == owner@.span.start as u32,
            old(self).wf(),
            owner@.kind == (StmtKind::Return { value: *value }),
            owner@.span == span,
        ensures
            Self::grew(&*old(self), &*final(self)),
            final(self).locals@ == old(self).locals@,
            final(self).model() == c_stmt(owner@@, old(self).model()),
    {
        proof {
            lemma_c_stmt(owner@@, self.model());
        }
        if !self.in_function {
            self.err(CompileError::ReturnOutsideFunction { span });
            return ;
        }
        match value {
            Some(v) => {
                self.compile_expr(v);
                self.emit(Opcode::Return, line);
            },
            None => {
                self.emit(Opcode::ReturnNil, line);
            },
        }
    }

    /// Compile an `if` chain: each condition, a jump past its body when it is false, the
    /// body in a scope of its own and a jump to the end; then the `else` body; then the
    /// jumps to the end are aimed there.
    fn compile_if(
        &mut self,
        branches: &Vec<IfBranch>,
        else_: &Option<Vec<Stmt>>,
        line: u32,
        owner: Ghost<Stmt>,
    )
        requires
            line == owner@.span.start as u32,
            old(self).wf(),
            owner@.kind == (StmtKind::If { branches: *branches, else_: *else_ }),
            old(self).scope_depth + stmt_nest(owner@) <= usize::MAX,
        ensures
            Self::grew(&*old(self), &*final(self)),
            final(self).locals@ == old(self).locals@,
            final(self).model() == c_stmt(owner@@, old(self).model()),
        decreases owner@, 0nat,
    {
        proof {
            lemma_c_stmt(owner@@, self.model());
        }
        let ghost bs = branches_v(branches@);
        let ghost m0 = self.model();
        proof {
            lemma_branches_v(branches@);
            lemma_c_branches(bs.take(0), m0, line);
            assert(Seq::<usize>::empty().map_values(|j: usize| j as int) =~= Seq::<int>::empty());
        }
        let mut end_jumps: Vec<usize> = Vec::new();
        let ghost n0 = self.chunk.code@.len();

        let mut k: usize = 0;
        while k < branches.len()
            invariant
                Self::grew(&*old(self), &*self),
                self.locals@ == old(self).locals@,
                owner@.kind == (StmtKind::If { branches: *branches, else_: *else_ }),
                old(self).scope_depth + stmt_nest(owner@) <= usize::MAX,
                n0 == old(self).chunk.code@.len(),
                k <= branches@.len(),
                forall|j: int|
                    0 <= j < end_jumps@.len() ==> n0 <= #[trigger] end_jumps@[j] < self.chunk.code@.len()
                        && self.chunk.code@[end_jumps@[j] as int] is Jump,
                forall|j: int, l: int| 0 <= j < l < end_jumps@.len() ==> end_jumps@[j] < end_jumps@[l],
                bs == branches_v(branches@),
                bs.len() == branches@.len(),
                forall|j: int| 0 <= j < branches@.len() ==> #[trigger] bs[j] == branch_v(branches@[j]),
                m0 == old(self).model(),
                c_branches(bs.take(k as int), m0, line) == (
                    self.model(),
                    end_jumps@.map_values(|j: usize| j as int),
                ),
            decreases branches.len() - k,
        {
            proof {
                lemma_c_branches(bs.take(k + 1), m0, line);
                assert(bs.take(k + 1).drop_last() =~= bs.take(k as int));
            }
            let ghost head = self.chunk.code@;
            let branch = &branches[k];
            let bline = Self::line(branch.span);

            self.compile_expr(&branch.cond);
            let ghost c1 = self.chunk.code@;

            let skip = self.emit_jump(Opcode::JumpIfFalse(0), bline);
            let ghost c2 = self.chunk.code@;

            proof {
                lemma_branches_nest(branches@, k as int);
            }
            self.begin_scope();
            self.compile_body(&branch.body);
            let ghost mid = self.locals@;
            self.end_scope();
            proof {
                lemma_scope_restored(old(self).locals@, mid, self.locals@, old(self).scope_depth);
            }

            let ghost c3 = self.chunk.code@;
            let end_j = self.emit_jump(Opcode::Jump(0), line);
            let ghost before_patch = self.chunk.code@;
            let ghost jumps0 = end_jumps@;
            end_jumps.push(end_j);

            self.patch_jump(skip);
            proof {
                lemma_prefix_trans(head, c1, c2);
                lemma_prefix_trans(head, c2, c3);
                lemma_prefix_trans(head, c3, before_patch);
                assert(skip >= head.len());
                assert(end_j > skip);
                assert forall|j: int| 0 <= j < end_jumps@.len() implies n0 <= #[trigger] end_jumps@[j]
                    < self.chunk.code@.len() && self.chunk.code@[end_jumps@[j] as int] is Jump by {
                    if j < jumps0.len() {
                        assert(end_jumps@[j] == jumps0[j]);
                        assert(head[jumps0[j] as int] is Jump);
                        assert(before_patch[jumps0[j] as int] == head[jumps0[j] as int]);
                    } else {
                        assert(end_jumps@[j] == end_j);
                        assert(before_patch[end_j as int] == with_target(Opcode::Jump(0), 0));
                    }
                }
                assert(end_jumps@.map_values(|j: usize| j as int) =~= jumps0.map_values(
                    |j: usize| j as int,
                ).push(end_j as int));
            }
            k = k + 1;
        }
        proof {
            assert(bs.take(k as int) =~= bs);
        }
        let ghost s1 = self.model();

        match else_ {
            Some(stmts) => {
                self.begin_scope();
                self.compile_body(stmts);
                let ghost mid = self.locals@;
                self.end_scope();
                proof {
                    lemma_scope_restored(old(self).locals@, mid, self.locals@, old(self).scope_depth);
                }
            },
            None => {},
        }
        let ghost s2 = self.model();
        let ghost js = end_jumps@.map_values(|j: usize| j as int);

        let mut k: usize = 0;
        while k < end_jumps.len()
            invariant
                Self::grew(&*old(self), &*self),
                self.locals@ == old(self).locals@,
                n0 == old(self).chunk.code@.len(),
                k <= end_jumps@.len(),
                forall|j: int|
                    k <= j < end_jumps@.len() ==> n0 <= #[trigger] end_jumps@[j] < self.chunk.code@.len()
                        && self.chunk.code@[end_jumps@[j] as int] is Jump,
                forall|j: int, l: int| 0 <= j < l < end_jumps@.len() ==> end_jumps@[j] < end_jumps@[l],
                js == end_jumps@.map_values(|j: usize| j as int),
                self.model() == patch_all(s2, js.take(k as int)),
            decreases end_jumps.len() - k,
        {
            proof {
                assert(js.take(k + 1).drop_last() =~= js.take(k as int));
            }
            self.patch_jump(end_jumps[k]);
            k = k + 1;
        }
        proof {
            assert(js.take(k as int) =~= js);
        }
    }

    /// Compile a `for` loop: the iterable made an iterator held in a hidden local, then a
    /// loop that takes the next item into the loop variable and runs the body, until the
    /// iterator is done.
    fn compile_for(
        &mut self,
        name: &String,
        iter_expr: &Expr,
        body: &Vec<Stmt>,
        line: u32,
        owner: Ghost<Stmt>,
    )
        requires
            line == owner@.span.start as u32,
            old(self).wf(),
            old(self).scope_depth + 1 + body_nest(body@) <= usize::MAX,
            owner@.kind == (StmtKind::For { name: *name, iter: *iter_expr, body: *body }),
        ensures
            Self::grew(&*old(self), &*final(self)),
            final(self).locals@ == old(self).locals@,
            final(self).model() == c_stmt(owner@@, old(self).model()),
        decreases body, 3nat,
    {
        proof {
            lemma_c_stmt(owner@@, self.model());
        }
        self.compile_expr(iter_expr);
        self.emit(Opcode::MakeIter, line);

        proof {
            reveal_strlit("<iter>");
            assert("<iter>"@ =~= iter_name());
        }
        let iter_slot = self.declare_local("<iter>", false);
        self.emit(Opcode::DefineLocal(iter_slot), line);
        let ghost with_iter = self.locals@;

        let loop_start = self.chunk.len();
        self.emit(Opcode::LoadLocal(iter_slot), line);
        self.emit(Opcode::IterNext, line);

        // Stack: iter val ok
        // Jump past the body if `ok` is false
        let exit_jump = self.emit_jump(Opcode::JumpIfFalse(0), line);

        self.loop_stack.push(LoopCtx { continue_ip: loop_start, break_patches: Vec::new() });

        self.begin_scope();
        let var_slot = self.declare_local(name.as_str(), false);
        self.emit(Opcode::DefineLocal(var_slot), line);

        self.compile_body(body);
        let ghost mid = self.locals@;
        self.end_scope();
        proof {
            lemma_scope_restored(with_iter, mid, self.locals@, old(self).scope_depth);
        }

        self.emit(Opcode::Jump(loop_start), line);
        self.patch_jump(exit_jump);

        self.emit(Opcode::Pop, line);
        let ghost before_pop = self.locals@;
        self.locals.pop();
        proof {
            assert(self.locals@ =~= old(self).locals@);
            assert(locals_v(self.locals@) =~= locals_v(before_pop).drop_last());
        }

        self.finish_loop();
        assert(self.loop_stack@ =~= old(self).loop_stack@);
    }

    /// Leave the innermost loop, patching its pending break jumps.
    fn finish_loop(&mut self)
        requires
            old(self).wf(),
            old(self).loop_stack@.len() > 0,
        ensures
            final(self).wf(),
            final(self).chunk == old(self).chunk,
            final(self).errors@ == old(self).errors@,
            final(self).scope_depth == old(self).scope_depth,
            final(self).in_function == old(self).in_function,
            final(self).locals@ == old(self).locals@,
            final(self).loop_stack@ == old(self).loop_stack@.drop_last(),
    {
        let ghost stack0 = self.loop_stack@;
        match self.loop_stack.pop() {
            Some(ctx) => {
                assert(ctx == stack0[stack0.len() - 1]);
                let mut k: usize = 0;
                while k < ctx.break_patches.len()
                    invariant
                        self.wf(),
                        self.chunk == old(self).chunk,
                        self.errors@ == old(self).errors@,
                        self.scope_depth == old(self).scope_depth,
                        self.in_function == old(self).in_function,
                        self.locals@ == old(self).locals@,
                        self.loop_stack@ == old(self).loop_stack@.drop_last(),
                        ctx.break_patches@.len() == 0,
                        k <= ctx.break_patches@.len(),
                    decreases ctx.break_patches.len() - k,
                {
                    self.patch_jump(ctx.break_patches[k]);
                    k = k + 1;
                }
            },
            None => {},
        }
    }

    /// Compile a `while` loop: the condition, a jump past the loop when it is false, the
    /// body in a scope of its own, and a jump back to the condition.
    fn compile_while(&mut self, cond: &Expr, body: &Vec<Stmt>, line: u32, owner: Ghost<Stmt>)
        requires
            line == owner@.span.start as u32,
            old(self).wf(),
            old(self).scope_depth + 1 + body_nest(body@) <= usize::MAX,
            owner@.kind == (StmtKind::While { cond: *cond, body: *body }),
        ensures
            Self::grew(&*old(self), &*final(self)),
            final(self).locals@ == old(self).locals@,
            final(self).model() == c_stmt(owner@@, old(self).model()),
        decreases body, 3nat,
    {
        proof {
            lemma_c_stmt(owner@@, self.model());
        }
        let loop_start = self.chunk.len();

        self.loop_stack.push(LoopCtx { continue_ip: loop_start, break_patches: Vec::new() });

        self.compile_expr(cond);
        let exit_jump = self.emit_jump(Opcode::JumpIfFalse(0), line);

        self.begin_scope();
        self.compile_body(body);
        let ghost mid = self.locals@;
        self.end_scope();
        proof {
            lemma_scope_restored(old(self).locals@, mid, self.locals@, old(self).scope_depth);
        }

        self.emit(Opcode::Jump(loop_start), line);
        self.patch_jump(exit_jump);

        self.finish_loop();
        assert(self.loop_stack@ =~= old(self).loop_stack@);
    }

    /// Compile `try`/`catch`: the body guarded by a handler, in a scope of its own, then a
    /// jump past the handler; the handler binds the error to its variable in a scope of
    /// its own.
    fn compile_try(
        &mut self,
        body: &Vec<Stmt>,
        catch_var: &String,
        handler: &Vec<Stmt>,
        line: u32,
        owner: Ghost<Stmt>,
    )
        requires
            line == owner@.span.start as u32,
            old(self).wf(),
            owner@.kind == (StmtKind::Try { body: *body, catch_var: *catch_var, handler: *handler }),
            old(self).scope_depth + stmt_nest(owner@) <= usize::MAX,
        ensures
            Self::grew(&*old(self), &*final(self)),
            final(self).locals@ == old(self).locals@,
            final(self).model() == c_stmt(owner@@, old(self).model()),
        decreases owner@, 0nat,
    {
        proof {
            lemma_c_stmt(owner@@, self.model());
        }
        let try_jump = self.emit_jump(Opcode::PushTry(0), line);

        self.begin_scope();
        self.compile_body(body);
        let ghost mid = self.locals@;
        self.end_scope();
        proof {
            lemma_scope_restored(old(self).locals@, mid, self.locals@, old(self).scope_depth);
        }

        self.emit(Opcode::PopTry, line);
        let end_jump = self.emit_jump(Opcode::Jump(0), line);

        self.patch_jump(try_jump);

        self.begin_scope();
        let err_slot = self.declare_local(catch_var.as_str(), false);
        self.emit(Opcode::DefineLocal(err_slot), line);

        self.compile_body(handler);
        let ghost mid2 = self.locals@;
        self.end_scope();
        proof {
            lemma_scope_restored(old(self).locals@, mid2, self.locals@, old(self).scope_depth);
        }

        self.patch_jump(end_jump);
    }

    /// Compile an exec line: each part as a string argument (a word as a constant, an
    /// interpolated expression computed and turned into a string), then `Exec`.
    fn compile_exec(&mut self, parts: &Vec<ExecPart>, swallow: bool, capture: bool, line: u32)
        requires
            old(self).wf(),
        ensures
            Self::grew(&*old(self), &*final(self)),
            final(self).locals@ == old(self).locals@,
            final(self).errors@ == old(self).errors@,
            final(self).model() == emit_c(
                c_eparts(eparts_v(parts@), old(self).model(), line),
                Opcode::Exec { argc: parts@.len() as usize, swallow, capture },
                line,
            ),
    {
        let ghost ps = eparts_v(parts@);
        let ghost m0 = self.model();
        proof {
            lemma_c_eparts(ps.take(0), m0, line);
        }
        let mut argc: usize = 0;
        let mut k: usize = 0;
        while k < parts.len()
            invariant
                Self::grew_expr(&*old(self), &*self),
                k <= parts@.len(),
                argc == k,
                ps == eparts_v(parts@),
                m0 == old(self).model(),
                self.model() == c_eparts(ps.take(k as int), m0, line),
            decreases parts.len() - k,
        {
            proof {
                lemma_c_eparts(ps.take(k + 1), m0, line);
                assert(ps.take(k + 1).drop_last() =~= ps.take(k as int));
            }
            match &parts[k] {
                ExecPart::Word(w) => {
                    let idx = self.add_str(w.as_str());
                    self.emit(Opcode::LoadConst(idx), line);
                    argc = argc + 1;
                },
                ExecPart::Interp(expr) => {
                    self.compile_expr(expr);
                    self.emit(Opcode::BuildStr(1), line);
                    argc = argc + 1;
                },
            }
            k = k + 1;
        }
        proof {
            assert(ps.take(k as int) =~= ps);
        }
        self.emit(Opcode::Exec { argc, swallow, capture }, line);
    }

    /// Compile `exit`: its code (zero when none is given), then `Exit`.
    fn compile_exit(&mut self, code: &Option<Expr>, line: u32, owner: Ghost<Stmt>)
        requires
            line == owner@.span.start as u32,
            old(self).wf(),
            owner@.kind == (StmtKind::Exit { code: *code }),
        ensures
            Self::grew(&*old(self), &*final(self)),
            final(self).locals@ == old(self).locals@,
            final(self).model() == c_stmt(owner@@, old(self).model()),
    {
        proof {
            lemma_c_stmt(owner@@, self.model());
        }
        match code {
            Some(expr) => self.compile_expr(expr),
            None => {
                let val = Value::Int(0);
                let const_idx = self.add_value(val);
                self.emit(Opcode::LoadConst(const_idx), line);
            },
        }
        self.emit(Opcode::Exit, line);
    }
}

} // verus!
