use crate::text::{bool_string, bool_text, lemma_nat_text_len, law_nat_text_distinct, nat_text, usize_text};
use vstd::prelude::*;
use vstd::string::StringExecFns;

verus! {

/// Instruction pointer offset for jump targets.
pub type JumpOffset = usize;

/// Index into the chunk's constant pool.
pub type ConstIdx = usize;

/// Slot index in the current call frame's local variable array.
pub type LocalIdx = usize;

/// A bytecode instruction.
#[derive(Debug, Clone, PartialEq)]
pub enum Opcode {
    /// Push a value from the constant pool.   ( -- val )
    LoadConst(ConstIdx),
    /// Push nil.                               ( -- nil )
    LoadNil,
    /// Push true.                              ( -- true )
    LoadTrue,
    /// Push false.                             ( -- false )
    LoadFalse,
    /// Push the value of a local variable.    ( -- val )
    LoadLocal(LocalIdx),
    /// Pop and store into a local slot.        ( val -- )
    StoreLocal(LocalIdx),
    /// Declare a new local slot (initialised from top of stack).  ( val -- )
    DefineLocal(LocalIdx),
    /// Push a named global value (fn/task/module); the index is that of a Str name in the pool.   ( -- val )
    LoadGlobal(ConstIdx),
    /// Bind top of stack to a global name.            ( val -- )
    StoreGlobal(ConstIdx),
    /// Discard the top of the stack.           ( val -- )
    Pop,
    /// Duplicate the top of the stack.        ( val -- val val )
    Dup,
    /// ( a b -- a+b )
    Add,
    /// ( a b -- a-b )
    Sub,
    /// ( a b -- a*b )
    Mul,
    /// ( a b -- a/b )
    Div,
    /// ( a b -- a%b )
    Mod,
    /// ( a -- -a )
    Neg,
    /// ( a b -- a==b )
    CmpEq,
    /// ( a b -- a!=b )
    CmpNotEq,
    /// ( a b -- a<b )
    CmpLt,
    /// ( a b -- a<=b )
    CmpLtEq,
    /// ( a b -- a>b )
    CmpGt,
    /// ( a b -- a>=b )
    CmpGtEq,
    /// ( a -- !a )
    Not,
    /// Short-circuit AND:
    /// If top is falsy, jump to `offset` (leaving false on stack).
    /// Otherwise pop and continue.             ( a -- )
    JumpIfFalseAnd(JumpOffset),
    /// Short-circuit OR / fallback:
    /// If top is truthy, jump to `offset` (leaving value on stack).
    /// Otherwise pop and continue.             ( a -- )
    JumpIfTrueOr(JumpOffset),
    /// Unconditional jump.
    Jump(JumpOffset),
    /// Pop top; jump if falsy.                 ( cond -- )
    JumpIfFalse(JumpOffset),
    /// Pop top; jump if truthy.                ( cond -- )
    JumpIfTrue(JumpOffset),
    /// Push an iterator over the value on top. ( iterable -- iterator )
    MakeIter,
    /// Advance iterator: push next value and true, or push nil and false.
    /// Used to drive for-loops.                ( iter -- iter val ok )
    IterNext,
    /// ( obj -- obj.field )   field name is ConstIdx into pool
    GetField(ConstIdx),
    /// ( obj val -- )         field name is ConstIdx into pool
    SetField(ConstIdx),
    /// ( obj idx -- obj[idx] )
    GetIndex,
    /// ( obj idx val -- )
    SetIndex,
    /// Pop `n` values and build a List.        ( v0..vN -- list )
    MakeList(usize),
    /// Pop `n` key-value pairs and build a map. Keys are Str on the stack.
    /// Stack layout: k0 v0 k1 v1 … kN vN (kN vN on top)
    /// ( k0 v0 .. kN vN -- map )
    MakeMap(usize),
    /// Pop `n` values, coerce each to string, concatenate.
    /// Used to build f-strings.               ( s0..sN -- str )
    BuildStr(usize),
    /// Call the callee with `argc` arguments.
    /// Stack before:  callee  arg0  arg1 … argN   (argN on top)
    /// Stack after:   return_value
    Call(usize),
    /// Call a method on an object.
    /// Stack before:  object  arg0 … argN
    /// Stack after:   return_value
    /// The method name is a ConstIdx into the pool.
    CallMethod { method: ConstIdx, argc: usize },
    /// Return from the current call frame.    ( val -- )  [to caller]
    Return,
    /// Return Nil from the current frame (for void functions/tasks).
    ReturnNil,
    /// Execute a shell command.
    /// Stack before: word0  word1 … wordN   (wordN on top, all Str)
    /// Stack after:  Str(stdout)  if captured; else Nil
    /// `argc`  = number of words
    /// `swallow` = if true, ignore non-zero exit code
    /// `capture`  = if true, capture stdout into a Str value
    Exec { argc: usize, swallow: bool, capture: bool },
    /// Probe and push a system module by name.  ( -- module )
    /// The module name is a ConstIdx.
    ImportModule(ConstIdx),
    /// Import specific fields from a module into locals.
    /// `module` = ConstIdx of the module name string
    /// `fields` = one pair per field: the ConstIdx of the field name, then the local slot
    /// the field is bound to
    ImportFields { module: ConstIdx, fields: Vec<(ConstIdx, LocalIdx)> },
    /// Exit the process.                       ( code -- )  code is Int
    Exit,
    /// Push an error handler frame. On error, jump to `handler` offset
    /// and push the error value onto the stack.
    PushTry(JumpOffset),
    /// Pop the error handler frame (end of try body without error).
    PopTry,
    /// Re-raise the current error (used inside catch when re-throwing).
    Throw,
    /// No-op. Used as a placeholder during compilation.
    Nop,
}

/// An instruction whose operand is a jump target, so that `patch_jump` can set it.
pub open spec fn is_jump(op: Opcode) -> bool {
    ||| op is Jump
    ||| op is JumpIfFalse
    ||| op is JumpIfTrue
    ||| op is JumpIfFalseAnd
    ||| op is JumpIfTrueOr
    ||| op is PushTry
}

/// The jump `op` with its target set to `t`.
pub open spec fn with_target(op: Opcode, t: usize) -> Opcode {
    match op {
        Opcode::Jump(_) => Opcode::Jump(t),
        Opcode::JumpIfFalse(_) => Opcode::JumpIfFalse(t),
        Opcode::JumpIfTrue(_) => Opcode::JumpIfTrue(t),
        Opcode::JumpIfFalseAnd(_) => Opcode::JumpIfFalseAnd(t),
        Opcode::JumpIfTrueOr(_) => Opcode::JumpIfTrueOr(t),
        Opcode::PushTry(_) => Opcode::PushTry(t),
        _ => op,
    }
}

/// The target of the jump `op`.
pub open spec fn jump_target(op: Opcode) -> usize {
    match op {
        Opcode::Jump(t) => t,
        Opcode::JumpIfFalse(t) => t,
        Opcode::JumpIfTrue(t) => t,
        Opcode::JumpIfFalseAnd(t) => t,
        Opcode::JumpIfTrueOr(t) => t,
        Opcode::PushTry(t) => t,
        _ => 0,
    }
}

/// A jump emitted with the placeholder target and later patched to `t` is the same kind
/// of jump as the one asked for, aimed at `t`: patching sets the target and nothing else.
pub proof fn law_patch_emitted_jump(op: Opcode, t: usize)
    requires
        is_jump(op),
    ensures
        is_jump(with_target(op, 0)),
        with_target(with_target(op, 0), t) == with_target(op, t),
        is_jump(with_target(op, t)),
        jump_target(with_target(op, t)) == t,
{
}

/// How an instruction is written out in a listing: its name, then its operands.
pub open spec fn opcode_text(op: Opcode) -> Seq<char> {
    match op {
        Opcode::LoadConst(i) => "LOAD_CONST    "@ + nat_text(i as nat),
        Opcode::LoadNil => "LOAD_NIL"@,
        Opcode::LoadTrue => "LOAD_TRUE"@,
        Opcode::LoadFalse => "LOAD_FALSE"@,
        Opcode::LoadLocal(i) => "LOAD_LOCAL    "@ + nat_text(i as nat),
        Opcode::StoreLocal(i) => "STORE_LOCAL   "@ + nat_text(i as nat),
        Opcode::DefineLocal(i) => "DEFINE_LOCAL  "@ + nat_text(i as nat),
        Opcode::LoadGlobal(i) => "LOAD_GLOBAL   "@ + nat_text(i as nat),
        Opcode::StoreGlobal(i) => "STORE_GLOBAL  "@ + nat_text(i as nat),
        Opcode::Pop => "POP"@,
        Opcode::Dup => "DUP"@,
        Opcode::Add => "ADD"@,
        Opcode::Sub => "SUB"@,
        Opcode::Mul => "MUL"@,
        Opcode::Div => "DIV"@,
        Opcode::Mod => "MOD"@,
        Opcode::Neg => "NEG"@,
        Opcode::CmpEq => "CMP_EQ"@,
        Opcode::CmpNotEq => "CMP_NEQ"@,
        Opcode::CmpLt => "CMP_LT"@,
        Opcode::CmpLtEq => "CMP_LTEQ"@,
        Opcode::CmpGt => "CMP_GT"@,
        Opcode::CmpGtEq => "CMP_GTEQ"@,
        Opcode::Not => "NOT"@,
        Opcode::JumpIfFalseAnd(o) => "JUMP_AND      "@ + nat_text(o as nat),
        Opcode::JumpIfTrueOr(o) => "JUMP_OR       "@ + nat_text(o as nat),
        Opcode::Jump(o) => "JUMP          "@ + nat_text(o as nat),
        Opcode::JumpIfFalse(o) => "JUMP_FALSE    "@ + nat_text(o as nat),
        Opcode::JumpIfTrue(o) => "JUMP_TRUE     "@ + nat_text(o as nat),
        Opcode::MakeIter => "MAKE_ITER"@,
        Opcode::IterNext => "ITER_NEXT"@,
        Opcode::GetField(i) => "GET_FIELD     "@ + nat_text(i as nat),
        Opcode::SetField(i) => "SET_FIELD     "@ + nat_text(i as nat),
        Opcode::GetIndex => "GET_INDEX"@,
        Opcode::SetIndex => "SET_INDEX"@,
        Opcode::MakeList(n) => "MAKE_LIST     "@ + nat_text(n as nat),
        Opcode::MakeMap(n) => "MAKE_MAP      "@ + nat_text(n as nat),
        Opcode::BuildStr(n) => "BUILD_STR     "@ + nat_text(n as nat),
        Opcode::Call(n) => "CALL          "@ + nat_text(n as nat),
        Opcode::CallMethod { method, argc } => "CALL_METHOD   method="@ + nat_text(method as nat) + " argc="@ + nat_text(argc as nat),
        Opcode::Return => "RETURN"@,
        Opcode::ReturnNil => "RETURN_NIL"@,
        Opcode::Exec { argc, swallow, capture } => "EXEC          argc="@ + nat_text(argc as nat) + " swallow="@ + bool_text(swallow) + " capture="@ + bool_text(capture),
        Opcode::ImportModule(i) => "IMPORT_MODULE "@ + nat_text(i as nat),
        Opcode::ImportFields { module, fields } => "IMPORT_FIELDS module="@ + nat_text(module as nat) + " n="@ + nat_text(fields@.len()),
        Opcode::Exit => "EXIT"@,
        Opcode::PushTry(o) => "PUSH_TRY      "@ + nat_text(o as nat),
        Opcode::PopTry => "POP_TRY"@,
        Opcode::Throw => "THROW"@,
        Opcode::Nop => "NOP"@,
    }
}

/// An instruction without operands.
pub open spec fn operand_free(op: Opcode) -> bool {
    ||| op is LoadNil
    ||| op is LoadTrue
    ||| op is LoadFalse
    ||| op is Pop
    ||| op is Dup
    ||| op is Add
    ||| op is Sub
    ||| op is Mul
    ||| op is Div
    ||| op is Mod
    ||| op is Neg
    ||| op is CmpEq
    ||| op is CmpNotEq
    ||| op is CmpLt
    ||| op is CmpLtEq
    ||| op is CmpGt
    ||| op is CmpGtEq
    ||| op is Not
    ||| op is MakeIter
    ||| op is IterNext
    ||| op is GetIndex
    ||| op is SetIndex
    ||| op is Return
    ||| op is ReturnNil
    ||| op is Exit
    ||| op is PopTry
    ||| op is Throw
    ||| op is Nop
}

/// Distinct instructions without operands are written with distinct names, so that a
/// listing tells them apart.
pub proof fn law_opcode_names_distinct(a: Opcode, b: Opcode)
    requires
        operand_free(a),
        operand_free(b),
        opcode_text(a) == opcode_text(b),
    ensures
        a == b,
{
    reveal_strlit("LOAD_NIL");
    reveal_strlit("LOAD_TRUE");
    reveal_strlit("LOAD_FALSE");
    reveal_strlit("POP");
    reveal_strlit("DUP");
    reveal_strlit("ADD");
    reveal_strlit("SUB");
    reveal_strlit("MUL");
    reveal_strlit("DIV");
    reveal_strlit("MOD");
    reveal_strlit("NEG");
    reveal_strlit("CMP_EQ");
    reveal_strlit("CMP_NEQ");
    reveal_strlit("CMP_LT");
    reveal_strlit("CMP_LTEQ");
    reveal_strlit("CMP_GT");
    reveal_strlit("CMP_GTEQ");
    reveal_strlit("NOT");
    reveal_strlit("MAKE_ITER");
    reveal_strlit("ITER_NEXT");
    reveal_strlit("GET_INDEX");
    reveal_strlit("SET_INDEX");
    reveal_strlit("RETURN");
    reveal_strlit("RETURN_NIL");
    reveal_strlit("EXIT");
    reveal_strlit("POP_TRY");
    reveal_strlit("THROW");
    reveal_strlit("NOP");
    let ta = opcode_text(a);
    let tb = opcode_text(b);
    assert(ta.len() == tb.len());
    assert(ta.len() > 0 ==> ta[0] == tb[0]);
    assert(ta.len() > 1 ==> ta[1] == tb[1]);
    assert(ta.len() > 2 ==> ta[2] == tb[2]);
    assert(ta.len() > 3 ==> ta[3] == tb[3]);
    assert(ta.len() > 4 ==> ta[4] == tb[4]);
    assert(ta.len() > 5 ==> ta[5] == tb[5]);
    assert(ta.len() > 6 ==> ta[6] == tb[6]);
    assert(ta.len() > 7 ==> ta[7] == tb[7]);
    assert(ta.len() > 8 ==> ta[8] == tb[8]);
}

/// An instruction with one number as its operand.
pub open spec fn one_operand(op: Opcode) -> bool {
    ||| op is LoadConst
    ||| op is LoadLocal
    ||| op is StoreLocal
    ||| op is DefineLocal
    ||| op is LoadGlobal
    ||| op is StoreGlobal
    ||| op is JumpIfFalseAnd
    ||| op is JumpIfTrueOr
    ||| op is Jump
    ||| op is JumpIfFalse
    ||| op is JumpIfTrue
    ||| op is GetField
    ||| op is SetField
    ||| op is MakeList
    ||| op is MakeMap
    ||| op is BuildStr
    ||| op is Call
    ||| op is ImportModule
    ||| op is PushTry
}

/// The operand of an instruction with one number as its operand.
pub open spec fn sole_operand(op: Opcode) -> nat {
    match op {
        Opcode::LoadConst(x) => x as nat,
        Opcode::LoadLocal(x) => x as nat,
        Opcode::StoreLocal(x) => x as nat,
        Opcode::DefineLocal(x) => x as nat,
        Opcode::LoadGlobal(x) => x as nat,
        Opcode::StoreGlobal(x) => x as nat,
        Opcode::JumpIfFalseAnd(x) => x as nat,
        Opcode::JumpIfTrueOr(x) => x as nat,
        Opcode::Jump(x) => x as nat,
        Opcode::JumpIfFalse(x) => x as nat,
        Opcode::JumpIfTrue(x) => x as nat,
        Opcode::GetField(x) => x as nat,
        Opcode::SetField(x) => x as nat,
        Opcode::MakeList(x) => x as nat,
        Opcode::MakeMap(x) => x as nat,
        Opcode::BuildStr(x) => x as nat,
        Opcode::Call(x) => x as nat,
        Opcode::ImportModule(x) => x as nat,
        Opcode::PushTry(x) => x as nat,
        _ => 0,
    }
}

/// Distinct instructions with one number as their operand are written distinctly: the
/// name tells the kind of instruction, and the decimal text after it the operand.
pub proof fn law_operand_opcodes_distinct(a: Opcode, b: Opcode)
    requires
        one_operand(a),
        one_operand(b),
        opcode_text(a) == opcode_text(b),
    ensures
        a == b,
{
    reveal_strlit("LOAD_CONST    ");
    reveal_strlit("LOAD_LOCAL    ");
    reveal_strlit("STORE_LOCAL   ");
    reveal_strlit("DEFINE_LOCAL  ");
    reveal_strlit("LOAD_GLOBAL   ");
    reveal_strlit("STORE_GLOBAL  ");
    reveal_strlit("JUMP_AND      ");
    reveal_strlit("JUMP_OR       ");
    reveal_strlit("JUMP          ");
    reveal_strlit("JUMP_FALSE    ");
    reveal_strlit("JUMP_TRUE     ");
    reveal_strlit("GET_FIELD     ");
    reveal_strlit("SET_FIELD     ");
    reveal_strlit("MAKE_LIST     ");
    reveal_strlit("MAKE_MAP      ");
    reveal_strlit("BUILD_STR     ");
    reveal_strlit("CALL          ");
    reveal_strlit("IMPORT_MODULE ");
    reveal_strlit("PUSH_TRY      ");
    let ta = opcode_text(a);
    let tb = opcode_text(b);
    lemma_nat_text_len(sole_operand(a));
    lemma_nat_text_len(sole_operand(b));
    assert(ta.len() >= 14 && tb.len() >= 14);
    assert(ta[0] == tb[0]);
    assert(ta[1] == tb[1]);
    assert(ta[2] == tb[2]);
    assert(ta[3] == tb[3]);
    assert(ta[4] == tb[4]);
    assert(ta[5] == tb[5]);
    assert(ta[6] == tb[6]);
    assert(ta[7] == tb[7]);
    assert(ta[8] == tb[8]);
    assert(ta[9] == tb[9]);
    assert(ta[10] == tb[10]);
    assert(ta[11] == tb[11]);
    assert(ta[12] == tb[12]);
    assert(ta[13] == tb[13]);
    assert(ta.skip(14) =~= nat_text(sole_operand(a)));
    assert(tb.skip(14) =~= nat_text(sole_operand(b)));
    law_nat_text_distinct(sole_operand(a), sole_operand(b));
}

/// No instruction without operands is written like one with a number as its operand.
pub proof fn law_operand_free_unlike_operand(a: Opcode, b: Opcode)
    requires
        operand_free(a),
        one_operand(b),
    ensures
        opcode_text(a) != opcode_text(b),
{
    reveal_strlit("RETURN_NIL");
    reveal_strlit("LOAD_FALSE");
    reveal_strlit("LOAD_NIL");
    reveal_strlit("LOAD_TRUE");
    reveal_strlit("POP");
    reveal_strlit("DUP");
    reveal_strlit("ADD");
    reveal_strlit("SUB");
    reveal_strlit("MUL");
    reveal_strlit("DIV");
    reveal_strlit("MOD");
    reveal_strlit("NEG");
    reveal_strlit("CMP_EQ");
    reveal_strlit("CMP_NEQ");
    reveal_strlit("CMP_LT");
    reveal_strlit("CMP_LTEQ");
    reveal_strlit("CMP_GT");
    reveal_strlit("CMP_GTEQ");
    reveal_strlit("NOT");
    reveal_strlit("MAKE_ITER");
    reveal_strlit("ITER_NEXT");
    reveal_strlit("GET_INDEX");
    reveal_strlit("SET_INDEX");
    reveal_strlit("RETURN");
    reveal_strlit("EXIT");
    reveal_strlit("POP_TRY");
    reveal_strlit("THROW");
    reveal_strlit("NOP");
    reveal_strlit("LOAD_CONST    ");
    reveal_strlit("LOAD_LOCAL    ");
    reveal_strlit("STORE_LOCAL   ");
    reveal_strlit("DEFINE_LOCAL  ");
    reveal_strlit("LOAD_GLOBAL   ");
    reveal_strlit("STORE_GLOBAL  ");
    reveal_strlit("JUMP_AND      ");
    reveal_strlit("JUMP_OR       ");
    reveal_strlit("JUMP          ");
    reveal_strlit("JUMP_FALSE    ");
    reveal_strlit("JUMP_TRUE     ");
    reveal_strlit("GET_FIELD     ");
    reveal_strlit("SET_FIELD     ");
    reveal_strlit("MAKE_LIST     ");
    reveal_strlit("MAKE_MAP      ");
    reveal_strlit("BUILD_STR     ");
    reveal_strlit("CALL          ");
    reveal_strlit("IMPORT_MODULE ");
    reveal_strlit("PUSH_TRY      ");
    assert(opcode_text(a).len() <= 10);
    assert(opcode_text(b).len() >= 14);
}

/// Each arithmetic and comparison instruction is written with its own mnemonic: `ADD`,
/// `SUB`, `MUL`, `DIV`, `MOD` and `NEG` for the arithmetic, `CMP_` and the relation for the
/// comparisons, `NOT` for negation.
pub proof fn law_operation_mnemonics()
    ensures
        opcode_text(Opcode::Add) =~= "ADD"@,
        opcode_text(Opcode::Sub) =~= "SUB"@,
        opcode_text(Opcode::Mul) =~= "MUL"@,
        opcode_text(Opcode::Div) =~= "DIV"@,
        opcode_text(Opcode::Mod) =~= "MOD"@,
        opcode_text(Opcode::Neg) =~= "NEG"@,
        opcode_text(Opcode::CmpEq) =~= "CMP_EQ"@,
        opcode_text(Opcode::CmpNotEq) =~= "CMP_NEQ"@,
        opcode_text(Opcode::CmpLt) =~= "CMP_LT"@,
        opcode_text(Opcode::CmpLtEq) =~= "CMP_LTEQ"@,
        opcode_text(Opcode::CmpGt) =~= "CMP_GT"@,
        opcode_text(Opcode::CmpGtEq) =~= "CMP_GTEQ"@,
        opcode_text(Opcode::Not) =~= "NOT"@,
{
}

impl Opcode {
    /// This jump with its target set to `t`.
    pub fn retarget(&self, t: usize) -> (r: Opcode)
        requires
            is_jump(*self),
        ensures
            r == with_target(*self, t),
    {
        match self {
            Opcode::Jump(_) => Opcode::Jump(t),
            Opcode::JumpIfFalse(_) => Opcode::JumpIfFalse(t),
            Opcode::JumpIfTrue(_) => Opcode::JumpIfTrue(t),
            Opcode::JumpIfFalseAnd(_) => Opcode::JumpIfFalseAnd(t),
            Opcode::JumpIfTrueOr(_) => Opcode::JumpIfTrueOr(t),
            _ => Opcode::PushTry(t),
        }
    }

    /// The instruction written out as in a listing.
    pub fn to_string(&self) -> (r: String)
        ensures
            r@ == opcode_text(*self),
    {
        match self {
            Opcode::LoadConst(i) => {
                let mut r = "LOAD_CONST    ".to_owned();
                r.append(usize_text(*i).as_str());
                r
            },
            Opcode::LoadNil => "LOAD_NIL".to_owned(),
            Opcode::LoadTrue => "LOAD_TRUE".to_owned(),
            Opcode::LoadFalse => "LOAD_FALSE".to_owned(),
            Opcode::LoadLocal(i) => {
                let mut r = "LOAD_LOCAL    ".to_owned();
                r.append(usize_text(*i).as_str());
                r
            },
            Opcode::StoreLocal(i) => {
                let mut r = "STORE_LOCAL   ".to_owned();
                r.append(usize_text(*i).as_str());
                r
            },
            Opcode::DefineLocal(i) => {
                let mut r = "DEFINE_LOCAL  ".to_owned();
                r.append(usize_text(*i).as_str());
                r
            },
            Opcode::LoadGlobal(i) => {
                let mut r = "LOAD_GLOBAL   ".to_owned();
                r.append(usize_text(*i).as_str());
                r
            },
            Opcode::StoreGlobal(i) => {
                let mut r = "STORE_GLOBAL  ".to_owned();
                r.append(usize_text(*i).as_str());
                r
            },
            Opcode::Pop => "POP".to_owned(),
            Opcode::Dup => "DUP".to_owned(),
            Opcode::Add => "ADD".to_owned(),
            Opcode::Sub => "SUB".to_owned(),
            Opcode::Mul => "MUL".to_owned(),
            Opcode::Div => "DIV".to_owned(),
            Opcode::Mod => "MOD".to_owned(),
            Opcode::Neg => "NEG".to_owned(),
            Opcode::CmpEq => "CMP_EQ".to_owned(),
            Opcode::CmpNotEq => "CMP_NEQ".to_owned(),
            Opcode::CmpLt => "CMP_LT".to_owned(),
            Opcode::CmpLtEq => "CMP_LTEQ".to_owned(),
            Opcode::CmpGt => "CMP_GT".to_owned(),
            Opcode::CmpGtEq => "CMP_GTEQ".to_owned(),
            Opcode::Not => "NOT".to_owned(),
            Opcode::JumpIfFalseAnd(o) => {
                let mut r = "JUMP_AND      ".to_owned();
                r.append(usize_text(*o).as_str());
                r
            },
            Opcode::JumpIfTrueOr(o) => {
                let mut r = "JUMP_OR       ".to_owned();
                r.append(usize_text(*o).as_str());
                r
            },
            Opcode::Jump(o) => {
                let mut r = "JUMP          ".to_owned();
                r.append(usize_text(*o).as_str());
                r
            },
            Opcode::JumpIfFalse(o) => {
                let mut r = "JUMP_FALSE    ".to_owned();
                r.append(usize_text(*o).as_str());
                r
            },
            Opcode::JumpIfTrue(o) => {
                let mut r = "JUMP_TRUE     ".to_owned();
                r.append(usize_text(*o).as_str());
                r
            },
            Opcode::MakeIter => "MAKE_ITER".to_owned(),
            Opcode::IterNext => "ITER_NEXT".to_owned(),
            Opcode::GetField(i) => {
                let mut r = "GET_FIELD     ".to_owned();
                r.append(usize_text(*i).as_str());
                r
            },
            Opcode::SetField(i) => {
                let mut r = "SET_FIELD     ".to_owned();
                r.append(usize_text(*i).as_str());
                r
            },
            Opcode::GetIndex => "GET_INDEX".to_owned(),
            Opcode::SetIndex => "SET_INDEX".to_owned(),
            Opcode::MakeList(n) => {
                let mut r = "MAKE_LIST     ".to_owned();
                r.append(usize_text(*n).as_str());
                r
            },
            Opcode::MakeMap(n) => {
                let mut r = "MAKE_MAP      ".to_owned();
                r.append(usize_text(*n).as_str());
                r
            },
            Opcode::BuildStr(n) => {
                let mut r = "BUILD_STR     ".to_owned();
                r.append(usize_text(*n).as_str());
                r
            },
            Opcode::Call(n) => {
                let mut r = "CALL          ".to_owned();
                r.append(usize_text(*n).as_str());
                r
            },
            Opcode::CallMethod { method, argc } => {
                let mut r = "CALL_METHOD   method=".to_owned();
                r.append(usize_text(*method).as_str());
                r.append(" argc=");
                r.append(usize_text(*argc).as_str());
                r
            },
            Opcode::Return => "RETURN".to_owned(),
            Opcode::ReturnNil => "RETURN_NIL".to_owned(),
            Opcode::Exec { argc, swallow, capture } => {
                let mut r = "EXEC          argc=".to_owned();
                r.append(usize_text(*argc).as_str());
                r.append(" swallow=");
                r.append(bool_string(*swallow).as_str());
                r.append(" capture=");
                r.append(bool_string(*capture).as_str());
                r
            },
            Opcode::ImportModule(i) => {
                let mut r = "IMPORT_MODULE ".to_owned();
                r.append(usize_text(*i).as_str());
                r
            },
            Opcode::ImportFields { module, fields } => {
                let mut r = "IMPORT_FIELDS module=".to_owned();
                r.append(usize_text(*module).as_str());
                r.append(" n=");
                r.append(usize_text(fields.len()).as_str());
                r
            },
            Opcode::Exit => "EXIT".to_owned(),
            Opcode::PushTry(o) => {
                let mut r = "PUSH_TRY      ".to_owned();
                r.append(usize_text(*o).as_str());
                r
            },
            Opcode::PopTry => "POP_TRY".to_owned(),
            Opcode::Throw => "THROW".to_owned(),
            Opcode::Nop => "NOP".to_owned(),
        }
    }
}

} // verus!
