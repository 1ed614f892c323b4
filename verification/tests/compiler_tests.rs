use lib::chunk::Chunk;
use lib::comp_error::CompileError;
use lib::compiler::Compiler;
use lib::lexer::Lexer;
use lib::opcode::Opcode;
use lib::parser::Parser;
use lib::value::Value;

fn compile(src: &str) -> (Chunk, Vec<CompileError>) {
    let (tokens, _) = Lexer::new(src).tokenize();
    let (script, _) = Parser::new(tokens).parse_script();
    Compiler::compile_script(&script)
}

fn chunk(src: &str) -> Chunk {
    let (chunk, errs) = compile(src);
    assert!(errs.is_empty(), "compile errors: {errs:?}");
    chunk
}

fn ops(src: &str) -> Vec<Opcode> {
    chunk(src).code
}

fn has_op(code: &[Opcode], pred: impl Fn(&Opcode) -> bool) -> bool {
    code.iter().any(pred)
}

// ── Constants ─────────────────────────────────────────────────────────────

#[test]
fn int_literal() {
    let ops = ops("let x = 42\n");
    assert!(has_op(&ops, |o| matches!(o, Opcode::LoadConst(_))));
    assert!(has_op(&ops, |o| matches!(o, Opcode::DefineLocal(0))));
}

#[test]
fn bool_true() {
    let ops = ops("let x = true\n");
    assert!(has_op(&ops, |o| matches!(o, Opcode::LoadTrue)));
}

#[test]
fn bool_false() {
    let ops = ops("let x = false\n");
    assert!(has_op(&ops, |o| matches!(o, Opcode::LoadFalse)));
}

#[test]
fn string_const_dedup_across_lines() {
    let c = chunk("let x = \"hello\"\nlet y = \"hello\"\n");
    // Both `let` stmts reference the same constant slot
    let str_consts: Vec<_> = c.consts.iter().filter(|v| matches!(v, Value::Str(_))).collect();
    assert_eq!(str_consts.len(), 1, "expected deduplication of 'hello'");
    let loads: Vec<_> = c.code.iter().filter(|o| matches!(o, Opcode::LoadConst(_))).collect();
    assert_eq!(loads, [&Opcode::LoadConst(0), &Opcode::LoadConst(0)]);
}

// ── Locals ───────────────────────────────────────────────────────────────

#[test]
fn two_locals_get_different_slots() {
    let ops = ops("let x = 1\nlet y = 2\n");
    let defines: Vec<_> = ops
        .iter()
        .filter_map(|o| if let Opcode::DefineLocal(s) = o { Some(s) } else { None })
        .collect();
    assert_eq!(defines, [&0, &1]);
}

#[test]
fn load_local_after_define() {
    let ops = ops("let x = 1\nlet y = x\n");
    assert!(has_op(&ops, |o| matches!(o, Opcode::LoadLocal(0))));
}

#[test]
fn mutable_assign_emits_store_local() {
    let ops = ops("let mut x = 1\nx = 2\n");
    assert!(has_op(&ops, |o| matches!(o, Opcode::StoreLocal(0))));
}

#[test]
fn immutable_assign_emits_error() {
    let (_, errs) = compile("let x = 1\nx = 2\n");
    assert!(!errs.is_empty());
    assert!(matches!(errs[0], CompileError::ImmutableAssign { .. }));
}

// ── Arithmetic ───────────────────────────────────────────────────────────

#[test]
fn add_emits_add_opcode() {
    let ops = ops("let x = 1 + 2\n");
    assert!(has_op(&ops, |o| matches!(o, Opcode::Add)));
}

#[test]
fn mul_before_add() {
    // 1 + 2 * 3 → Add comes after Mul in the instruction stream
    let ops = ops("let x = 1 + 2 * 3\n");
    let add_pos = ops.iter().position(|o| matches!(o, Opcode::Add)).unwrap();
    let mul_pos = ops.iter().position(|o| matches!(o, Opcode::Mul)).unwrap();
    assert!(mul_pos < add_pos, "Mul should be emitted before Add");
}

#[test]
fn negation() {
    let ops = ops("let x = -1\n");
    assert!(has_op(&ops, |o| matches!(o, Opcode::Neg)));
}

// ── Comparison & logic ────────────────────────────────────────────────────

#[test]
fn comparison_ops() {
    assert!(has_op(&ops("let x = a == b\n"), |o| matches!(o, Opcode::CmpEq)));
    assert!(has_op(&ops("let x = a != b\n"), |o| matches!(o, Opcode::CmpNotEq)));
    assert!(has_op(&ops("let x = a < b\n"), |o| matches!(o, Opcode::CmpLt)));
    assert!(has_op(&ops("let x = a <= b\n"), |o| matches!(o, Opcode::CmpLtEq)));
    assert!(has_op(&ops("let x = a > b\n"), |o| matches!(o, Opcode::CmpGt)));
    assert!(has_op(&ops("let x = a >= b\n"), |o| matches!(o, Opcode::CmpGtEq)));
}

#[test]
fn not_opcode() {
    let ops = ops("let x = not true\n");
    assert!(has_op(&ops, |o| matches!(o, Opcode::Not)));
}

#[test]
fn and_short_circuits() {
    let ops = ops("let x = a and b\n");
    assert!(has_op(&ops, |o| matches!(o, Opcode::JumpIfFalseAnd(_))));
}

#[test]
fn or_short_circuits() {
    let ops = ops("let x = a or b\n");
    assert!(has_op(&ops, |o| matches!(o, Opcode::JumpIfTrueOr(_))));
}

// ── Collections ───────────────────────────────────────────────────────────

#[test]
fn list_literal() {
    let ops = ops("let x = [1, 2, 3]\n");
    assert!(has_op(&ops, |o| matches!(o, Opcode::MakeList(3))));
}

#[test]
fn map_literal() {
    let ops = ops("let x = { a: 1, b: 2 }\n");
    assert!(has_op(&ops, |o| matches!(o, Opcode::MakeMap(2))));
}

// ── F-string ──────────────────────────────────────────────────────────────

#[test]
fn fstring_plain() {
    let ops = ops(r#"let x = f"hello"\n"#);
    // Single text part — just a LoadConst, no BuildStr needed
    assert!(has_op(&ops, |o| matches!(o, Opcode::LoadConst(_))));
}

#[test]
fn fstring_with_interp_emits_build_str() {
    let ops = ops(r#"let x = f"hello {name}"\n"#);
    assert!(has_op(&ops, |o| matches!(o, Opcode::BuildStr(_))));
}

// ── Control flow ──────────────────────────────────────────────────────────

#[test]
fn if_emits_jump_if_false() {
    let ops = ops("if x == 1 {\n  let y = 2\n}\n");
    assert!(has_op(&ops, |o| matches!(o, Opcode::JumpIfFalse(_))));
}

#[test]
fn if_else_emits_jump() {
    let ops = ops("if a {\n  let x = 1\n} else {\n  let x = 2\n}\n");
    assert!(has_op(&ops, |o| matches!(o, Opcode::Jump(_))));
    assert!(has_op(&ops, |o| matches!(o, Opcode::JumpIfFalse(_))));
}

#[test]
fn while_emits_loop_jumps() {
    let ops = ops("while x < 10 {\n  let y = 1\n}\n");
    // Should have a backward jump (to loop start) and a forward JumpIfFalse
    let jumps: Vec<_> = ops.iter().filter(|o| matches!(o, Opcode::Jump(_))).collect();
    assert!(!jumps.is_empty());
    assert!(has_op(&ops, |o| matches!(o, Opcode::JumpIfFalse(_))));
}

#[test]
fn for_emits_make_iter_and_iter_next() {
    let ops = ops("for i in items {\n  let x = i\n}\n");
    assert!(has_op(&ops, |o| matches!(o, Opcode::MakeIter)));
    assert!(has_op(&ops, |o| matches!(o, Opcode::IterNext)));
}

#[test]
fn try_emits_push_try_and_pop_try() {
    let ops = ops("try {\n  let x = 1\n} catch (err) {\n  let y = 2\n}\n");
    assert!(has_op(&ops, |o| matches!(o, Opcode::PushTry(_))));
    assert!(has_op(&ops, |o| matches!(o, Opcode::PopTry)));
}

// ── Exec ──────────────────────────────────────────────────────────────────

#[test]
fn compiler_exec_simple() {
    let ops = ops("exec git clone https://github.com/org/repo\n");
    assert!(has_op(&ops, |o| matches!(o, Opcode::Exec { argc: 3, swallow: false, .. })));
}

#[test]
fn exec_swallow() {
    let ops = ops("exec rm -rf dist ?\n");
    assert!(has_op(&ops, |o| matches!(o, Opcode::Exec { swallow: true, .. })));
}

#[test]
fn exec_interp_emits_build_str() {
    let ops = ops("exec cargo build --{profile}\n");
    // The `--` word and `{profile}` interp get pushed; interp goes through BuildStr
    assert!(has_op(&ops, |o| matches!(o, Opcode::BuildStr(1))));
    assert!(has_op(&ops, |o| matches!(o, Opcode::Exec { .. })));
}

// ── Field / index access ──────────────────────────────────────────────────

#[test]
fn field_access_emits_get_field() {
    let ops = ops("let x = os.platform\n");
    assert!(has_op(&ops, |o| matches!(o, Opcode::GetField(_))));
}

#[test]
fn index_access_emits_get_index() {
    let ops = ops("let x = items[0]\n");
    assert!(has_op(&ops, |o| matches!(o, Opcode::GetIndex)));
}

// ── Functions & tasks ─────────────────────────────────────────────────────

#[test]
fn fn_emits_store_global() {
    let ops = ops("fn greet() {\n  let x = 1\n}\n");
    assert!(has_op(&ops, |o| matches!(o, Opcode::StoreGlobal(_))));
}

#[test]
fn task_emits_store_global() {
    let ops = ops("task build {\n  exec cargo build\n}\n");
    assert!(has_op(&ops, |o| matches!(o, Opcode::StoreGlobal(_))));
}

#[test]
fn fn_call_emits_call() {
    let ops = ops("greet()\n");
    assert!(has_op(&ops, |o| matches!(o, Opcode::Call(0))));
}

#[test]
fn method_call_emits_call_method() {
    let ops = ops(r#"let x = env.get("HOME")\n"#);
    assert!(has_op(&ops, |o| matches!(o, Opcode::CallMethod { .. })));
}

#[test]
fn return_outside_fn_is_error() {
    let (_, errs) = compile("return 1\n");
    assert!(!errs.is_empty());
    assert!(matches!(errs[0], CompileError::ReturnOutsideFunction { .. }));
}

// ── Import ────────────────────────────────────────────────────────────────

#[test]
fn import_emits_import_module() {
    let ops = ops("import os\n");
    assert!(has_op(&ops, |o| matches!(o, Opcode::ImportModule(_))));
}

#[test]
fn import_selective_emits_import_fields() {
    let ops = ops("import os.{ platform, arch }\n");
    assert!(has_op(&ops, |o| matches!(o, Opcode::ImportFields { .. })));
}

// ── Exit ──────────────────────────────────────────────────────────────────

#[test]
fn exit_bare_pushes_zero() {
    let c = chunk("exit\n");
    // Should have a LoadConst(0 → Int(0)) followed by Exit
    assert!(has_op(&c.code, |o| matches!(o, Opcode::Exit)));
    assert!(c.consts.iter().any(|v| matches!(v, Value::Int(0))));
}

#[test]
fn exit_with_code() {
    let ops = ops("exit 1\n");
    assert!(has_op(&ops, |o| matches!(o, Opcode::Exit)));
}

// ── Full script ───────────────────────────────────────────────────────────

#[test]
fn full_deploy_compiles_clean() {
    let src = r#"
import os
import env

let profile = env.get("PROFILE") or "release"
let target = f"dist/{os.platform}-{os.arch}"

task build {
    exec echo "building"
    exec cargo build --{profile}
}

task deploy {
    build()
    try {
        exec scp {target}/app server:/usr/local/bin/app
    } catch (err) {
        exec echo "failed"
        exit 1
    }
}
"#;
    let (_, errs) = compile(src);
    assert!(errs.is_empty(), "errors: {errs:?}");
}
