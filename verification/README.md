# psh front end, verified

The front end of a small shell-scripting language — lexer, parser and bytecode
compiler — written in Verus. Each stage is specified by mathematical functions over
its input, and the executable code is proved to compute exactly what they describe.

## Layout

- `src/span.rs`, `src/text.rs` — source spans and the text helpers the rest uses, among
  them the byte order of texts, sorting by it and joining.
- `src/token.rs`, `src/lex_error.rs` — tokens and lexing errors.
- `src/lexing.rs` — the lexer as a step function: the state (position, stack of
  contexts, errors), the token read next in each state, and the state after it.
- `src/lexer.rs` — the lexer. `Lexer::tokenize` returns exactly the tokens and
  errors that repeated steps from the start give; each token is also spelled by the
  source text its span covers.
- `src/ast.rs`, `src/parse_error.rs`, `src/syntax.rs` — the syntax tree, parse errors,
  and the syntax tree as a mathematical value.
- `src/grammar.rs` — the grammar as functions from a token stream and a position to a
  result and the next position, including error recovery.
- `src/parser.rs` — the recursive-descent parser; each parsing function is proved to
  give what the grammar says.
- `src/opcode.rs`, `src/value.rs`, `src/chunk.rs`, `src/comp_error.rs` — instructions,
  runtime values (their truthiness, and how a list or a map is shown from the texts of
  its items), compiled chunks and compile errors.
- `src/decimal.rs` — whether a float literal's decimal text rounds to zero as a double,
  decided with whole numbers (the digits doubled 1075 times, against a power of ten).
- `src/codegen.rs` — code generation as functions from a syntax tree and a compiler
  state to the next state: instructions with their source lines, constants, locals,
  scopes and errors.
- `src/compiler.rs` — the compiler; `Compiler::compile_script` is proved to build the
  chunk and errors that `codegen` describes.
- `tests/` — tests of the library on concrete programs.
- `app/` — what stays outside the library: formatting and comparing floating-point
  values, and printing a chunk.
