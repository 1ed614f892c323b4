use crate::lex_error::LexerError;
use crate::lexer::{
    byte_at, digits_value, escape_char, fstr_body, is_digit, is_exec_stop, is_ident_char,
    is_ident_start, is_inline_ws, is_number_char, number_text, one_char_token, opens_triple,
    str_body, triple_body, two_char_token,
};
use crate::span::Span;
use crate::token::{keyword_token, Spanned, Token};
use vstd::prelude::*;
use vstd::utf8::*;

verus! {

// What the lexer reads, one token at a time, stated over the source bytes: the state it
// is in, and for each state the token it reads next and the state after it.

/// What the lexer is inside of; the innermost context is the last one on the stack.
#[derive(Debug, Clone, Copy)]
pub enum Mode {
    Normal,
    Exec,
    ExecInterp { depth: usize },
    FStr,
    FStrInterp { depth: usize },
}

/// The lexer's state: the offset of the next byte, the stack of contexts, the errors so far.
pub struct LexState {
    pub pos: int,
    pub modes: Seq<Mode>,
    pub errors: Seq<LexerError>,
}

/// A token as a value: one without text, or the text it carries (an identifier or a word of
/// an exec line by its bytes).
pub enum LTok {
    Plain(Token),
    Float(Seq<char>),
    Str(Seq<char>),
    FStrText(Seq<char>),
    Ident(Seq<u8>),
    ExecWord(Seq<u8>),
}

/// The token `t` is the token value `l`.
pub open spec fn tok_is(t: Token, l: LTok) -> bool {
    match l {
        LTok::Plain(p) => t == p,
        LTok::Float(x) => t matches Token::Float(s) && s@ == x,
        LTok::Str(x) => t matches Token::Str(s) && s@ == x,
        LTok::FStrText(x) => t matches Token::FStrText(s) && s@ == x,
        LTok::Ident(w) => t matches Token::Ident(s) && encode_utf8(s@) == w,
        LTok::ExecWord(w) => t matches Token::ExecWord(s) && encode_utf8(s@) == w,
    }
}

/// One step of the lexer: the token read, where it starts and ends, and the state after it.
pub struct Lexed {
    pub tok: LTok,
    pub start: int,
    pub end: int,
    pub next: LexState,
}

/// The token `s` was read as the step `r` says: the token and where it starts and ends.
pub open spec fn lexed_as(s: Spanned, r: Lexed) -> bool {
    &&& tok_is(s.token, r.tok)
    &&& s.span.start == r.start
    &&& s.span.end == r.end
}

/// The end of the run of spaces, tabs and carriage returns from `i`.
pub open spec fn ws_end(b: Seq<u8>, i: int) -> int
    decreases b.len() - i,
{
    if 0 <= i < b.len() && is_inline_ws(b[i]) {
        ws_end(b, i + 1)
    } else {
        i
    }
}

/// The end of the run of bytes other than a newline from `i`.
pub open spec fn line_end(b: Seq<u8>, i: int) -> int
    decreases b.len() - i,
{
    if 0 <= i < b.len() && b[i] != 10u8 {
        line_end(b, i + 1)
    } else {
        i
    }
}

/// The end of the run of identifier characters from `i`.
pub open spec fn ident_end(b: Seq<u8>, i: int) -> int
    decreases b.len() - i,
{
    if 0 <= i < b.len() && is_ident_char(b[i]) {
        ident_end(b, i + 1)
    } else {
        i
    }
}

/// The end of the run of digits and underscores from `i`.
pub open spec fn num_end(b: Seq<u8>, i: int) -> int
    decreases b.len() - i,
{
    if 0 <= i < b.len() && is_number_char(b[i]) {
        num_end(b, i + 1)
    } else {
        i
    }
}

/// The end of the raw word of an exec line from `i`.
pub open spec fn word_end(b: Seq<u8>, i: int) -> int
    decreases b.len() - i,
{
    if 0 <= i < b.len() && !is_exec_stop(b[i]) {
        word_end(b, i + 1)
    } else {
        i
    }
}

/// The offset right after the first `*/` from `i`, if there is one.
pub open spec fn block_end(b: Seq<u8>, i: int) -> Option<int>
    decreases b.len() - i,
{
    if i < 0 || i >= b.len() {
        None
    } else if b[i] == 42u8 && i + 1 < b.len() && b[i + 1] == 47u8 {
        Some(i + 2)
    } else {
        block_end(b, i + 1)
    }
}

/// The offset after a newline (`\n`, `\r\n` or a lone `\r`) at `i`, or `i` when none is
/// there.
pub open spec fn eat_nl(b: Seq<u8>, i: int) -> int {
    if byte_at(b, i) == Some(10u8) {
        i + 1
    } else if byte_at(b, i) == Some(13u8) {
        if byte_at(b, i + 1) == Some(10u8) {
            i + 2
        } else {
            i + 1
        }
    } else {
        i
    }
}

/// The error for the escape whose backslash is at `i`: none for a known one.
pub open spec fn escape_errs(b: Seq<u8>, i: int) -> Seq<LexerError> {
    if escape_char(b[i + 1]) is Some {
        seq![]
    } else {
        seq![
            LexerError::InvalidEscape {
                ch: b[i + 1] as char,
                span: Span { start: i as usize, end: (i + 2) as usize },
            },
        ]
    }
}

/// The error for a string literal from `start` that the source ends inside of.
pub open spec fn unterminated(start: int, end: int) -> LexerError {
    LexerError::UnterminatedString { span: Span { start: start as usize, end: end as usize } }
}

/// The errors found reading the body of a plain string literal from `i` (see `str_body`):
/// unknown escapes, and a literal that a newline or the end of the source cuts short, which
/// is reported twice when the source ends right after a backslash.
pub open spec fn str_errs(b: Seq<u8>, i: int, start: int) -> Seq<LexerError>
    decreases b.len() - i,
{
    if i < 0 || i >= b.len() {
        seq![unterminated(start, i)]
    } else if b[i] == 34u8 {
        seq![]
    } else if b[i] == 10u8 {
        seq![unterminated(start, i + 1)]
    } else if b[i] == 92u8 {
        if i + 1 >= b.len() {
            seq![unterminated(start, i + 1), unterminated(start, i + 1)]
        } else {
            escape_errs(b, i) + str_errs(b, i + 2, start)
        }
    } else {
        str_errs(b, i + 1, start)
    }
}

/// The errors found reading the body of a triple-quoted string literal from `i` (see
/// `triple_body`), as `str_errs` does, where only the end of the source cuts it short.
pub open spec fn triple_errs(b: Seq<u8>, i: int, start: int) -> Seq<LexerError>
    decreases b.len() - i,
{
    if 0 <= i && i + 2 < b.len() && b[i] == 34u8 && b[i + 1] == 34u8 && b[i + 2] == 34u8 {
        seq![]
    } else if i < 0 || i >= b.len() {
        seq![unterminated(start, i)]
    } else if b[i] == 92u8 {
        if i + 1 >= b.len() {
            seq![unterminated(start, i + 1), unterminated(start, i + 1)]
        } else {
            escape_errs(b, i) + triple_errs(b, i + 2, start)
        }
    } else {
        triple_errs(b, i + 1, start)
    }
}

/// The errors found reading a run of f-string text from `i` (see `fstr_body`) that began
/// at `start`: unknown escapes, and a backslash that the source ends right after.
pub open spec fn fstr_errs(b: Seq<u8>, i: int, start: int) -> Seq<LexerError>
    decreases b.len() - i,
{
    if i < 0 || i >= b.len() || b[i] == 34u8 || b[i] == 123u8 {
        seq![]
    } else if b[i] == 92u8 {
        if i + 1 >= b.len() {
            seq![unterminated(start, i + 1)]
        } else {
            escape_errs(b, i) + fstr_errs(b, i + 2, start)
        }
    } else {
        fstr_errs(b, i + 1, start)
    }
}

/// `st` at the offset `p`.
pub open spec fn at(st: LexState, p: int) -> LexState {
    LexState { pos: p, ..st }
}

/// `st` at the offset `p`, with the errors `errs` added.
pub open spec fn at_err(st: LexState, p: int, errs: Seq<LexerError>) -> LexState {
    LexState { pos: p, errors: st.errors + errs, ..st }
}

/// The context stack without its innermost context, the outermost one excepted.
pub open spec fn pop_mode(ms: Seq<Mode>) -> Seq<Mode> {
    if ms.len() > 1 {
        ms.drop_last()
    } else {
        ms
    }
}

/// The token read from `p` to `e` in the state `st`, which then goes on at `e`.
pub open spec fn lexed(t: LTok, p: int, e: int, st: LexState) -> Lexed {
    Lexed { tok: t, start: p, end: e, next: at(st, e) }
}

/// The token read from `p` to `e`, after which the state goes on at `e` with the context
/// stack `ms`.
pub open spec fn lexed_in(t: LTok, p: int, e: int, st: LexState, ms: Seq<Mode>) -> Lexed {
    Lexed { tok: t, start: p, end: e, next: LexState { pos: e, modes: ms, ..st } }
}

/// A number literal from the digit at `p`: an integer, or a float when its digits are
/// followed by `.` and a digit. An integer too large for an `i64` is read as 0 and reported.
pub open spec fn number_at(b: Seq<u8>, p: int, st: LexState) -> Lexed {
    let e1 = num_end(b, p + 1);
    if byte_at(b, e1) == Some(46u8) && (byte_at(b, e1 + 1) matches Some(d) && is_digit(d)) {
        let e2 = num_end(b, e1 + 1);
        lexed(LTok::Float(number_text(b.subrange(p, e2))), p, e2, st)
    } else {
        let v = digits_value(b.subrange(p, e1));
        if v <= i64::MAX {
            lexed(LTok::Plain(Token::Int(v as i64)), p, e1, st)
        } else {
            Lexed {
                tok: LTok::Plain(Token::Int(0)),
                start: p,
                end: e1,
                next: at_err(
                    st,
                    e1,
                    seq![LexerError::InvalidNumber { span: Span { start: p as usize, end: e1 as usize } }],
                ),
            }
        }
    }
}

/// A string literal from the `"` at `p`, plain or triple-quoted.
pub open spec fn string_at(b: Seq<u8>, p: int, st: LexState) -> Lexed {
    if opens_triple(b, p) {
        let (e, v) = triple_body(b, p + 3);
        Lexed { tok: LTok::Str(v), start: p, end: e, next: at_err(st, e, triple_errs(b, p + 3, p)) }
    } else {
        let (e, v) = str_body(b, p + 1);
        Lexed { tok: LTok::Str(v), start: p, end: e, next: at_err(st, e, str_errs(b, p + 1, p)) }
    }
}

/// A word from the identifier start at `p`: a keyword, or else an identifier. The keyword
/// `exec` enters an exec line.
pub open spec fn word_at(b: Seq<u8>, p: int, st: LexState) -> Lexed {
    let e = ident_end(b, p + 1);
    let w = b.subrange(p, e);
    match keyword_token(w) {
        Some(k) => if k == Token::Exec {
            lexed_in(LTok::Plain(k), p, e, st, st.modes.push(Mode::Exec))
        } else {
            lexed(LTok::Plain(k), p, e, st)
        },
        None => lexed(LTok::Ident(w), p, e, st),
    }
}

/// Reading the next token in ordinary code from the state `st`: spaces, tabs and comments
/// are skipped, and a byte that starts no token is reported and skipped.
pub closed spec fn l_normal(b: Seq<u8>, st: LexState) -> Lexed
    decreases b.len() - st.pos,
{
    let p = ws_end(b, st.pos);
    if p < 0 || p >= b.len() {
        lexed(LTok::Plain(Token::Eof), p, p, st)
    } else {
        let c = b[p];
        if c == 47u8 && byte_at(b, p + 1) == Some(47u8) {
            proof {
                lemma_ws_end(b, st.pos);
                lemma_line_end(b, p + 2);
            }
            l_normal(b, at(st, line_end(b, p + 2)))
        } else if c == 47u8 && byte_at(b, p + 1) == Some(42u8) {
            proof {
                lemma_ws_end(b, st.pos);
                lemma_block_end(b, p + 2);
            }
            match block_end(b, p + 2) {
                Some(e) => l_normal(b, at(st, e)),
                None => l_normal(
                    b,
                    at_err(
                        st,
                        b.len() as int,
                        seq![
                            LexerError::UnterminatedBlock {
                                span: Span { start: p as usize, end: b.len() as usize },
                            },
                        ],
                    ),
                ),
            }
        } else if c == 10u8 {
            lexed(LTok::Plain(Token::Newline), p, p + 1, st)
        } else if c == 13u8 {
            lexed(LTok::Plain(Token::Newline), p, eat_nl(b, p), st)
        } else if c == 102u8 && byte_at(b, p + 1) == Some(34u8) {
            lexed_in(LTok::Plain(Token::FStrStart), p, p + 2, st, st.modes.push(Mode::FStr))
        } else if c == 34u8 {
            string_at(b, p, st)
        } else if is_digit(c) {
            number_at(b, p, st)
        } else if is_ident_start(c) {
            word_at(b, p, st)
        } else {
            let two = if p + 1 < b.len() {
                two_char_token(c, b[p + 1])
            } else {
                None
            };
            match two {
                Some(t) => lexed(LTok::Plain(t), p, p + 2, st),
                None => match one_char_token(c) {
                    Some(t) => lexed(LTok::Plain(t), p, p + 1, st),
                    None => {
                        proof {
                            lemma_ws_end(b, st.pos);
                        }
                        l_normal(
                            b,
                            at_err(
                                st,
                                p + 1,
                                seq![
                                    LexerError::UnexpectedChar {
                                        ch: c as char,
                                        span: Span { start: p as usize, end: (p + 1) as usize },
                                    },
                                ],
                            ),
                        )
                    },
                },
            }
        }
    }
}

/// Reading the next token of an exec line: spaces and tabs are skipped; a newline, a `//`
/// comment or the end of the source ends the line, `?` ends it too and asks for errors to
/// be swallowed, `{` opens an interpolation, and anything else is a raw word.
pub open spec fn exec_next(b: Seq<u8>, st: LexState) -> Lexed {
    let p = ws_end(b, st.pos);
    let ms = pop_mode(st.modes);
    if p < 0 || p >= b.len() {
        lexed_in(LTok::Plain(Token::ExecEnd), p, p, st, ms)
    } else if b[p] == 10u8 || b[p] == 13u8 {
        lexed_in(LTok::Plain(Token::ExecEnd), p, eat_nl(b, p), st, ms)
    } else if b[p] == 63u8 {
        lexed_in(LTok::Plain(Token::Question), p, eat_nl(b, ws_end(b, p + 1)), st, ms)
    } else if b[p] == 123u8 {
        lexed_in(
            LTok::Plain(Token::ExecOpen),
            p,
            p + 1,
            st,
            st.modes.push(Mode::ExecInterp { depth: 1 }),
        )
    } else if b[p] == 47u8 && byte_at(b, p + 1) == Some(47u8) {
        lexed_in(LTok::Plain(Token::ExecEnd), p, eat_nl(b, line_end(b, p)), st, ms)
    } else {
        let e = word_end(b, p);
        lexed(LTok::ExecWord(b.subrange(p, e)), p, e, st)
    }
}

/// Reading the next token inside an interpolation `{...}` nested `depth` braces deep, of an
/// exec line (`exec`) or of an f-string: the closing brace goes back out, braces within
/// are counted, and any other token is read as in ordinary code, leaving the contexts as
/// they are.
pub open spec fn interp_next(b: Seq<u8>, st: LexState, depth: usize, exec: bool) -> Lexed {
    let p = ws_end(b, st.pos);
    let ms = st.modes;
    let inner = |d: usize| if exec {
        Mode::ExecInterp { depth: d }
    } else {
        Mode::FStrInterp { depth: d }
    };
    if p < 0 || p >= b.len() {
        lexed_in(LTok::Plain(Token::Eof), p, p, st, pop_mode(ms))
    } else if b[p] == 125u8 {
        if depth <= 1 {
            lexed_in(
                LTok::Plain(if exec { Token::ExecClose } else { Token::FStrClose }),
                p,
                p + 1,
                st,
                pop_mode(ms),
            )
        } else {
            lexed_in(
                LTok::Plain(Token::RBrace),
                p,
                p + 1,
                st,
                ms.update(ms.len() - 1, inner((depth - 1) as usize)),
            )
        }
    } else if b[p] == 123u8 {
        lexed_in(
            LTok::Plain(Token::LBrace),
            p,
            p + 1,
            st,
            ms.update(ms.len() - 1, inner((depth + 1) as usize)),
        )
    } else {
        let r = l_normal(b, at(st, p));
        Lexed { next: LexState { modes: ms, ..r.next }, ..r }
    }
}

/// Reading the next token of an f-string's text: `"` ends the f-string and `{` opens an
/// interpolation; a run of text is one token, except that a run that yields no text (only
/// unknown escapes) is dropped together with the byte that ends it. The end of the source
/// is reported as an unterminated string.
pub closed spec fn l_fstr(b: Seq<u8>, st: LexState) -> Lexed
    decreases b.len() - st.pos,
{
    let p = st.pos;
    let ms = pop_mode(st.modes);
    if p < 0 || p >= b.len() {
        Lexed {
            tok: LTok::Plain(Token::Eof),
            start: p,
            end: p,
            next: LexState { pos: p, modes: ms, errors: st.errors.push(unterminated(p, p)) },
        }
    } else if b[p] == 34u8 {
        lexed_in(LTok::Plain(Token::FStrEnd), p, p + 1, st, ms)
    } else if b[p] == 123u8 {
        lexed_in(
            LTok::Plain(Token::FStrOpen),
            p,
            p + 1,
            st,
            st.modes.push(Mode::FStrInterp { depth: 1 }),
        )
    } else {
        let (e, text) = fstr_body(b, p);
        let errs = fstr_errs(b, p, p);
        if text.len() > 0 {
            Lexed { tok: LTok::FStrText(text), start: p, end: e, next: at_err(st, e, errs) }
        } else {
            proof {
                lemma_fstr_body(b, p);
            }
            l_fstr(b, at_err(st, if e < b.len() { e + 1 } else { e }, errs))
        }
    }
}

/// Reading the next token in the state `st`, by its innermost context.
pub open spec fn l_step(b: Seq<u8>, st: LexState) -> Lexed {
    match st.modes.last() {
        Mode::Normal => l_normal(b, st),
        Mode::Exec => exec_next(b, st),
        Mode::ExecInterp { depth } => interp_next(b, st, depth, true),
        Mode::FStr => l_fstr(b, st),
        Mode::FStrInterp { depth } => interp_next(b, st, depth, false),
    }
}

/// The state the lexer starts in: at the first byte, in ordinary code, with no errors.
pub open spec fn l_start() -> LexState {
    LexState { pos: 0, modes: seq![Mode::Normal], errors: seq![] }
}

/// The state after `k` tokens have been read from `st`.
pub closed spec fn l_after(b: Seq<u8>, st: LexState, k: nat) -> LexState
    decreases k,
{
    if k == 0 {
        st
    } else {
        l_step(b, l_after(b, st, (k - 1) as nat)).next
    }
}

/// `ws_end` moves forward, and not past the end when it starts within the source.
pub proof fn lemma_ws_end(b: Seq<u8>, i: int)
    ensures
        i <= ws_end(b, i),
        i <= b.len() ==> ws_end(b, i) <= b.len(),
    decreases b.len() - i,
{
    if 0 <= i < b.len() && is_inline_ws(b[i]) {
        lemma_ws_end(b, i + 1);
    }
}

/// `line_end` moves forward, and not past the end when it starts within the source.
pub proof fn lemma_line_end(b: Seq<u8>, i: int)
    ensures
        i <= line_end(b, i),
        i <= b.len() ==> line_end(b, i) <= b.len(),
    decreases b.len() - i,
{
    if 0 <= i < b.len() && b[i] != 10u8 {
        lemma_line_end(b, i + 1);
    }
}

/// `ident_end` moves forward, and not past the end when it starts within the source.
proof fn lemma_ident_end(b: Seq<u8>, i: int)
    ensures
        i <= ident_end(b, i),
        i <= b.len() ==> ident_end(b, i) <= b.len(),
    decreases b.len() - i,
{
    if 0 <= i < b.len() && is_ident_char(b[i]) {
        lemma_ident_end(b, i + 1);
    }
}

/// What `block_end` finds lies after `i` and within the source.
pub proof fn lemma_block_end(b: Seq<u8>, i: int)
    ensures
        block_end(b, i) matches Some(e) ==> i + 2 <= e <= b.len(),
    decreases b.len() - i,
{
    if 0 <= i < b.len() && !(b[i] == 42u8 && i + 1 < b.len() && b[i + 1] == 47u8) {
        lemma_block_end(b, i + 1);
    }
}

/// A run of f-string text ends no earlier than it starts, and past its start when it is
/// not empty of bytes.
pub proof fn lemma_fstr_body(b: Seq<u8>, i: int)
    requires
        0 <= i,
    ensures
        i <= fstr_body(b, i).0,
        0 <= i < b.len() && b[i] != 34u8 && b[i] != 123u8 ==> i < fstr_body(b, i).0,
        i <= b.len() ==> fstr_body(b, i).0 <= b.len(),
    decreases b.len() - i,
{
    if 0 <= i < b.len() && b[i] != 34u8 && b[i] != 123u8 {
        if b[i] == 92u8 {
            if i + 1 < b.len() {
                lemma_fstr_body(b, i + 2);
            }
        } else {
            lemma_fstr_body(b, i + 1);
        }
    }
}

/// Popping a context never empties the stack: the outermost context stays.
pub proof fn law_pop_mode_keeps_outermost(ms: Seq<Mode>)
    requires
        ms.len() >= 1,
    ensures
        pop_mode(ms).len() >= 1,
        pop_mode(ms)[0] == ms[0],
        ms.len() > 1 ==> pop_mode(ms) == ms.drop_last(),
        ms.len() == 1 ==> pop_mode(ms) == ms,
{
}

/// Reading in ordinary code leaves the contexts as they are, or enters an exec line or an
/// f-string.
proof fn lemma_normal_modes(b: Seq<u8>, st: LexState)
    ensures
        ({
            let ms = l_normal(b, st).next.modes;
            ms == st.modes || ms == st.modes.push(Mode::Exec) || ms == st.modes.push(Mode::FStr)
        }),
        l_normal(b, st).next.modes == st.modes.push(Mode::Exec) ==> l_normal(b, st).next.pos
            >= st.pos + 4,
    decreases b.len() - st.pos,
{
    lemma_l_normal(b, st);
    let p = ws_end(b, st.pos);
    lemma_ws_end(b, st.pos);
    let n = st.modes.len() as int;
    assert(st.modes.push(Mode::Exec).len() == n + 1);
    assert(st.modes.push(Mode::Exec)[n] != st.modes.push(Mode::FStr)[n]);
    if 0 <= p < b.len() {
        let c = b[p];
        if is_ident_start(c) {
            lemma_ident_end(b, p + 1);
            let w = b.subrange(p, ident_end(b, p + 1));
            if keyword_token(w) == Some(Token::Exec) {
                assert(w == seq![101u8, 120u8, 101u8, 99u8]);
                assert(w.len() == 4);
                assert(word_at(b, p, st).next.pos == p + 4);
            } else {
                assert(word_at(b, p, st).next.modes == st.modes);
            }
        }
        if c == 47u8 && byte_at(b, p + 1) == Some(47u8) {
            lemma_line_end(b, p + 2);
            lemma_normal_modes(b, at(st, line_end(b, p + 2)));
        } else if c == 47u8 && byte_at(b, p + 1) == Some(42u8) {
            lemma_block_end(b, p + 2);
            match block_end(b, p + 2) {
                Some(e) => lemma_normal_modes(b, at(st, e)),
                None => lemma_normal_modes(
                    b,
                    at_err(
                        st,
                        b.len() as int,
                        seq![
                            LexerError::UnterminatedBlock {
                                span: Span { start: p as usize, end: b.len() as usize },
                            },
                        ],
                    ),
                ),
            }
        } else if !(c == 10u8 || c == 13u8 || (c == 102u8 && byte_at(b, p + 1) == Some(34u8))
            || c == 34u8 || is_digit(c) || is_ident_start(c)) {
            let two = if p + 1 < b.len() {
                two_char_token(c, b[p + 1])
            } else {
                None
            };
            if two is None && one_char_token(c) is None {
                lemma_normal_modes(
                    b,
                    at_err(
                        st,
                        p + 1,
                        seq![
                            LexerError::UnexpectedChar {
                                ch: c as char,
                                span: Span { start: p as usize, end: (p + 1) as usize },
                            },
                        ],
                    ),
                );
            }
        }
    }
}

/// Reading f-string text leaves the contexts as they are, leaves the f-string, or opens
/// an interpolation.
proof fn lemma_fstr_modes(b: Seq<u8>, st: LexState)
    ensures
        ({
            let ms = l_fstr(b, st).next.modes;
            ms == st.modes || ms == pop_mode(st.modes) || ms == st.modes.push(
                Mode::FStrInterp { depth: 1 },
            )
        }),
        l_fstr(b, st).tok != LTok::Plain(Token::Eof) ==> l_fstr(b, st).next.pos > st.pos,
    decreases b.len() - st.pos,
{
    lemma_l_fstr(b, st);
    let p = st.pos;
    if 0 <= p < b.len() && b[p] != 34u8 && b[p] != 123u8 {
        let (e, text) = fstr_body(b, p);
        lemma_fstr_body(b, p);
        if text.len() == 0 {
            lemma_fstr_modes(b, at_err(st, if e < b.len() { e + 1 } else { e }, fstr_errs(b, p, p)));
        }
    }
}

/// How many exec lines are open in the stack of contexts `ms`.
pub open spec fn exec_count(ms: Seq<Mode>) -> nat
    decreases ms.len(),
{
    if ms.len() == 0 {
        0
    } else {
        exec_count(ms.drop_last()) + if ms.last() is Exec {
            1nat
        } else {
            0nat
        }
    }
}

/// The lexer starts with no exec line open, so that `Lexer::tokenize` from the start gives
/// at most one token per byte of the source and one more.
pub proof fn law_start_opens_no_exec_line()
    ensures
        exec_count(l_start().modes) == 0,
{
    let ms = l_start().modes;
    assert(ms.drop_last() =~= Seq::<Mode>::empty());
    assert(exec_count(ms.drop_last()) == 0);
    assert(!(ms.last() is Exec));
}

proof fn lemma_exec_count_push(ms: Seq<Mode>, m: Mode)
    ensures
        exec_count(ms.push(m)) == exec_count(ms) + if m is Exec {
            1nat
        } else {
            0nat
        },
{
    assert(ms.push(m).drop_last() =~= ms);
}

proof fn lemma_exec_count_top(ms: Seq<Mode>, m: Mode)
    requires
        ms.len() >= 1,
        !(ms.last() is Exec),
        !(m is Exec),
    ensures
        exec_count(ms.update(ms.len() - 1, m)) == exec_count(ms),
{
    assert(ms.update(ms.len() - 1, m).drop_last() =~= ms.drop_last());
}

/// One step that moves on or closes a context opens an exec line only by reading it, and
/// when it does not end the source it pays for its token and for an exec line it opens
/// with the bytes it reads: a step that reads nothing closes an exec line.
pub proof fn lemma_step_budget(b: Seq<u8>, st: LexState)
    requires
        st.modes.len() >= 1,
        st.modes[0] is Normal,
        0 <= st.pos,
        st.pos <= l_step(b, st).next.pos,
        l_step(b, st).tok == LTok::Plain(Token::Eof) || l_step(b, st).next.pos > st.pos
            || l_step(b, st).next.modes.len() < st.modes.len(),
    ensures
        exec_count(l_step(b, st).next.modes) <= exec_count(st.modes) + (l_step(b, st).next.pos
            - st.pos),
        l_step(b, st).tok == LTok::Plain(Token::Eof) || exec_count(l_step(b, st).next.modes) + 1
            <= exec_count(st.modes) + (l_step(b, st).next.pos - st.pos),
{
    let ms = st.modes;
    let r = l_step(b, st);
    {
        assert(exec_count(ms) == exec_count(ms.drop_last()) + if ms.last() is Exec {
            1nat
        } else {
            0nat
        });
        match ms.last() {
            Mode::Normal => {
                lemma_normal_modes(b, st);
                lemma_exec_count_push(ms, Mode::Exec);
                lemma_exec_count_push(ms, Mode::FStr);
            },
            Mode::Exec => {
                lemma_exec_count_push(ms, Mode::ExecInterp { depth: 1 });
            },
            Mode::ExecInterp { depth } => {
                lemma_ws_end(b, st.pos);
                lemma_exec_count_top(ms, Mode::ExecInterp { depth: (depth - 1) as usize });
                lemma_exec_count_top(ms, Mode::ExecInterp { depth: (depth + 1) as usize });
            },
            Mode::FStrInterp { depth } => {
                lemma_ws_end(b, st.pos);
                lemma_exec_count_top(ms, Mode::FStrInterp { depth: (depth - 1) as usize });
                lemma_exec_count_top(ms, Mode::FStrInterp { depth: (depth + 1) as usize });
            },
            Mode::FStr => {
                lemma_fstr_modes(b, st);
                lemma_exec_count_push(ms, Mode::FStrInterp { depth: 1 });
            },
        }
    }
}

/// Every state the lexer reaches from its start has its stack of contexts, never empty,
/// with ordinary code at the bottom.
pub proof fn law_modes_keep_normal_bottom(b: Seq<u8>, k: nat)
    ensures
        l_after(b, l_start(), k).modes.len() >= 1,
        l_after(b, l_start(), k).modes[0] == Mode::Normal,
    decreases k,
{
    lemma_l_after(b, l_start(), k);
    if k > 0 {
        law_modes_keep_normal_bottom(b, (k - 1) as nat);
        let st = l_after(b, l_start(), (k - 1) as nat);
        match st.modes.last() {
            Mode::Normal => lemma_normal_modes(b, st),
            Mode::FStr => lemma_fstr_modes(b, st),
            Mode::ExecInterp { .. } => lemma_normal_modes(b, at(st, ws_end(b, st.pos))),
            Mode::FStrInterp { .. } => lemma_normal_modes(b, at(st, ws_end(b, st.pos))),
            _ => {},
        }
    }
}

/// `l_normal` unfolded once.
pub proof fn lemma_l_normal(b: Seq<u8>, st: LexState)
    ensures
        l_normal(b, st) == {
            let p = ws_end(b, st.pos);
            if p < 0 || p >= b.len() {
                lexed(LTok::Plain(Token::Eof), p, p, st)
            } else {
                let c = b[p];
                if c == 47u8 && byte_at(b, p + 1) == Some(47u8) {
                    l_normal(b, at(st, line_end(b, p + 2)))
                } else if c == 47u8 && byte_at(b, p + 1) == Some(42u8) {
                    match block_end(b, p + 2) {
                        Some(e) => l_normal(b, at(st, e)),
                        None => l_normal(
                            b,
                            at_err(
                                st,
                                b.len() as int,
                                seq![
                                    LexerError::UnterminatedBlock {
                                        span: Span { start: p as usize, end: b.len() as usize },
                                    },
                                ],
                            ),
                        ),
                    }
                } else if c == 10u8 {
                    lexed(LTok::Plain(Token::Newline), p, p + 1, st)
                } else if c == 13u8 {
                    lexed(LTok::Plain(Token::Newline), p, eat_nl(b, p), st)
                } else if c == 102u8 && byte_at(b, p + 1) == Some(34u8) {
                    lexed_in(LTok::Plain(Token::FStrStart), p, p + 2, st, st.modes.push(Mode::FStr))
                } else if c == 34u8 {
                    string_at(b, p, st)
                } else if is_digit(c) {
                    number_at(b, p, st)
                } else if is_ident_start(c) {
                    word_at(b, p, st)
                } else {
                    let two = if p + 1 < b.len() {
                        two_char_token(c, b[p + 1])
                    } else {
                        None
                    };
                    match two {
                        Some(t) => lexed(LTok::Plain(t), p, p + 2, st),
                        None => match one_char_token(c) {
                            Some(t) => lexed(LTok::Plain(t), p, p + 1, st),
                            None => {
                                l_normal(
                                    b,
                                    at_err(
                                        st,
                                        p + 1,
                                        seq![
                                            LexerError::UnexpectedChar {
                                                ch: c as char,
                                                span: Span { start: p as usize, end: (p + 1) as usize },
                                            },
                                        ],
                                    ),
                                )
                            },
                        },
                    }
                }
            }
        },
{
}

/// `l_fstr` unfolded once.
pub proof fn lemma_l_fstr(b: Seq<u8>, st: LexState)
    ensures
        l_fstr(b, st) == {
            let p = st.pos;
            let ms = pop_mode(st.modes);
            if p < 0 || p >= b.len() {
                Lexed {
                    tok: LTok::Plain(Token::Eof),
                    start: p,
                    end: p,
                    next: LexState { pos: p, modes: ms, errors: st.errors.push(unterminated(p, p)) },
                }
            } else if b[p] == 34u8 {
                lexed_in(LTok::Plain(Token::FStrEnd), p, p + 1, st, ms)
            } else if b[p] == 123u8 {
                lexed_in(
                    LTok::Plain(Token::FStrOpen),
                    p,
                    p + 1,
                    st,
                    st.modes.push(Mode::FStrInterp { depth: 1 }),
                )
            } else {
                let (e, text) = fstr_body(b, p);
                let errs = fstr_errs(b, p, p);
                if text.len() > 0 {
                    Lexed { tok: LTok::FStrText(text), start: p, end: e, next: at_err(st, e, errs) }
                } else {
                    l_fstr(b, at_err(st, if e < b.len() { e + 1 } else { e }, errs))
                }
            }
        },
{
}

/// `l_after` unfolded once.
pub proof fn lemma_l_after(b: Seq<u8>, st: LexState, k: nat)
    ensures
        l_after(b, st, k) == {
            if k == 0 {
                st
            } else {
                l_step(b, l_after(b, st, (k - 1) as nat)).next
            }
        },
{
}

} // verus!
