use crate::lex_error::LexerError;
use crate::lexing::{
    block_end, eat_nl, exec_count, exec_next, fstr_errs, ident_end, interp_next, l_after, l_fstr, l_normal,
    l_start, l_step, lemma_l_after, lemma_step_budget, lemma_l_fstr, lemma_l_normal, lexed_as, line_end, num_end,
    number_at, str_errs, string_at, tok_is, triple_errs, word_end, ws_end, LexState, Lexed, Mode,
};
use crate::span::Span;
use crate::text::{byte_char, lemma_after_ascii, push_char, starts_char, substring};
use crate::token::{keyword_token, lemma_ascii_encoding, token_text, Spanned, Token};
use vstd::prelude::*;
use vstd::string::StringSliceAdditionalSpecFns;
use vstd::utf8::*;

verus! {

spec fn mode_depth(m: Mode) -> int {
    match m {
        Mode::ExecInterp { depth } => depth as int,
        Mode::FStrInterp { depth } => depth as int,
        _ => 0,
    }
}

/// The byte at offset `i` of `b`, if there is one.
pub open spec fn byte_at(b: Seq<u8>, i: int) -> Option<u8> {
    if 0 <= i < b.len() {
        Some(b[i])
    } else {
        None
    }
}

/// Space, tab or carriage return.
pub open spec fn is_inline_ws(b: u8) -> bool {
    b == 32 || b == 9 || b == 13
}

pub open spec fn is_digit(b: u8) -> bool {
    48 <= b <= 57
}

pub open spec fn is_alpha(b: u8) -> bool {
    (65 <= b <= 90) || (97 <= b <= 122)
}

pub open spec fn is_ident_start(b: u8) -> bool {
    is_alpha(b) || b == 95
}

pub open spec fn is_ident_char(b: u8) -> bool {
    is_alpha(b) || is_digit(b) || b == 95
}

pub open spec fn is_number_char(b: u8) -> bool {
    is_digit(b) || b == 95
}

/// A byte that ends a raw word of an exec line.
pub open spec fn is_exec_stop(b: u8) -> bool {
    b == 10 || b == 13 || b == 32 || b == 9 || b == 123 || b == 63
}

fn is_inline_ws_b(b: u8) -> (r: bool)
    ensures
        r == is_inline_ws(b),
{
    b == 32 || b == 9 || b == 13
}

fn is_digit_b(b: u8) -> (r: bool)
    ensures
        r == is_digit(b),
{
    48 <= b && b <= 57
}

fn is_ident_start_b(b: u8) -> (r: bool)
    ensures
        r == is_ident_start(b),
{
    (65 <= b && b <= 90) || (97 <= b && b <= 122) || b == 95
}

fn is_ident_char_b(b: u8) -> (r: bool)
    ensures
        r == is_ident_char(b),
{
    (65 <= b && b <= 90) || (97 <= b && b <= 122) || (48 <= b && b <= 57) || b == 95
}

fn is_number_char_b(b: u8) -> (r: bool)
    ensures
        r == is_number_char(b),
{
    (48 <= b && b <= 57) || b == 95
}

/// Value of the decimal digits in `s`, underscores skipped.
pub open spec fn digits_value(s: Seq<u8>) -> nat
    decreases s.len(),
{
    if s.len() == 0 {
        0
    } else if s.last() == 95u8 {
        digits_value(s.drop_last())
    } else {
        digits_value(s.drop_last()) * 10 + (s.last() - 48u8) as nat
    }
}

/// The bytes of `s` other than underscores, each read as a character.
pub open spec fn number_text(s: Seq<u8>) -> Seq<char>
    decreases s.len(),
{
    if s.len() == 0 {
        seq![]
    } else if s.last() == 95u8 {
        number_text(s.drop_last())
    } else {
        number_text(s.drop_last()).push(s.last() as char)
    }
}

/// The character that the escape `\b` stands for, if it is a known escape.
pub open spec fn escape_char(b: u8) -> Option<char> {
    if b == 110 {
        Some('\n')
    } else if b == 116 {
        Some('\t')
    } else if b == 114 {
        Some('\r')
    } else if b == 92 {
        Some('\\')
    } else if b == 34 {
        Some('"')
    } else if b == 123 {
        Some('{')
    } else {
        None
    }
}

/// Each escape stands for the character it names, and no other byte escapes: `\"`, `\\`
/// and `\{` stand for the very character that would otherwise end the string, start an
/// escape or open an interpolation; `\n`, `\t` and `\r` for newline (code 10), tab (code 9)
/// and carriage return (code 13).
pub proof fn law_escapes_name_their_characters(e: u8)
    ensures
        (e == 34u8 || e == 92u8 || e == 123u8) ==> escape_char(e) == Some(e as char),
        e == 110u8 ==> escape_char(e) == Some(10u8 as char),
        e == 116u8 ==> escape_char(e) == Some(9u8 as char),
        e == 114u8 ==> escape_char(e) == Some(13u8 as char),
        escape_char(e) is Some <==> (e == 34u8 || e == 92u8 || e == 123u8 || e == 110u8
            || e == 116u8 || e == 114u8),
{
}

/// The text that the escape of the byte `e` adds: the character it stands for, or nothing
/// when it is not a known escape.
pub open spec fn escape_text(e: u8) -> Seq<char> {
    match escape_char(e) {
        Some(c) => seq![c],
        None => seq![],
    }
}

/// Reading the body of a plain string literal from offset `i` of `b`: the offset where the
/// literal ends, and the text it stands for. The body ends with the closing `"` or with a
/// newline, either of which the literal takes in, or at the end of the source. A backslash
/// and the byte after it form an escape; any other byte stands for the character with its
/// code.
pub open spec fn str_body(b: Seq<u8>, i: int) -> (int, Seq<char>)
    decreases b.len() - i,
{
    if i >= b.len() {
        (i, seq![])
    } else if b[i] == 34u8 || b[i] == 10u8 {
        (i + 1, seq![])
    } else if b[i] == 92u8 {
        if i + 1 >= b.len() {
            (i + 1, seq![])
        } else {
            let r = str_body(b, i + 2);
            (r.0, escape_text(b[i + 1]) + r.1)
        }
    } else {
        let r = str_body(b, i + 1);
        (r.0, seq![b[i] as char] + r.1)
    }
}

/// Reading the body of a triple-quoted string literal from offset `i` of `b`, as
/// `str_body` does, except that only three `"` in a row end it and a newline is text.
pub open spec fn triple_body(b: Seq<u8>, i: int) -> (int, Seq<char>)
    decreases b.len() - i,
{
    if i + 2 < b.len() && b[i] == 34u8 && b[i + 1] == 34u8 && b[i + 2] == 34u8 {
        (i + 3, seq![])
    } else if i >= b.len() {
        (i, seq![])
    } else if b[i] == 92u8 {
        if i + 1 >= b.len() {
            (i + 1, seq![])
        } else {
            let r = triple_body(b, i + 2);
            (r.0, escape_text(b[i + 1]) + r.1)
        }
    } else {
        let r = triple_body(b, i + 1);
        (r.0, seq![b[i] as char] + r.1)
    }
}

/// Reading a run of f-string text from offset `i` of `b`, as `str_body` does, except that
/// the run stops before a `"` or a `{` and a newline is text.
pub open spec fn fstr_body(b: Seq<u8>, i: int) -> (int, Seq<char>)
    decreases b.len() - i,
{
    if i >= b.len() || b[i] == 34u8 || b[i] == 123u8 {
        (i, seq![])
    } else if b[i] == 92u8 {
        if i + 1 >= b.len() {
            (i + 1, seq![])
        } else {
            let r = fstr_body(b, i + 2);
            (r.0, escape_text(b[i + 1]) + r.1)
        }
    } else {
        let r = fstr_body(b, i + 1);
        (r.0, seq![b[i] as char] + r.1)
    }
}

/// The bytes from `start` open a triple-quoted string.
pub open spec fn opens_triple(b: Seq<u8>, start: int) -> bool {
    byte_at(b, start + 1) == Some(34u8) && byte_at(b, start + 2) == Some(34u8)
}

/// The two-byte operator that starts with `a` and `b`, if any.
pub open spec fn two_char_token(a: u8, b: u8) -> Option<Token> {
    if a == 61 && b == 61 {
        Some(Token::EqEq)
    } else if a == 33 && b == 61 {
        Some(Token::BangEq)
    } else if a == 60 && b == 61 {
        Some(Token::LtEq)
    } else if a == 62 && b == 61 {
        Some(Token::GtEq)
    } else if a == 45 && b == 62 {
        Some(Token::Arrow)
    } else if a == 46 && b == 46 {
        Some(Token::DotDot)
    } else {
        None
    }
}

/// The one-byte token spelled by `b`, if any.
pub open spec fn one_char_token(b: u8) -> Option<Token> {
    if b == 61 {
        Some(Token::Eq)
    } else if b == 60 {
        Some(Token::Lt)
    } else if b == 62 {
        Some(Token::Gt)
    } else if b == 43 {
        Some(Token::Plus)
    } else if b == 45 {
        Some(Token::Minus)
    } else if b == 42 {
        Some(Token::Star)
    } else if b == 47 {
        Some(Token::Slash)
    } else if b == 37 {
        Some(Token::Percent)
    } else if b == 63 {
        Some(Token::Question)
    } else if b == 46 {
        Some(Token::Dot)
    } else if b == 44 {
        Some(Token::Comma)
    } else if b == 58 {
        Some(Token::Colon)
    } else if b == 59 {
        Some(Token::Semi)
    } else if b == 123 {
        Some(Token::LBrace)
    } else if b == 125 {
        Some(Token::RBrace)
    } else if b == 40 {
        Some(Token::LParen)
    } else if b == 41 {
        Some(Token::RParen)
    } else if b == 91 {
        Some(Token::LBracket)
    } else if b == 93 {
        Some(Token::RBracket)
    } else {
        None
    }
}

/// A symbol token is read from exactly the characters it is written with: the one byte or
/// the two bytes that make it are the text of the token, so `/` reads as the token written
/// `/` and never as another operator.
pub proof fn law_symbols_read_as_written(a: u8, b: u8)
    ensures
        one_char_token(a) matches Some(t) ==> encode_utf8(token_text(t)) == seq![a],
        two_char_token(a, b) matches Some(t) ==> encode_utf8(token_text(t)) == seq![a, b],
{
    if let Some(t) = one_char_token(a) {
        lemma_symbol_text(t);
    }
    if let Some(t) = two_char_token(a, b) {
        lemma_symbol_text(t);
    }
}

proof fn lemma_symbol_text(t: Token)
    ensures
        match t {
            Token::Eq => encode_utf8(token_text(t)) == seq![61u8],
            Token::Lt => encode_utf8(token_text(t)) == seq![60u8],
            Token::Gt => encode_utf8(token_text(t)) == seq![62u8],
            Token::Plus => encode_utf8(token_text(t)) == seq![43u8],
            Token::Minus => encode_utf8(token_text(t)) == seq![45u8],
            Token::Star => encode_utf8(token_text(t)) == seq![42u8],
            Token::Slash => encode_utf8(token_text(t)) == seq![47u8],
            Token::Percent => encode_utf8(token_text(t)) == seq![37u8],
            Token::Question => encode_utf8(token_text(t)) == seq![63u8],
            Token::Dot => encode_utf8(token_text(t)) == seq![46u8],
            Token::Comma => encode_utf8(token_text(t)) == seq![44u8],
            Token::Colon => encode_utf8(token_text(t)) == seq![58u8],
            Token::Semi => encode_utf8(token_text(t)) == seq![59u8],
            Token::LBrace => encode_utf8(token_text(t)) == seq![123u8],
            Token::RBrace => encode_utf8(token_text(t)) == seq![125u8],
            Token::LParen => encode_utf8(token_text(t)) == seq![40u8],
            Token::RParen => encode_utf8(token_text(t)) == seq![41u8],
            Token::LBracket => encode_utf8(token_text(t)) == seq![91u8],
            Token::RBracket => encode_utf8(token_text(t)) == seq![93u8],
            Token::EqEq => encode_utf8(token_text(t)) == seq![61u8, 61u8],
            Token::BangEq => encode_utf8(token_text(t)) == seq![33u8, 61u8],
            Token::LtEq => encode_utf8(token_text(t)) == seq![60u8, 61u8],
            Token::GtEq => encode_utf8(token_text(t)) == seq![62u8, 61u8],
            Token::Arrow => encode_utf8(token_text(t)) == seq![45u8, 62u8],
            Token::DotDot => encode_utf8(token_text(t)) == seq![46u8, 46u8],
            _ => true,
        },
{
    match t {
        Token::Eq => {
            reveal_strlit("=");
            lemma_ascii_encoding("="@);
            assert(encode_utf8("="@) =~= seq![61u8]);
        },
        Token::Lt => {
            reveal_strlit("<");
            lemma_ascii_encoding("<"@);
            assert(encode_utf8("<"@) =~= seq![60u8]);
        },
        Token::Gt => {
            reveal_strlit(">");
            lemma_ascii_encoding(">"@);
            assert(encode_utf8(">"@) =~= seq![62u8]);
        },
        Token::Plus => {
            reveal_strlit("+");
            lemma_ascii_encoding("+"@);
            assert(encode_utf8("+"@) =~= seq![43u8]);
        },
        Token::Minus => {
            reveal_strlit("-");
            lemma_ascii_encoding("-"@);
            assert(encode_utf8("-"@) =~= seq![45u8]);
        },
        Token::Star => {
            reveal_strlit("*");
            lemma_ascii_encoding("*"@);
            assert(encode_utf8("*"@) =~= seq![42u8]);
        },
        Token::Slash => {
            reveal_strlit("/");
            lemma_ascii_encoding("/"@);
            assert(encode_utf8("/"@) =~= seq![47u8]);
        },
        Token::Percent => {
            reveal_strlit("%");
            lemma_ascii_encoding("%"@);
            assert(encode_utf8("%"@) =~= seq![37u8]);
        },
        Token::Question => {
            reveal_strlit("?");
            lemma_ascii_encoding("?"@);
            assert(encode_utf8("?"@) =~= seq![63u8]);
        },
        Token::Dot => {
            reveal_strlit(".");
            lemma_ascii_encoding("."@);
            assert(encode_utf8("."@) =~= seq![46u8]);
        },
        Token::Comma => {
            reveal_strlit(",");
            lemma_ascii_encoding(","@);
            assert(encode_utf8(","@) =~= seq![44u8]);
        },
        Token::Colon => {
            reveal_strlit(":");
            lemma_ascii_encoding(":"@);
            assert(encode_utf8(":"@) =~= seq![58u8]);
        },
        Token::Semi => {
            reveal_strlit(";");
            lemma_ascii_encoding(";"@);
            assert(encode_utf8(";"@) =~= seq![59u8]);
        },
        Token::LBrace => {
            reveal_strlit("{");
            lemma_ascii_encoding("{"@);
            assert(encode_utf8("{"@) =~= seq![123u8]);
        },
        Token::RBrace => {
            reveal_strlit("}");
            lemma_ascii_encoding("}"@);
            assert(encode_utf8("}"@) =~= seq![125u8]);
        },
        Token::LParen => {
            reveal_strlit("(");
            lemma_ascii_encoding("("@);
            assert(encode_utf8("("@) =~= seq![40u8]);
        },
        Token::RParen => {
            reveal_strlit(")");
            lemma_ascii_encoding(")"@);
            assert(encode_utf8(")"@) =~= seq![41u8]);
        },
        Token::LBracket => {
            reveal_strlit("[");
            lemma_ascii_encoding("["@);
            assert(encode_utf8("["@) =~= seq![91u8]);
        },
        Token::RBracket => {
            reveal_strlit("]");
            lemma_ascii_encoding("]"@);
            assert(encode_utf8("]"@) =~= seq![93u8]);
        },
        Token::EqEq => {
            reveal_strlit("==");
            lemma_ascii_encoding("=="@);
            assert(encode_utf8("=="@) =~= seq![61u8, 61u8]);
        },
        Token::BangEq => {
            reveal_strlit("!=");
            lemma_ascii_encoding("!="@);
            assert(encode_utf8("!="@) =~= seq![33u8, 61u8]);
        },
        Token::LtEq => {
            reveal_strlit("<=");
            lemma_ascii_encoding("<="@);
            assert(encode_utf8("<="@) =~= seq![60u8, 61u8]);
        },
        Token::GtEq => {
            reveal_strlit(">=");
            lemma_ascii_encoding(">="@);
            assert(encode_utf8(">="@) =~= seq![62u8, 61u8]);
        },
        Token::Arrow => {
            reveal_strlit("->");
            lemma_ascii_encoding("->"@);
            assert(encode_utf8("->"@) =~= seq![45u8, 62u8]);
        },
        Token::DotDot => {
            reveal_strlit("..");
            lemma_ascii_encoding(".."@);
            assert(encode_utf8(".."@) =~= seq![46u8, 46u8]);
        },
        _ => {},
    }
}

/// `w` is a whole word: an identifier start followed by identifier characters, with no
/// identifier character right after it in `b`.
pub open spec fn whole_word(b: Seq<u8>, start: int, end: int) -> bool {
    &&& 0 <= start < end <= b.len()
    &&& is_ident_start(b[start])
    &&& forall|k: int| start <= k < end ==> is_ident_char(#[trigger] b[k])
    &&& !(byte_at(b, end) matches Some(c) && is_ident_char(c))
}

/// The integer literal at `start..end` of `b`: a maximal run of digits and underscores that
/// starts with a digit and is not followed by `.` and a digit. Its token holds its value,
/// or 0 when the value does not fit in an `i64`.
pub open spec fn int_spelled(b: Seq<u8>, start: int, end: int, v: i64) -> bool {
    let text = b.subrange(start, end);
    &&& 0 <= start < end <= b.len()
    &&& is_digit(b[start])
    &&& forall|k: int| start <= k < end ==> is_number_char(#[trigger] b[k])
    &&& !(byte_at(b, end) matches Some(c) && is_number_char(c))
    &&& !(byte_at(b, end) == Some(46u8) && (byte_at(b, end + 1) matches Some(d) && is_digit(d)))
    &&& if digits_value(text) <= i64::MAX {
        v == digits_value(text)
    } else {
        v == 0
    }
}

/// The float literal at `start..end` of `b`: digits and underscores, one `.` followed by a
/// digit, more digits and underscores; its token holds the text without underscores.
pub open spec fn float_spelled(b: Seq<u8>, start: int, end: int, t: Seq<char>) -> bool {
    &&& 0 <= start < end <= b.len()
    &&& is_digit(b[start])
    &&& t == number_text(b.subrange(start, end))
    &&& !(byte_at(b, end) matches Some(c) && is_number_char(c))
    &&& exists|dot: int|
        start < dot < end - 1 && #[trigger] b[dot] == 46u8 && is_digit(b[dot + 1]) && (forall|k: int|
            start <= k < end && k != dot ==> is_number_char(#[trigger] b[k]))
}

/// The bytes `start..end` of the source `b` spell the token `t`.
pub open spec fn spells(t: Token, b: Seq<u8>, start: int, end: int) -> bool {
    let text = b.subrange(start, end);
    &&& 0 <= start <= end <= b.len()
    &&& match t {
        Token::Int(v) => int_spelled(b, start, end, v),
        Token::Float(x) => float_spelled(b, start, end, x@),
        Token::Str(v) => {
            &&& text.len() >= 1
            &&& text[0] == 34u8
            &&& if opens_triple(b, start) {
                triple_body(b, start + 3) == (end, v@)
            } else {
                str_body(b, start + 1) == (end, v@)
            }
        },
        Token::FStrStart => text == seq![102u8, 34u8],
        Token::FStrText(v) => text.len() >= 1 && v@.len() >= 1 && fstr_body(b, start) == (end, v@),
        Token::FStrOpen => text == seq![123u8],
        Token::FStrClose => text == seq![125u8],
        Token::FStrEnd => text == seq![34u8],
        Token::Ident(n) => whole_word(b, start, end) && keyword_token(text) is None && encode_utf8(
            n@,
        ) == text,
        Token::ExecWord(w) => text.len() >= 1 && encode_utf8(w@) == text,
        Token::ExecOpen => text == seq![123u8],
        Token::ExecClose => text == seq![125u8],
        Token::ExecEnd => text.len() == 0 || text[0] == 10u8 || text[0] == 13u8 || text[0] == 47u8,
        Token::Newline => text == seq![10u8] || text == seq![13u8] || text == seq![13u8, 10u8],
        Token::Question => text.len() >= 1 && text[0] == 63u8,
        Token::Eof => text.len() == 0,
        Token::LBrace => text == seq![123u8],
        Token::RBrace => text == seq![125u8],
        _ => if keyword_token(text) == Some(t) {
            whole_word(b, start, end)
        } else {
            ||| (text.len() == 1 && one_char_token(text[0]) == Some(t))
            ||| (text.len() == 2 && two_char_token(text[0], text[1]) == Some(t))
        },
    }
}

/// A byte that is a token on its own spells that token.
proof fn lemma_spells_one(t: Token, b: Seq<u8>, start: int)
    requires
        0 <= start < b.len(),
        one_char_token(b[start]) == Some(t),
    ensures
        spells(t, b, start, start + 1),
{
    assert(b.subrange(start, start + 1) =~= seq![b[start]]);
}

/// Two bytes that form an operator spell that operator.
proof fn lemma_spells_two(t: Token, b: Seq<u8>, start: int)
    requires
        0 <= start && start + 1 < b.len(),
        two_char_token(b[start], b[start + 1]) == Some(t),
    ensures
        spells(t, b, start, start + 2),
{
    assert(b.subrange(start, start + 2) =~= seq![b[start], b[start + 1]]);
}

/// A whole word spells its keyword, or else an identifier with its text.
proof fn lemma_spells_word(t: Token, b: Seq<u8>, start: int, end: int, w: Seq<char>)
    requires
        whole_word(b, start, end),
        encode_utf8(w) == b.subrange(start, end),
        keyword_token(b.subrange(start, end)) matches Some(k) ==> t == k,
        keyword_token(b.subrange(start, end)) is None ==> (t matches Token::Ident(name) && name@
            == w),
    ensures
        spells(t, b, start, end),
{
}

/// The token that the byte `b` is on its own, if any.
fn one_char_op(b: u8) -> (r: Option<Token>)
    ensures
        r == one_char_token(b),
{
    match b {
        61 => Some(Token::Eq),
        60 => Some(Token::Lt),
        62 => Some(Token::Gt),
        43 => Some(Token::Plus),
        45 => Some(Token::Minus),
        42 => Some(Token::Star),
        47 => Some(Token::Slash),
        37 => Some(Token::Percent),
        63 => Some(Token::Question),
        46 => Some(Token::Dot),
        44 => Some(Token::Comma),
        58 => Some(Token::Colon),
        59 => Some(Token::Semi),
        123 => Some(Token::LBrace),
        125 => Some(Token::RBrace),
        40 => Some(Token::LParen),
        41 => Some(Token::RParen),
        91 => Some(Token::LBracket),
        93 => Some(Token::RBracket),
        _ => None,
    }
}

pub struct Lexer<'src> {
    src: &'src str,
    bytes: &'src [u8],
    pos: usize,
    modes: Vec<Mode>,
    errors: Vec<LexerError>,
}

impl<'src> Lexer<'src> {
    /// The source bytes being lexed.
    pub closed spec fn source(&self) -> Seq<u8> {
        self.bytes@
    }

    /// Offset of the next byte to read.
    pub closed spec fn position(&self) -> int {
        self.pos as int
    }

    /// The problems found so far.
    pub closed spec fn error_list(&self) -> Seq<LexerError> {
        self.errors@
    }

    /// The state the lexer is in: its position, its stack of contexts and its errors.
    pub closed spec fn lex_state(&self) -> LexState {
        LexState { pos: self.pos as int, modes: self.modes@, errors: self.errors@ }
    }

    /// Going from `old` to `new` read the token `s` as the step `r` says.
    spec fn lexes(old: &Self, new: &Self, s: Spanned, r: Lexed) -> bool {
        &&& tok_is(s.token, r.tok)
        &&& s.span.start == r.start
        &&& s.span.end == r.end
        &&& new.lex_state() == r.next
    }

    spec fn top(&self) -> Mode {
        self.modes@.last()
    }

    spec fn sound(&self) -> bool {
        &&& self.bytes@ == self.src.spec_bytes()
        &&& self.pos <= self.bytes@.len()
        &&& self.modes@.len() >= 1
        &&& self.modes@[0] is Normal
        &&& forall|i: int| 1 <= i < self.modes@.len() ==> !(#[trigger] self.modes@[i] is Normal)
        &&& forall|i: int| 0 <= i < self.modes@.len() ==> mode_depth(#[trigger] self.modes@[i]) <= self.pos
    }

    /// The lexer's state is consistent.
    pub closed spec fn wf(&self) -> bool {
        &&& self.sound()
        &&& (self.top() is Exec ==> starts_char(self.bytes@, self.pos as int))
    }

    /// `new` reads the same source as `self`, from no earlier offset, and keeps its errors.
    spec fn grows(&self, new: &Self) -> bool {
        &&& new.src == self.src
        &&& new.bytes@ == self.bytes@
        &&& self.pos <= new.pos
        &&& extends(self.errors@, new.errors@)
    }

    /// Only the position moved.
    spec fn moved(&self, new: &Self) -> bool {
        &&& new.src == self.src
        &&& new.bytes@ == self.bytes@
        &&& new.modes@ == self.modes@
        &&& new.errors@ == self.errors@
        &&& self.pos <= new.pos <= self.bytes@.len()
    }

    /// One token `s` was read, going from `old` to `new`.
    spec fn step(old: &Self, new: &Self, s: Spanned) -> bool {
        &&& old.grows(new)
        &&& new.wf()
        &&& old.pos <= s.span.start <= s.span.end
        &&& s.span.end == new.pos
        &&& (s.token is Eof ==> s.span.start == new.pos && new.pos == new.bytes@.len())
        &&& (new.pos > old.pos || s.token is Eof || new.modes@.len() < old.modes@.len())
        &&& new.modes@.len() <= old.modes@.len() + 1
        &&& spells(s.token, new.bytes@, s.span.start as int, s.span.end as int)
    }

    proof fn lemma_valid(&self)
        requires
            self.sound(),
        ensures
            valid_utf8(self.bytes@),
    {
        encode_utf8_valid_utf8(self.src@);
    }

    /// Right after an ASCII byte, a character starts.
    proof fn lemma_after_ascii_here(&self)
        requires
            self.sound(),
            self.pos == self.bytes@.len() || (self.pos > 0 && self.bytes@[self.pos - 1] < 0x80),
        ensures
            starts_char(self.bytes@, self.pos as int),
    {
        self.lemma_valid();
        if 0 < self.pos < self.bytes@.len() {
            lemma_after_ascii(self.bytes@, self.pos as int);
        }
    }

    pub fn new(src: &'src str) -> (r: Self)
        ensures
            r.wf(),
            r.source() == src.spec_bytes(),
            r.position() == 0,
            r.error_list() == Seq::<LexerError>::empty(),
            r.lex_state() == l_start(),
    {
        let mut modes = Vec::new();
        modes.push(Mode::Normal);
        Self { src, bytes: src.as_bytes(), pos: 0, modes, errors: Vec::new() }
    }

    /// Lex the entire source into a flat token stream.
    /// Returns `(tokens, errors)`. The stream always ends with `Eof`, which occurs nowhere
    /// else; the spans lie within the source, one after the other. Besides `Eof` and the end
    /// of exec lines left open at the end of the source, every token reads a byte, so from
    /// the start there are at most one token per byte and one more.
    pub fn tokenize(self) -> (r: (Vec<Spanned>, Vec<LexerError>))
        requires
            self.wf(),
        ensures
            tokens_well_placed(r.0@, self.source().len() as int),
            tokens_spelled(r.0@, self.source()),
            extends(self.error_list(), r.1@),
            forall|i: int|
                0 <= i < r.0@.len() ==> lexed_as(
                    #[trigger] r.0@[i],
                    l_step(self.source(), l_after(self.source(), self.lex_state(), i as nat)),
                ),
            r.1@ == l_after(self.source(), self.lex_state(), r.0@.len() as nat).errors,
            r.0@.len() <= self.source().len() - self.position() + exec_count(self.lex_state().modes)
                + 1,
    {
        let mut lx = self;
        let ghost start_errors = lx.errors@;
        let ghost src0 = lx.bytes@;
        let ghost n = lx.bytes@.len();
        let ghost st0 = lx.lex_state();
        let mut out: Vec<Spanned> = Vec::new();
        proof {
            lemma_l_after(src0, st0, 0);
        }
        loop
            invariant_except_break
                lx.wf(),
                st0 == self.lex_state(),
                out@.len() + exec_count(lx.modes@) <= lx.pos - st0.pos + exec_count(st0.modes),
                lx.lex_state() == l_after(src0, st0, out@.len() as nat),
                forall|i: int|
                    0 <= i < out@.len() ==> lexed_as(
                        #[trigger] out@[i],
                        l_step(src0, l_after(src0, st0, i as nat)),
                    ),
                lx.bytes@ == src0,
                n == src0.len(),
                extends(start_errors, lx.errors@),
                forall|i: int| 0 <= i < out@.len() ==> !(#[trigger] out@[i].token is Eof),
                forall|i: int|
                    0 <= i < out@.len() ==> #[trigger] out@[i].span.start <= out@[i].span.end
                        <= lx.pos,
                forall|i: int|
                    0 < i < out@.len() ==> out@[i - 1].span.end <= #[trigger] out@[i].span.start,
                tokens_spelled(out@, src0),
            ensures
                tokens_well_placed(out@, n as int),
                tokens_spelled(out@, src0),
                extends(start_errors, lx.errors@),
                forall|i: int|
                    0 <= i < out@.len() ==> lexed_as(
                        #[trigger] out@[i],
                        l_step(src0, l_after(src0, st0, i as nat)),
                    ),
                lx.errors@ == l_after(src0, st0, out@.len() as nat).errors,
                out@.len() + exec_count(lx.modes@) <= lx.pos - st0.pos + exec_count(st0.modes) + 1,
                lx.pos <= n,
                lx.modes@.len() >= 1,
            decreases n - lx.pos, lx.modes@.len(),
        {
            let ghost prev = out@;
            let ghost p0 = lx.pos;
            let ghost before = lx.lex_state();
            proof {
                lemma_l_after(src0, st0, (out@.len() + 1) as nat);
            }
            let s = lx.next();
            proof {
                lemma_step_budget(src0, before);
            }
            let done = matches!(s.token, Token::Eof);
            out.push(s);
            proof {
                assert forall|i: int| 0 < i < out@.len() implies out@[i - 1].span.end
                    <= #[trigger] out@[i].span.start by {
                    if i < out@.len() - 1 {
                        assert(out@[i] == prev[i] && out@[i - 1] == prev[i - 1]);
                    } else {
                        assert(out@[i] == s && out@[i - 1] == prev[i - 1]);
                        assert(prev[i - 1].span.start <= prev[i - 1].span.end);
                        assert(prev[i - 1].span.end <= p0);
                    }
                }
                assert forall|i: int| 0 <= i < out@.len() implies spells(
                    #[trigger] out@[i].token,
                    src0,
                    out@[i].span.start as int,
                    out@[i].span.end as int,
                ) by {
                    if i < out@.len() - 1 {
                        assert(out@[i] == prev[i]);
                    }
                }
                assert forall|i: int| 0 <= i < out@.len() implies lexed_as(
                    #[trigger] out@[i],
                    l_step(src0, l_after(src0, st0, i as nat)),
                ) by {
                    if i < out@.len() - 1 {
                        assert(out@[i] == prev[i]);
                    }
                }
            }
            if done {
                break;
            }
        }
        (out, lx.errors)
    }

    fn mode(&self) -> (m: Mode)
        requires
            self.sound(),
        ensures
            m == self.top(),
    {
        self.modes[self.modes.len() - 1]
    }

    fn peek(&self) -> (r: Option<u8>)
        requires
            self.sound(),
        ensures
            r == byte_at(self.bytes@, self.pos as int),
    {
        if self.pos < self.bytes.len() {
            Some(self.bytes[self.pos])
        } else {
            None
        }
    }

    fn peek2(&self) -> (r: Option<u8>)
        requires
            self.sound(),
        ensures
            r == byte_at(self.bytes@, self.pos + 1),
    {
        if self.pos < self.bytes.len() && self.pos + 1 < self.bytes.len() {
            Some(self.bytes[self.pos + 1])
        } else {
            None
        }
    }

    fn peek3(&self) -> (r: Option<u8>)
        requires
            self.sound(),
        ensures
            r == byte_at(self.bytes@, self.pos + 2),
    {
        if self.pos < self.bytes.len() && self.pos + 1 < self.bytes.len() && self.pos + 2
            < self.bytes.len() {
            Some(self.bytes[self.pos + 2])
        } else {
            None
        }
    }

    fn advance(&mut self) -> (r: Option<u8>)
        requires
            old(self).sound(),
        ensures
            final(self).sound(),
            old(self).moved(&*final(self)),
            r == byte_at(old(self).bytes@, old(self).pos as int),
            final(self).pos == old(self).pos + if r is Some { 1int } else { 0int },
    {
        if self.pos < self.bytes.len() {
            let b = self.bytes[self.pos];
            self.pos = self.pos + 1;
            Some(b)
        } else {
            None
        }
    }

    fn span(&self, start: usize) -> (r: Span)
        ensures
            r.start == start,
            r.end == self.pos,
    {
        Span::new(start, self.pos)
    }

    fn tok(&self, token: Token, start: usize) -> (r: Spanned)
        ensures
            r.token == token,
            r.span.start == start,
            r.span.end == self.pos,
    {
        Spanned::new(token, self.span(start))
    }

    fn push_mode(&mut self, m: Mode)
        requires
            old(self).sound(),
            !(m is Normal),
            mode_depth(m) <= old(self).pos,
        ensures
            final(self).sound(),
            final(self).modes@ == old(self).modes@.push(m),
            final(self).src == old(self).src,
            final(self).bytes@ == old(self).bytes@,
            final(self).pos == old(self).pos,
            final(self).errors@ == old(self).errors@,
    {
        self.modes.push(m);
        proof {
            assert(self.modes@[self.modes@.len() - 1] == m);
        }
    }

    fn pop_mode(&mut self)
        requires
            old(self).sound(),
        ensures
            final(self).sound(),
            final(self).modes@ == if old(self).modes@.len() > 1 {
                old(self).modes@.drop_last()
            } else {
                old(self).modes@
            },
            final(self).src == old(self).src,
            final(self).bytes@ == old(self).bytes@,
            final(self).pos == old(self).pos,
            final(self).errors@ == old(self).errors@,
    {
        if self.modes.len() > 1 {
            self.modes.pop();
        }
    }

    /// Replace the innermost mode with `m`.
    fn set_top(&mut self, m: Mode)
        requires
            old(self).sound(),
            old(self).modes@.len() > 1,
            !(m is Normal),
            mode_depth(m) <= old(self).pos,
        ensures
            final(self).sound(),
            final(self).modes@ == old(self).modes@.update(old(self).modes@.len() - 1, m),
            final(self).src == old(self).src,
            final(self).bytes@ == old(self).bytes@,
            final(self).pos == old(self).pos,
            final(self).errors@ == old(self).errors@,
    {
        let last = self.modes.len() - 1;
        self.modes.set(last, m);
    }

    fn push_error(&mut self, e: LexerError)
        requires
            old(self).sound(),
        ensures
            final(self).sound(),
            final(self).errors@ == old(self).errors@.push(e),
            final(self).src == old(self).src,
            final(self).bytes@ == old(self).bytes@,
            final(self).pos == old(self).pos,
            final(self).modes@ == old(self).modes@,
    {
        self.errors.push(e);
    }

    fn skip_inline_ws(&mut self)
        requires
            old(self).sound(),
        ensures
            final(self).sound(),
            old(self).moved(&*final(self)),
            forall|k: int|
                old(self).pos <= k < final(self).pos ==> is_inline_ws(#[trigger] old(self).bytes@[k]),
            final(self).pos == final(self).bytes@.len() || !is_inline_ws(
                final(self).bytes@[final(self).pos as int],
            ),
            final(self).pos == ws_end(old(self).bytes@, old(self).pos as int),
    {
        while self.pos < self.bytes.len() && is_inline_ws_b(self.bytes[self.pos])
            invariant
                self.sound(),
                old(self).moved(&*self),
                forall|k: int|
                    old(self).pos <= k < self.pos ==> is_inline_ws(#[trigger] old(self).bytes@[k]),
                ws_end(self.bytes@, old(self).pos as int) == ws_end(self.bytes@, self.pos as int),
            decreases self.bytes@.len() - self.pos,
        {
            self.pos = self.pos + 1;
        }
    }

    fn skip_line_comment(&mut self)
        requires
            old(self).sound(),
        ensures
            final(self).sound(),
            old(self).moved(&*final(self)),
            forall|k: int| old(self).pos <= k < final(self).pos ==> old(self).bytes@[k] != 10u8,
            final(self).pos == final(self).bytes@.len() || final(self).bytes@[final(self).pos as int] == 10u8,
            final(self).pos == line_end(old(self).bytes@, old(self).pos as int),
    {
        while self.pos < self.bytes.len() && self.bytes[self.pos] != 10
            invariant
                self.sound(),
                old(self).moved(&*self),
                forall|k: int| old(self).pos <= k < self.pos ==> old(self).bytes@[k] != 10u8,
                line_end(self.bytes@, old(self).pos as int) == line_end(self.bytes@, self.pos as int),
            decreases self.bytes@.len() - self.pos,
        {
            self.pos = self.pos + 1;
        }
    }

    fn skip_number_chars(&mut self)
        requires
            old(self).sound(),
        ensures
            final(self).sound(),
            old(self).moved(&*final(self)),
            forall|k: int|
                old(self).pos <= k < final(self).pos ==> is_number_char(
                    #[trigger] old(self).bytes@[k],
                ),
            final(self).pos == final(self).bytes@.len() || !is_number_char(
                final(self).bytes@[final(self).pos as int],
            ),
            final(self).pos == num_end(old(self).bytes@, old(self).pos as int),
    {
        while self.pos < self.bytes.len() && is_number_char_b(self.bytes[self.pos])
            invariant
                self.sound(),
                old(self).moved(&*self),
                forall|k: int|
                    old(self).pos <= k < self.pos ==> is_number_char(
                        #[trigger] old(self).bytes@[k],
                    ),
                num_end(self.bytes@, old(self).pos as int) == num_end(self.bytes@, self.pos as int),
            decreases self.bytes@.len() - self.pos,
        {
            self.pos = self.pos + 1;
        }
    }

    fn skip_ident_chars(&mut self)
        requires
            old(self).sound(),
        ensures
            final(self).sound(),
            old(self).moved(&*final(self)),
            forall|k: int|
                old(self).pos <= k < final(self).pos ==> is_ident_char(
                    #[trigger] old(self).bytes@[k],
                ),
            final(self).pos == final(self).bytes@.len() || !is_ident_char(
                final(self).bytes@[final(self).pos as int],
            ),
            final(self).pos == ident_end(old(self).bytes@, old(self).pos as int),
    {
        while self.pos < self.bytes.len() && is_ident_char_b(self.bytes[self.pos])
            invariant
                self.sound(),
                old(self).moved(&*self),
                forall|k: int|
                    old(self).pos <= k < self.pos ==> is_ident_char(
                        #[trigger] old(self).bytes@[k],
                    ),
                ident_end(self.bytes@, old(self).pos as int) == ident_end(self.bytes@, self.pos as int),
            decreases self.bytes@.len() - self.pos,
        {
            self.pos = self.pos + 1;
        }
    }

    /// Skip past the first `*/` at or after the position; without one, skip to the end and
    /// report an unterminated block comment that starts at `start`.
    fn skip_block_comment(&mut self, start: usize)
        requires
            old(self).sound(),
            start <= old(self).pos,
        ensures
            final(self).sound(),
            old(self).grows(&*final(self)),
            final(self).modes@ == old(self).modes@,
            ({
                let b = old(self).bytes@;
                let p = final(self).pos as int;
                ||| (p >= old(self).pos + 2 && b[p - 2] == 42u8 && b[p - 1] == 47u8
                    && final(self).errors@ == old(self).errors@ && forall|k: int|
                    old(self).pos <= k < p - 2 ==> !(#[trigger] b[k] == 42u8 && b[k + 1] == 47u8))
                ||| (p == b.len() && final(self).errors@ == old(self).errors@.push(
                    LexerError::UnterminatedBlock { span: Span { start, end: p as usize } },
                ) && forall|k: int|
                    old(self).pos <= k && k + 1 < p ==> !(#[trigger] b[k] == 42u8 && b[k + 1]
                        == 47u8))
            }),
            match block_end(old(self).bytes@, old(self).pos as int) {
                Some(e) => final(self).pos == e && final(self).errors@ == old(self).errors@,
                None => final(self).pos == old(self).bytes@.len() && final(self).errors@
                    == old(self).errors@.push(
                    LexerError::UnterminatedBlock {
                        span: Span { start, end: old(self).bytes@.len() as usize },
                    },
                ),
            },
    {
        loop
            invariant_except_break
                self.sound(),
                old(self).moved(&*self),
                start <= self.pos,
                block_end(self.bytes@, old(self).pos as int) == block_end(self.bytes@, self.pos as int),
                forall|k: int|
                    old(self).pos <= k < self.pos ==> !(#[trigger] old(self).bytes@[k] == 42u8
                        && byte_at(old(self).bytes@, k + 1) == Some(47u8)),
            ensures
                self.sound(),
                old(self).grows(&*self),
                self.modes@ == old(self).modes@,
                ({
                    let b = old(self).bytes@;
                    let p = self.pos as int;
                    ||| (p >= old(self).pos + 2 && b[p - 2] == 42u8 && b[p - 1] == 47u8
                        && self.errors@ == old(self).errors@ && forall|k: int|
                        old(self).pos <= k < p - 2 ==> !(#[trigger] b[k] == 42u8 && b[k + 1]
                            == 47u8))
                    ||| (p == b.len() && self.errors@ == old(self).errors@.push(
                        LexerError::UnterminatedBlock { span: Span { start, end: p as usize } },
                    ) && forall|k: int|
                        old(self).pos <= k && k + 1 < p ==> !(#[trigger] b[k] == 42u8 && b[k + 1]
                            == 47u8))
                }),
                match block_end(old(self).bytes@, old(self).pos as int) {
                    Some(e) => self.pos == e && self.errors@ == old(self).errors@,
                    None => self.pos == old(self).bytes@.len() && self.errors@
                        == old(self).errors@.push(
                        LexerError::UnterminatedBlock {
                            span: Span { start, end: old(self).bytes@.len() as usize },
                        },
                    ),
                },
            decreases self.bytes@.len() - self.pos,
        {
            match self.advance() {
                None => {
                    let sp = self.span(start);
                    self.push_error(LexerError::UnterminatedBlock { span: sp });
                    break ;
                },
                Some(b) => {
                    if b == 42 && self.peek() == Some(47u8) {
                        self.advance();
                        break ;
                    }
                },
            }
        }
    }

    /// A backslash has just been read; read the escaped byte and append what it stands for
    /// to `out`, or report the problem.
    fn scan_escape(&mut self, str_start: usize, out: &mut String) -> (pushed: bool)
        requires
            old(self).sound(),
            old(self).pos >= 1,
            str_start <= old(self).pos,
        ensures
            final(self).sound(),
            final(self).src == old(self).src,
            final(self).bytes@ == old(self).bytes@,
            final(self).modes@ == old(self).modes@,
            pushed == (byte_at(old(self).bytes@, old(self).pos as int) matches Some(e) && escape_char(
                e,
            ) is Some),
            ({
                let b = old(self).bytes@;
                let p = old(self).pos as int;
                match byte_at(b, p) {
                    None => {
                        &&& final(self).pos == p
                        &&& final(out)@ == old(out)@
                        &&& final(self).errors@ == old(self).errors@.push(
                            LexerError::UnterminatedString {
                                span: Span { start: str_start, end: p as usize },
                            },
                        )
                    },
                    Some(e) => {
                        &&& final(self).pos == p + 1
                        &&& match escape_char(e) {
                            Some(c) => final(out)@ == old(out)@.push(c) && final(self).errors@
                                == old(self).errors@,
                            None => final(out)@ == old(out)@ && final(self).errors@ == old(self).errors@.push(
                                LexerError::InvalidEscape {
                                    ch: e as char,
                                    span: Span { start: (p - 1) as usize, end: (p + 1) as usize },
                                },
                            ),
                        }
                    },
                }
            }),
    {
        let esc = self.pos - 1;
        match self.advance() {
            Some(b) => {
                if b == 110 {
                    push_char(out, '\n');
                    true
                } else if b == 116 {
                    push_char(out, '\t');
                    true
                } else if b == 114 {
                    push_char(out, '\r');
                    true
                } else if b == 92 {
                    push_char(out, '\\');
                    true
                } else if b == 34 {
                    push_char(out, '"');
                    true
                } else if b == 123 {
                    push_char(out, '{');
                    true
                } else {
                    let sp = Span::new(esc, self.pos);
                    self.push_error(LexerError::InvalidEscape { ch: byte_char(b), span: sp });
                    false
                }
            },
            None => {
                let sp = self.span(str_start);
                self.push_error(LexerError::UnterminatedString { span: sp });
                false
            },
        }
    }
}

impl<'src> Lexer<'src> {
    /// The bytes from `start` to the position, underscores dropped, as text.
    fn number_string(&self, start: usize) -> (r: String)
        requires
            self.sound(),
            start <= self.pos,
        ensures
            r@ == number_text(self.bytes@.subrange(start as int, self.pos as int)),
    {
        let mut s = String::new();
        let mut i = start;
        while i < self.pos
            invariant
                self.sound(),
                start <= i <= self.pos,
                s@ == number_text(self.bytes@.subrange(start as int, i as int)),
            decreases self.pos - i,
        {
            let b = self.bytes[i];
            proof {
                let sub = self.bytes@.subrange(start as int, i + 1);
                assert(sub.drop_last() =~= self.bytes@.subrange(start as int, i as int));
            }
            if b != 95 {
                push_char(&mut s, byte_char(b));
            }
            i = i + 1;
        }
        s
    }

    /// The value of the digits from `start` to the position, when it fits in an `i64`.
    fn digits_i64(&self, start: usize) -> (r: Option<i64>)
        requires
            self.sound(),
            start <= self.pos,
            forall|k: int| start <= k < self.pos ==> is_number_char(#[trigger] self.bytes@[k]),
        ensures
            ({
                let v = digits_value(self.bytes@.subrange(start as int, self.pos as int));
                match r {
                    Some(x) => v <= i64::MAX && x == v,
                    None => v > i64::MAX,
                }
            }),
    {
        let mut acc: i64 = 0;
        let mut over = false;
        let mut i = start;
        while i < self.pos
            invariant
                self.sound(),
                start <= i <= self.pos,
                forall|k: int| start <= k < self.pos ==> is_number_char(#[trigger] self.bytes@[k]),
                ({
                    let v = digits_value(self.bytes@.subrange(start as int, i as int));
                    if over {
                        v > i64::MAX
                    } else {
                        v <= i64::MAX && acc == v
                    }
                }),
            decreases self.pos - i,
        {
            let b = self.bytes[i];
            proof {
                let sub = self.bytes@.subrange(start as int, i + 1);
                assert(sub.drop_last() =~= self.bytes@.subrange(start as int, i as int));
                assert(sub.last() == b);
            }
            if b != 95 && !over {
                let d = (b - 48) as i64;
                if acc > (i64::MAX - d) / 10 {
                    over = true;
                } else {
                    acc = acc * 10 + d;
                }
            }
            i = i + 1;
        }
        if over {
            None
        } else {
            Some(acc)
        }
    }

    /// A digit at `start` has just been read: read the rest of the number.
    fn scan_number(&mut self, start: usize) -> (s: Spanned)
        requires
            old(self).sound(),
            start + 1 == old(self).pos,
            is_digit(old(self).bytes@[start as int]),
        ensures
            final(self).sound(),
            old(self).grows(&*final(self)),
            final(self).modes@ == old(self).modes@,
            s.span.start == start,
            s.span.end == final(self).pos,
            final(self).pos > start,
            final(self).pos == final(self).bytes@.len() || !is_number_char(
                final(self).bytes@[final(self).pos as int],
            ),
            ({
                let b = old(self).bytes@;
                let e = final(self).pos as int;
                let text = b.subrange(start as int, e);
                match s.token {
                    Token::Int(v) => {
                        &&& forall|k: int| start <= k < e ==> is_number_char(#[trigger] b[k])
                        &&& !(byte_at(b, e) == Some(46u8) && (byte_at(b, e + 1) matches Some(d)
                            && is_digit(d)))
                        &&& if digits_value(text) <= i64::MAX {
                            v == digits_value(text) && final(self).errors@ == old(self).errors@
                        } else {
                            v == 0 && final(self).errors@ == old(self).errors@.push(
                                LexerError::InvalidNumber { span: Span { start, end: e as usize } },
                            )
                        }
                    },
                    Token::Float(t) => {
                        &&& t@ == number_text(text)
                        &&& final(self).errors@ == old(self).errors@
                        &&& exists|dot: int|
                            start < dot < e - 1 && #[trigger] b[dot] == 46u8 && is_digit(b[dot + 1])
                                && (forall|k: int|
                                start <= k < e && k != dot ==> is_number_char(#[trigger] b[k]))
                    },
                    _ => false,
                }
            }),
            Self::lexes(
                &*old(self),
                &*final(self),
                s,
                number_at(old(self).bytes@, start as int, old(self).lex_state()),
            ),
    {
        self.skip_number_chars();
        let is_float = match self.peek() {
            Some(c) => c == 46 && match self.peek2() {
                Some(d) => is_digit_b(d),
                None => false,
            },
            None => false,
        };
        if is_float {
            let ghost dot = self.pos as int;
            self.advance();
            self.skip_number_chars();
            let text = self.number_string(start);
            proof {
                let b = old(self).bytes@;
                assert(b[dot] == 46u8 && is_digit(b[dot + 1]));
            }
            return self.tok(Token::Float(text), start);
        }
        match self.digits_i64(start) {
            Some(v) => self.tok(Token::Int(v), start),
            None => {
                let sp = self.span(start);
                self.push_error(LexerError::InvalidNumber { span: sp });
                proof {
                    assert(self.errors@ =~= old(self).errors@ + seq![
                        LexerError::InvalidNumber { span: sp },
                    ]);
                }
                self.tok(Token::Int(0), start)
            },
        }
    }

    /// A `"` at `start` has just been read: read a plain or a triple-quoted string.
    fn scan_string(&mut self, start: usize) -> (s: Spanned)
        requires
            old(self).sound(),
            start + 1 == old(self).pos,
        ensures
            final(self).sound(),
            old(self).grows(&*final(self)),
            final(self).modes@ == old(self).modes@,
            s.span.start == start,
            s.span.end == final(self).pos,
            final(self).pos > start,
            s.token matches Token::Str(v) && if opens_triple(old(self).bytes@, start as int) {
                triple_body(old(self).bytes@, start + 3) == (final(self).pos as int, v@)
            } else {
                str_body(old(self).bytes@, start + 1) == (final(self).pos as int, v@)
            },
            Self::lexes(
                &*old(self),
                &*final(self),
                s,
                string_at(old(self).bytes@, start as int, old(self).lex_state()),
            ),
    {
        if self.peek() == Some(34u8) && self.peek2() == Some(34u8) {
            self.advance();
            self.advance();
            return self.scan_triple_string(start);
        }
        self.scan_single_string(start)
    }

    fn scan_single_string(&mut self, start: usize) -> (s: Spanned)
        requires
            old(self).sound(),
            start < old(self).pos,
        ensures
            final(self).sound(),
            old(self).grows(&*final(self)),
            final(self).modes@ == old(self).modes@,
            s.token matches Token::Str(v) && str_body(old(self).bytes@, old(self).pos as int) == (
                final(self).pos as int,
                v@,
            ),
            s.span.start == start,
            s.span.end == final(self).pos,
            final(self).errors@ == old(self).errors@ + str_errs(
                old(self).bytes@,
                old(self).pos as int,
                start as int,
            ),
    {
        let mut s = String::new();
        let ghost b = self.bytes@;
        let ghost mut acc: Seq<LexerError> = seq![];
        proof {
            assert(old(self).errors@ + acc =~= old(self).errors@);
            assert(acc + str_errs(b, self.pos as int, start as int) =~= str_errs(b, self.pos as int, start as int));
        }
        loop
            invariant_except_break
                self.sound(),
                old(self).grows(&*self),
                self.modes@ == old(self).modes@,
                start < self.pos,
                b == self.bytes@,
                ({
                    let r = str_body(b, self.pos as int);
                    str_body(b, old(self).pos as int) == (r.0, s@ + r.1)
                }),
                self.errors@ == old(self).errors@ + acc,
                str_errs(b, old(self).pos as int, start as int) == acc + str_errs(
                    b,
                    self.pos as int,
                    start as int,
                ),
            ensures
                self.sound(),
                old(self).grows(&*self),
                self.modes@ == old(self).modes@,
                start < self.pos,
                str_body(b, old(self).pos as int) == (self.pos as int, s@),
                self.errors@ == old(self).errors@ + str_errs(b, old(self).pos as int, start as int),
            decreases self.bytes@.len() - self.pos,
        {
            let ghost s0 = s@;
            let ghost p = self.pos as int;
            let ghost e0 = self.errors@;
            match self.advance() {
                None => {
                    let sp = self.span(start);
                    self.push_error(LexerError::UnterminatedString { span: sp });
                    proof {
                        assert(s@ + seq![] =~= s@);
                        assert(self.errors@ =~= old(self).errors@ + (acc + seq![
                            crate::lexing::unterminated(start as int, p),
                        ]));
                    }
                    break ;
                },
                Some(c) => {
                    if c == 10 {
                        let sp = self.span(start);
                        self.push_error(LexerError::UnterminatedString { span: sp });
                        proof {
                            assert(s@ + seq![] =~= s@);
                            assert(self.errors@ =~= old(self).errors@ + (acc + seq![
                                crate::lexing::unterminated(start as int, p + 1),
                            ]));
                        }
                        break ;
                    } else if c == 34 {
                        proof {
                            assert(s@ + seq![] =~= s@);
                            assert(acc + seq![] =~= acc);
                        }
                        break ;
                    } else if c == 92 {
                        let _ = self.scan_escape(start, &mut s);
                        proof {
                            if p + 1 < b.len() {
                                let r = str_body(b, p + 2);
                                assert(s0 + (escape_text(b[p + 1]) + r.1) =~= s@ + r.1);
                                let x = crate::lexing::escape_errs(b, p);
                                assert(self.errors@ =~= e0 + x);
                                assert(acc + (x + str_errs(b, p + 2, start as int)) =~= (acc + x)
                                    + str_errs(b, p + 2, start as int));
                                assert(old(self).errors@ + (acc + x) =~= e0 + x);
                                acc = acc + x;
                            } else {
                                assert(s0 + seq![] =~= s@ + seq![]);
                                let u = crate::lexing::unterminated(start as int, p + 1);
                                assert(acc + seq![u, u] =~= (acc + seq![u]) + seq![u]);
                                assert(self.errors@ =~= old(self).errors@ + (acc + seq![u]));
                                acc = acc + seq![u];
                            }
                        }
                    } else {
                        push_char(&mut s, byte_char(c));
                        proof {
                            let r = str_body(b, p + 1);
                            assert(s0 + (seq![c as char] + r.1) =~= s@ + r.1);
                        }
                    }
                },
            }
        }
        self.tok(Token::Str(s), start)
    }

    fn scan_triple_string(&mut self, start: usize) -> (s: Spanned)
        requires
            old(self).sound(),
            start < old(self).pos,
        ensures
            final(self).sound(),
            old(self).grows(&*final(self)),
            final(self).modes@ == old(self).modes@,
            s.token matches Token::Str(v) && triple_body(old(self).bytes@, old(self).pos as int) == (
                final(self).pos as int,
                v@,
            ),
            s.span.start == start,
            s.span.end == final(self).pos,
            final(self).errors@ == old(self).errors@ + triple_errs(
                old(self).bytes@,
                old(self).pos as int,
                start as int,
            ),
    {
        let mut s = String::new();
        let ghost b = self.bytes@;
        let ghost mut acc: Seq<LexerError> = seq![];
        proof {
            assert(old(self).errors@ + acc =~= old(self).errors@);
            assert(acc + triple_errs(b, self.pos as int, start as int) =~= triple_errs(
                b,
                self.pos as int,
                start as int,
            ));
        }
        loop
            invariant_except_break
                self.sound(),
                old(self).grows(&*self),
                self.modes@ == old(self).modes@,
                start < self.pos,
                b == self.bytes@,
                ({
                    let r = triple_body(b, self.pos as int);
                    triple_body(b, old(self).pos as int) == (r.0, s@ + r.1)
                }),
                self.errors@ == old(self).errors@ + acc,
                triple_errs(b, old(self).pos as int, start as int) == acc + triple_errs(
                    b,
                    self.pos as int,
                    start as int,
                ),
            ensures
                self.sound(),
                old(self).grows(&*self),
                self.modes@ == old(self).modes@,
                start < self.pos,
                triple_body(b, old(self).pos as int) == (self.pos as int, s@),
                self.errors@ == old(self).errors@ + triple_errs(b, old(self).pos as int, start as int),
            decreases self.bytes@.len() - self.pos,
        {
            let ghost s0 = s@;
            let ghost p = self.pos as int;
            let ghost e0 = self.errors@;
            if self.peek() == Some(34u8) && self.peek2() == Some(34u8) && self.peek3() == Some(34u8) {
                self.advance();
                self.advance();
                self.advance();
                proof {
                    assert(s@ + seq![] =~= s@);
                    assert(acc + seq![] =~= acc);
                }
                break ;
            }
            match self.advance() {
                None => {
                    let sp = self.span(start);
                    self.push_error(LexerError::UnterminatedString { span: sp });
                    proof {
                        assert(s@ + seq![] =~= s@);
                        assert(self.errors@ =~= old(self).errors@ + (acc + seq![
                            crate::lexing::unterminated(start as int, p),
                        ]));
                    }
                    break ;
                },
                Some(c) => {
                    if c == 92 {
                        let _ = self.scan_escape(start, &mut s);
                        proof {
                            if p + 1 < b.len() {
                                let r = triple_body(b, p + 2);
                                assert(s0 + (escape_text(b[p + 1]) + r.1) =~= s@ + r.1);
                                let x = crate::lexing::escape_errs(b, p);
                                assert(self.errors@ =~= e0 + x);
                                assert(acc + (x + triple_errs(b, p + 2, start as int)) =~= (acc + x)
                                    + triple_errs(b, p + 2, start as int));
                                assert(old(self).errors@ + (acc + x) =~= e0 + x);
                                acc = acc + x;
                            } else {
                                assert(s0 + seq![] =~= s@ + seq![]);
                                let u = crate::lexing::unterminated(start as int, p + 1);
                                assert(acc + seq![u, u] =~= (acc + seq![u]) + seq![u]);
                                assert(self.errors@ =~= old(self).errors@ + (acc + seq![u]));
                                acc = acc + seq![u];
                            }
                        }
                    } else {
                        push_char(&mut s, byte_char(c));
                        proof {
                            let r = triple_body(b, p + 1);
                            assert(s0 + (seq![c as char] + r.1) =~= s@ + r.1);
                        }
                    }
                },
            }
        }
        self.tok(Token::Str(s), start)
    }

    /// Read a run of f-string text up to `"`, `{` or the end; `None` when the run yields
    /// no text. The triple gives the text and its start and end offsets.
    fn scan_fstr_text(&mut self) -> (r: Option<(String, usize, usize)>)
        requires
            old(self).sound(),
        ensures
            final(self).sound(),
            old(self).grows(&*final(self)),
            final(self).modes@ == old(self).modes@,
            (match byte_at(old(self).bytes@, old(self).pos as int) {
                Some(b) => b != 34 && b != 123 ==> final(self).pos > old(self).pos,
                None => true,
            }),
            ({
                let run = fstr_body(old(self).bytes@, old(self).pos as int);
                &&& run.0 == final(self).pos
                &&& match r {
                    Some((t, a, e)) => a == old(self).pos && e == final(self).pos && t@ == run.1
                        && run.1.len() >= 1,
                    None => run.1.len() == 0,
                }
            }),
            final(self).errors@ == old(self).errors@ + fstr_errs(
                old(self).bytes@,
                old(self).pos as int,
                old(self).pos as int,
            ),
    {
        let start = self.pos;
        let mut s = String::new();
        let mut empty = true;
        let ghost b = self.bytes@;
        let ghost mut acc: Seq<LexerError> = seq![];
        proof {
            assert(old(self).errors@ + acc =~= old(self).errors@);
            assert(acc + fstr_errs(b, self.pos as int, start as int) =~= fstr_errs(
                b,
                self.pos as int,
                start as int,
            ));
        }
        loop
            invariant_except_break
                self.sound(),
                old(self).grows(&*self),
                self.modes@ == old(self).modes@,
                start == old(self).pos,
                self.errors@ == old(self).errors@ + acc,
                fstr_errs(b, start as int, start as int) == acc + fstr_errs(
                    b,
                    self.pos as int,
                    start as int,
                ),
                (match byte_at(old(self).bytes@, old(self).pos as int) {
                    Some(b) => b != 34 && b != 123 ==> self.pos > old(self).pos || self.pos
                        == start,
                    None => true,
                }),
                b == self.bytes@,
                empty == (s@.len() == 0),
                ({
                    let r = fstr_body(b, self.pos as int);
                    fstr_body(b, start as int) == (r.0, s@ + r.1)
                }),
            ensures
                self.sound(),
                old(self).grows(&*self),
                self.modes@ == old(self).modes@,
                (match byte_at(old(self).bytes@, old(self).pos as int) {
                    Some(b) => b != 34 && b != 123 ==> self.pos > old(self).pos,
                    None => true,
                }),
                empty == (s@.len() == 0),
                fstr_body(b, start as int) == (self.pos as int, s@),
                self.errors@ == old(self).errors@ + fstr_errs(b, start as int, start as int),
            decreases self.bytes@.len() - self.pos,
        {
            let ghost s0 = s@;
            let ghost p = self.pos as int;
            let ghost e0 = self.errors@;
            match self.peek() {
                None => {
                    proof {
                        assert(s@ + seq![] =~= s@);
                        assert(acc + seq![] =~= acc);
                    }
                    break ;
                },
                Some(c) => {
                    if c == 34 || c == 123 {
                        proof {
                            assert(s@ + seq![] =~= s@);
                            assert(acc + seq![] =~= acc);
                        }
                        break ;
                    } else if c == 92 {
                        self.advance();
                        if self.scan_escape(start, &mut s) {
                            empty = false;
                        }
                        proof {
                            if p + 1 < b.len() {
                                let r = fstr_body(b, p + 2);
                                assert(s0 + (escape_text(b[p + 1]) + r.1) =~= s@ + r.1);
                                let x = crate::lexing::escape_errs(b, p);
                                assert(self.errors@ =~= e0 + x);
                                assert(acc + (x + fstr_errs(b, p + 2, start as int)) =~= (acc + x)
                                    + fstr_errs(b, p + 2, start as int));
                                assert(old(self).errors@ + (acc + x) =~= e0 + x);
                                acc = acc + x;
                            } else {
                                assert(s0 + seq![] =~= s@ + seq![]);
                                let u = crate::lexing::unterminated(start as int, p + 1);
                                assert(self.errors@ =~= old(self).errors@ + (acc + seq![u]));
                                assert((acc + seq![u]) + seq![] =~= acc + seq![u]);
                                acc = acc + seq![u];
                            }
                        }
                    } else {
                        self.advance();
                        push_char(&mut s, byte_char(c));
                        empty = false;
                        proof {
                            let r = fstr_body(b, p + 1);
                            assert(s0 + (seq![c as char] + r.1) =~= s@ + r.1);
                        }
                    }
                },
            }
        }
        if empty {
            None
        } else {
            Some((s, start, self.pos))
        }
    }
}

impl<'src> Lexer<'src> {
    /// Read a raw word of an exec line that starts at the position.
    fn scan_exec_word(&mut self, start: usize) -> (s: Spanned)
        requires
            old(self).sound(),
            start == old(self).pos,
            starts_char(old(self).bytes@, start as int),
            byte_at(old(self).bytes@, start as int) matches Some(b) && !is_exec_stop(b) && !(b
                == 47u8 && byte_at(old(self).bytes@, start + 1) == Some(47u8)),
        ensures
            final(self).sound(),
            old(self).moved(&*final(self)),
            final(self).pos > start,
            final(self).pos == final(self).bytes@.len() || is_exec_stop(
                final(self).bytes@[final(self).pos as int],
            ),
            s.span.start == start,
            s.span.end == final(self).pos,
            s.token matches Token::ExecWord(w) && encode_utf8(w@) == old(self).bytes@.subrange(
                start as int,
                final(self).pos as int,
            ),
            final(self).pos == word_end(old(self).bytes@, start as int),
    {
        loop
            invariant
                self.sound(),
                old(self).moved(&*self),
                start <= self.pos,
                word_end(self.bytes@, start as int) == word_end(self.bytes@, self.pos as int),
                byte_at(self.bytes@, start as int) matches Some(b) && !is_exec_stop(b) && !(b
                    == 47u8 && byte_at(self.bytes@, start + 1) == Some(47u8)),
            ensures
                self.sound(),
                old(self).moved(&*self),
                self.pos > start,
                self.pos == self.bytes@.len() || is_exec_stop(self.bytes@[self.pos as int]),
                word_end(self.bytes@, start as int) == self.pos,
            decreases self.bytes@.len() - self.pos,
        {
            match self.peek() {
                None => {
                    break ;
                },
                Some(b) => {
                    if b == 10 || b == 13 || b == 32 || b == 9 || b == 123 || b == 63 {
                        break ;
                    }
                    if b == 47 && self.peek2() == Some(47u8) && self.pos == start {
                        break ;
                    }
                    self.advance();
                },
            }
        }
        let word = substring(self.src, start, self.pos);
        self.tok(Token::ExecWord(word), start)
    }

    /// Read the next token in the current mode.
    fn next(&mut self) -> (s: Spanned)
        requires
            old(self).wf(),
        ensures
            Self::step(&*old(self), &*final(self), s),
            Self::lexes(&*old(self), &*final(self), s, l_step(old(self).bytes@, old(self).lex_state())),
    {
        match self.mode() {
            Mode::Normal => self.lex_normal(),
            Mode::Exec => self.lex_exec(),
            Mode::ExecInterp { depth } => self.lex_exec_interp(depth),
            Mode::FStr => self.lex_fstr(),
            Mode::FStrInterp { depth } => self.lex_fstr_interp(depth),
        }
    }

    fn lex_normal(&mut self) -> (s: Spanned)
        requires
            old(self).wf(),
            !(old(self).top() is Exec),
        ensures
            Self::step(&*old(self), &*final(self), s),
            s.token is Eof || final(self).pos > old(self).pos,
            ({
                ||| final(self).modes@ == old(self).modes@
                ||| (final(self).modes@ == old(self).modes@.push(Mode::Exec) && s.token is Exec)
                ||| (final(self).modes@ == old(self).modes@.push(Mode::FStr) && s.token is FStrStart)
            }),
            Self::lexes(&*old(self), &*final(self), s, l_normal(old(self).bytes@, old(self).lex_state())),
        decreases old(self).bytes@.len() - old(self).pos,
    {
        proof {
            lemma_l_normal(self.bytes@, self.lex_state());
        }
        self.skip_inline_ws();
        let start = self.pos;
        let b = match self.peek() {
            None => {
                return self.tok(Token::Eof, start);
            },
            Some(b) => b,
        };
        // Comments
        if b == 47 {
            match self.peek2() {
                Some(c) => {
                    if c == 47 {
                        self.advance();
                        self.advance();
                        self.skip_line_comment();
                        return self.lex_normal();
                    } else if c == 42 {
                        self.advance();
                        self.advance();
                        self.skip_block_comment(start);
                        proof {
                            if block_end(self.bytes@, start + 2) is None {
                                assert(self.errors@ =~= old(self).errors@ + seq![
                                    LexerError::UnterminatedBlock {
                                        span: Span { start, end: self.bytes@.len() as usize },
                                    },
                                ]);
                            }
                        }
                        return self.lex_normal();
                    }
                },
                None => {},
            }
        }
        // Newlines
        if b == 10 {
            self.advance();
            proof {
                assert(self.bytes@.subrange(start as int, self.pos as int) =~= seq![10u8]);
            }
            return self.tok(Token::Newline, start);
        }
        if b == 13 {
            self.advance();
            if self.peek() == Some(10u8) {
                self.advance();
                proof {
                    assert(self.bytes@.subrange(start as int, self.pos as int) =~= seq![13u8, 10u8]);
                }
            } else {
                proof {
                    assert(self.bytes@.subrange(start as int, self.pos as int) =~= seq![13u8]);
                }
            }
            return self.tok(Token::Newline, start);
        }
        // f-string: f followed immediately by `"`
        if b == 102 && self.peek2() == Some(34u8) {
            self.advance();
            self.advance();
            self.push_mode(Mode::FStr);
            proof {
                assert(self.bytes@.subrange(start as int, self.pos as int) =~= seq![102u8, 34u8]);
            }
            return self.tok(Token::FStrStart, start);
        }
        // Plain string
        if b == 34 {
            self.advance();
            let s = self.scan_string(start);
            proof {
                assert(self.bytes@.subrange(start as int, self.pos as int)[0] == 34u8);
            }
            return s;
        }
        // Number
        if is_digit_b(b) {
            self.advance();
            let s = self.scan_number(start);
            proof {
                let bs = self.bytes@;
                let e = self.pos as int;
                assert(!(byte_at(bs, e) matches Some(c) && is_number_char(c)));
                assert(s.token matches Token::Int(v) ==> int_spelled(bs, start as int, e, v));
                assert(s.token matches Token::Float(t) ==> float_spelled(bs, start as int, e, t@));
            }
            return s;
        }
        // Identifier / keyword
        if is_ident_start_b(b) {
            self.advance();
            self.skip_ident_chars();
            proof {
                self.lemma_valid();
                if self.pos < self.bytes@.len() {
                    lemma_after_ascii(self.bytes@, self.pos as int);
                }
            }
            let word = substring(self.src, start, self.pos);
            let tok = Token::from_word(word.as_str());
            proof {
                let bs = self.bytes@;
                assert(is_ident_char(bs[start as int]));
                assert(whole_word(bs, start as int, self.pos as int));
                lemma_spells_word(tok, bs, start as int, self.pos as int, word@);
            }
            let is_exec = matches!(tok, Token::Exec);
            if is_exec {
                self.push_mode(Mode::Exec);
            }
            return self.tok(tok, start);
        }
        // Two-char operators (checked before the single-char ones)
        match self.two_char_op(b) {
            Some(two) => {
                self.advance();
                self.advance();
                proof {
                    lemma_spells_two(two, self.bytes@, start as int);
                }
                return self.tok(two, start);
            },
            None => {},
        }
        // Single-char tokens
        self.advance();
        match one_char_op(b) {
            Some(tok) => {
                proof {
                    lemma_spells_one(tok, self.bytes@, start as int);
                }
                self.tok(tok, start)
            },
            None => {
                let sp = self.span(start);
                self.push_error(LexerError::UnexpectedChar { ch: byte_char(b), span: sp });
                proof {
                    assert(self.errors@ =~= old(self).errors@ + seq![
                        LexerError::UnexpectedChar { ch: b as char, span: sp },
                    ]);
                }
                // skip the bad byte and go on
                self.lex_normal()
            },
        }
    }

    fn two_char_op(&self, first: u8) -> (r: Option<Token>)
        requires
            self.sound(),
        ensures
            r == match byte_at(self.bytes@, self.pos + 1) {
                Some(second) => two_char_token(first, second),
                None => None,
            },
    {
        let second = match self.peek2() {
            Some(c) => c,
            None => {
                return None;
            },
        };
        if first == 61 && second == 61 {
            Some(Token::EqEq)
        } else if first == 33 && second == 61 {
            Some(Token::BangEq)
        } else if first == 60 && second == 61 {
            Some(Token::LtEq)
        } else if first == 62 && second == 61 {
            Some(Token::GtEq)
        } else if first == 45 && second == 62 {
            Some(Token::Arrow)
        } else if first == 46 && second == 46 {
            Some(Token::DotDot)
        } else {
            None
        }
    }

    /// Consume a newline (`\n`, `\r\n` or a lone `\r`) if one is next.
    fn eat_line_end(&mut self)
        requires
            old(self).sound(),
        ensures
            final(self).sound(),
            old(self).moved(&*final(self)),
            final(self).pos == old(self).pos || final(self).bytes@[final(self).pos - 1] == 10u8
                || final(self).bytes@[final(self).pos - 1] == 13u8,
            final(self).pos > old(self).pos <==> (byte_at(old(self).bytes@, old(self).pos as int)
                == Some(10u8) || byte_at(old(self).bytes@, old(self).pos as int) == Some(13u8)),
            final(self).pos == eat_nl(old(self).bytes@, old(self).pos as int),
    {
        match self.peek() {
            Some(b) => {
                if b == 10 {
                    self.advance();
                } else if b == 13 {
                    self.advance();
                    if self.peek() == Some(10u8) {
                        self.advance();
                    }
                }
            },
            None => {},
        }
    }

    fn lex_exec(&mut self) -> (s: Spanned)
        requires
            old(self).wf(),
            old(self).top() is Exec,
        ensures
            Self::step(&*old(self), &*final(self), s),
            Self::lexes(&*old(self), &*final(self), s, exec_next(old(self).bytes@, old(self).lex_state())),
    {
        let ghost entry = self.pos;
        // Skip only spaces and tabs, not newlines: a newline ends the exec line.
        self.skip_inline_ws();
        let start = self.pos;
        proof {
            if start > entry {
                self.lemma_after_ascii_here();
            }
        }
        match self.peek() {
            // End of source ends the exec line
            None => {
                self.pop_mode();
                self.tok(Token::ExecEnd, start)
            },
            Some(b) => {
                if b == 10 || b == 13 {
                    self.eat_line_end();
                    self.pop_mode();
                    proof {
                        self.lemma_after_ascii_here();
                        assert(self.bytes@.subrange(start as int, self.pos as int)[0] == b);
                    }
                    self.tok(Token::ExecEnd, start)
                } else if b == 63 {
                    // `?` swallow-error suffix: emit Question, consume the newline, end exec
                    self.advance();
                    let ghost p1 = self.pos;
                    self.skip_inline_ws();
                    let ghost p2 = self.pos;
                    self.eat_line_end();
                    proof {
                        if self.pos == p2 && p2 > p1 {
                            assert(is_inline_ws(self.bytes@[p2 - 1]));
                        }
                    }
                    self.pop_mode();
                    proof {
                        self.lemma_after_ascii_here();
                        assert(self.bytes@.subrange(start as int, self.pos as int)[0] == 63u8);
                    }
                    self.tok(Token::Question, start)
                } else if b == 123 {
                    // `{expr}` interpolation
                    self.advance();
                    self.push_mode(Mode::ExecInterp { depth: 1 });
                    proof {
                        assert(self.bytes@.subrange(start as int, self.pos as int) =~= seq![123u8]);
                    }
                    self.tok(Token::ExecOpen, start)
                } else if b == 47 && self.peek2() == Some(47u8) {
                    // `//` comment ends the exec line (no Newline token)
                    self.skip_line_comment();
                    self.eat_line_end();
                    self.pop_mode();
                    proof {
                        self.lemma_after_ascii_here();
                        assert(self.bytes@.subrange(start as int, self.pos as int)[0] == 47u8);
                    }
                    self.tok(Token::ExecEnd, start)
                } else {
                    // Raw command word
                    self.scan_exec_word(start)
                }
            },
        }
    }

    fn lex_exec_interp(&mut self, depth: usize) -> (s: Spanned)
        requires
            old(self).wf(),
            old(self).top() == (Mode::ExecInterp { depth }),
        ensures
            Self::step(&*old(self), &*final(self), s),
            Self::lexes(
                &*old(self),
                &*final(self),
                s,
                interp_next(old(self).bytes@, old(self).lex_state(), depth, true),
            ),
    {
        self.skip_inline_ws();
        let start = self.pos;
        match self.peek() {
            None => {
                self.pop_mode();
                self.tok(Token::Eof, start)
            },
            Some(b) => {
                if b == 125 {
                    self.advance();
                    proof {
                        self.lemma_after_ascii_here();
                        assert(self.bytes@.subrange(start as int, self.pos as int) =~= seq![125u8]);
                    }
                    if depth <= 1 {
                        // back to Exec
                        self.pop_mode();
                        self.tok(Token::ExecClose, start)
                    } else {
                        self.set_top(Mode::ExecInterp { depth: depth - 1 });
                        self.tok(Token::RBrace, start)
                    }
                } else if b == 123 {
                    self.advance();
                    self.set_top(Mode::ExecInterp { depth: depth + 1 });
                    proof {
                        assert(self.bytes@.subrange(start as int, self.pos as int) =~= seq![123u8]);
                    }
                    self.tok(Token::LBrace, start)
                } else {
                    // Any other token: lex as a normal expression token
                    self.lex_normal_one()
                }
            },
        }
    }

    fn lex_fstr(&mut self) -> (s: Spanned)
        requires
            old(self).wf(),
            old(self).top() is FStr,
        ensures
            Self::step(&*old(self), &*final(self), s),
            Self::lexes(&*old(self), &*final(self), s, l_fstr(old(self).bytes@, old(self).lex_state())),
        decreases old(self).bytes@.len() - old(self).pos,
    {
        proof {
            lemma_l_fstr(self.bytes@, self.lex_state());
        }
        let start = self.pos;
        match self.peek() {
            None => {
                let sp = self.span(start);
                self.push_error(LexerError::UnterminatedString { span: sp });
                self.pop_mode();
                self.tok(Token::Eof, start)
            },
            Some(b) => {
                if b == 34 {
                    self.advance();
                    self.pop_mode();
                    proof {
                        self.lemma_after_ascii_here();
                        assert(self.bytes@.subrange(start as int, self.pos as int) =~= seq![34u8]);
                    }
                    self.tok(Token::FStrEnd, start)
                } else if b == 123 {
                    self.advance();
                    self.push_mode(Mode::FStrInterp { depth: 1 });
                    proof {
                        assert(self.bytes@.subrange(start as int, self.pos as int) =~= seq![123u8]);
                    }
                    self.tok(Token::FStrOpen, start)
                } else {
                    match self.scan_fstr_text() {
                        Some((text, a, e)) => Spanned::new(Token::FStrText(text), Span::new(a, e)),
                        None => {
                            self.advance();
                            self.lex_fstr()
                        },
                    }
                }
            },
        }
    }

    fn lex_fstr_interp(&mut self, depth: usize) -> (s: Spanned)
        requires
            old(self).wf(),
            old(self).top() == (Mode::FStrInterp { depth }),
        ensures
            Self::step(&*old(self), &*final(self), s),
            Self::lexes(
                &*old(self),
                &*final(self),
                s,
                interp_next(old(self).bytes@, old(self).lex_state(), depth, false),
            ),
    {
        self.skip_inline_ws();
        let start = self.pos;
        match self.peek() {
            None => {
                self.pop_mode();
                self.tok(Token::Eof, start)
            },
            Some(b) => {
                if b == 125 {
                    self.advance();
                    proof {
                        self.lemma_after_ascii_here();
                        assert(self.bytes@.subrange(start as int, self.pos as int) =~= seq![125u8]);
                    }
                    if depth <= 1 {
                        // back to FStr
                        self.pop_mode();
                        self.tok(Token::FStrClose, start)
                    } else {
                        self.set_top(Mode::FStrInterp { depth: depth - 1 });
                        self.tok(Token::RBrace, start)
                    }
                } else if b == 123 {
                    self.advance();
                    self.set_top(Mode::FStrInterp { depth: depth + 1 });
                    proof {
                        assert(self.bytes@.subrange(start as int, self.pos as int) =~= seq![123u8]);
                    }
                    self.tok(Token::LBrace, start)
                } else {
                    // Any other token: lex as a normal expression token
                    self.lex_normal_one()
                }
            },
        }
    }

    /// Lex exactly one token as if in Normal mode, without disturbing the mode stack.
    /// Used by interpolation contexts to read expression tokens.
    fn lex_normal_one(&mut self) -> (s: Spanned)
        requires
            old(self).wf(),
            !(old(self).top() is Exec),
        ensures
            Self::step(&*old(self), &*final(self), s),
            final(self).modes@ == old(self).modes@,
            ({
                let r = l_normal(old(self).bytes@, old(self).lex_state());
                Self::lexes(
                    &*old(self),
                    &*final(self),
                    s,
                    Lexed { next: LexState { modes: old(self).modes@, ..r.next }, ..r },
                )
            }),
    {
        let depth_before = self.modes.len();
        let ghost r = l_normal(self.bytes@, self.lex_state());
        let tok = self.lex_normal();
        // Drop any mode that lex_normal pushed (for an `exec` keyword or an f-string that
        // has no effect inside an interpolation).
        while self.modes.len() > depth_before
            invariant
                old(self).wf(),
                self.sound(),
                old(self).grows(&*self),
                depth_before == old(self).modes@.len(),
                self.modes@ == old(self).modes@ || self.modes@.drop_last() == old(self).modes@,
                tok.span.end == self.pos,
                old(self).pos <= tok.span.start <= tok.span.end,
                tok.token is Eof ==> tok.span.start == self.pos && self.pos == self.bytes@.len(),
                tok.token is Eof || self.pos > old(self).pos,
                r == l_normal(old(self).bytes@, old(self).lex_state()),
                tok_is(tok.token, r.tok),
                tok.span.start == r.start,
                tok.span.end == r.end,
                self.pos == r.next.pos,
                self.errors@ == r.next.errors,
            decreases self.modes@.len(),
        {
            let ghost prev = self.modes@;
            self.modes.pop();
            proof {
                assert(self.modes@ =~= prev.drop_last());
                assert(self.modes@ == old(self).modes@);
            }
        }
        tok
    }
}

/// `new` starts with all of `old`.
pub open spec fn extends<T>(old: Seq<T>, new: Seq<T>) -> bool {
    &&& old.len() <= new.len()
    &&& forall|i: int| 0 <= i < old.len() ==> new[i] == old[i]
}

/// The tokens are in source order, within the first `n` bytes, and end with the one `Eof`.
pub open spec fn tokens_well_placed(toks: Seq<Spanned>, n: int) -> bool {
    &&& toks.len() >= 1
    &&& toks.last().token is Eof
    &&& forall|i: int| 0 <= i < toks.len() - 1 ==> !(#[trigger] toks[i].token is Eof)
    &&& forall|i: int| 0 <= i < toks.len() ==> #[trigger] toks[i].span.start <= toks[i].span.end <= n
    &&& forall|i: int| 0 < i < toks.len() ==> toks[i - 1].span.end <= #[trigger] toks[i].span.start
}

/// Each token is spelled by the source text that its span covers.
pub open spec fn tokens_spelled(toks: Seq<Spanned>, b: Seq<u8>) -> bool {
    forall|i: int|
        0 <= i < toks.len() ==> spells(#[trigger] toks[i].token, b, toks[i].span.start as int, toks[i].span.end as int)
}

} // verus!
