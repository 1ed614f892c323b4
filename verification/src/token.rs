use crate::span::Span;
use crate::text::{i64_text, int_text};
use vstd::prelude::*;
use vstd::string::StringExecFns;
use vstd::string::StringSliceAdditionalSpecFns;
use vstd::utf8::*;

verus! {

/// A lexical token. Number literals with a fractional part keep their digits as text
/// (underscores removed), e.g. `Float("3.14")`; turning that text into a float is left
/// to the caller.
#[derive(Debug, Clone, PartialEq)]
pub enum Token {
    Int(i64),
    Float(String),
    Str(String),
    FStrStart,
    FStrText(String),
    FStrOpen,
    FStrClose,
    FStrEnd,
    Ident(String),
    And,
    Catch,
    Else,
    Exec,
    Exit,
    False,
    Fn,
    For,
    If,
    Import,
    In,
    Let,
    Mut,
    Not,
    Or,
    Return,
    Task,
    True,
    Try,
    While,
    EqEq,
    BangEq,
    Lt,
    LtEq,
    Gt,
    GtEq,
    Eq,
    Plus,
    Minus,
    Star,
    Percent,
    Arrow,
    DotDot,
    Slash,
    Dot,
    Question,
    Comma,
    Colon,
    Semi,
    LBrace,
    RBrace,
    LParen,
    RParen,
    LBracket,
    RBracket,
    ExecWord(String),
    ExecOpen,
    ExecClose,
    ExecEnd,
    Newline,
    Eof,
}

/// The keyword spelled by `w`, if any.
pub open spec fn keyword_token(w: Seq<u8>) -> Option<Token> {
    if w == seq![97u8, 110u8, 100u8] {  // "and"
        Some(Token::And)
    } else if w == seq![99u8, 97u8, 116u8, 99u8, 104u8] {  // "catch"
        Some(Token::Catch)
    } else if w == seq![101u8, 108u8, 115u8, 101u8] {  // "else"
        Some(Token::Else)
    } else if w == seq![101u8, 120u8, 101u8, 99u8] {  // "exec"
        Some(Token::Exec)
    } else if w == seq![101u8, 120u8, 105u8, 116u8] {  // "exit"
        Some(Token::Exit)
    } else if w == seq![102u8, 97u8, 108u8, 115u8, 101u8] {  // "false"
        Some(Token::False)
    } else if w == seq![102u8, 110u8] {  // "fn"
        Some(Token::Fn)
    } else if w == seq![102u8, 111u8, 114u8] {  // "for"
        Some(Token::For)
    } else if w == seq![105u8, 102u8] {  // "if"
        Some(Token::If)
    } else if w == seq![105u8, 109u8, 112u8, 111u8, 114u8, 116u8] {  // "import"
        Some(Token::Import)
    } else if w == seq![105u8, 110u8] {  // "in"
        Some(Token::In)
    } else if w == seq![108u8, 101u8, 116u8] {  // "let"
        Some(Token::Let)
    } else if w == seq![109u8, 117u8, 116u8] {  // "mut"
        Some(Token::Mut)
    } else if w == seq![110u8, 111u8, 116u8] {  // "not"
        Some(Token::Not)
    } else if w == seq![111u8, 114u8] {  // "or"
        Some(Token::Or)
    } else if w == seq![114u8, 101u8, 116u8, 117u8, 114u8, 110u8] {  // "return"
        Some(Token::Return)
    } else if w == seq![116u8, 97u8, 115u8, 107u8] {  // "task"
        Some(Token::Task)
    } else if w == seq![116u8, 114u8, 117u8, 101u8] {  // "true"
        Some(Token::True)
    } else if w == seq![116u8, 114u8, 121u8] {  // "try"
        Some(Token::Try)
    } else if w == seq![119u8, 104u8, 105u8, 108u8, 101u8] {  // "while"
        Some(Token::While)
    } else {
        None
    }
}

/// Byte-wise equality of two slices.
pub fn bytes_equal(a: &[u8], b: &[u8]) -> (r: bool)
    ensures
        r == (a@ == b@),
{
    if a.len() != b.len() {
        return false;
    }
    let mut i: usize = 0;
    while i < a.len()
        invariant
            a@.len() == b@.len(),
            i <= a@.len(),
            forall|j: int| 0 <= j < i ==> a@[j] == b@[j],
        decreases a.len() - i,
    {
        if a[i] != b[i] {
            return false;
        }
        i = i + 1;
    }
    assert(a@ =~= b@);
    true
}

/// Compare `w` against the literal keyword `k`.
fn is_word(w: &[u8], k: &[u8]) -> (r: bool)
    ensures
        r == (w@ == k@),
{
    bytes_equal(w, k)
}

impl Token {
    /// Map bare word to its keyword token, or wrap as ident.
    pub fn from_word(w: &str) -> (r: Token)
        ensures
            keyword_token(w.spec_bytes()) matches Some(k) ==> r == k,
            keyword_token(w.spec_bytes()) is None ==> (r matches Token::Ident(name) && name@ == w@),
            word_token(w@, r),
    {
        let b = w.as_bytes();
        if is_word(b, &[97u8, 110u8, 100u8]) {  // "and"
            Token::And
        } else if is_word(b, &[99u8, 97u8, 116u8, 99u8, 104u8]) {  // "catch"
            Token::Catch
        } else if is_word(b, &[101u8, 108u8, 115u8, 101u8]) {  // "else"
            Token::Else
        } else if is_word(b, &[101u8, 120u8, 101u8, 99u8]) {  // "exec"
            Token::Exec
        } else if is_word(b, &[101u8, 120u8, 105u8, 116u8]) {  // "exit"
            Token::Exit
        } else if is_word(b, &[102u8, 97u8, 108u8, 115u8, 101u8]) {  // "false"
            Token::False
        } else if is_word(b, &[102u8, 110u8]) {  // "fn"
            Token::Fn
        } else if is_word(b, &[102u8, 111u8, 114u8]) {  // "for"
            Token::For
        } else if is_word(b, &[105u8, 102u8]) {  // "if"
            Token::If
        } else if is_word(b, &[105u8, 109u8, 112u8, 111u8, 114u8, 116u8]) {  // "import"
            Token::Import
        } else if is_word(b, &[105u8, 110u8]) {  // "in"
            Token::In
        } else if is_word(b, &[108u8, 101u8, 116u8]) {  // "let"
            Token::Let
        } else if is_word(b, &[109u8, 117u8, 116u8]) {  // "mut"
            Token::Mut
        } else if is_word(b, &[110u8, 111u8, 116u8]) {  // "not"
            Token::Not
        } else if is_word(b, &[111u8, 114u8]) {  // "or"
            Token::Or
        } else if is_word(b, &[114u8, 101u8, 116u8, 117u8, 114u8, 110u8]) {  // "return"
            Token::Return
        } else if is_word(b, &[116u8, 97u8, 115u8, 107u8]) {  // "task"
            Token::Task
        } else if is_word(b, &[116u8, 114u8, 117u8, 101u8]) {  // "true"
            Token::True
        } else if is_word(b, &[116u8, 114u8, 121u8]) {  // "try"
            Token::Try
        } else if is_word(b, &[119u8, 104u8, 105u8, 108u8, 101u8]) {  // "while"
            Token::While
        } else {
            Token::Ident(w.to_owned())
        }
    }
}

/// The position of the token's variant in the declaration of `Token`.
pub open spec fn variant_index(t: Token) -> nat {
    match t {
        Token::Int(_) => 0,
        Token::Float(_) => 1,
        Token::Str(_) => 2,
        Token::FStrStart => 3,
        Token::FStrText(_) => 4,
        Token::FStrOpen => 5,
        Token::FStrClose => 6,
        Token::FStrEnd => 7,
        Token::Ident(_) => 8,
        Token::And => 9,
        Token::Catch => 10,
        Token::Else => 11,
        Token::Exec => 12,
        Token::Exit => 13,
        Token::False => 14,
        Token::Fn => 15,
        Token::For => 16,
        Token::If => 17,
        Token::Import => 18,
        Token::In => 19,
        Token::Let => 20,
        Token::Mut => 21,
        Token::Not => 22,
        Token::Or => 23,
        Token::Return => 24,
        Token::Task => 25,
        Token::True => 26,
        Token::Try => 27,
        Token::While => 28,
        Token::EqEq => 29,
        Token::BangEq => 30,
        Token::Lt => 31,
        Token::LtEq => 32,
        Token::Gt => 33,
        Token::GtEq => 34,
        Token::Eq => 35,
        Token::Plus => 36,
        Token::Minus => 37,
        Token::Star => 38,
        Token::Percent => 39,
        Token::Arrow => 40,
        Token::DotDot => 41,
        Token::Slash => 42,
        Token::Dot => 43,
        Token::Question => 44,
        Token::Comma => 45,
        Token::Colon => 46,
        Token::Semi => 47,
        Token::LBrace => 48,
        Token::RBrace => 49,
        Token::LParen => 50,
        Token::RParen => 51,
        Token::LBracket => 52,
        Token::RBracket => 53,
        Token::ExecWord(_) => 54,
        Token::ExecOpen => 55,
        Token::ExecClose => 56,
        Token::ExecEnd => 57,
        Token::Newline => 58,
        Token::Eof => 59,
    }
}

/// A variant that carries no contents.
pub open spec fn is_bare(t: Token) -> bool {
    !(t is Int || t is Float || t is Str || t is FStrText || t is Ident || t is ExecWord)
}

/// Two bare tokens of the same variant are equal.
pub proof fn lemma_bare_same_variant(a: Token, b: Token)
    requires
        is_bare(a),
        variant_index(a) == variant_index(b),
    ensures
        a == b,
{
}

impl Token {
    /// Index of this token's variant in the declaration of `Token`.
    pub fn variant(&self) -> (r: u8)
        ensures
            r == variant_index(*self),
    {
        match self {
            Token::Int(_) => 0,
            Token::Float(_) => 1,
            Token::Str(_) => 2,
            Token::FStrStart => 3,
            Token::FStrText(_) => 4,
            Token::FStrOpen => 5,
            Token::FStrClose => 6,
            Token::FStrEnd => 7,
            Token::Ident(_) => 8,
            Token::And => 9,
            Token::Catch => 10,
            Token::Else => 11,
            Token::Exec => 12,
            Token::Exit => 13,
            Token::False => 14,
            Token::Fn => 15,
            Token::For => 16,
            Token::If => 17,
            Token::Import => 18,
            Token::In => 19,
            Token::Let => 20,
            Token::Mut => 21,
            Token::Not => 22,
            Token::Or => 23,
            Token::Return => 24,
            Token::Task => 25,
            Token::True => 26,
            Token::Try => 27,
            Token::While => 28,
            Token::EqEq => 29,
            Token::BangEq => 30,
            Token::Lt => 31,
            Token::LtEq => 32,
            Token::Gt => 33,
            Token::GtEq => 34,
            Token::Eq => 35,
            Token::Plus => 36,
            Token::Minus => 37,
            Token::Star => 38,
            Token::Percent => 39,
            Token::Arrow => 40,
            Token::DotDot => 41,
            Token::Slash => 42,
            Token::Dot => 43,
            Token::Question => 44,
            Token::Comma => 45,
            Token::Colon => 46,
            Token::Semi => 47,
            Token::LBrace => 48,
            Token::RBrace => 49,
            Token::LParen => 50,
            Token::RParen => 51,
            Token::LBracket => 52,
            Token::RBracket => 53,
            Token::ExecWord(_) => 54,
            Token::ExecOpen => 55,
            Token::ExecClose => 56,
            Token::ExecEnd => 57,
            Token::Newline => 58,
            Token::Eof => 59,
        }
    }

    /// Whether `self` and `other` are of the same variant.
    pub fn same_variant(&self, other: &Token) -> (r: bool)
        ensures
            r == (variant_index(*self) == variant_index(*other)),
    {
        self.variant() == other.variant()
    }

    /// A copy of this token.
    pub fn duplicate(&self) -> (r: Token)
        ensures
            r == *self,
    {
        match self {
            Token::Int(v) => Token::Int(*v),
            Token::Float(s) => Token::Float(s.clone()),
            Token::Str(s) => Token::Str(s.clone()),
            Token::FStrStart => Token::FStrStart,
            Token::FStrText(s) => Token::FStrText(s.clone()),
            Token::FStrOpen => Token::FStrOpen,
            Token::FStrClose => Token::FStrClose,
            Token::FStrEnd => Token::FStrEnd,
            Token::Ident(s) => Token::Ident(s.clone()),
            Token::And => Token::And,
            Token::Catch => Token::Catch,
            Token::Else => Token::Else,
            Token::Exec => Token::Exec,
            Token::Exit => Token::Exit,
            Token::False => Token::False,
            Token::Fn => Token::Fn,
            Token::For => Token::For,
            Token::If => Token::If,
            Token::Import => Token::Import,
            Token::In => Token::In,
            Token::Let => Token::Let,
            Token::Mut => Token::Mut,
            Token::Not => Token::Not,
            Token::Or => Token::Or,
            Token::Return => Token::Return,
            Token::Task => Token::Task,
            Token::True => Token::True,
            Token::Try => Token::Try,
            Token::While => Token::While,
            Token::EqEq => Token::EqEq,
            Token::BangEq => Token::BangEq,
            Token::Lt => Token::Lt,
            Token::LtEq => Token::LtEq,
            Token::Gt => Token::Gt,
            Token::GtEq => Token::GtEq,
            Token::Eq => Token::Eq,
            Token::Plus => Token::Plus,
            Token::Minus => Token::Minus,
            Token::Star => Token::Star,
            Token::Percent => Token::Percent,
            Token::Arrow => Token::Arrow,
            Token::DotDot => Token::DotDot,
            Token::Slash => Token::Slash,
            Token::Dot => Token::Dot,
            Token::Question => Token::Question,
            Token::Comma => Token::Comma,
            Token::Colon => Token::Colon,
            Token::Semi => Token::Semi,
            Token::LBrace => Token::LBrace,
            Token::RBrace => Token::RBrace,
            Token::LParen => Token::LParen,
            Token::RParen => Token::RParen,
            Token::LBracket => Token::LBracket,
            Token::RBracket => Token::RBracket,
            Token::ExecWord(s) => Token::ExecWord(s.clone()),
            Token::ExecOpen => Token::ExecOpen,
            Token::ExecClose => Token::ExecClose,
            Token::ExecEnd => Token::ExecEnd,
            Token::Newline => Token::Newline,
            Token::Eof => Token::Eof,
        }
    }
}

/// How a token other than a float literal is written out: its text, a string literal in
/// quotes, and a word in angle brackets for the end of an exec line, a newline and the end.
pub open spec fn token_text(t: Token) -> Seq<char> {
    match t {
        Token::Int(n) => int_text(n as int),
        Token::Float(x) => x@,
        Token::Str(s) => "\""@ + s@ + "\""@,
        Token::FStrStart => "f\""@,
        Token::FStrText(t) => t@,
        Token::FStrOpen => "{"@,
        Token::FStrClose => "}"@,
        Token::FStrEnd => "\""@,
        Token::Ident(s) => s@,
        Token::And => "and"@,
        Token::Catch => "catch"@,
        Token::Else => "else"@,
        Token::Exec => "exec"@,
        Token::Exit => "exit"@,
        Token::False => "false"@,
        Token::Fn => "fn"@,
        Token::For => "for"@,
        Token::If => "if"@,
        Token::Import => "import"@,
        Token::In => "in"@,
        Token::Let => "let"@,
        Token::Mut => "mut"@,
        Token::Not => "not"@,
        Token::Or => "or"@,
        Token::Return => "return"@,
        Token::Task => "task"@,
        Token::True => "true"@,
        Token::Try => "try"@,
        Token::While => "while"@,
        Token::EqEq => "=="@,
        Token::BangEq => "!="@,
        Token::Lt => "<"@,
        Token::LtEq => "<="@,
        Token::Gt => ">"@,
        Token::GtEq => ">="@,
        Token::Eq => "="@,
        Token::Plus => "+"@,
        Token::Minus => "-"@,
        Token::Star => "*"@,
        Token::Slash => "/"@,
        Token::Percent => "%"@,
        Token::Arrow => "->"@,
        Token::DotDot => ".."@,
        Token::Dot => "."@,
        Token::Question => "?"@,
        Token::Comma => ","@,
        Token::Colon => ":"@,
        Token::Semi => ";"@,
        Token::LBrace => "{"@,
        Token::RBrace => "}"@,
        Token::LParen => "("@,
        Token::RParen => ")"@,
        Token::LBracket => "["@,
        Token::RBracket => "]"@,
        Token::ExecWord(w) => w@,
        Token::ExecOpen => "{"@,
        Token::ExecClose => "}"@,
        Token::ExecEnd => "<exec-end>"@,
        Token::Newline => "<newline>"@,
        Token::Eof => "<eof>"@,
    }
}

/// `t` is what the word `w` reads as: its keyword, or else an identifier with its text.
pub open spec fn word_token(w: Seq<char>, t: Token) -> bool {
    match keyword_token(encode_utf8(w)) {
        Some(k) => t == k,
        None => t matches Token::Ident(n) && n@ == w,
    }
}

/// A keyword token.
pub open spec fn is_keyword(t: Token) -> bool {
    ||| t is And
    ||| t is Catch
    ||| t is Else
    ||| t is Exec
    ||| t is Exit
    ||| t is False
    ||| t is Fn
    ||| t is For
    ||| t is If
    ||| t is Import
    ||| t is In
    ||| t is Let
    ||| t is Mut
    ||| t is Not
    ||| t is Or
    ||| t is Return
    ||| t is Task
    ||| t is True
    ||| t is Try
    ||| t is While
}

/// The encoding of ASCII text is its character codes, byte for byte.
pub proof fn lemma_ascii_encoding(c: Seq<char>)
    requires
        is_ascii_chars(c),
    ensures
        encode_utf8(c) == Seq::new(c.len(), |i: int| c[i] as u8),
{
    is_ascii_chars_encode_utf8(c);
    assert(encode_utf8(c) =~= Seq::new(c.len(), |i: int| c[i] as u8));
}

/// A keyword, or an identifier whose text is no keyword, written out (`to_string`) and read
/// back as a word (`from_word`) gives the same token.
pub proof fn law_word_round_trip(t: Token)
    requires
        is_keyword(t) || (t matches Token::Ident(s) && keyword_token(encode_utf8(s@)) is None),
    ensures
        word_token(token_text(t), t),
{
    match t {
        Token::And => {
            reveal_strlit("and");
            lemma_ascii_encoding("and"@);
            assert(encode_utf8("and"@) =~= seq![97u8, 110u8, 100u8]);
        },
        Token::Catch => {
            reveal_strlit("catch");
            lemma_ascii_encoding("catch"@);
            assert(encode_utf8("catch"@) =~= seq![99u8, 97u8, 116u8, 99u8, 104u8]);
        },
        Token::Else => {
            reveal_strlit("else");
            lemma_ascii_encoding("else"@);
            assert(encode_utf8("else"@) =~= seq![101u8, 108u8, 115u8, 101u8]);
        },
        Token::Exec => {
            reveal_strlit("exec");
            lemma_ascii_encoding("exec"@);
            assert(encode_utf8("exec"@) =~= seq![101u8, 120u8, 101u8, 99u8]);
        },
        Token::Exit => {
            reveal_strlit("exit");
            lemma_ascii_encoding("exit"@);
            assert(encode_utf8("exit"@) =~= seq![101u8, 120u8, 105u8, 116u8]);
        },
        Token::False => {
            reveal_strlit("false");
            lemma_ascii_encoding("false"@);
            assert(encode_utf8("false"@) =~= seq![102u8, 97u8, 108u8, 115u8, 101u8]);
        },
        Token::Fn => {
            reveal_strlit("fn");
            lemma_ascii_encoding("fn"@);
            assert(encode_utf8("fn"@) =~= seq![102u8, 110u8]);
        },
        Token::For => {
            reveal_strlit("for");
            lemma_ascii_encoding("for"@);
            assert(encode_utf8("for"@) =~= seq![102u8, 111u8, 114u8]);
        },
        Token::If => {
            reveal_strlit("if");
            lemma_ascii_encoding("if"@);
            assert(encode_utf8("if"@) =~= seq![105u8, 102u8]);
        },
        Token::Import => {
            reveal_strlit("import");
            lemma_ascii_encoding("import"@);
            assert(encode_utf8("import"@) =~= seq![105u8, 109u8, 112u8, 111u8, 114u8, 116u8]);
        },
        Token::In => {
            reveal_strlit("in");
            lemma_ascii_encoding("in"@);
            assert(encode_utf8("in"@) =~= seq![105u8, 110u8]);
        },
        Token::Let => {
            reveal_strlit("let");
            lemma_ascii_encoding("let"@);
            assert(encode_utf8("let"@) =~= seq![108u8, 101u8, 116u8]);
        },
        Token::Mut => {
            reveal_strlit("mut");
            lemma_ascii_encoding("mut"@);
            assert(encode_utf8("mut"@) =~= seq![109u8, 117u8, 116u8]);
        },
        Token::Not => {
            reveal_strlit("not");
            lemma_ascii_encoding("not"@);
            assert(encode_utf8("not"@) =~= seq![110u8, 111u8, 116u8]);
        },
        Token::Or => {
            reveal_strlit("or");
            lemma_ascii_encoding("or"@);
            assert(encode_utf8("or"@) =~= seq![111u8, 114u8]);
        },
        Token::Return => {
            reveal_strlit("return");
            lemma_ascii_encoding("return"@);
            assert(encode_utf8("return"@) =~= seq![114u8, 101u8, 116u8, 117u8, 114u8, 110u8]);
        },
        Token::Task => {
            reveal_strlit("task");
            lemma_ascii_encoding("task"@);
            assert(encode_utf8("task"@) =~= seq![116u8, 97u8, 115u8, 107u8]);
        },
        Token::True => {
            reveal_strlit("true");
            lemma_ascii_encoding("true"@);
            assert(encode_utf8("true"@) =~= seq![116u8, 114u8, 117u8, 101u8]);
        },
        Token::Try => {
            reveal_strlit("try");
            lemma_ascii_encoding("try"@);
            assert(encode_utf8("try"@) =~= seq![116u8, 114u8, 121u8]);
        },
        Token::While => {
            reveal_strlit("while");
            lemma_ascii_encoding("while"@);
            assert(encode_utf8("while"@) =~= seq![119u8, 104u8, 105u8, 108u8, 101u8]);
        },
        _ => {},
    }
}

/// A word reads as a keyword only when it is exactly that keyword's text: a longer or
/// shorter word, or one that merely starts like a keyword, is no keyword.
pub proof fn law_keyword_only_exact(w: Seq<u8>)
    ensures
        keyword_token(w) matches Some(k) ==> is_keyword(k) && w == encode_utf8(token_text(k)),
{
    if let Some(k) = keyword_token(w) {
        law_word_round_trip(k);
    }
}

impl Token {
    /// The token written out as text, as in messages. A float literal is left to the
    /// caller, which turns its text into a number first.
    pub fn to_string(&self) -> (r: String)
        requires
            !(*self is Float),
        ensures
            r@ == token_text(*self),
    {
        match self {
            Token::Int(n) => i64_text(*n),
            Token::Float(_) => String::new(),
            Token::Str(s) => {
                let mut r = "\"".to_owned();
                r.append(s.as_str());
                r.append("\"");
                r
            },
            Token::FStrStart => "f\"".to_owned(),
            Token::FStrText(t) => t.clone(),
            Token::FStrOpen => "{".to_owned(),
            Token::FStrClose => "}".to_owned(),
            Token::FStrEnd => "\"".to_owned(),
            Token::Ident(s) => s.clone(),
            Token::And => "and".to_owned(),
            Token::Catch => "catch".to_owned(),
            Token::Else => "else".to_owned(),
            Token::Exec => "exec".to_owned(),
            Token::Exit => "exit".to_owned(),
            Token::False => "false".to_owned(),
            Token::Fn => "fn".to_owned(),
            Token::For => "for".to_owned(),
            Token::If => "if".to_owned(),
            Token::Import => "import".to_owned(),
            Token::In => "in".to_owned(),
            Token::Let => "let".to_owned(),
            Token::Mut => "mut".to_owned(),
            Token::Not => "not".to_owned(),
            Token::Or => "or".to_owned(),
            Token::Return => "return".to_owned(),
            Token::Task => "task".to_owned(),
            Token::True => "true".to_owned(),
            Token::Try => "try".to_owned(),
            Token::While => "while".to_owned(),
            Token::EqEq => "==".to_owned(),
            Token::BangEq => "!=".to_owned(),
            Token::Lt => "<".to_owned(),
            Token::LtEq => "<=".to_owned(),
            Token::Gt => ">".to_owned(),
            Token::GtEq => ">=".to_owned(),
            Token::Eq => "=".to_owned(),
            Token::Plus => "+".to_owned(),
            Token::Minus => "-".to_owned(),
            Token::Star => "*".to_owned(),
            Token::Slash => "/".to_owned(),
            Token::Percent => "%".to_owned(),
            Token::Arrow => "->".to_owned(),
            Token::DotDot => "..".to_owned(),
            Token::Dot => ".".to_owned(),
            Token::Question => "?".to_owned(),
            Token::Comma => ",".to_owned(),
            Token::Colon => ":".to_owned(),
            Token::Semi => ";".to_owned(),
            Token::LBrace => "{".to_owned(),
            Token::RBrace => "}".to_owned(),
            Token::LParen => "(".to_owned(),
            Token::RParen => ")".to_owned(),
            Token::LBracket => "[".to_owned(),
            Token::RBracket => "]".to_owned(),
            Token::ExecWord(w) => w.clone(),
            Token::ExecOpen => "{".to_owned(),
            Token::ExecClose => "}".to_owned(),
            Token::ExecEnd => "<exec-end>".to_owned(),
            Token::Newline => "<newline>".to_owned(),
            Token::Eof => "<eof>".to_owned(),
        }
    }
}

/// A token together with its source location
#[derive(Debug, Clone, PartialEq)]
pub struct Spanned {
    pub token: Token,
    pub span: Span,
}

impl Spanned {
    pub fn new(token: Token, span: Span) -> (r: Self)
        ensures
            r.token == token,
            r.span == span,
    {
        Self { token, span }
    }
}

} // verus!
