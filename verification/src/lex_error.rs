use crate::span::{span_text, Span};
use crate::text::push_char;
use vstd::prelude::*;
use vstd::string::StringExecFns;

verus! {

/// A problem found while lexing. Lexing goes on after each of them.
#[derive(Debug, Clone, PartialEq)]
pub enum LexerError {
    UnexpectedChar { ch: char, span: Span },
    UnterminatedString { span: Span },
    UnterminatedBlock { span: Span },
    InvalidEscape { ch: char, span: Span },
    InvalidNumber { span: Span },
}


/// The message for a lexing problem.
pub open spec fn lexer_error_text(e: LexerError) -> Seq<char> {
    match e {
        LexerError::UnexpectedChar { ch, span } => "unexpected character '"@ + seq![ch] + "' at "@
            + span_text(span),
        LexerError::UnterminatedString { span } => "unterminated string starting at "@ + span_text(
            span,
        ),
        LexerError::UnterminatedBlock { span } => "unterminated block comment starting at "@
            + span_text(span),
        LexerError::InvalidEscape { ch, span } => "invalid escape sequence '\\"@ + seq![ch]
            + "' at "@ + span_text(span),
        LexerError::InvalidNumber { span } => "invalid number literal at "@ + span_text(span),
    }
}

impl LexerError {
    /// The message for this problem.
    pub fn to_string(&self) -> (r: String)
        ensures
            r@ == lexer_error_text(*self),
    {
        match self {
            LexerError::UnexpectedChar { ch, span } => {
                let mut r = "unexpected character '".to_owned();
                push_char(&mut r, *ch);
                r.append("' at ");
                r.append(span.to_string().as_str());
                r
            },
            LexerError::UnterminatedString { span } => {
                let mut r = "unterminated string starting at ".to_owned();
                r.append(span.to_string().as_str());
                r
            },
            LexerError::UnterminatedBlock { span } => {
                let mut r = "unterminated block comment starting at ".to_owned();
                r.append(span.to_string().as_str());
                r
            },
            LexerError::InvalidEscape { ch, span } => {
                let mut r = "invalid escape sequence '\\".to_owned();
                push_char(&mut r, *ch);
                r.append("' at ");
                r.append(span.to_string().as_str());
                r
            },
            LexerError::InvalidNumber { span } => {
                let mut r = "invalid number literal at ".to_owned();
                r.append(span.to_string().as_str());
                r
            },
        }
    }
}

} // verus!
