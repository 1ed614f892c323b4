use crate::span::Span;
use crate::token::{token_text, Token};
use vstd::prelude::*;
use vstd::string::StringExecFns;

verus! {

/// A problem found while parsing.
#[derive(Debug, Clone, PartialEq)]
pub enum ParseError {
    /// Got a token we didn't expect at all
    Unexpected { got: Token, span: Span, msg: &'static str },
    /// Expected a specific token, got something else
    Expected { expected: &'static str, got: Token, span: Span },
    /// Reached EOF before the construct was complete
    UnexpectedEof { span: Span, msg: &'static str },
    /// A well-formed but semantically invalid construct
    Invalid { span: Span, msg: &'static str },
}

impl ParseError {
    /// Where the problem is.
    pub open spec fn spec_span(self) -> Span {
        match self {
            ParseError::Unexpected { span, .. } => span,
            ParseError::Expected { span, .. } => span,
            ParseError::UnexpectedEof { span, .. } => span,
            ParseError::Invalid { span, .. } => span,
        }
    }

    pub fn span(&self) -> (r: Span)
        ensures
            r == self.spec_span(),
    {
        match self {
            ParseError::Unexpected { span, .. } => *span,
            ParseError::Expected { span, .. } => *span,
            ParseError::UnexpectedEof { span, .. } => *span,
            ParseError::Invalid { span, .. } => *span,
        }
    }
}


/// The message for a parsing problem.
pub open spec fn parse_error_text(e: ParseError) -> Seq<char> {
    match e {
        ParseError::Unexpected { got, msg, .. } => msg@ + ", got `"@ + token_text(got) + "`"@,
        ParseError::Expected { expected, got, .. } => "expected "@ + expected@ + ", got `"@
            + token_text(got) + "`"@,
        ParseError::UnexpectedEof { msg, .. } => "unexpected end of file: "@ + msg@,
        ParseError::Invalid { msg, .. } => msg@,
    }
}

impl ParseError {
    /// The message for this problem. A float literal in it is left to the caller, which
    /// turns its text into a number first.
    pub fn to_string(&self) -> (r: String)
        requires
            !(*self matches ParseError::Unexpected { got, .. } && got is Float),
            !(*self matches ParseError::Expected { got, .. } && got is Float),
        ensures
            r@ == parse_error_text(*self),
    {
        match self {
            ParseError::Unexpected { got, msg, .. } => {
                let mut r = (*msg).to_owned();
                r.append(", got `");
                r.append(got.to_string().as_str());
                r.append("`");
                r
            },
            ParseError::Expected { expected, got, .. } => {
                let mut r = "expected ".to_owned();
                r.append(expected);
                r.append(", got `");
                r.append(got.to_string().as_str());
                r.append("`");
                r
            },
            ParseError::UnexpectedEof { msg, .. } => {
                let mut r = "unexpected end of file: ".to_owned();
                r.append(msg);
                r
            },
            ParseError::Invalid { msg, .. } => (*msg).to_owned(),
        }
    }
}

} // verus!
