use crate::span::Span;
use vstd::prelude::*;
use vstd::string::StringExecFns;

verus! {

/// A problem found while compiling.
#[derive(Debug, Clone)]
pub enum CompileError {
    /// Tried to assign to an immutable variable
    ImmutableAssign { name: String, span: Span },
    /// Referenced a variable that hasn't been declared
    UndeclaredVar { name: String, span: Span },
    /// `return` outside a function
    ReturnOutsideFunction { span: Span },
    /// Too many constants or locals (VM limits)
    Overflow { msg: &'static str, span: Span },
    /// Generic compile-time error
    Invalid { msg: String, span: Span },
}

impl CompileError {
    /// Where the problem is.
    pub open spec fn spec_span(self) -> Span {
        match self {
            CompileError::ImmutableAssign { span, .. } => span,
            CompileError::UndeclaredVar { span, .. } => span,
            CompileError::ReturnOutsideFunction { span } => span,
            CompileError::Overflow { span, .. } => span,
            CompileError::Invalid { span, .. } => span,
        }
    }

    pub fn span(&self) -> (r: Span)
        ensures
            r == self.spec_span(),
    {
        match self {
            CompileError::ImmutableAssign { span, .. } => *span,
            CompileError::UndeclaredVar { span, .. } => *span,
            CompileError::ReturnOutsideFunction { span } => *span,
            CompileError::Overflow { span, .. } => *span,
            CompileError::Invalid { span, .. } => *span,
        }
    }
}


/// The message for a compile problem.
pub open spec fn compile_error_text(e: CompileError) -> Seq<char> {
    match e {
        CompileError::ImmutableAssign { name, .. } => "cannot assign to immutable variable `"@
            + name@ + "`"@,
        CompileError::UndeclaredVar { name, .. } => "use of undeclared variable `"@ + name@ + "`"@,
        CompileError::ReturnOutsideFunction { .. } => "`return` outside of a function"@,
        CompileError::Overflow { msg, .. } => "compiler limit exceeded: "@ + msg@,
        CompileError::Invalid { msg, .. } => msg@,
    }
}

impl CompileError {
    /// The message for this problem.
    pub fn to_string(&self) -> (r: String)
        ensures
            r@ == compile_error_text(*self),
    {
        match self {
            CompileError::ImmutableAssign { name, .. } => {
                let mut r = "cannot assign to immutable variable `".to_owned();
                r.append(name.as_str());
                r.append("`");
                r
            },
            CompileError::UndeclaredVar { name, .. } => {
                let mut r = "use of undeclared variable `".to_owned();
                r.append(name.as_str());
                r.append("`");
                r
            },
            CompileError::ReturnOutsideFunction { .. } => "`return` outside of a function".to_owned(),
            CompileError::Overflow { msg, .. } => {
                let mut r = "compiler limit exceeded: ".to_owned();
                r.append(msg);
                r
            },
            CompileError::Invalid { msg, .. } => msg.clone(),
        }
    }
}

} // verus!
