//! Errors reported by parsing, evaluation and rendering.
use vstd::prelude::*;

verus! {

/// The failure of a parse, an evaluation or a render.
#[derive(Debug, Clone, PartialEq, Eq)]
pub enum SyntaxError {
    /// A value that cannot be used where it was given.
    InvalidArgument(String),
    /// A command that cannot be rendered (for instance an empty program name).
    RenderError(String),
    /// Malformed template input, or a failure reported by a function capability.
    ResolveError(String),
    /// A failure of an external executor.
    ExecError(String),
}

/// The kind's label followed by the detail.
pub open spec fn error_text(e: SyntaxError) -> Seq<char> {
    match e {
        SyntaxError::InvalidArgument(s) => "Invalid argument: "@ + s@,
        SyntaxError::RenderError(s) => "Render error: "@ + s@,
        SyntaxError::ResolveError(s) => "Resolve error: "@ + s@,
        SyntaxError::ExecError(s) => "Exec error: "@ + s@,
    }
}

impl SyntaxError {
    /// A readable description: the kind's label followed by the detail.
    pub fn message(&self) -> (r: String)
        ensures
            r@ == error_text(*self),
    {
        match self {
            SyntaxError::InvalidArgument(s) => String::from_str("Invalid argument: ").concat(s.as_str()),
            SyntaxError::RenderError(s) => String::from_str("Render error: ").concat(s.as_str()),
            SyntaxError::ResolveError(s) => String::from_str("Resolve error: ").concat(s.as_str()),
            SyntaxError::ExecError(s) => String::from_str("Exec error: ").concat(s.as_str()),
        }
    }
}

} // verus!
