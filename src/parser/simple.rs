use vstd::prelude::*;
use crate::error::SyntaxError;
use crate::parser::{Dialect, parse_text, parsed};
use crate::tmpl::Template;

verus! {

/// Parses double-brace text: a `{{...}}` block is a comment (`!`), a variable
/// (`[A-Za-z0-9_.-]+`), a call `name:arg(g1)...` whose groups are parsed shell-style,
/// or else literal text exactly as written; an unclosed `{{` is literal.
pub fn parse_simple(input: &str) -> (r: Result<Template, SyntaxError>)
    ensures
        parsed(Dialect::Brace, input@, r),
{
    parse_text(Dialect::Brace, input)
}

} // verus!
