use vstd::prelude::*;
use crate::error::SyntaxError;
use crate::parser::{Dialect, parse_text, parsed};
use crate::tmpl::Template;

verus! {

/// Parses markup-style text: `$$` and `${NAME}` as in shell-style, and calls
/// `%name:arg(g1)(g2)...` whose groups are balanced and parsed in this dialect; `for`
/// makes an iteration (list, body, separator). A `%` that does not start a well-formed
/// call is literal; an unbalanced group is malformed input.
pub fn parse_jynx(input: &str) -> (r: Result<Template, SyntaxError>)
    ensures
        parsed(Dialect::Markup, input@, r),
{
    parse_text(Dialect::Markup, input)
}

} // verus!
