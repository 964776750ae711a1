use vstd::prelude::*;
use crate::error::SyntaxError;
use crate::parser::{Dialect, parse_text, parsed};
use crate::tmpl::Template;

verus! {

/// Parses shell-style text: `$$` is a literal `$`; `$NAME` (a letter or `_`, then
/// letters, digits, `_` and `-`) and `${NAME}` (NAME of `[A-Za-z0-9_-]+`) are variable
/// references; any other character, a lone `$` included, is literal. An unclosed `${`
/// or an invalid braced name is malformed input.
pub fn parse(input: &str) -> (r: Result<Template, SyntaxError>)
    ensures
        parsed(Dialect::Shell, input@, r),
{
    parse_text(Dialect::Shell, input)
}

} // verus!
