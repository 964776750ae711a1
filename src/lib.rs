//! Command and template syntax trees for building shell command lines safely.
use vstd::prelude::*;

pub mod error;
pub mod text;
pub mod tmpl;
pub mod parser;
pub mod cmd;
pub mod render;
pub mod easy;
pub mod exec;
pub mod laws;
pub mod prelude;

pub use error::SyntaxError;

verus! {

} // verus!
