//! The names most callers need, in one import.
pub use crate::error::SyntaxError;
pub use crate::tmpl::{Template, VariableResolver, FuncResolver};
pub use crate::easy::{NoFunc, Store, render_bash, render_jynx, render_simple};
