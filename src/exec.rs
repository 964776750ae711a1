//! The execution boundary: what an executor reports, and a planner that renders a
//! pipeline without running it.
use vstd::prelude::*;
use crate::cmd::PipelineSpec;
use crate::error::SyntaxError;
use crate::render::{Renderer, rendered, pipeline_text};

verus! {

/// What an executor reports of a finished pipeline.
#[derive(Debug, Clone, Default)]
pub struct ExecResult {
    pub status: i32,
    pub stdout: String,
    pub stderr: String,
}

/// Runs a pipeline (an external collaborator: it renders the pipeline for a shell,
/// runs the shell, and reports the outcome).
pub trait Executor {
    fn exec(&self, pipe: &PipelineSpec) -> Result<ExecResult, SyntaxError>;
}

/// Renders a pipeline as an annotated plan, without running it.
pub struct Planner<'a, R: Renderer> {
    pub renderer: &'a R,
}

impl<'a, R: Renderer> Planner<'a, R> {
    /// The pipeline's plan with the planner's renderer.
    pub fn plan(&self, pipe: &PipelineSpec) -> (r: Result<String, SyntaxError>)
        ensures
            rendered(r, pipeline_text(self.renderer.targets_windows(), *pipe, true)),
    {
        self.renderer.render_pipe_plan(pipe)
    }
}

} // verus!
