//! The failure kinds of the runner.
use handlebars::RenderError;
use vstd::prelude::*;

verus! {

#[verifier::external_type_specification]
#[verifier::external_body]
pub struct ExRenderError(RenderError);

#[derive(Debug)]
pub enum ZinnError {
    /// Reading a file failed; holds the system's message.
    File(String),
    /// The Zinnfile is not valid YAML for its schema; holds the parser's message.
    Yaml(String),
    /// The job's shell exited with this non-zero code.
    ChildFailed(i32),
    /// The job's shell was terminated by a signal.
    ChildSignaled,
    DependencyNotFound(String),
    JobNotFound(String),
    MissingArgument(String),
    TemplateError(RenderError),
    InputFileError(String),
    OutputFileError(String),
    /// A regular expression given to a template helper does not compile.
    RegexError(String),
    /// A template path component holds the path separator.
    ColonInTemplateName(String),
    /// The Zinnfile's directory could not be determined or entered.
    ChdirError,
    /// Realizing this job went deeper than the nesting bound, as a cyclic
    /// chain of dependencies does.
    DependencyTooDeep(String),
}

pub type ZinnResult<T> = Result<T, ZinnError>;

} // verus!
