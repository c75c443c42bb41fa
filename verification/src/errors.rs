//! The error taxonomy of the build tool.
use vstd::prelude::*;

verus! {

/// Which template a compile failure belongs to: the shared layout or the
/// intermediate page template produced from it.
#[derive(Clone, Copy, Debug, PartialEq, Eq, Structural)]
pub enum TemplateOwner {
    Layout,
    Page,
}

/// Everything that can go wrong while building or watching.
///
/// The library itself only produces `MalformedTranslation` (an unparsable
/// locale document) and `TemplateCompileError` (an unparsable layout or
/// intermediate page template). The remaining variants describe failures of
/// the surrounding process (filesystem access, external tools, the watcher)
/// and are constructed by the unverified shell around the library.
#[derive(Debug)]
pub enum BuildError {
    IoFailure { path: String },
    ExternalToolFailure { tool: String, exit_code: i32 },
    MalformedTranslation { path: String },
    TemplateCompileError { owner: TemplateOwner, locale: String },
    WatchInitError,
}

impl BuildError {
    /// A short machine-readable tag for the error kind, usable by callers
    /// that only need to classify a failure.
    pub fn kind(&self) -> (r: &'static str)
        ensures
            r@ == match self {
                BuildError::IoFailure { .. } => "io"@,
                BuildError::ExternalToolFailure { .. } => "external_tool"@,
                BuildError::MalformedTranslation { .. } => "malformed_translation"@,
                BuildError::TemplateCompileError { .. } => "template_compile"@,
                BuildError::WatchInitError => "watch_init"@,
            },
    {
        match self {
            BuildError::IoFailure { .. } => "io",
            BuildError::ExternalToolFailure { .. } => "external_tool",
            BuildError::MalformedTranslation { .. } => "malformed_translation",
            BuildError::TemplateCompileError { .. } => "template_compile",
            BuildError::WatchInitError => "watch_init",
        }
    }
}

} // verus!
