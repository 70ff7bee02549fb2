//! The error kinds the core reports.
use vstd::prelude::*;

verus! {

/// Errors of the Gradle collaborator.
#[derive(Debug, Clone, PartialEq, Eq)]
pub enum GradleError {
    WrapperNotFound(String),
    CommandFailed(String),
    ParseError(String),
    IoError(String),
}

/// Errors of the core.
#[derive(Debug, Clone, PartialEq, Eq)]
pub enum KotlinMcpError {
    IndexError(String),
    ParseError(String),
    SymbolNotFound(String),
    GradleError(GradleError),
    IoError(String),
}

} // verus!
