//! Error taxonomy of the library.

use vstd::prelude::*;

verus! {

/// A grammar violation found while parsing a single commit message.
#[derive(Debug, Clone, Copy, PartialEq, Eq, Structural)]
pub enum ParseError {
    /// The first line has no `:` separating the prefix from the subject.
    MissingSeparator,
    /// The prefix does not match `type(scope)?!?`.
    MalformedPrefix,
    /// The commit type is not one of the configured types.
    UnknownType,
    /// The scope does not start with a lowercase character.
    InvalidScopeCase,
    /// The subject does not start with a lowercase character.
    InvalidSubjectCase,
    /// The line after the subject is not empty.
    MissingBodySeparator,
    /// A footer follows the body without a separating empty line.
    MissingFooterSeparator,
    /// A second `BREAKING CHANGE:` footer.
    DuplicateBreakingChange,
    /// A `Closes #` line without a valid unsigned issue number.
    InvalidIssueNumber,
    /// A line that no section can accept, after the issue footer.
    UnexpectedLine,
}

impl ParseError {
    /// A short description of the violation.
    pub fn message(&self) -> (r: &'static str) {
        match self {
            ParseError::MissingSeparator => "missing ':' separator",
            ParseError::MalformedPrefix => "prefix must match type(scope)?!?",
            ParseError::UnknownType => "unknown commit type",
            ParseError::InvalidScopeCase => "scope must start with lowercase",
            ParseError::InvalidSubjectCase => "subject must start with lowercase",
            ParseError::MissingBodySeparator => "body must be separated by an empty line",
            ParseError::MissingFooterSeparator => "footer must be separated from the body by an empty line",
            ParseError::DuplicateBreakingChange => "several breaking changes",
            ParseError::InvalidIssueNumber => "invalid issue number",
            ParseError::UnexpectedLine => "unexpected line after the issue footer",
        }
    }
}

/// A failure of version derivation.
#[derive(Debug, Clone, Copy, PartialEq, Eq, Structural)]
pub enum DeriveError {
    /// No commits since the last release: nothing motivates a new version.
    NoCommits,
    /// A tag name that is not a semantic version.
    InvalidTag,
}

impl DeriveError {
    /// A short description of the failure.
    pub fn message(&self) -> (r: &'static str) {
        match self {
            DeriveError::NoCommits => "cannot bump without new commits",
            DeriveError::InvalidTag => "tag is not a semantic version",
        }
    }
}

/// A failure of hook-script generation.
#[derive(Debug, Clone, PartialEq, Eq)]
pub enum HookError {
    /// A configured hook name that git does not call.
    InvalidHook(String),
}

} // verus!
