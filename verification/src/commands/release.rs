//! Arguments of the release command.

use vstd::prelude::*;

verus! {

/// release command arguments.
pub struct Args {
    /// Path to the repo directory.
    pub cwd: Option<String>,
    /// If set, commits and tags are pushed.
    pub push: bool,
}

} // verus!
