//! Arguments of the commit command.

use vstd::prelude::*;

verus! {

/// commit command arguments.
pub struct Args {
    /// Path to the repo directory.
    pub cwd: Option<String>,
    /// If set, the commit will be pushed to the remote.
    pub push: bool,
    /// If set, no commit is made.
    pub dry_run: bool,
}

} // verus!
