//! Arguments of the amend command.

use vstd::prelude::*;

verus! {

/// amend command arguments.
pub struct Args {
    /// Path to the repo directory.
    pub cwd: Option<String>,
    /// If set, the commit will be pushed to the remote.
    pub push: bool,
}

} // verus!
