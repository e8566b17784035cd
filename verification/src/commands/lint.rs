//! Arguments of the lint command.

use vstd::prelude::*;

verus! {

/// lint command arguments.
pub struct Args {
    /// Path to the repo directory.
    pub cwd: Option<String>,
    /// Commit message (if omitted, the message is read from stdin).
    pub msg: Option<String>,
}

} // verus!
