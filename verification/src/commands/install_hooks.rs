//! Arguments of the install-hooks command.

use vstd::prelude::*;

verus! {

/// install-hooks command arguments.
pub struct Args {
    /// Path to the repo directory.
    pub cwd: Option<String>,
}

} // verus!
