//! Arguments of the init command.

use vstd::prelude::*;

verus! {

/// init command arguments.
pub struct Args {
    /// Path to the repo directory.
    pub cwd: Option<String>,
    /// Forces a reset of the repo config.
    pub reset: bool,
}

} // verus!
