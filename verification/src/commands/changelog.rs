//! Arguments of the changelog command.

use vstd::prelude::*;

verus! {

/// changelog command arguments.
pub struct Args {
    /// Path to the repo directory.
    pub cwd: Option<String>,
    /// Allows uncommitted changes when setting the tag.
    pub allow_uncommitted: bool,
}

} // verus!
