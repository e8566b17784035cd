//! Arguments of the bump command.

use vstd::prelude::*;

verus! {

/// bump command arguments.
pub struct Args {
    /// Path to the repo directory.
    pub cwd: Option<String>,
    /// Allows uncommitted changes when setting the tag.
    pub allow_uncommitted: bool,
    /// If set, the repo is tagged with the new version.
    pub set: bool,
}

} // verus!
