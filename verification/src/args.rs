//! The options of the command line, as the library takes them.
use vstd::prelude::*;

verus! {

/// What the program was started with.
#[derive(Clone, Copy, Debug, PartialEq, Eq)]
pub struct RageOptions {
    pub command: RageCommands,
    /// Verbose logging.
    pub verbose: bool,
}

/// The commands of the program.
#[derive(Clone, Copy, Debug, PartialEq, Eq)]
pub enum RageCommands {
    /// Sort the USE flags in `package.use`.
    Sort(RageSortOptions),
}

/// The options of the sort command.
#[derive(Clone, Copy, Debug, PartialEq, Eq)]
pub struct RageSortOptions {
    /// Show the result instead of writing it to the USE files.
    pub pretend_mode: bool,
    /// Remove every version. What was removed cannot be brought back.
    pub remove_versions: bool,
    /// Sort the package atoms into files named after their category.
    pub split: bool,
}

} // verus!
