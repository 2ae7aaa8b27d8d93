//! The command vocabulary of the registry manager: what a parsed
//! command-line invocation asks the program to do. The surrounding shell
//! parses arguments into these values and dispatches on them.

use vstd::prelude::*;

verus! {

/// One parsed command-line invocation.
pub struct Cli {
    pub command: Commands,
}

/// The commands the registry manager executes.
pub enum Commands {
    /// List all configured registries.
    Ls,
    /// Switch the active registry; `local` confines the switch to the
    /// current directory's own configuration.
    Use { registry: String, local: bool },
    /// Measure every registry's response time and rank the results.
    Test,
    /// Register a new mirror under `registry`, with its URL and an
    /// optional homepage.
    Add { registry: String, url: String, home: Option<String> },
    /// Remove the registry of this name.
    Remove { registry: String },
}

} // verus!
