//! The commands of the command-line tool.
use vstd::prelude::*;

verus! {

/// A parsed command line: the subcommand to run.
pub struct Cli {
    pub command: Commands,
}

/// The subcommands.
#[derive(Debug, Clone, PartialEq, Eq)]
pub enum Commands {
    /// Start the background server.
    Server,
    /// Sync the database and rewrite comments.
    Update,
    /// Lint the graph.
    Validate,
    /// Generate a standalone visualization into the file `output`.
    Export { output: String },
    /// Generate the next proquint identifier with the given prefix.
    GenId { prefix: String },
}

} // verus!
