use vstd::prelude::*;
use crate::order::SortBy;

verus! {

/// A parsed command line.
pub struct Cli {
    pub command: Commands,
}

/// What the user asked for.
pub enum Commands {
    /// Fetch versions into the local repository.
    Add { versions: Vec<String> },
    /// Delete stored versions whose name contains any pattern.
    Remove { patterns: Vec<String> },
    /// Open the installer of one stored version.
    Apply { version: String },
    /// Set, clear or check configuration entries.
    Config {
        minecraft_dir: Option<String>,
        java_path: Option<String>,
        repo_dir: Option<String>,
        test: bool,
    },
    /// Show stored versions.
    List { pattern: Option<String>, load_order: bool, time: bool, by: Option<SortBy> },
    /// Show what the catalog offers.
    Search { version: Option<String> },
    /// Record the files already present in the local repository.
    Load,
}

} // verus!
