//! The command-line surface: the chosen account, configuration file,
//! verbosity, and the command to run.

use vstd::prelude::*;

verus! {

/// A parsed command line.
#[derive(Debug, Clone)]
pub struct Cli {
    pub name: Option<String>,
    pub config: Option<String>,
    pub debug: u8,
    pub command: Option<Commands>,
}

/// The commands the program offers.
#[derive(Debug, Clone)]
pub enum Commands {
    Backup,
    Status,
    Search { query: String, fields: Option<Vec<String>>, limit: Option<usize> },
    Open { id: String },
}

} // verus!
