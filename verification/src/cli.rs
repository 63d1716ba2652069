//! Command-line settings, as plain data.
//!
//! Argument parsing belongs to the application; the library only needs the
//! values the user chose.

use vstd::prelude::*;

verus! {

/// Which ecosystems discovery looks at.
#[derive(Clone, Copy, Debug, Default, PartialEq, Eq, Structural)]
pub enum EcosystemFilter {
    #[default]
    All,
    Python,
    Node,
}

/// How reports are printed.
#[derive(Clone, Copy, Debug, Default, PartialEq, Eq, Structural)]
pub enum OutputFormat {
    #[default]
    Table,
    Json,
}

/// The command to run.
#[derive(Clone, Debug)]
pub enum Command {
    /// Report the latest registry versions without changing files.
    Check { packages: Vec<String>, fail_on_outdated: bool },
    /// Update supported dependency declarations to the latest versions.
    Update { packages: Vec<String>, dry_run: bool, no_lock: bool },
}

/// The settings of one invocation.
#[derive(Clone, Debug)]
pub struct Cli {
    /// Project directory or a specific supported manifest.
    pub path: String,
    pub ecosystem: EcosystemFilter,
    pub recursive: bool,
    pub format: OutputFormat,
    /// Maximum number of concurrent registry requests (1 to 128).
    pub concurrency: u16,
    /// Per-request timeout in seconds (1 to 300).
    pub timeout: u64,
    pub pypi_url: String,
    pub npm_registry: String,
    pub command: Option<Command>,
}

impl Command {
    /// The command run when none is given: `check` of every package.
    pub fn default_check() -> (r: Command)
        ensures
            r matches Command::Check { packages, fail_on_outdated } && packages@.len() == 0
                && !fail_on_outdated,
    {
        Command::Check { packages: Vec::new(), fail_on_outdated: false }
    }

    /// The package names the command is limited to.
    pub fn packages(&self) -> (r: &Vec<String>)
        ensures
            match self {
                Command::Check { packages, .. } => r == packages,
                Command::Update { packages, .. } => r == packages,
            },
    {
        match self {
            Command::Check { packages, .. } => packages,
            Command::Update { packages, .. } => packages,
        }
    }
}

} // verus!
