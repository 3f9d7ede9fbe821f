//! The command line surface: which subcommand runs, and the arguments a
//! diff run takes.  Parsing `argv` belongs to the surrounding program;
//! the shapes and the defaulting rules are here.
use crate::theme::Theme;
use vstd::prelude::*;

verus! {

/// Arguments of a diff run: the manifest to read and the color theme.
#[derive(Debug)]
pub struct ManifestCliArgs {
    pub manifest: String,
    pub theme: Theme,
}

/// What the tool is asked to do.
#[derive(Debug)]
pub enum Command {
    /// Remove all repositories checked out to the local cache.
    Clean { verbose: bool },
    /// Open the daily diff.
    Diff(ManifestCliArgs),
    /// Write a fresh manifest for defining repositories to diff.
    Init(ManifestCliArgs),
}

/// The parsed command line: an optional subcommand and the diff
/// arguments that serve when none is given.
#[derive(Debug)]
pub struct CLI {
    pub command: Option<Command>,
    pub diff: ManifestCliArgs,
}

impl CLI {
    /// The command to run: the given subcommand, or a diff run with the
    /// top-level arguments when none was given.
    pub fn command_or_default(self) -> (r: Command)
        ensures
            match self.command {
                Some(c) => r == c,
                None => r == Command::Diff(self.diff),
            },
    {
        match self.command {
            Some(c) => c,
            None => Command::Diff(self.diff),
        }
    }
}

} // verus!
