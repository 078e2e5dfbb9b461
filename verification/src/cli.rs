//! Command lines, taken apart.

use vstd::prelude::*;
use vstd::string::*;

use crate::path::FilePath;

verus! {

/// What was asked for.
pub struct Cli {
    pub command: Option<Commands>,
    /// The source projects, then the target. With more than two paths the
    /// target must be a directory that is there.
    pub paths: Vec<FilePath>,
    /// A file with one move on each line; `-` stands for standard input.
    pub batch: Option<FilePath>,
    pub dry_run: bool,
    pub verbose: bool,
    pub force: bool,
    pub no_backup: bool,
    pub session_only: bool,
    pub relink: bool,
    pub scan_root: Vec<FilePath>,
}

pub enum Commands {
    /// Back up what refers to a project.
    Backup { path: FilePath },
    /// Bring back what a backup holds.
    Restore { backup_file: FilePath },
}

impl Cli {
    /// Why the flags cannot go together, if they cannot. Repointing needs both
    /// the old and the new path of a move that is being made.
    pub fn conflict(&self) -> (r: Option<String>)
        ensures
            match r {
                Some(message) => self.relink && self.session_only && message@
                    == "--relink cannot be combined with --session-only: relinking needs both the old and the new path from the same run, and a project you already moved by hand needs Repair, which ccmv does not build yet (ccmv-0019)"@,
                None => !(self.relink && self.session_only),
            },
    {
        if self.relink && self.session_only {
            Some(
                "--relink cannot be combined with --session-only: relinking needs both the old and the new path from the same run, and a project you already moved by hand needs Repair, which ccmv does not build yet (ccmv-0019)".to_owned(),
            )
        } else {
            None
        }
    }
}

} // verus!
