//! The command line: what a run was asked to do.
//!
//! Two commands: `diff`, a preview that changes nothing, and `sync`. The source and the destination
//! are named, never positional, so they cannot be swapped in silence.
use vstd::prelude::*;

use crate::apply::Options;
use crate::manifest::{clone_opt_path, opt_path};
use crate::paths::FsPath;

verus! {

/// A command line.
#[derive(Debug)]
pub struct Cli {
    pub command: Command,
}

#[derive(Debug)]
pub enum Command {
    /// Report what a sync would do. Changes nothing.
    Diff(DiffArgs),
    /// Make the destination mirror the source.
    Sync(SyncArgs),
}

/// Options shared by both commands.
#[derive(Debug)]
pub struct Common {
    /// Source directory: never modified.
    pub from: FsPath,
    /// Destination directory.
    pub to: FsPath,
    /// Compare by content instead of the quick check of size and time.
    pub eager_checksum: bool,
    /// The directory that the output files go into; the current one by default.
    pub report: Option<FsPath>,
    /// Rewrite symlinks whose target lies inside the source to relative paths in the mirror.
    pub relative_symlinks: bool,
    /// Never use root, even when launched under sudo.
    pub unelevated: bool,
}

#[derive(Debug)]
pub struct DiffArgs {
    pub common: Common,
    /// Also list content-identical files.
    pub include_same: bool,
}

#[derive(Debug)]
pub struct SyncArgs {
    pub common: Common,
    /// Skip re-reading each copied file.
    pub skip_verify: bool,
    /// Make every file durable on its own.
    pub fsync_each: bool,
    /// Move what would be deleted or overwritten here, instead of erasing it.
    pub backup_dir: Option<FsPath>,
}

impl Command {
    /// The options shared by both commands.
    pub fn common(&self) -> (r: &Common)
        ensures
            *r == match *self {
                Command::Diff(a) => a.common,
                Command::Sync(a) => a.common,
            },
    {
        match self {
            Command::Diff(a) => &a.common,
            Command::Sync(a) => &a.common,
        }
    }

    /// Whether content-identical files are listed. Only a preview ever lists them.
    pub fn include_same(&self) -> (r: bool)
        ensures
            r == (*self matches Command::Diff(a) && a.include_same),
    {
        match self {
            Command::Diff(a) => a.include_same,
            Command::Sync(_) => false,
        }
    }
}

impl SyncArgs {
    /// How a plan is carried out: copies are verified unless that was declined.
    pub fn options(&self) -> (r: Options)
        ensures
            r.verify == !self.skip_verify,
            r.fsync_each == self.fsync_each,
            opt_path(r.backup_dir) == opt_path(self.backup_dir),
            r.relative_symlinks == self.common.relative_symlinks,
    {
        Options {
            verify: !self.skip_verify,
            fsync_each: self.fsync_each,
            backup_dir: clone_opt_path(&self.backup_dir),
            relative_symlinks: self.common.relative_symlinks,
        }
    }
}

} // verus!
