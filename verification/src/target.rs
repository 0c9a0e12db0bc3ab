//! What the destination's file system can hold.
//!
//! File systems of removable media differ in what they can store: FAT holds neither links nor
//! permissions. Trying it out up front allows a warning before a long run.
use vstd::prelude::*;

verus! {

#[derive(Debug, Clone, Copy, PartialEq, Eq, Structural)]
pub struct Capabilities {
    /// Can the destination store symbolic links?
    pub symlinks: bool,
    /// Can the destination hold multiple names for one inode?
    pub hardlinks: bool,
}

/// The name of the link that is tried.
pub const SYMLINK_PROBE: &'static str = ".filesync-probe-symlink";

/// The names of the file that is tried and of its second name.
pub const HARDLINK_PROBE: &'static str = ".filesync-probe-hl-a";

pub const HARDLINK_PROBE_NAME: &'static str = ".filesync-probe-hl-b";

/// What trying it out tells: whether a symbolic link could be made, whether a scratch file could be
/// written, and whether that file could be given a second name.
pub fn probe(symlink_made: bool, file_written: bool, second_name_made: bool) -> (r: Capabilities)
    ensures
        r.symlinks == symlink_made,
        r.hardlinks == (file_written && second_name_made),
{
    Capabilities { symlinks: symlink_made, hardlinks: file_written && second_name_made }
}

} // verus!
