//! The names of filesync's own on-disk artifacts: the things it writes that are never user data.
//!
//! They live together because one rule binds them: scans must treat them as scratch, not content —
//! never mirrored, never mirror-deleted, never backed up.
use vstd::prelude::*;

verus! {

/// Prefix for the temp files that atomic copies write before renaming into place. Deliberately
/// long and specific: scans silently ignore names with this prefix, so the odds of colliding with
/// real user data must stay astronomically small. A destination scan also sweeps strays left by an
/// interrupted run.
pub const TMP_PREFIX: &'static str = ".filesync_staging.tmp.";

/// Marker file dropped inside a backup directory on first use. A directory with this file is
/// move-aside storage: scans leave it out, so a backup directory inside the destination is never
/// mirrored, deleted, or backed up again by later runs.
pub const BACKUP_MARKER: &'static str = ".filesync-backup-dir";

/// The destination-root lockfile, which holds a process id and enforces one sync per destination.
/// Released on exit, and never treated as destination content.
pub const LOCK_FILE: &'static str = ".filesync.lock";

/// The three names are told apart: none is, or begins like, another, and each is hidden.
pub proof fn our_own_names_are_told_apart(name: Seq<char>)
    ensures
        TMP_PREFIX@ == ".filesync_staging.tmp."@,
        BACKUP_MARKER@ == ".filesync-backup-dir"@,
        LOCK_FILE@ == ".filesync.lock"@,
        TMP_PREFIX@[0] == '.' && BACKUP_MARKER@[0] == '.' && LOCK_FILE@[0] == '.',
        TMP_PREFIX@ + name != BACKUP_MARKER@,
        TMP_PREFIX@ + name != LOCK_FILE@,
        BACKUP_MARKER@ != LOCK_FILE@,
{
    reveal_strlit(".filesync_staging.tmp.");
    reveal_strlit(".filesync-backup-dir");
    reveal_strlit(".filesync.lock");
    assert((TMP_PREFIX@ + name)[9] == '_');
    assert(BACKUP_MARKER@[9] == '-');
    assert(LOCK_FILE@[9] == '.');
}

} // verus!
