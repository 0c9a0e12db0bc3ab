//! One sync per destination at a time.
//!
//! An exclusive lock file at the destination root turns a second sync into a clear refusal. The file
//! holds the owning process's id, and a leftover lock whose process is provably dead is reclaimed: a
//! crash must not wedge unattended backups for ever. Whatever cannot be judged counts as held.
use vstd::prelude::*;
use vstd::utf8::{encode_utf8, is_ascii_chars};

use crate::artifacts::LOCK_FILE;
use crate::manifest::DstRoot;
use crate::number::{a_sign_is_read, a_written_number_reads_back, is_digit, lemma_dec_digits, parse_i32, signed_of};
use crate::oserror::{Class, Errno, OsError};
use crate::paths::{FsPath, PathV, joined, joined_text, parsed};
use crate::text::{dec, opt_text, plain_space, plain_trim, push_spelled, trim, trimmed, utf8_lossy};

verus! {

/// A held lock, to be released by deleting its file.
#[derive(Debug)]
pub struct Lock {
    path: FsPath,
}

impl View for Lock {
    type V = PathV;

    closed spec fn view(&self) -> PathV {
        self.path@
    }
}

/// What an attempt to take the lock came to.
#[derive(Debug)]
pub enum Attempt {
    /// The lock is held.
    Held(Lock),
    /// The lock file exists already: its holder is to be judged.
    Judge,
    /// The lock could not be taken.
    Failed(OsError),
}

/// Where the lock of a destination lies.
pub open spec fn lock_at(dst: PathV) -> PathV {
    joined(dst, parsed(encode_utf8(LOCK_FILE@)))
}

/// What a lock file holds.
pub open spec fn lock_text(pid: nat) -> Seq<char> {
    dec(pid) + "\n"@
}

/// The process that a lock file names; none where the file cannot be read or is garbled.
pub open spec fn holder(trimmed_contents: Option<Seq<char>>) -> Option<int> {
    match trimmed_contents {
        Some(t) => match signed_of(t, i32::MAX as nat) {
            Some(n) => if n > 0 {
                Some(n)
            } else {
                None
            },
            None => None,
        },
        None => None,
    }
}

pub open spec fn opt_trimmed(contents: Option<Seq<char>>) -> Option<Seq<char>> {
    match contents {
        Some(t) => Some(trimmed(t)),
        None => None,
    }
}

pub open spec fn refusal(path: Seq<u8>) -> Seq<char> {
    "another filesync is already syncing this destination (lock: "@ + utf8_lossy(path)
        + "). If you are certain none is running, delete the lock file and retry."@
}

/// Where the lock of a destination lies.
pub fn lock_path(dst: &DstRoot) -> (r: FsPath)
    ensures
        r@ == lock_at(dst@),
        r.spelled() == joined_text(dst.spelled(), encode_utf8(LOCK_FILE@)),
{
    let name = FsPath::parse(LOCK_FILE.as_bytes());
    dst.path().join(&name)
}

/// What the lock file of this process holds.
pub fn lock_contents(pid: u32) -> (r: String)
    ensures
        r@ == lock_text(pid as nat),
{
    let mut s = crate::text::dec_text(pid as u64);
    s.append("\n");
    s
}

/// The process that a lock file with these contents, already trimmed, names.
pub fn named_process(contents: &Option<String>) -> (r: Option<i32>)
    ensures
        match holder(opt_text(*contents)) {
            Some(n) => r == Some(n as i32) && 0 < n <= i32::MAX,
            None => r is None,
        },
{
    match contents {
        Some(t) => match parse_i32(t.as_str()) {
            Some(n) => {
                if n > 0 {
                    Some(n)
                } else {
                    None
                }
            },
            None => None,
        },
        None => None,
    }
}

/// The process that a lock file with these contents names; none where the file could not be read,
/// or holds anything but a process id. Such a lock is never stolen.
pub fn lock_holder(contents: &Option<String>) -> (r: Option<i32>)
    ensures
        match holder(opt_trimmed(opt_text(*contents))) {
            Some(n) => r == Some(n as i32) && 0 < n <= i32::MAX,
            None => r is None,
        },
        contents matches Some(t) ==> (is_ascii_chars(t@) ==> match holder(Some(plain_trim(t@))) {
            Some(n) => r == Some(n as i32),
            None => r is None,
        }),
{
    match contents {
        Some(t) => {
            let s = trim(t.as_str());
            named_process(&Some(s))
        },
        None => None,
    }
}

/// Whether probing a process showed that there is none: anything else leaves it alive.
pub fn is_gone(probe: &Result<(), OsError>) -> (r: bool)
    ensures
        r == (probe matches Err(e) && e@.errno == Some(Errno::NoProcess)),
{
    match probe {
        Ok(()) => false,
        Err(e) => match e.errno {
            Some(n) => n == Errno::NoProcess,
            None => false,
        },
    }
}

impl Lock {
    /// The lock file's path.
    pub fn path(&self) -> (r: &FsPath)
        ensures
            r@ == self@,
    {
        &self.path
    }

    /// What creating the lock file came to. Of two processes that race, one creates it; the other
    /// judges the holder, once.
    pub fn acquire(dst: &DstRoot, first_attempt: bool, created: Result<(), OsError>) -> (r: Attempt)
        ensures
            match created {
                Ok(()) => r matches Attempt::Held(l) && l@ == lock_at(dst@),
                Err(e) => if first_attempt && e@.class == Class::AlreadyExists {
                    r is Judge
                } else {
                    r matches Attempt::Failed(x) && x@ == e@
                },
            },
    {
        match created {
            Ok(()) => Attempt::Held(Lock { path: lock_path(dst) }),
            Err(e) => {
                if first_attempt && e.class == Class::AlreadyExists {
                    Attempt::Judge
                } else {
                    Attempt::Failed(e)
                }
            },
        }
    }
}

/// Whether an existing lock may be reclaimed. `holder` is the process it names, and `gone` whether
/// that process was seen to be gone. If not, the refusal says where the lock lies.
pub fn reclaimable(dst: &DstRoot, holder: Option<i32>, gone: bool) -> (r: Result<(), String>)
    ensures
        match r {
            Ok(()) => holder is Some && gone,
            Err(why) => !(holder is Some && gone) && why@ == refusal(joined_text(dst.spelled(), encode_utf8(LOCK_FILE@))),
        },
{
    if holder.is_some() && gone {
        return Ok(());
    }
    let mut s = String::from_str("another filesync is already syncing this destination (lock: ");
    push_spelled(&mut s, &lock_path(dst));
    s.append("). If you are certain none is running, delete the lock file and retry.");
    Err(s)
}

// ── laws ─────────────────────────────────────────────────────────────────────

/// A lock file names the process that wrote it.
pub proof fn a_lock_names_its_holder(pid: nat)
    requires
        0 < pid <= i32::MAX,
    ensures
        is_ascii_chars(lock_text(pid)),
        holder(Some(plain_trim(lock_text(pid)))) == Some(pid as int),
{
    let d = dec(pid);
    let t = lock_text(pid);
    a_written_number_reads_back(pid, i32::MAX as nat);
    lemma_dec_digits(pid);
    reveal_strlit("\n");
    assert(t =~= d.push('\n'));
    assert(t.drop_last() =~= d);
    assert(is_digit(d[0]) && is_digit(d.last()));
    assert(!plain_space(t[0]));
    assert(plain_space(t.last()));
    assert(plain_trim(d) == d);
    assert(plain_trim(t) == plain_trim(t.drop_last()));
    assert(is_ascii_chars(t)) by {
        assert forall|i: int| 0 <= i < t.len() implies '\0' <= #[trigger] t[i] <= '\u{7f}' by {
            if i < d.len() {
                assert(is_digit(d[i]));
            }
        }
    }
}

/// A lock whose contents are no process id is never reclaimed: no process is named whose death
/// could be seen.
pub proof fn a_garbled_lock_names_nobody(t: Seq<char>)
    requires
        signed_of(t, i32::MAX as nat) is None,
    ensures
        holder(Some(t)) is None,
{
}

/// A lock that cannot be read, or that names no process that can exist, names nobody.
pub proof fn an_impossible_holder_is_nobody(n: nat)
    requires
        n <= i32::MAX,
    ensures
        holder(None) is None,
        holder(Some(dec(0))) is None,
        holder(Some(seq!['-'] + dec(n))) is None,
{
    a_written_number_reads_back(0, i32::MAX as nat);
    a_sign_is_read(n, i32::MAX as nat);
}

} // verus!
