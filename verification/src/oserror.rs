//! What the system reports when an operation fails, as far as decisions depend on it.
use vstd::prelude::*;

verus! {

/// An error number of the system, told apart as far as it matters here.
#[derive(Debug, Clone, Copy, PartialEq, Eq, Structural)]
pub enum Errno {
    /// `EACCES`.
    AccessDenied,
    /// `EPERM`.
    NotPermitted,
    /// `ENOSPC`.
    NoSpace,
    /// `ESRCH`.
    NoProcess,
    Other(i32),
}

/// The numbers that a system gives these errors.
#[derive(Debug, Clone, Copy, PartialEq, Eq, Structural)]
pub struct Codes {
    /// `EACCES`.
    pub access_denied: i32,
    /// `EPERM`.
    pub not_permitted: i32,
    /// `ENOSPC`.
    pub no_space: i32,
    /// `ESRCH`.
    pub no_process: i32,
}

/// No two of the errors have the same number.
pub open spec fn told_apart(k: Codes) -> bool {
    &&& k.access_denied != k.not_permitted
    &&& k.access_denied != k.no_space
    &&& k.access_denied != k.no_process
    &&& k.not_permitted != k.no_space
    &&& k.not_permitted != k.no_process
    &&& k.no_space != k.no_process
}

/// The constants `libc::EACCES`, `libc::EPERM`, `libc::ENOSPC` and `libc::ESRCH`. Which numbers
/// these are differs between systems and is not stated; on each system they are four different
/// ones.
#[verifier::external_body]
fn libc_codes() -> (k: Codes)
    ensures
        told_apart(k),
{
    Codes {
        access_denied: libc::EACCES,
        not_permitted: libc::EPERM,
        no_space: libc::ENOSPC,
        no_process: libc::ESRCH,
    }
}

/// What an error number says where the system has the numbers `k`.
pub open spec fn errno_among(code: i32, k: Codes) -> Errno {
    if code == k.access_denied {
        Errno::AccessDenied
    } else if code == k.not_permitted {
        Errno::NotPermitted
    } else if code == k.no_space {
        Errno::NoSpace
    } else if code == k.no_process {
        Errno::NoProcess
    } else {
        Errno::Other(code)
    }
}

/// What an optional error number says.
pub open spec fn opt_errno(raw_os_error: Option<i32>, k: Codes) -> Option<Errno> {
    match raw_os_error {
        Some(c) => Some(errno_among(c, k)),
        None => None,
    }
}

impl Codes {
    /// The numbers of the system that the program runs on.
    pub fn here() -> (k: Codes)
        ensures
            told_apart(k),
    {
        libc_codes()
    }
}

/// The class of failure that the standard library sees.
#[derive(Debug, Clone, Copy, PartialEq, Eq, Structural)]
pub enum Class {
    PermissionDenied,
    StorageFull,
    NotFound,
    AlreadyExists,
    Unsupported,
    Other,
}

/// A failed operation.
#[derive(Debug)]
pub struct OsError {
    /// What the system reported.
    pub message: String,
    /// The error number, where there is one.
    pub errno: Option<Errno>,
    pub class: Class,
}

/// The value of an [`OsError`].
pub struct ErrorV {
    pub message: Seq<char>,
    pub errno: Option<Errno>,
    pub class: Class,
}

impl View for OsError {
    type V = ErrorV;

    open spec fn view(&self) -> ErrorV {
        ErrorV { message: self.message@, errno: self.errno, class: self.class }
    }
}

impl Clone for OsError {
    fn clone(&self) -> (r: Self)
        ensures
            r@ == self@,
    {
        OsError { message: self.message.clone(), errno: self.errno, class: self.class }
    }
}

/// The failure is one of permission.
pub open spec fn permission_wall(e: ErrorV) -> bool {
    e.errno == Some(Errno::AccessDenied) || e.errno == Some(Errno::NotPermitted) || e.class
        == Class::PermissionDenied
}

/// The file system is out of space.
pub open spec fn out_of_space(e: ErrorV) -> bool {
    e.errno == Some(Errno::NoSpace) || e.class == Class::StorageFull
}

impl OsError {
    /// An error with the number that the system gave, if any, on a system with the numbers `codes`.
    pub fn new(message: String, raw_os_error: Option<i32>, class: Class, codes: &Codes) -> (r: OsError)
        ensures
            r@.message == message@,
            r@.class == class,
            r@.errno == opt_errno(raw_os_error, *codes),
    {
        let errno = match raw_os_error {
            Some(c) => Some(
                if c == codes.access_denied {
                    Errno::AccessDenied
                } else if c == codes.not_permitted {
                    Errno::NotPermitted
                } else if c == codes.no_space {
                    Errno::NoSpace
                } else if c == codes.no_process {
                    Errno::NoProcess
                } else {
                    Errno::Other(c)
                },
            ),
            None => None,
        };
        OsError { message, errno, class }
    }
}

/// Is this a permission wall, the only class of error that root may retry?
pub fn is_permission(e: &OsError) -> (r: bool)
    ensures
        r == permission_wall(e@),
{
    let by_number = match e.errno {
        Some(n) => n == Errno::AccessDenied || n == Errno::NotPermitted,
        None => false,
    };
    by_number || e.class == Class::PermissionDenied
}

/// Does this error mean that the destination file system is out of space?
pub fn is_disk_full(e: &OsError) -> (r: bool)
    ensures
        r == out_of_space(e@),
{
    let by_number = match e.errno {
        Some(n) => n == Errno::NoSpace,
        None => false,
    };
    by_number || e.class == Class::StorageFull
}

// ── laws ─────────────────────────────────────────────────────────────────────

/// Which numbers are a permission wall, a full file system, and a process that is gone: the ones
/// that the system gives these errors, and no other number.
pub proof fn each_number_says_one_thing(code: i32, k: Codes, e: ErrorV)
    requires
        told_apart(k),
        e.errno == opt_errno(Some(code), k),
    ensures
        permission_wall(e) <==> code == k.access_denied || code == k.not_permitted || e.class
            == Class::PermissionDenied,
        out_of_space(e) <==> code == k.no_space || e.class == Class::StorageFull,
        e.errno == Some(Errno::NoProcess) <==> code == k.no_process,
{
}

} // verus!
