//! Optional root assistance for restricted-access files.
//!
//! Launched under sudo, the process drops to the invoking user at once and runs everything as that
//! user. Root is held in reserve, and used only to retry an operation that failed with a permission
//! error. Any other error is never retried with root: an unforeseen failure must stay loud.
//! Every operation that root helped with is recorded and lands in the report.
use vstd::prelude::*;

use crate::number::{a_written_number_reads_back, parse_unsigned, unsigned_of, what_is_no_number_is_refused};
use crate::oserror::{Class, Codes, Errno, OsError, opt_errno, permission_wall};
use crate::paths::FsPath;
use crate::text::{add_text, dec, opt_text, push_spelled, texts_view, utf8_lossy};

verus! {

/// The identity to work as, and to hand created files to, while root waits in reserve.
#[derive(Debug, Clone, Copy, PartialEq, Eq, Structural)]
pub struct Reserve {
    pub uid: u32,
    pub gid: u32,
}

/// The privilege that this process has, and what it did with it.
#[derive(Debug)]
pub struct Elevation {
    /// Unset until settled; then the reserve, or none.
    reserve: Option<Option<Reserve>>,
    audit: Vec<String>,
}

/// The value of an [`Elevation`].
pub struct ElevationV {
    pub reserve: Option<Option<Reserve>>,
    pub audit: Seq<Seq<char>>,
}

impl View for Elevation {
    type V = ElevationV;

    closed spec fn view(&self) -> ElevationV {
        ElevationV { reserve: self.reserve, audit: texts_view(self.audit@) }
    }
}

/// Root is in reserve.
pub open spec fn has_reserve(e: ElevationV) -> bool {
    e.reserve matches Some(Some(_))
}

/// What is to be done about privilege before anything else.
#[derive(Debug)]
pub enum Launch {
    /// Nothing; privilege is settled.
    Settled,
    /// The run is refused, for this reason.
    Refused(String),
    /// Root is given up for this user and group. The saved ids are what can be returned to.
    Drop { uid: u32, gid: u32, saved_uid: u32, saved_gid: u32 },
}

pub const PLAIN_ROOT: &'static str = "running as plain root — launch via `sudo filesync …` from your user account instead, so filesync knows which user should own the mirror (it drops privileges and uses root only past permission walls)";

pub const DROP_FAILED: &'static str = "failed to drop root privileges to the invoking user — refusing to run with full root";

pub const UNELEVATED_NOTICE: &'static str = "filesync: --unelevated — root discarded permanently; restricted-access files will be reported (see the errors file), not handled";

pub const RESERVE_NOTICE: &'static str = "filesync: running as your user with root in reserve — it is used only to get past permission walls (EACCES/EPERM) at known operations, never to change existing files' ownership or permissions; every use is recorded in the report. Pass --unelevated to forbid root use entirely.";

/// A numeric id from the environment; 0 where there is none.
pub open spec fn id_of(text: Option<Seq<char>>) -> nat {
    match text {
        Some(t) => match unsigned_of(t, u32::MAX as nat) {
            Some(n) => n,
            None => 0,
        },
        None => 0,
    }
}

fn parse_id(text: &Option<String>) -> (r: u32)
    ensures
        r == id_of(opt_text(*text)),
{
    match text {
        Some(t) => match parse_unsigned(t.as_str(), u32::MAX as u64) {
            Some(n) => n as u32,
            None => 0,
        },
        None => 0,
    }
}

impl Elevation {
    /// Nothing settled, nothing recorded.
    pub fn new() -> (r: Elevation)
        ensures
            r@ == (ElevationV { reserve: None, audit: Seq::empty() }),
    {
        let r = Elevation { reserve: None, audit: Vec::new() };
        assert(r@.audit =~= Seq::empty());
        r
    }
}

/// Sets up the privilege model, before any access to the file system. Without root there is nothing
/// to do. Root through sudo is dropped to the user that sudo names: for good if `unelevated`, else
/// so that single operations can return to it. A bare root login is refused: the run must know
/// which user it belongs to.
pub fn init(
    e: &mut Elevation,
    unelevated: bool,
    euid: u32,
    sudo_uid: &Option<String>,
    sudo_gid: &Option<String>,
) -> (r: Launch)
    ensures
        final(e)@.audit == old(e)@.audit,
        final(e)@.reserve == if old(e)@.reserve is None && euid != 0 {
            Some(None)
        } else {
            old(e)@.reserve
        },
        ({
            let uid = id_of(opt_text(*sudo_uid));
            let gid = id_of(opt_text(*sudo_gid));
            match r {
                Launch::Settled => old(e)@.reserve is Some || euid != 0,
                Launch::Refused(why) => old(e)@.reserve is None && euid == 0 && uid == 0 && why@
                    == PLAIN_ROOT@,
                Launch::Drop { uid: u, gid: g, saved_uid, saved_gid } => {
                    &&& old(e)@.reserve is None && euid == 0 && uid != 0
                    &&& u == uid && g == gid
                    &&& saved_uid == (if unelevated {
                        u
                    } else {
                        0
                    })
                    &&& saved_gid == (if unelevated {
                        g
                    } else {
                        0
                    })
                },
            }
        }),
{
    if e.reserve.is_some() {
        return Launch::Settled;
    }
    if euid != 0 {
        e.reserve = Some(None);
        return Launch::Settled;
    }
    let uid: u32 = parse_id(sudo_uid);
    let gid: u32 = parse_id(sudo_gid);
    if uid == 0 {
        return Launch::Refused(String::from_str(PLAIN_ROOT));
    }
    let saved_gid: u32 = if unelevated { gid } else { 0 };
    let saved_uid: u32 = if unelevated { uid } else { 0 };
    Launch::Drop { uid, gid, saved_uid, saved_gid }
}

/// Settles what giving up root came to: `dropped` tells whether the system took the ids, and
/// `euid_now` who the process is afterwards. Returns what the user is told.
pub fn settle(
    e: &mut Elevation,
    unelevated: bool,
    uid: u32,
    gid: u32,
    dropped: bool,
    euid_now: u32,
) -> (r: Result<&'static str, &'static str>)
    ensures
        final(e)@.audit == old(e)@.audit,
        match r {
            Ok(notice) => {
                &&& dropped && euid_now == uid
                &&& notice@ == (if unelevated {
                    UNELEVATED_NOTICE@
                } else {
                    RESERVE_NOTICE@
                })
                &&& final(e)@.reserve == Some(
                    if unelevated {
                        None
                    } else {
                        Some(Reserve { uid, gid })
                    },
                )
            },
            Err(why) => {
                &&& !(dropped && euid_now == uid)
                &&& why@ == DROP_FAILED@
                &&& final(e)@.reserve == old(e)@.reserve
            },
        },
{
    if !dropped || euid_now != uid {
        return Err(DROP_FAILED);
    }
    if unelevated {
        e.reserve = Some(None);
        Ok(UNELEVATED_NOTICE)
    } else {
        e.reserve = Some(Some(Reserve { uid, gid }));
        Ok(RESERVE_NOTICE)
    }
}

/// Whether a root retry is possible.
pub fn available(e: &Elevation) -> (r: bool)
    ensures
        r == has_reserve(e@),
{
    match e.reserve {
        Some(Some(_)) => true,
        _ => false,
    }
}

/// Is this a permission wall, the only class of error that root may retry?
pub fn is_permission(e: &OsError) -> (r: bool)
    ensures
        r == permission_wall(e@),
{
    crate::oserror::is_permission(e)
}

/// Who owns what was created while elevated: the invoking user, where root is in reserve.
pub fn chown_to_user(e: &Elevation) -> (r: Option<(u32, u32)>)
    ensures
        r == match e@.reserve {
            Some(Some(x)) => Some((x.uid, x.gid)),
            _ => None,
        },
{
    match e.reserve {
        Some(Some(x)) => Some((x.uid, x.gid)),
        _ => None,
    }
}

/// Records one root-assisted operation.
pub fn record(e: &mut Elevation, msg: String)
    ensures
        final(e)@ == (ElevationV { audit: old(e)@.audit.push(msg@), ..old(e)@ }),
{
    add_text(&mut e.audit, msg);
}

/// Takes, and clears, the trail of root-assisted operations.
pub fn drain_audit(e: &mut Elevation) -> (r: Vec<String>)
    ensures
        texts_view(r@) == old(e)@.audit,
        final(e)@ == (ElevationV { audit: Seq::empty(), ..old(e)@ }),
{
    let mut out: Vec<String> = Vec::new();
    out.append(&mut e.audit);
    assert(texts_view(out@) =~= old(e)@.audit);
    assert(e@.audit =~= Seq::empty());
    out
}

/// Whether root retries this outcome: only a permission wall, and only with root in reserve.
pub open spec fn wants_root<T>(e: ElevationV, first: Result<T, OsError>) -> bool {
    first matches Err(x) && permission_wall(x@) && has_reserve(e)
}

/// What is recorded of a root-assisted operation.
pub open spec fn audit_text(what: Seq<char>, path: Seq<u8>) -> Seq<char> {
    what + ": "@ + utf8_lossy(path)
}

/// The elevation gate. If `first` hit a permission wall and root is in reserve, `op` is run, once:
/// it performs the operation as root, or yields nothing where root could not be taken up. A
/// success is recorded. If root fails too, its error is the truer one. In every other case `first`
/// passes through untouched, and `op` is not run.
pub fn retry_if_permission<T, F: FnOnce() -> Option<Result<T, OsError>>>(
    e: &mut Elevation,
    what: &str,
    path: &FsPath,
    first: Result<T, OsError>,
    op: F,
) -> (r: Result<T, OsError>)
    requires
        wants_root(old(e)@, first) ==> call_requires(op, ()),
    ensures
        !wants_root(old(e)@, first) ==> r == first && final(e)@ == old(e)@,
        wants_root(old(e)@, first) ==> exists|o: Option<Result<T, OsError>>|
            {
                &&& #[trigger] call_ensures(op, (), o)
                &&& match o {
                    None => r == first && final(e)@ == old(e)@,
                    Some(Err(x)) => r == Err::<T, OsError>(x) && final(e)@ == old(e)@,
                    Some(Ok(v)) => {
                        &&& r == Ok::<T, OsError>(v)
                        &&& final(e)@ == (ElevationV {
                            audit: old(e)@.audit.push(audit_text(what@, path.spelled())),
                            ..old(e)@
                        })
                    },
                }
            },
{
    let wall = match &first {
        Ok(_) => false,
        Err(x) => is_permission(x),
    };
    if !wall || !available(e) {
        return first;
    }
    match op() {
        None => first,
        Some(Err(x)) => Err(x),
        Some(Ok(v)) => {
            let mut s = String::from_str(what);
            s.append(": ");
            push_spelled(&mut s, path);
            record(e, s);
            Ok(v)
        },
    }
}

/// An error that is no permission wall is never retried with root, whatever is in reserve.
pub proof fn other_errors_are_never_retried<T>(e: ElevationV, x: OsError)
    requires
        !permission_wall(x@),
    ensures
        !wants_root(e, Err::<T, OsError>(x)),
{
}

/// An error number other than those of the two permission errors is never retried with root, unless
/// the standard library sees a permission error in it.
pub proof fn only_permission_numbers_are_retried<T>(e: ElevationV, x: OsError, code: i32, k: Codes)
    requires
        x@.errno == opt_errno(Some(code), k),
        x@.class != Class::PermissionDenied,
        code != k.access_denied,
        code != k.not_permitted,
    ensures
        !wants_root(e, Err::<T, OsError>(x)),
{
}

/// Without a reserve nothing is retried, whatever failed.
pub proof fn nothing_is_retried_without_a_reserve<T>(e: ElevationV, first: Result<T, OsError>)
    requires
        !has_reserve(e),
    ensures
        !wants_root(e, first),
{
}

/// A permission error is retried wherever root is in reserve: whatever tells it, the number or the
/// standard library.
pub proof fn a_wall_is_retried_with_a_reserve<T>(e: ElevationV, x: OsError, r: Reserve)
    requires
        e.reserve == Some(Some(r)),
        x@.errno == Some(Errno::AccessDenied) || x@.errno == Some(Errno::NotPermitted) || x@.class
            == Class::PermissionDenied,
    ensures
        wants_root(e, Err::<T, OsError>(x)),
{
}

/// What succeeded is never done again, and nothing is retried before privilege is settled or after root
/// was given up.
pub proof fn no_success_is_repeated<T>(e: ElevationV, x: T, first: Result<T, OsError>)
    ensures
        !wants_root(e, Ok::<T, OsError>(x)),
        e.reserve is None || e.reserve == Some(None::<Reserve>) ==> !wants_root(e, first),
{
}

/// The ids that sudo hands over are read as they are written; without one, or with garbage, it is
/// root's, which is no user to drop to.
pub proof fn an_id_is_read_as_written(n: u32, t: Seq<char>, i: int)
    requires
        0 < i < t.len(),
        !('0' <= t[i] <= '9'),
    ensures
        id_of(Some(dec(n as nat))) == n,
        id_of(Some(t)) == 0,
        id_of(None) == 0,
{
    a_written_number_reads_back(n as nat, u32::MAX as nat);
    what_is_no_number_is_refused(u32::MAX as nat + 1, u32::MAX as nat, t, i);
}

} // verus!
