//! Privilege, and one sync per destination.

use filesync::manifest::DstRoot;
use filesync::oserror::{is_disk_full, Class, Codes, Errno, OsError};
use filesync::paths::FsPath;
use filesync::runtime::elevation::{
    available, chown_to_user, drain_audit, init, is_permission, record, retry_if_permission, settle, Elevation,
    Launch, DROP_FAILED, PLAIN_ROOT,
};
use filesync::runtime::lock::{is_gone, lock_contents, lock_holder, lock_path, reclaimable, Attempt, Lock};

fn p(s: &str) -> FsPath {
    FsPath::parse(s.as_bytes())
}

fn raw(code: i32) -> OsError {
    OsError::new(format!("os error {code}"), Some(code), Class::Other, &Codes::here())
}

fn some(s: &str) -> Option<String> {
    Some(s.to_string())
}

/// A process that was launched under sudo.
fn under_sudo(unelevated: bool) -> Elevation {
    let mut e = Elevation::new();
    match init(&mut e, unelevated, 0, &some("1000"), &some("100")) {
        Launch::Drop { uid, gid, saved_uid, saved_gid } => {
            assert_eq!((uid, gid), (1000, 100));
            assert_eq!((saved_uid, saved_gid), if unelevated { (1000, 100) } else { (0, 0) });
            settle(&mut e, unelevated, uid, gid, true, uid).unwrap();
        }
        other => panic!("{other:?}"),
    }
    e
}

#[test]
fn init_without_root_leaves_elevation_off() {
    let mut e = Elevation::new();
    assert!(matches!(init(&mut e, false, 1000, &None, &None), Launch::Settled));
    assert!(!available(&e));
    assert_eq!(chown_to_user(&e), None);
    assert!(matches!(init(&mut e, false, 0, &None, &None), Launch::Settled), "settled once and for all");
}

#[test]
fn root_under_sudo_waits_in_reserve() {
    let e = under_sudo(false);
    assert!(available(&e));
    assert_eq!(chown_to_user(&e), Some((1000, 100)));
    let e = under_sudo(true);
    assert!(!available(&e));
    assert_eq!(chown_to_user(&e), None);
}

#[test]
fn plain_root_is_refused() {
    for uid in [None, some("0"), some("me"), some("-5"), some("4294967296")] {
        let mut e = Elevation::new();
        match init(&mut e, false, 0, &uid, &None) {
            Launch::Refused(why) => assert_eq!(why, PLAIN_ROOT),
            other => panic!("{other:?}"),
        }
    }
    let mut e = Elevation::new();
    assert_eq!(settle(&mut e, false, 1000, 100, false, 0), Err(DROP_FAILED));
    assert_eq!(settle(&mut e, false, 1000, 100, true, 0), Err(DROP_FAILED));
    assert!(!available(&e));
}

#[test]
fn permission_errors_are_the_only_retry_class() {
    for (code, expect) in [
        (libc::EACCES, true),
        (libc::EPERM, true),
        (libc::EIO, false),
        (libc::ENOENT, false),
        (libc::ENOSPC, false),
        (libc::EROFS, false),
    ] {
        assert_eq!(is_permission(&raw(code)), expect, "errno {code}");
    }
    assert!(is_permission(&OsError::new("no".into(), None, Class::PermissionDenied, &Codes::here())));
    assert!(is_disk_full(&raw(libc::ENOSPC)) && !is_disk_full(&raw(libc::EIO)));
    assert!(is_disk_full(&OsError::new("full".into(), None, Class::StorageFull, &Codes::here())));
    assert_eq!(raw(libc::EIO).errno, Some(Errno::Other(libc::EIO)));
    assert_eq!(raw(libc::ESRCH).errno, Some(Errno::NoProcess));
}

#[test]
fn retry_passes_through_untouched_when_no_reserve() {
    let mut e = Elevation::new();
    init(&mut e, false, 1000, &None, &None);
    let r = retry_if_permission(&mut e, "t", &p("/x"), Ok(7), || panic!("must not run"));
    assert_eq!(r.unwrap(), 7);
    let first: Result<u8, OsError> = Err(raw(libc::EACCES));
    let r = retry_if_permission(&mut e, "t", &p("/x"), first, || panic!("must not run"));
    assert_eq!(r.unwrap_err().errno, Some(Errno::AccessDenied));
    let first: Result<u8, OsError> = Err(raw(libc::EIO));
    let r = retry_if_permission(&mut e, "t", &p("/x"), first, || panic!("must not run"));
    assert_eq!(r.unwrap_err().errno, Some(Errno::Other(libc::EIO)));
    assert!(drain_audit(&mut e).is_empty());
}

#[test]
fn a_permission_wall_is_retried_once_and_recorded() {
    let mut e = under_sudo(false);
    let wall = || -> Result<u8, OsError> { Err(raw(libc::EPERM)) };
    let r = retry_if_permission(&mut e, "delete", &p("/x y"), wall(), || Some(Ok(5)));
    assert_eq!(r.unwrap(), 5);
    assert_eq!(drain_audit(&mut e), vec!["delete: /x y".to_string()]);
    let r = retry_if_permission(&mut e, "delete", &p("/x"), wall(), || Some(Err(raw(libc::EROFS))));
    assert_eq!(r.unwrap_err().errno, Some(Errno::Other(libc::EROFS)));
    let r = retry_if_permission(&mut e, "delete", &p("/x"), wall(), || None);
    assert_eq!(r.unwrap_err().errno, Some(Errno::NotPermitted));
    let r = retry_if_permission(&mut e, "t", &p("/x"), Err::<u8, OsError>(raw(libc::EIO)), || panic!("no"));
    assert!(r.is_err());
    assert!(drain_audit(&mut e).is_empty());
}

#[test]
fn audit_records_and_drains() {
    let mut e = Elevation::new();
    record(&mut e, "test op: /somewhere".into());
    let a = drain_audit(&mut e);
    assert!(a.iter().any(|m| m.contains("test op")));
    assert!(drain_audit(&mut e).is_empty());
}

fn already_there() -> Result<(), OsError> {
    Err(OsError::new("File exists".into(), Some(libc::EEXIST), Class::AlreadyExists, &Codes::here()))
}

#[test]
fn lock_is_exclusive_and_released_on_drop() {
    let dst = DstRoot::new(p("/d"));
    match Lock::acquire(&dst, true, Ok(())) {
        Attempt::Held(l) => assert_eq!(*l.path(), p("/d/.filesync.lock")),
        other => panic!("{other:?}"),
    }
    assert!(matches!(Lock::acquire(&dst, true, already_there()), Attempt::Judge));
    let holder = lock_holder(&Some(lock_contents(4242)));
    assert_eq!(holder, Some(4242));
    let why = reclaimable(&dst, holder, is_gone(&Ok(()))).unwrap_err();
    assert_eq!(
        why,
        "another filesync is already syncing this destination (lock: /d/.filesync.lock). If you are certain \
         none is running, delete the lock file and retry."
    );
    assert_eq!(lock_path(&dst), p("/d/.filesync.lock"));
}

#[test]
fn stale_lock_from_a_dead_process_is_reclaimed() {
    let dst = DstRoot::new(p("/d"));
    let holder = lock_holder(&some("4242\n"));
    assert!(is_gone(&Err(raw(libc::ESRCH))));
    assert!(!is_gone(&Err(raw(libc::EPERM))), "a process of another user is alive");
    assert_eq!(reclaimable(&dst, holder, true), Ok(()));
    assert!(matches!(Lock::acquire(&dst, false, Ok(())), Attempt::Held(_)));
    assert!(matches!(Lock::acquire(&dst, false, already_there()), Attempt::Failed(_)), "lost the race");
    let other = Err(OsError::new("read-only".into(), Some(libc::EROFS), Class::Other, &Codes::here()));
    assert!(matches!(Lock::acquire(&dst, true, other), Attempt::Failed(_)));
}

#[test]
fn garbled_lock_is_not_stolen() {
    let dst = DstRoot::new(p("/d"));
    for garbled in [some("not a pid"), some(""), some("0"), some("-7"), some("99999999999"), some("1 2"), None] {
        let holder = lock_holder(&garbled);
        assert_eq!(holder, None, "{garbled:?}");
        assert!(reclaimable(&dst, holder, true).is_err());
    }
    assert_eq!(lock_holder(&some(" \t12\r\n")), Some(12));
}

#[test]
fn the_system_tells_which_number_is_which() {
    let k = Codes::here();
    assert_eq!((k.access_denied, k.not_permitted), (libc::EACCES, libc::EPERM));
    assert_eq!((k.no_space, k.no_process), (libc::ENOSPC, libc::ESRCH));
    let other = Codes { access_denied: 2, not_permitted: 63, no_space: 51, no_process: 71 };
    let says = |code: i32| OsError::new("e".into(), Some(code), Class::Other, &other).errno.unwrap();
    assert_eq!((says(2), says(63)), (Errno::AccessDenied, Errno::NotPermitted));
    assert_eq!((says(51), says(71), says(13)), (Errno::NoSpace, Errno::NoProcess, Errno::Other(13)));
    assert_eq!(OsError::new("e".into(), None, Class::Other, &other).errno, None);
}

#[test]
fn the_lock_and_the_trail_show_paths_as_they_were_given() {
    let why = reclaimable(&DstRoot::new(p("mirror//")), None, false).unwrap_err();
    assert!(why.contains("(lock: mirror//.filesync.lock)"), "{why}");
    let mut e = under_sudo(false);
    let denied: Result<u8, OsError> = Err(raw(libc::EACCES));
    let r = retry_if_permission(&mut e, "open", &p("d//f/"), denied, || Some(Ok(7)));
    assert_eq!(r.unwrap(), 7);
    assert_eq!(drain_audit(&mut e), vec!["open: d//f/".to_string()]);
}
