//! From what a walk met to a manifest.

use filesync::manifest::{DstRoot, Kind, Manifest, Mtime};
use filesync::paths::FsPath;
use filesync::scan::{
    is_backup_dir, is_stray, marker_path, rescan_note, scan, scan_destination, scan_with_errors, scratch_path,
    wants_rescan, Sight, Sighting, Stat, WalkFailure,
};

fn p(s: &str) -> FsPath {
    FsPath::parse(s.as_bytes())
}

fn sighting(rel: &str, kind: Kind, len: u64, target: Option<&str>, ino: u64, nlink: u64) -> Sighting {
    Sighting {
        path: p("/t").join(&p(rel)),
        depth: rel.split('/').count(),
        kind,
        stat: Some(Stat {
            len,
            mtime: Some(Mtime { secs: 5, nanos: 0 }),
            nlink,
            dev: 1,
            ino,
            uid: 1,
            gid: 2,
            mode: 0o644,
        }),
        link_target: target.map(p),
    }
}

fn met(at: Sighting, removed: bool) -> Sight {
    Sight::Entry { at, elevated: false, removed }
}

fn file(rel: &str, content: &[u8]) -> Sight {
    met(sighting(rel, Kind::File, content.len() as u64, None, 1, 1), false)
}

fn dir(rel: &str) -> Sight {
    met(sighting(rel, Kind::Dir, 4096, None, 1, 3), false)
}

fn link(rel: &str, target: &str) -> Sight {
    met(sighting(rel, Kind::Symlink, 7, Some(target), 1, 1), false)
}

fn corpus() -> Vec<Sight> {
    vec![
        file("empty_file", b""),
        dir("empty_dir"),
        dir("f1"),
        file("f1/b.txt", b"hello world"),
        dir("f2"),
        file("f2/ with  spaces ", b"spaces"),
        file("f2/with\nnewline", b"newline"),
        file("f2/with\ttab", b"tab"),
        dir("f3"),
        file("f3/.hidden", b"hidden"),
        dir("f3/inner"),
        file("f3/inner/deep.txt", b"deep"),
        dir("hl"),
        met(sighting("hl/original.txt", Kind::File, 19, None, 77, 2), false),
        met(sighting("hl/linked.txt", Kind::File, 19, None, 77, 2), false),
        dir("links"),
        link("links/rel", "../f1/b.txt"),
        link("links/broken", "nonexistent"),
        link("links/to_dir", "../f1"),
    ]
}

fn rels(m: &Manifest) -> Vec<String> {
    m.iter().map(|e| String::from_utf8(e.rel.to_bytes()).unwrap()).collect()
}

#[test]
fn scans_files_dirs_and_nasty_names() {
    let m = scan(&p("/t"), &corpus());
    let r = rels(&m);
    for expected in [
        "f1/b.txt",
        "f2/ with  spaces ",
        "f2/with\nnewline",
        "f2/with\ttab",
        "f3/.hidden",
        "f3/inner/deep.txt",
        "empty_dir",
        "empty_file",
    ] {
        assert!(r.iter().any(|q| q == expected), "missing {expected:?} in {r:?}");
    }
    assert!(!r.iter().any(|q| q.is_empty()));
    let mut sorted = r.clone();
    sorted.sort_by(|a, b| std::path::Path::new(a).cmp(std::path::Path::new(b)));
    assert_eq!(r, sorted);
}

#[test]
fn symlinks_are_recorded_but_not_followed() {
    let m = scan(&p("/t"), &corpus());
    let rel = m.iter().find(|e| e.rel == p("links/rel")).expect("relative symlink");
    assert_eq!(rel.kind, Kind::Symlink);
    assert_eq!(rel.link_target, Some(p("../f1/b.txt")));
    assert_eq!((rel.size, rel.link_id), (0, None));
    assert!(m.iter().any(|e| e.rel == p("links/broken") && e.kind == Kind::Symlink));
    let to_dir = m.iter().find(|e| e.rel == p("links/to_dir")).unwrap();
    assert_eq!(to_dir.kind, Kind::Symlink);
    assert!(!m.iter().any(|e| e.rel != p("links/to_dir") && e.rel.starts_with(&p("links/to_dir"))));
}

#[test]
fn scan_ignores_its_own_temp_files() {
    let sights = vec![file("real.txt", b"x"), file(".filesync_staging.tmp.123.foo", b"scratch")];
    assert_eq!(rels(&scan(&p("/t"), &sights)), vec!["real.txt".to_string()]);
    assert!(scratch_path(&p("/t/sub/.filesync_staging.tmp.1.x")));
    assert!(!scratch_path(&p("/t/.filesync_staging.tmp.1.x/inside")));
}

#[test]
fn scanning_does_not_modify_the_tree() {
    let at = sighting(".filesync_staging.tmp.1.x", Kind::File, 1, None, 1, 1);
    assert!(!is_stray(&at, false), "only a destination scan deletes anything");
    assert!(is_stray(&at, true));
    assert!(!is_stray(&sighting("keep.txt", Kind::File, 1, None, 1, 1), true));
}

#[test]
fn destination_scan_sweeps_leftover_temp_files_only() {
    let stray = |rel: &str| met(sighting(rel, Kind::File, 4, None, 1, 1), true);
    let sights = vec![
        stray(".filesync_staging.tmp.999.old"),
        file("keep.txt", b"k"),
        dir("sub"),
        stray("sub/.filesync_staging.tmp.999.old2"),
    ];
    let (outcome, swept) = scan_destination(&DstRoot::new(p("/t")), &sights);
    assert_eq!(swept, 2);
    assert!(outcome.manifest.iter().any(|e| e.rel == p("keep.txt")));
    assert!(!rels(&outcome.manifest).iter().any(|r| r.contains(".filesync_staging.tmp.")));
}

#[test]
fn lock_is_released_and_never_treated_as_content() {
    let sights = vec![file(".filesync.lock", b"1\n"), dir("sub"), file("sub/.filesync.lock", b"data")];
    let r = rels(&scan(&p("/t"), &sights));
    assert_eq!(r, vec!["sub".to_string(), "sub/.filesync.lock".to_string()]);
}

#[test]
fn marked_directories_are_left_out_and_told() {
    assert!(is_backup_dir(1, true, true));
    assert!(!is_backup_dir(0, true, true) && !is_backup_dir(1, false, true) && !is_backup_dir(1, true, false));
    assert_eq!(marker_path(&p("/d/bk")), p("/d/bk/.filesync-backup-dir"));
    let o = scan_with_errors(&p("/t"), &vec![Sight::Marked(p("/t/bk")), file("a", b"x")]);
    assert_eq!(o.skipped_backup_dirs, vec![p("bk")]);
    assert_eq!(o.manifest.len(), 1);
}

#[test]
fn root_reads_what_the_user_may_not() {
    let f = |permission: bool, path: Option<FsPath>| WalkFailure {
        path,
        io: None,
        whole: "File system loop found".into(),
        permission,
    };
    assert!(wants_rescan(&f(true, Some(p("/t/x"))), true, true));
    assert!(!wants_rescan(&f(true, Some(p("/t/x"))), false, true));
    assert!(!wants_rescan(&f(false, Some(p("/t/x"))), true, true));
    assert!(!wants_rescan(&f(true, None), true, true));
    assert_eq!(
        rescan_note(&p("/t/x"), 1),
        "read directory (elevated): /t/x — 1 entry merged into the scan"
    );
    assert_eq!(
        rescan_note(&p("/t/x"), 2),
        "read directory (elevated): /t/x — 2 entries merged into the scan"
    );
    let sights = vec![
        Sight::Failed { failure: f(false, None), elevated: false },
        Sight::Failed { failure: f(true, Some(p("/t/x"))), elevated: true },
    ];
    let o = scan_with_errors(&p("/t"), &sights);
    assert_eq!(
        o.errors,
        vec!["scan error: File system loop found".to_string(), "cannot read x: File system loop found".into()]
    );
    assert!(o.denied.is_empty());
}
