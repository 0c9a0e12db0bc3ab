//! Paths are told apart by their components and shown as they are spelled; and copies of values,
//! which keep both.

use filesync::apply::{Copied, Outcome, Progression, Verified};
use filesync::conclusions::{analyze, Conclusions, FileEntry, FolderDelta, JunkTally, Subtree};
use filesync::diff::{diff, Change, Diff, Examined, Link, Move};
use filesync::hash::{hash_bytes, ReadFailure};
use filesync::manifest::{DstRoot, Entry, Kind, Manifest, SrcRoot};
use filesync::oserror::{Class, Codes, OsError};
use filesync::paths::FsPath;
use filesync::plan::{plan, Action};
use filesync::preflight::{canonicalize_lenient, validate_backup_dir, validate_roots, Answer, BackupPlace, Lenient, Source};
use filesync::reports::diff_cmd::issues;
use filesync::reports::findings::Report;
use filesync::reports::showstoppers::{Denied, Item, Me, Names};
use filesync::reports::OutputPaths;
use filesync::scan::{rescan_note, scan_with_errors, ScanOutcome, Sight, Sighting, WalkFailure};
use filesync::sync::prepare;
use filesync::target::Capabilities;
use filesync::text::show_spelled;

fn p(s: &str) -> FsPath {
    FsPath::parse(s.as_bytes())
}

fn change(rel: &str, kind: Kind) -> Change {
    Change { rel: p(rel), kind }
}

fn file(rel: &str, size: u64) -> Entry {
    Entry {
        rel: p(rel),
        kind: Kind::File,
        size,
        mtime: None,
        link_target: None,
        link_id: None,
        owner: None,
        mode: None,
    }
}

fn outcome(entries: Vec<Entry>) -> ScanOutcome {
    ScanOutcome {
        manifest: Manifest::from_sorted(entries),
        errors: vec![],
        skipped_backup_dirs: vec![],
        denied: vec![],
    }
}

fn refused(message: &str) -> OsError {
    OsError::new(message.to_string(), None, Class::Other, &Codes::here())
}

fn odd_diff() -> Diff {
    Diff {
        added: vec![change("a//new", Kind::File), change("./dev", Kind::Other), change("d//e/", Kind::Dir)],
        removed: vec![change("r//x", Kind::File)],
        changed: vec![change("c/./y", Kind::File)],
        moved: vec![Move { from: p("m//old"), to: p("m/./new") }],
        touched: vec![change("t//z/", Kind::File)],
        to_link: vec![Link { leader: p("l//one"), name: p("l/two/") }],
        unchanged: 1,
        unchanged_paths: vec![p("u//v")],
        ..Diff::default()
    }
}

#[test]
fn a_relative_path_keeps_its_spelling() {
    let paths = [
        "/", "//", "/a", "/a/", "/a//b", "/a//b//c/", "/a/./b/./", "a", "a/", "a//b", "./a//b/.", "./", ".", "", "a/../b",
        "//a///b/.//c", "../a", ".//./a/b",
    ];
    for path in paths {
        for base in paths {
            let std = std::path::Path::new(path).strip_prefix(base);
            let rel = p(path).relative_to(&p(base));
            assert_eq!(std.is_ok(), p(path).starts_with(&p(base)), "{path:?} {base:?}");
            let want = std.unwrap_or(std::path::Path::new(path)).to_string_lossy().into_owned();
            assert_eq!(show_spelled(&rel), want, "{path:?} {base:?}");
            assert_eq!(rel, p(&want), "{path:?} {base:?}");
        }
    }
}

#[test]
fn a_parent_keeps_its_spelling() {
    for path in ["/", "/a", "/a//b", "/a//b//c/", "a", "a/", "a//b/.", "./a", ".", "./", "", "..", "../a", "a/..", "a/./b"] {
        let std = std::path::Path::new(path).parent();
        let ours = p(path).parent();
        assert_eq!(
            ours.as_ref().map(show_spelled),
            std.map(|q| q.to_string_lossy().into_owned()),
            "{path:?}"
        );
        assert_eq!(ours, std.map(|q| p(&q.to_string_lossy())), "{path:?}");
    }
}

#[test]
fn a_listing_shows_paths_as_they_are_spelled() {
    assert_eq!(
        odd_diff().render(true),
        "moved:     1\n    ~ m//old  ->  m/./new\nto copy:   3\n    + a//new\n    + ./dev (special file — no content; \
         will be skipped)\n    + d//e/\nto delete: 1\n    - r//x\nto update: 1\n    * c/./y\nto link:   1 (hard links — \
         content written once via the leader)\n    & l/two/  ->  l//one\nto refresh (content identical, metadata \
         drift): 1\n    ≈ t//z/\nunchanged: 1\n    = u//v\n"
    );
    let d = odd_diff();
    assert_eq!(d.added_paths().iter().map(show_spelled).collect::<Vec<_>>(), ["a//new", "./dev", "d//e/"]);
    assert_eq!(d.removed_paths().iter().map(show_spelled).collect::<Vec<_>>(), ["r//x"]);
    assert_eq!(d.changed_paths().iter().map(show_spelled).collect::<Vec<_>>(), ["c/./y"]);
}

#[test]
fn an_issue_shows_the_path_as_it_is_spelled() {
    let (src, dst) = (Manifest::from_sorted(vec![file("f//x", 3)]), Manifest::from_sorted(vec![file("f/x", 3)]));
    let failed = || Err(ReadFailure { message: "denied".into(), denied: true });
    let read = |a, b| Examined { src: vec![Some(a)], dst: vec![Some(b)], links: vec![None] };
    let d = diff(&src, &dst, &read(failed(), Ok(hash_bytes(b"abc"))), true, false, false);
    assert_eq!(d.issues, ["source: f//x: cannot read to compare content (denied); treating as changed"]);
    assert_eq!(show_spelled(&d.denied_source[0]), "f//x");
    assert_eq!(show_spelled(&d.changed[0].rel), "f//x");
    let d = diff(&src, &dst, &read(Ok(hash_bytes(b"abc")), failed()), true, false, false);
    assert!(d.issues[0].starts_with("destination: f//x: cannot read"), "{:?}", d.issues);
}

#[test]
fn a_scan_shows_paths_as_they_are_spelled() {
    let at = |path: &str| Sighting { path: p(path), depth: 1, kind: Kind::Dir, stat: None, link_target: None };
    let failure = WalkFailure { path: Some(p("/t//b//c")), io: Some("no".into()), whole: "w".into(), permission: true };
    let sights = vec![
        Sight::Entry { at: at("/t//x//y/"), elevated: false, removed: false },
        Sight::Marked(p("/t//bk//old")),
        Sight::Failed { failure, elevated: false },
    ];
    let o = scan_with_errors(&p("/t"), &sights);
    assert_eq!(show_spelled(&o.manifest.entry(0).rel), "x//y");
    assert_eq!(show_spelled(&o.skipped_backup_dirs[0]), "bk//old");
    assert_eq!(show_spelled(&o.denied[0]), "b//c");
    assert_eq!(o.errors, ["cannot read b//c: no"]);
    let said = issues(&outcome(vec![]), &o, &Diff::default());
    assert!(said[1].starts_with("destination: ignoring backup dir (has ") && said[1].ends_with("): bk//old"), "{said:?}");
    assert!(rescan_note(&p("/t//x/"), 1).starts_with("read directory (elevated): /t//x/ — 1 entry"));
}

#[test]
fn what_is_held_back_is_shown_as_it_is_spelled() {
    let mut src = outcome(vec![file("m/new", 1)]);
    src.skipped_backup_dirs = vec![p("bk//s/")];
    let dst = outcome(vec![file("m/new", 1)]);
    let r = prepare(&src, &dst, &odd_diff(), None, Capabilities { symlinks: true, hardlinks: true });
    assert!(r.issues.contains(&"deferred rename: m//old -> m/./new (target occupied)".to_string()), "{:?}", r.issues);
    let backup = "source contains a filesync backup dir; its subtree is not mirrored: bk//s/ (delete its ";
    assert!(r.issues[0].starts_with(backup), "{:?}", r.issues);
    let named: Vec<String> = r.actions.iter().map(reported).collect();
    assert_eq!(named, ["d//e/", "./dev", "a//new", "c/./y", "t//z/"]);
}

/// The path by which an action is reported.
fn reported(a: &Action) -> String {
    match a {
        Action::CreateDir(p) | Action::Delete(p) | Action::Copy(p) | Action::RefreshMeta(p) => show_spelled(p),
        Action::Rename { to, .. } => show_spelled(to),
        Action::HardLink { name, .. } => show_spelled(name),
    }
}

#[test]
fn actions_are_spelled_as_in_the_difference_on_values() {
    let said: Vec<String> = plan(&odd_diff()).iter().map(reported).collect();
    assert_eq!(said, ["m/./new", "r//x", "d//e/", "./dev", "a//new", "c/./y", "t//z/", "l/two/"]);
}

#[test]
fn what_came_of_an_action_shows_the_path_as_it_is_spelled() {
    let mut s = Progression::start(Report::new());
    s.record(&Action::CreateDir(p("a//b")), &Outcome::Failed(refused("no")));
    s.record(&Action::Rename { from: p("x"), to: p("y//z") }, &Outcome::Failed(refused("no")));
    s.record(&Action::Delete(p("c//")), &Outcome::Failed(refused("no")));
    s.record(&Action::RefreshMeta(p("./m")), &Outcome::Failed(refused("no")));
    s.record(&Action::Copy(p("d//e")), &Outcome::Failed(refused("no")));
    s.record(&Action::Copy(p("l//k")), &Outcome::Copied(Copied::Symlink { broken: true }));
    s.record(&Action::Copy(p("w/./f")), &Outcome::Copied(Copied::Failed("why".into())));
    let link = |name: &str| Action::HardLink { leader: p("one"), name: p(name) };
    s.record(&link("two//"), &Outcome::Unlinked { link_error: refused("no"), copy: Err(refused("nor")) });
    let file = Copied::File { bytes: 1, hash: hash_bytes(b"a") };
    s.record(&link("three//x"), &Outcome::Unlinked { link_error: refused("no"), copy: Ok(file) });
    s.record(&Action::Copy(p("pipe//")), &Outcome::Copied(Copied::NoContent));
    s.record_verification(&p("v//f"), &Verified::Unreadable("lost".into()));
    assert_eq!(
        s.report.issues,
        [
            "a//b: no",
            "y//z: no",
            "c//: no",
            "./m: no",
            "d//e: no",
            "l//k: symlink target does not exist (link copied anyway)",
            "w/./f: why",
            "two//: hard link failed (no) and the fallback copy failed (nor)",
            "v//f: lost",
        ]
    );
    assert_eq!(
        s.report.skipped,
        [
            "three//x: hard link not possible (no); copied as an independent file",
            "pipe//: special file (fifo/socket/device) — no content to copy",
        ]
    );
    assert_eq!(s.flushed().iter().map(show_spelled).collect::<Vec<_>>(), ["three//x", "./m"]);
    let mut r = Report::new();
    r.issue(&p("i//j"), "bad");
    assert_eq!(r.issues, ["i//j: bad"]);
}

#[test]
fn conclusions_show_paths_as_they_are_spelled() {
    let dst = Manifest::from_sorted(vec![Entry { kind: Kind::Dir, ..file("big//dir/", 0) }, file("big/dir//f", 9)]);
    let d = Diff {
        removed: vec![change("big//dir/", Kind::Dir), change("big/dir//f", Kind::File)],
        ..Diff::default()
    };
    let c = analyze(&d, &Manifest::from_sorted(vec![]), &dst);
    assert_eq!(show_spelled(&c.deleted_subtrees[0].root), "big//dir/");
    assert_eq!(show_spelled(&c.orphan_deletes[0].rel), "big/dir//f");
    let text = c.render("/s", "/d");
    assert!(text.contains("big//dir/   1 file(s)") && text.contains("big/dir//f"), "{text}");
}

#[test]
fn a_remedy_names_paths_as_they_are_spelled() {
    let (src, dst) = (SrcRoot::new(p("/s//")), DstRoot::new(p("/d")));
    let none = Manifest::from_sorted(vec![]);
    let denied = vec![Denied { rel: p("x//y"), found: None }];
    let me = Some(Me { euid: 1000, groups: vec![1000] });
    let nothing = Diff::default();
    let r = filesync::reports::showstoppers::analyze(&src, &none, &denied, &dst, &none, &vec![], &nothing, false, &me);
    let text = r.render(&Names::none());
    assert!(text.contains("'/s//x//y'"), "{text}");
}

#[test]
fn a_refusal_shows_resolved_paths_as_they_are_spelled() {
    let e = validate_roots(&p("s"), &Source::At(p("/r//s")), &p("/r/s/./t")).unwrap_err();
    assert!(e.ends_with("(from=/r//s, to=/r/s/./t)"), "{e}");
    let (src, dst) = (SrcRoot::new(p("s")), DstRoot::new(p("d")));
    let cf = Ok(p("/s//"));
    let judge = |cb: &str, place: BackupPlace| validate_backup_dir(&p(cb), &src, &cf, &dst, &p("/d"), &place, &Ok(true));
    let e = judge("/s/./b", BackupPlace::Missing).unwrap_err();
    assert!(e.ends_with("(backup-dir=/s/./b, source=/s//)"), "{e}");
    assert_eq!(judge("/b//c", BackupPlace::NotDir).unwrap_err(), "--backup-dir /b//c exists and is not a directory");
    assert_eq!(judge("/b//", BackupPlace::Unknown("no".into())).unwrap_err(), "cannot inspect --backup-dir /b//: no");
    assert_eq!(judge("/b//", BackupPlace::Unreadable("no".into())).unwrap_err(), "cannot read --backup-dir /b//: no");
    assert!(judge("/b//", BackupPlace::NotEmpty).unwrap_err().starts_with("--backup-dir /b// is not empty"));
    let answers = vec![Answer { path: p("/a"), resolved: Some(p("/r/a")) }, Answer { path: p("/r/a/b"), resolved: None }];
    match canonicalize_lenient(&p("a//b/../c/"), &Some(p("/")), &answers) {
        Lenient::Done(q) => assert_eq!(show_spelled(&q), "/r/a/c"),
        Lenient::Ask(q) => panic!("{q:?}"),
    }
}

#[test]
fn copies_keep_everything() {
    let actions = plan(&odd_diff());
    let again = actions.clone();
    assert_eq!(again, actions);
    assert_eq!(again.iter().map(reported).collect::<Vec<_>>(), actions.iter().map(reported).collect::<Vec<_>>());
    let c = change("a//b", Kind::Dir).clone();
    assert_eq!((show_spelled(&c.rel), c.kind), ("a//b".to_string(), Kind::Dir));
    let m = Move { from: p("x//"), to: p("y//") }.clone();
    assert_eq!((show_spelled(&m.from), show_spelled(&m.to)), ("x//".to_string(), "y//".to_string()));
    let l = Link { leader: p("x//"), name: p("y//") }.clone();
    assert_eq!((show_spelled(&l.leader), show_spelled(&l.name)), ("x//".to_string(), "y//".to_string()));
    let (s, d) = (SrcRoot::new(p("s//")).clone(), DstRoot::new(p("d//")).clone());
    assert_eq!((show_spelled(s.path()), show_spelled(d.path())), ("s//".to_string(), "d//".to_string()));
    let mut e = file("a//b", 7);
    e.link_target = Some(p("t//"));
    let m = Manifest::from_sorted(vec![e]).clone();
    assert_eq!((m.len(), m.entry(0).size, show_spelled(&m.entry(0).rel)), (1, 7, "a//b".to_string()));
    assert_eq!(m.entry(0).link_target.as_ref().map(show_spelled), Some("t//".to_string()));
    let i = Item { abs: p("/a//b"), owner: Some((1, 2)), mode: Some(3), confirmed: true }.clone();
    assert_eq!((show_spelled(&i.abs), i.owner, i.mode, i.confirmed), ("/a//b".to_string(), Some((1, 2)), Some(3), true));
    let o = OutputPaths { report: p("r//"), errors: p("e//"), conclusions: p("c//"), showstoppers: p("s//") }.clone();
    let texts = [&o.report, &o.errors, &o.conclusions, &o.showstoppers].map(show_spelled);
    assert_eq!(texts, ["r//", "e//", "c//", "s//"]);
    let t = Subtree { root: p("a//b"), files: 1, bytes: 2 };
    assert_eq!(t.clone(), t);
    assert_eq!(show_spelled(&t.clone().root), "a//b");
    assert_ne!(t, Subtree { root: p("a/b"), files: 1, bytes: 3 });
    let f = FileEntry { rel: p("a//b"), bytes: 2 };
    assert_eq!(f.clone(), f);
    assert_ne!(f, FileEntry { rel: p("a/c"), bytes: 2 });
    let g = FolderDelta {
        folder: "x".into(),
        added: 1,
        removed: 2,
        changed: 3,
        moved_in: 4,
        net_files: -1,
        net_bytes: -5,
    };
    assert_eq!(g.clone(), g);
    assert_ne!(g, FolderDelta { net_bytes: 5, ..g.clone() });
    let j = JunkTally { pattern: "Thumbs.db".into(), deleting_from_dest: 1, copying_from_source: 2 };
    assert_eq!(j.clone(), j);
    assert_ne!(j, JunkTally { copying_from_source: 3, ..j.clone() });
}

#[test]
fn conclusions_start_empty_and_can_be_copied() {
    let none = Conclusions::default();
    assert_eq!((none.deleted_files, none.added, none.unchanged, none.orphan_bytes), (0, 0, 0, 0));
    assert!(none.deleted_subtrees.is_empty() && none.folders.is_empty() && none.junk.is_empty());
    assert!(!none.data_loss_alarm());
    let dst = Manifest::from_sorted(vec![file("a//x.TXT", 9), file("b", 1)]);
    let d = Diff { removed: vec![change("a//x.TXT", Kind::File)], ..Diff::default() };
    let c = analyze(&d, &Manifest::from_sorted(vec![file("b", 1)]), &dst);
    let copy = c.clone();
    assert_eq!(copy.render("/s", "/d"), c.render("/s", "/d"));
    assert_eq!((copy.deleted_bytes, copy.delete_ext_histogram.len()), (9, 1));
    assert_eq!(show_spelled(&copy.largest_deletes[0].rel), "a//x.TXT");
}
