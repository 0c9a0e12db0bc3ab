//! What a diff comes to for the person who reads it.

use filesync::conclusions::{analyze, can_analyze};
use filesync::diff::{Change, Diff};
use filesync::manifest::{Entry, Kind, Manifest};
use filesync::paths::FsPath;

fn p(s: &str) -> FsPath {
    FsPath::parse(s.as_bytes())
}

fn file(rel: &str, size: u64) -> Entry {
    Entry {
        rel: p(rel),
        kind: Kind::File,
        size,
        mtime: None,
        link_target: None,
        link_id: None,
        owner: None,
        mode: None,
    }
}

fn dir(rel: &str) -> Entry {
    Entry { kind: Kind::Dir, ..file(rel, 0) }
}

fn removed(rel: &str, kind: Kind) -> Change {
    Change { rel: p(rel), kind }
}

#[test]
fn orphan_deletions_are_those_with_no_source_basename() {
    let src = Manifest::from_sorted(vec![file("archive/keep.txt", 10)]);
    let dst = Manifest::from_sorted(vec![file("old/keep.txt", 10), file("vanished.bin", 999)]);
    let d = Diff {
        removed: vec![removed("old/keep.txt", Kind::File), removed("vanished.bin", Kind::File)],
        ..Diff::default()
    };
    let c = analyze(&d, &src, &dst);
    assert_eq!(c.orphan_deletes.len(), 1);
    assert_eq!(c.orphan_deletes[0].rel, p("vanished.bin"));
    assert_eq!(c.orphan_bytes, 999);
    assert_eq!(c.orphan_unique_size, 1);
}

#[test]
fn whole_deleted_folder_is_one_subtree_and_alarms() {
    let src = Manifest::from_sorted(vec![file("stillhere.txt", 1)]);
    let dst = Manifest::from_sorted(vec![
        file("stillhere.txt", 1),
        dir("Photos"),
        dir("Photos/2019"),
        file("Photos/2019/a.jpg", 100),
        file("Photos/2019/b.jpg", 200),
    ]);
    let d = Diff {
        removed: vec![
            removed("Photos", Kind::Dir),
            removed("Photos/2019", Kind::Dir),
            removed("Photos/2019/a.jpg", Kind::File),
            removed("Photos/2019/b.jpg", Kind::File),
        ],
        ..Diff::default()
    };
    let c = analyze(&d, &src, &dst);
    assert_eq!(c.deleted_subtrees.len(), 1);
    assert_eq!(c.deleted_subtrees[0].root, p("Photos"));
    assert_eq!(c.deleted_subtrees[0].files, 2);
    assert_eq!(c.deleted_subtrees[0].bytes, 300);
    assert!(c.data_loss_alarm());
}

#[test]
fn folder_table_nets_and_junk_are_tallied() {
    let src = Manifest::from_sorted(vec![file("Docs/new.txt", 50)]);
    let dst = Manifest::from_sorted(vec![file("Docs/old.txt", 20), file(".Trash-1000/junk.bin", 5)]);
    let d = Diff {
        added: vec![Change { rel: p("Docs/new.txt"), kind: Kind::File }],
        removed: vec![
            removed("Docs/old.txt", Kind::File),
            removed(".Trash-1000/junk.bin", Kind::File),
        ],
        ..Diff::default()
    };
    let c = analyze(&d, &src, &dst);

    let docs = c.folders.iter().find(|f| f.folder == "Docs").expect("Docs row");
    assert_eq!((docs.added, docs.removed), (1, 1));
    assert_eq!(docs.net_files, 0);
    assert_eq!(docs.net_bytes, 30);

    let trash = c.junk.iter().find(|j| j.pattern == ".Trash*").expect("trash tally");
    assert_eq!(trash.deleting_from_dest, 1);
    assert_eq!(trash.copying_from_source, 0);
}

#[test]
fn render_leads_with_the_alarm_and_lists_orphans() {
    let src = Manifest::from_sorted(vec![file("keep.txt", 1)]);
    let dst = Manifest::from_sorted(vec![file("keep.txt", 1), file("Backups/tax2019.pdf", 4096)]);
    let d = Diff {
        removed: vec![removed("Backups", Kind::Dir), removed("Backups/tax2019.pdf", Kind::File)],
        ..Diff::default()
    };
    let out = analyze(&d, &src, &dst).render("/src", "/dst");
    assert!(out.contains("DATA-LOSS WATCH"), "{out}");
    assert!(out.contains("deleted ENTIRELY"), "{out}");
    assert!(out.contains("tax2019.pdf"), "{out}");
}

#[test]
fn empty_files_get_the_distinct_no_move_note() {
    let src = Manifest::from_sorted(vec![file("keep.txt", 5), file("new_empty", 0)]);
    let dst = Manifest::from_sorted(vec![file("keep.txt", 5), file("old_empty", 0)]);
    let d = Diff {
        added: vec![Change { rel: p("new_empty"), kind: Kind::File }],
        removed: vec![removed("old_empty", Kind::File)],
        ..Diff::default()
    };
    let c = analyze(&d, &src, &dst);
    assert_eq!((c.empty_adds, c.empty_removes), (1, 1));
    let out = c.render("/s", "/d");
    assert!(out.contains("NO move was attempted") && out.contains("0-byte"), "{out}");
}

#[test]
fn no_deletions_reads_calm() {
    let src = Manifest::from_sorted(vec![file("a.txt", 1)]);
    let dst = Manifest::from_sorted(vec![file("a.txt", 1)]);
    let out = analyze(&Diff::default(), &src, &dst).render("/s", "/d");
    assert!(out.contains("nothing would be deleted"), "{out}");
}

#[test]
fn names_are_matched_in_any_case() {
    let src = Manifest::from_sorted(vec![file("elsewhere/readme.TXT", 1)]);
    let dst = Manifest::from_sorted(vec![file("A.JPG", 3), file("README.txt", 9), file("b.jpg", 4)]);
    let d = Diff {
        removed: vec![
            removed("A.JPG", Kind::File),
            removed("README.txt", Kind::File),
            removed("b.jpg", Kind::File),
        ],
        ..Diff::default()
    };
    assert!(can_analyze(&d, &src, &dst));
    let c = analyze(&d, &src, &dst);
    assert_eq!(c.delete_ext_histogram, vec![(".jpg".to_string(), 2), (".txt".to_string(), 1)]);
    assert_eq!(c.orphan_deletes.iter().map(|f| f.rel.clone()).collect::<Vec<_>>(), vec![p("b.jpg"), p("A.JPG")]);
}

#[test]
fn counts_that_do_not_fit_are_told() {
    let src = Manifest::from_sorted(vec![]);
    let dst = Manifest::from_sorted(vec![file("a", u64::MAX), file("b", 1)]);
    let d = Diff {
        removed: vec![removed("a", Kind::File), removed("b", Kind::File)],
        ..Diff::default()
    };
    assert!(!can_analyze(&d, &src, &dst));
}

#[test]
fn only_what_a_folder_gains_or_loses_must_fit() {
    let half = i64::MAX as u64;
    let src = Manifest::from_sorted(vec![file("a/x", half), file("b/y", half)]);
    let dst = Manifest::from_sorted(vec![]);
    let added = |rel: &str| Change { rel: p(rel), kind: Kind::File };
    let d = Diff { added: vec![added("a/x"), added("b/y")], ..Diff::default() };
    assert!(can_analyze(&d, &src, &dst), "each folder gains what fits");
    let c = analyze(&d, &src, &dst);
    assert_eq!(c.folders.iter().map(|r| r.net_bytes).collect::<Vec<_>>(), vec![i64::MAX, i64::MAX]);
    let src = Manifest::from_sorted(vec![file("a/x", half), file("a/y", 1)]);
    let d = Diff { added: vec![added("a/x"), added("a/y")], ..Diff::default() };
    assert!(!can_analyze(&d, &src, &dst), "one folder gains too much");
}
