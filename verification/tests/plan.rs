//! From a diff to an ordered list of actions.

use filesync::diff::{Change, Diff, Link, Move};
use filesync::manifest::{Entry, Kind, Manifest};
use filesync::paths::FsPath;
use filesync::plan::{checked_copy_bytes, plan, planned_copy_bytes, Action};

fn p(s: &str) -> FsPath {
    FsPath::parse(s.as_bytes())
}

fn pos(actions: &[Action], a: &Action) -> usize {
    actions.iter().position(|x| x == a).unwrap_or_else(|| panic!("missing action {a:?}"))
}

fn entry(rel: &str, size: u64) -> Entry {
    Entry {
        rel: p(rel),
        kind: Kind::File,
        size,
        mtime: None,
        link_target: None,
        link_id: None,
        owner: None,
        mode: None,
    }
}

#[test]
fn empty_diff_plans_nothing() {
    assert!(plan(&Diff::default()).is_empty());
}

#[test]
fn phases_are_ordered_rename_delete_createdir_copy() {
    let d = Diff {
        added: vec![
            Change { rel: p("newdir"), kind: Kind::Dir },
            Change { rel: p("newdir/f.txt"), kind: Kind::File },
            Change { rel: p("top.txt"), kind: Kind::File },
        ],
        removed: vec![
            Change { rel: p("old"), kind: Kind::Dir },
            Change { rel: p("old/g.txt"), kind: Kind::File },
        ],
        changed: vec![Change { rel: p("edit.txt"), kind: Kind::File }],
        moved: vec![Move { from: p("was/x"), to: p("now/x") }],
        touched: vec![],
        to_link: vec![],
        unchanged: 3,
        issues: vec![],
        source_unreadable: false,
        ..Diff::default()
    };
    let a = plan(&d);

    assert!(a.contains(&Action::CreateDir(p("newdir"))));
    assert!(a.contains(&Action::Rename { from: p("was/x"), to: p("now/x") }));
    assert!(a.contains(&Action::Copy(p("top.txt"))));
    assert!(a.contains(&Action::Copy(p("newdir/f.txt"))));
    assert!(a.contains(&Action::Copy(p("edit.txt"))));

    let rn = pos(&a, &Action::Rename { from: p("was/x"), to: p("now/x") });
    let del_child = pos(&a, &Action::Delete(p("old/g.txt")));
    let del_parent = pos(&a, &Action::Delete(p("old")));
    let cd = pos(&a, &Action::CreateDir(p("newdir")));
    let cp = pos(&a, &Action::Copy(p("top.txt")));
    assert!(rn < del_child.min(del_parent));
    assert!(del_child.max(del_parent) < cd);
    assert!(cd < cp);
    assert!(del_child < del_parent);
}

#[test]
fn added_directories_are_created_parents_first() {
    let d = Diff {
        added: vec![
            Change { rel: p("a/b/c"), kind: Kind::Dir },
            Change { rel: p("a"), kind: Kind::Dir },
            Change { rel: p("a/b"), kind: Kind::Dir },
        ],
        ..Diff::default()
    };
    assert_eq!(
        plan(&d),
        vec![
            Action::CreateDir(p("a")),
            Action::CreateDir(p("a/b")),
            Action::CreateDir(p("a/b/c")),
        ]
    );
}

#[test]
fn a_pure_move_is_a_single_rename() {
    let d = Diff { moved: vec![Move { from: p("old/name"), to: p("new/name") }], ..Diff::default() };
    assert_eq!(plan(&d), vec![Action::Rename { from: p("old/name"), to: p("new/name") }]);
}

#[test]
fn doomed_entries_at_a_move_target_are_deleted_before_the_rename() {
    let d = Diff {
        moved: vec![Move { from: p("elsewhere"), to: p("x") }],
        removed: vec![
            Change { rel: p("x"), kind: Kind::Dir },
            Change { rel: p("x/inner.txt"), kind: Kind::File },
            Change { rel: p("unrelated_extra"), kind: Kind::File },
        ],
        ..Diff::default()
    };
    let a = plan(&d);

    let del_child = pos(&a, &Action::Delete(p("x/inner.txt")));
    let del_dir = pos(&a, &Action::Delete(p("x")));
    let rn = pos(&a, &Action::Rename { from: p("elsewhere"), to: p("x") });
    let del_other = pos(&a, &Action::Delete(p("unrelated_extra")));

    assert!(del_child < del_dir);
    assert!(del_dir < rn);
    assert!(rn < del_other);
}

#[test]
fn planned_copy_bytes_sums_only_copy_actions() {
    let m = Manifest::from_sorted(vec![entry("a", 100), entry("b", 7)]);
    let actions = vec![
        Action::Copy(p("a")),
        Action::Delete(p("x")),
        Action::Copy(p("b")),
        Action::Copy(p("not-in-manifest")),
    ];
    assert_eq!(planned_copy_bytes(&actions, &m), 107);
}

#[test]
fn copy_bytes_that_do_not_fit_are_told() {
    let m = Manifest::from_sorted(vec![entry("a", u64::MAX), entry("b", 1)]);
    assert_eq!(checked_copy_bytes(&vec![Action::Copy(p("a"))], &m), Some(u64::MAX));
    assert_eq!(checked_copy_bytes(&vec![Action::Copy(p("a")), Action::Copy(p("b"))], &m), None);
}

#[test]
fn metadata_and_links_come_last() {
    let d = Diff {
        added: vec![Change { rel: p("z"), kind: Kind::File }],
        touched: vec![Change { rel: p("a"), kind: Kind::File }],
        to_link: vec![Link { leader: p("z"), name: p("b") }],
        ..Diff::default()
    };
    assert_eq!(
        plan(&d),
        vec![
            Action::Copy(p("z")),
            Action::RefreshMeta(p("a")),
            Action::HardLink { leader: p("z"), name: p("b") },
        ]
    );
}
