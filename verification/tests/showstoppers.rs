//! What permissions will keep a sync from doing, and quoting for the shell.

use filesync::diff::Diff;
use filesync::manifest::{DstRoot, Entry, Kind, Manifest, SrcRoot};
use filesync::paths::FsPath;
use filesync::reports::showstoppers::{analyze, bash_quote, Denied, Item, Me, Names, Showstoppers};

fn p(s: &str) -> FsPath {
    FsPath::parse(s.as_bytes())
}

#[test]
fn plain_paths_get_single_quotes() {
    assert_eq!(bash_quote(&p("/a b/c.txt")), "'/a b/c.txt'");
    assert_eq!(bash_quote(&p("/plain")), "'/plain'");
}

#[test]
fn special_characters_get_ansi_c_quoting() {
    assert_eq!(bash_quote(&p("/a\nb")), "$'/a\\nb'");
    assert_eq!(bash_quote(&p("/it's")), "$'/it\\'s'");
    assert_eq!(bash_quote(&p("/a\tb\\c")), "$'/a\\tb\\\\c'");
}

#[test]
fn non_ascii_bytes_are_escaped_byte_exact() {
    assert_eq!(bash_quote(&FsPath::parse(b"/caf\xc3\xa9")), "$'/caf\\xc3\\xa9'");
}

#[test]
fn render_emits_array_loop_and_metadata_comment() {
    let s = Showstoppers {
        source_unreadable_files: vec![Item {
            abs: p("/data/secret.bin"),
            owner: Some((0, 0)),
            mode: Some(0o100600),
            confirmed: true,
        }],
        ..Showstoppers::default()
    };
    let out = s.render(&Names::none());
    assert!(out.contains("filesync_source_unreadable_files=("), "{out}");
    assert!(out.contains("'/data/secret.bin'"), "{out}");
    assert!(out.contains("0600 confirmed"), "{out}");
    assert!(out.contains("for f in \"${filesync_source_unreadable_files[@]}\"; do"), "{out}");
    assert!(out.contains("setfacl"), "{out}");
    assert!(!out.contains("filesync_destination_undeletable_files"), "{out}");
}

#[test]
fn empty_showstoppers_is_empty() {
    assert!(Showstoppers::default().is_empty());
    assert_eq!(Showstoppers::default().total(), 0);
}

fn file(rel: &str, owner: (u32, u32), mode: u32) -> Entry {
    Entry {
        rel: p(rel),
        kind: Kind::File,
        size: 1,
        mtime: None,
        link_target: None,
        link_id: None,
        owner: Some(owner),
        mode: Some(mode),
    }
}

#[test]
fn permission_bits_go_by_owner_group_and_others() {
    let me = Me { euid: 1000, groups: vec![1000, 27] };
    assert!(me.allows(&file("a", (1000, 0), 0o100400), 0o4));
    assert!(!me.allows(&file("a", (1000, 0), 0o100044), 0o4));
    assert!(me.allows(&file("a", (0, 27), 0o100040), 0o4));
    assert!(!me.allows(&file("a", (0, 27), 0o100004), 0o4));
    assert!(me.allows(&file("a", (0, 0), 0o100004), 0o4));
}

#[test]
fn files_that_will_not_be_readable_are_foretold() {
    let m = Manifest::from_sorted(vec![file("secret", (0, 0), 0o100600)]);
    let d = Diff {
        added: vec![filesync::diff::Change { rel: p("secret"), kind: Kind::File }],
        ..Diff::default()
    };
    let me = Some(Me { euid: 1000, groups: vec![1000] });
    let (src, dst, none) = (SrcRoot::new(p("/s")), DstRoot::new(p("/d")), Manifest::from_sorted(vec![]));
    let r = analyze(&src, &m, &vec![], &dst, &none, &vec![], &d, false, &me);
    assert_eq!(r.total(), 1);
    assert_eq!(r.source_unreadable_files[0].abs, p("/s/secret"));
    assert!(!r.source_unreadable_files[0].confirmed);
    let denied = vec![Denied { rel: p("dir"), found: None }];
    let r = analyze(&src, &none, &denied, &dst, &none, &vec![], &Diff::default(), false, &me);
    assert_eq!(r.source_unreadable_dirs[0].abs, p("/s/dir"));
    assert!(r.source_unreadable_dirs[0].confirmed);
}

#[test]
fn a_root_that_cannot_be_read_is_named_with_a_slash() {
    let me = Some(Me { euid: 1000, groups: vec![1000] });
    let (src, dst, none) = (SrcRoot::new(p("/s")), DstRoot::new(p("/d")), Manifest::from_sorted(vec![]));
    let denied = vec![Denied { rel: p(""), found: None }];
    let r = analyze(&src, &none, &vec![], &dst, &none, &denied, &Diff::default(), false, &me);
    assert_eq!(r.destination_unreadable_dirs[0].abs, p("/d"));
    let out = r.render(&Names::none());
    assert!(out.contains("  '/d/'  #"), "{out}");
    assert_eq!(bash_quote(&p("/d//x/")), "'/d//x/'");
}
