//! Comparing trees: what is missing, extra, moved, changed or unchanged, comparing by content, hard
//! links, and files that cannot be read. The trees are held in memory.

use std::collections::HashSet;

use filesync::diff::{diff, hash_requests, mtime_close, Diff, Examined, Link, Move};
use filesync::hash::{hash_bytes, HashOutcome, ReadFailure};
use filesync::links::Resolution;
use filesync::manifest::{Entry, Kind, Manifest, Mtime};
use filesync::order::sort_items;
use filesync::paths::FsPath;

fn p(s: &str) -> FsPath {
    FsPath::parse(s.as_bytes())
}

/// One entry of a tree in memory.
struct Node {
    entry: Entry,
    content: Vec<u8>,
    readable: bool,
    leads_to: Option<FsPath>,
}

struct Tree {
    nodes: Vec<Node>,
}

impl Tree {
    fn new() -> Tree {
        Tree { nodes: Vec::new() }
    }

    fn add(&mut self, rel: &str, kind: Kind, content: &[u8]) -> &mut Node {
        self.nodes.push(Node {
            entry: Entry {
                rel: p(rel),
                kind,
                size: if kind == Kind::File { content.len() as u64 } else { 0 },
                mtime: Some(Mtime { secs: 1_000_000, nanos: 0 }),
                link_target: None,
                link_id: None,
                owner: None,
                mode: None,
            },
            content: content.to_vec(),
            readable: true,
            leads_to: None,
        });
        self.nodes.last_mut().unwrap()
    }

    fn file(&mut self, rel: &str, content: &[u8]) -> &mut Node {
        self.add(rel, Kind::File, content)
    }

    fn dir(&mut self, rel: &str) {
        self.add(rel, Kind::Dir, b"");
    }

    fn link(&mut self, rel: &str, target: &str, leads_to: Option<&str>) {
        let n = self.add(rel, Kind::Symlink, b"");
        n.entry.link_target = Some(p(target));
        n.leads_to = leads_to.map(p);
    }

    /// Two names of one inode.
    fn pair(&mut self, a: &str, b: &str, content: &[u8], inode: u64) {
        self.file(a, content).entry.link_id = Some((1, inode));
        self.file(b, content).entry.link_id = Some((1, inode));
    }

    fn manifest(&self) -> Manifest {
        let entries: Vec<Entry> = self.nodes.iter().map(|n| n.entry.clone()).collect();
        Manifest::from_sorted(sort_items(&entries))
    }

    fn node(&self, rel: &FsPath) -> &Node {
        self.nodes.iter().find(|n| n.entry.rel == *rel).unwrap()
    }

    fn hash(&self, rel: &FsPath) -> HashOutcome {
        let n = self.node(rel);
        if n.readable {
            Ok(hash_bytes(&n.content))
        } else {
            Err(ReadFailure { message: "Permission denied (os error 13)".to_string(), denied: true })
        }
    }
}

fn compare(s: &Tree, d: &Tree, eager: bool, relative: bool, include_same: bool) -> Diff {
    let (sm, dm) = (s.manifest(), d.manifest());
    let (want_src, want_dst) = hash_requests(&sm, &dm, eager);
    let examined = Examined {
        src: sm.iter().zip(&want_src).map(|(e, w)| w.then_some(()).map(|_| s.hash(&e.rel))).collect(),
        dst: dm.iter().zip(&want_dst).map(|(e, w)| w.then_some(()).map(|_| d.hash(&e.rel))).collect(),
        links: sm
            .iter()
            .map(|e| {
                s.node(&e.rel)
                    .leads_to
                    .as_ref()
                    .map(|t| Resolution { target: t.clone(), src_root: p("/src") })
            })
            .collect(),
    };
    diff(&sm, &dm, &examined, eager, relative, include_same)
}

fn run_diff(s: &Tree, d: &Tree, eager: bool) -> Diff {
    compare(s, d, eager, false, false)
}

fn at(secs: i64) -> Option<Mtime> {
    Some(Mtime { secs, nanos: 0 })
}

#[test]
fn missing_file_is_added() {
    let (mut s, d) = (Tree::new(), Tree::new());
    s.file("a.txt", b"hi");
    let r = run_diff(&s, &d, false);
    assert_eq!(r.added_paths(), vec![p("a.txt")]);
    assert!(r.removed.is_empty() && r.changed.is_empty() && r.moved.is_empty());
}

#[test]
fn include_same_collects_and_lists_identical_files_only_on_demand() {
    let (mut s, mut d) = (Tree::new(), Tree::new());
    s.file("same.txt", b"identical");
    d.file("same.txt", b"identical");
    s.file("changed.txt", b"new");
    d.file("changed.txt", b"old-and-longer");

    let plain = run_diff(&s, &d, false);
    assert_eq!(plain.unchanged, 1);
    assert!(plain.unchanged_paths.is_empty());
    assert!(!plain.render(true).contains("= same.txt"));

    let full = compare(&s, &d, false, false, true);
    assert_eq!(full.unchanged, 1);
    assert_eq!(full.unchanged_paths, vec![p("same.txt")]);
    assert!(full.render(true).contains("= same.txt"));
    assert!(!full.render(false).contains("= same.txt"));
}

#[test]
fn excessive_file_is_removed() {
    let (s, mut d) = (Tree::new(), Tree::new());
    d.file("a.txt", b"hi");
    let r = run_diff(&s, &d, false);
    assert_eq!(r.removed_paths(), vec![p("a.txt")]);
    assert!(r.added.is_empty() && r.moved.is_empty());
}

#[test]
fn moved_file_is_detected_as_a_move() {
    let (mut s, mut d) = (Tree::new(), Tree::new());
    s.file("b.txt", b"hello");
    d.file("a.txt", b"hello");
    let r = run_diff(&s, &d, false);
    assert_eq!(r.moved, vec![Move { from: p("a.txt"), to: p("b.txt") }]);
    assert!(r.added.is_empty() && r.removed.is_empty());
}

#[test]
fn same_size_but_different_content_is_not_a_move() {
    let (mut s, mut d) = (Tree::new(), Tree::new());
    s.file("b.txt", b"AAAA");
    d.file("a.txt", b"BBBB");
    let r = run_diff(&s, &d, false);
    assert!(r.moved.is_empty());
    assert_eq!(r.added_paths(), vec![p("b.txt")]);
    assert_eq!(r.removed_paths(), vec![p("a.txt")]);
}

#[test]
fn identical_file_is_unchanged() {
    let (mut s, mut d) = (Tree::new(), Tree::new());
    s.file("a.txt", b"same").entry.mtime = at(1_000_000);
    d.file("a.txt", b"same").entry.mtime = at(1_000_000);
    let r = run_diff(&s, &d, false);
    assert_eq!(r.unchanged, 1);
    assert!(r.changed.is_empty() && r.added.is_empty() && r.removed.is_empty());
}

#[test]
fn size_change_is_detected_in_default_mode() {
    let (mut s, mut d) = (Tree::new(), Tree::new());
    s.file("a.txt", b"a much longer content");
    d.file("a.txt", b"short");
    let r = run_diff(&s, &d, false);
    assert_eq!(r.changed_paths(), vec![p("a.txt")]);
}

#[test]
fn duplicate_content_pairs_each_move_once() {
    let (mut s, mut d) = (Tree::new(), Tree::new());
    s.file("p1.txt", b"SAME");
    s.file("p2.txt", b"SAME");
    d.file("q1.txt", b"SAME");
    d.file("q2.txt", b"SAME");
    let r = run_diff(&s, &d, false);
    assert_eq!(r.moved.len(), 2);
    assert!(r.added.is_empty() && r.removed.is_empty());
    let tos: HashSet<Vec<u8>> = r.moved.iter().map(|m| m.to.to_bytes()).collect();
    let froms: HashSet<Vec<u8>> = r.moved.iter().map(|m| m.from.to_bytes()).collect();
    assert_eq!(tos, HashSet::from([b"p1.txt".to_vec(), b"p2.txt".to_vec()]));
    assert_eq!(froms, HashSet::from([b"q1.txt".to_vec(), b"q2.txt".to_vec()]));
}

#[test]
fn empty_files_pair_as_a_move() {
    let (mut s, mut d) = (Tree::new(), Tree::new());
    s.file("empty_new", b"");
    d.file("empty_old", b"");
    let r = run_diff(&s, &d, false);
    assert_eq!(r.moved, vec![Move { from: p("empty_old"), to: p("empty_new") }]);
    assert!(r.added.is_empty() && r.removed.is_empty());
}

#[test]
fn more_adds_than_matching_removes_yields_move_plus_copy() {
    let (mut s, mut d) = (Tree::new(), Tree::new());
    s.file("p1.txt", b"SAME");
    s.file("p2.txt", b"SAME");
    d.file("q.txt", b"SAME");
    let r = run_diff(&s, &d, false);
    assert_eq!(r.moved.len(), 1);
    assert_eq!(r.moved[0].from, p("q.txt"));
    assert_eq!(r.added.len(), 1);
    assert!(r.removed.is_empty());
}

#[test]
fn eager_checksum_catches_same_size_same_mtime_change() {
    let (mut s, mut d) = (Tree::new(), Tree::new());
    s.file("a.txt", b"AAAA").entry.mtime = at(1_000_000);
    d.file("a.txt", b"BBBB").entry.mtime = at(1_000_000);

    let quick = run_diff(&s, &d, false);
    assert_eq!(quick.unchanged, 1);
    assert!(quick.changed.is_empty());

    let eager = run_diff(&s, &d, true);
    assert_eq!(eager.changed_paths(), vec![p("a.txt")]);
    assert_eq!(eager.unchanged, 0);
}

#[test]
fn hardlinked_source_files_become_one_copy_plus_a_link() {
    let (mut s, d) = (Tree::new(), Tree::new());
    s.pair("x.txt", "y.txt", b"linked", 7);
    let r = run_diff(&s, &d, false);
    assert_eq!(r.added_paths(), vec![p("x.txt")]);
    assert_eq!(r.to_link, vec![Link { leader: p("x.txt"), name: p("y.txt") }]);
}

#[test]
fn correctly_linked_destination_pair_is_all_unchanged() {
    let (mut s, mut d) = (Tree::new(), Tree::new());
    s.pair("x.txt", "y.txt", b"linked", 7);
    d.pair("x.txt", "y.txt", b"linked", 9);
    let r = run_diff(&s, &d, false);
    assert!(r.to_link.is_empty());
    assert!(r.added.is_empty() && r.changed.is_empty());
    assert_eq!(r.unchanged, 2);
}

#[test]
fn follower_is_relinked_when_the_leader_will_be_rewritten() {
    let (mut s, mut d) = (Tree::new(), Tree::new());
    s.pair("x.txt", "y.txt", b"NEW CONTENT, LONGER", 7);
    d.pair("x.txt", "y.txt", b"old content", 9);
    let r = run_diff(&s, &d, false);
    assert_eq!(r.changed_paths(), vec![p("x.txt")]);
    assert_eq!(r.to_link.len(), 1);
    assert_eq!(r.to_link[0].name, p("y.txt"));
}

#[test]
fn kind_swap_is_delete_plus_add_not_change() {
    let (mut s, mut d) = (Tree::new(), Tree::new());
    d.file("x", b"file");
    s.dir("x");
    s.file("x/inner.txt", b"y");
    let r = run_diff(&s, &d, false);
    assert!(r.changed.is_empty());
    let added = r.added_paths();
    assert!(added.contains(&p("x")));
    assert!(added.contains(&p("x/inner.txt")));
    assert_eq!(r.removed_paths(), vec![p("x")]);
}

#[test]
fn unreadable_move_candidate_degrades_to_copy_plus_delete() {
    let (mut s, mut d) = (Tree::new(), Tree::new());
    s.file("locked.bin", b"AAAA").readable = false;
    d.file("extra.bin", b"BBBB");
    s.file("normal.txt", b"fine");
    let r = run_diff(&s, &d, false);
    assert!(r.moved.is_empty());
    assert!(r.added_paths().contains(&p("locked.bin")));
    assert!(r.removed_paths().contains(&p("extra.bin")));
    assert!(r.added_paths().contains(&p("normal.txt")));
    assert!(r.issues.iter().any(|i| i.contains("locked.bin") && i.contains("source:")));
    assert!(r.source_unreadable);
}

#[test]
fn unreadable_destination_candidate_is_labeled_but_does_not_flag_the_source() {
    let (mut s, mut d) = (Tree::new(), Tree::new());
    s.file("add.bin", b"AAAA");
    d.file("locked_extra.bin", b"BBBB").readable = false;
    let r = run_diff(&s, &d, false);
    assert!(r.issues.iter().any(|i| i.contains("locked_extra.bin") && i.contains("destination:")));
    assert!(!r.source_unreadable);
    assert!(r.removed_paths().contains(&p("locked_extra.bin")));
}

#[test]
fn eager_same_size_unreadable_degrades_to_changed() {
    let (mut s, mut d) = (Tree::new(), Tree::new());
    s.file("f.bin", b"AAAA").readable = false;
    d.file("f.bin", b"BBBB");
    let r = run_diff(&s, &d, true);
    assert_eq!(r.changed_paths(), vec![p("f.bin")]);
    assert!(r.issues.iter().any(|i| i.contains("f.bin")));
}

#[test]
fn eager_skips_hashing_when_sizes_already_differ() {
    let (mut s, mut d) = (Tree::new(), Tree::new());
    s.file("f.bin", b"longer-content").readable = false;
    d.file("f.bin", b"short");
    let (want_src, want_dst) = hash_requests(&s.manifest(), &d.manifest(), true);
    assert_eq!((want_src, want_dst), (vec![false], vec![false]));
    let r = run_diff(&s, &d, true);
    assert_eq!(r.changed_paths(), vec![p("f.bin")]);
    assert!(r.issues.is_empty());
}

#[test]
fn same_content_with_drifted_mtime_is_touched_not_changed() {
    let (mut s, mut d) = (Tree::new(), Tree::new());
    s.file("f.bin", b"SAME-BYTES").entry.mtime = at(1_600_000_000);
    d.file("f.bin", b"SAME-BYTES").entry.mtime = at(1_500_000_000);
    let r = run_diff(&s, &d, false);
    assert!(r.changed.is_empty());
    assert_eq!(r.touched.len(), 1);
    assert_eq!(r.touched[0].rel, p("f.bin"));
}

#[test]
fn drifted_mtime_with_different_content_is_still_changed() {
    let (mut s, mut d) = (Tree::new(), Tree::new());
    s.file("f.bin", b"AAAA").entry.mtime = at(1_600_000_000);
    d.file("f.bin", b"BBBB").entry.mtime = at(1_500_000_000);
    let r = run_diff(&s, &d, false);
    assert_eq!(r.changed_paths(), vec![p("f.bin")]);
    assert!(r.touched.is_empty());
}

#[test]
fn eager_flags_the_corruption_signature() {
    let (mut s, mut d) = (Tree::new(), Tree::new());
    s.file("f.bin", b"AAAA").entry.mtime = at(1_000_000);
    d.file("f.bin", b"BBBB").entry.mtime = at(1_000_000);
    let r = run_diff(&s, &d, true);
    assert_eq!(r.changed_paths(), vec![p("f.bin")]);
    assert!(r.issues.iter().any(|i| i.contains("corruption")));
}

#[test]
fn relative_symlinks_diff_treats_rewritten_link_as_unchanged() {
    let (mut s, mut d) = (Tree::new(), Tree::new());
    for t in [&mut s, &mut d] {
        t.dir("f1");
        t.file("f1/b.txt", b"x");
    }
    s.link("abs", "/src/f1/b.txt", Some("/src/f1/b.txt"));
    d.link("abs", "f1/b.txt", None);

    let with_flag = compare(&s, &d, false, true, false);
    assert!(with_flag.changed.is_empty());
    assert_eq!(with_flag.unchanged, 3);

    let without_flag = compare(&s, &d, false, false, false);
    assert_eq!(without_flag.changed_paths(), vec![p("abs")]);
}

// ── further cases ────────────────────────────────────────────────────────────

#[test]
fn times_within_two_seconds_count_as_one() {
    let t = |secs: i64, nanos: u32| Some(Mtime { secs, nanos });
    assert!(mtime_close(t(100, 0), t(102, 0)));
    assert!(mtime_close(t(102, 0), t(100, 0)));
    assert!(!mtime_close(t(100, 0), t(102, 1)));
    assert!(!mtime_close(t(-1, 0), t(5, 0)));
    assert!(mtime_close(None, t(5, 0)), "an unknown time is no sign of a change");
}

#[test]
fn a_digest_is_blake3() {
    // the published test vector for no input at all
    let want: [u8; 32] = [
        0xaf, 0x13, 0x49, 0xb9, 0xf5, 0xf9, 0xa1, 0xa6, 0xa0, 0x40, 0x4d, 0xea, 0x36, 0xdc, 0xc9, 0x49,
        0x9b, 0xcb, 0x25, 0xc9, 0xad, 0xc1, 0x12, 0xb7, 0xcc, 0x9a, 0x93, 0xca, 0xe4, 0x1f, 0x32, 0x62,
    ];
    assert_eq!(*hash_bytes(b"").as_bytes(), want);
    assert_eq!(*hash_bytes(b"abc").as_bytes(), *blake3::hash(b"abc").as_bytes());
}

#[test]
fn how_bytes_are_cut_makes_no_difference() {
    let mut h = filesync::hash::ContentHasher::new();
    h.update(b"hello ");
    h.update(b"");
    h.update(b"world");
    assert_eq!(h.finalize(), hash_bytes(b"hello world"));
    assert!(!h.finalize().matches(&hash_bytes(b"hello worlds")));
}

#[test]
fn a_name_that_is_no_text_passes_through() {
    let mut s = Tree::new();
    let n = s.file("placeholder", b"x");
    n.entry.rel = FsPath::parse(b"caf\xe9.txt");
    let r = run_diff(&s, &Tree::new(), false);
    assert_eq!(r.added_paths()[0].to_bytes(), b"caf\xe9.txt".to_vec());
    assert!(r.render(true).contains("caf\u{fffd}.txt"));
}

#[test]
fn a_mixed_tree_is_counted_out() {
    let (mut s, mut d) = (Tree::new(), Tree::new());
    s.dir("dir");
    d.dir("dir");
    s.file("dir/new", b"nowhere yet");
    s.file("dir/moved", b"same bytes");
    d.file("elsewhere", b"same bytes");
    s.file("edited", b"longer now");
    d.file("edited", b"short");
    s.file("drifted", b"steady").entry.mtime = at(1_000_500);
    d.file("drifted", b"steady");
    s.file("same", b"=");
    d.file("same", b"=");
    s.pair("one", "two", b"shared", 7);
    d.file("extra", b"goes away!!");
    let r = run_diff(&s, &d, false);
    assert_eq!((r.added.len(), r.changed.len(), r.touched.len()), (2, 1, 1));
    assert_eq!((r.moved.len(), r.to_link.len(), r.unchanged), (1, 1, 2));
    assert_eq!(s.manifest().len(), 8);
    assert_eq!(r.removed_paths(), vec![p("extra")]);
    let (want_src, want_dst) = hash_requests(&s.manifest(), &d.manifest(), false);
    // Read are the drifted file, and the files of the sizes 10 and 11 that come and go.
    assert_eq!(want_src.iter().filter(|w| **w).count(), 3);
    assert_eq!(want_dst.iter().filter(|w| **w).count(), 3);
}

#[test]
fn a_short_rendering_tells_counts_and_a_long_one_adds_a_line_for_each_entry() {
    let (mut s, mut d) = (Tree::new(), Tree::new());
    s.file("new.txt", b"new");
    s.file("here.txt", b"moved content");
    d.file("there.txt", b"moved content");
    d.file("gone.txt", b"gone, gone");
    s.file("same.txt", b"same");
    d.file("same.txt", b"same");
    let r = compare(&s, &d, false, false, true);
    let (short, long) = (r.render(false), r.render(true));
    assert_eq!(short.lines().count(), 7);
    let n = r.moved.len() + r.added.len() + r.removed.len() + r.changed.len() + r.to_link.len() + r.touched.len();
    assert_eq!(n, 3);
    assert_eq!(long.lines().count(), 7 + n + r.unchanged_paths.len());
    let mut rest = long.lines();
    assert!(short.lines().all(|l| rest.any(|m| m == l)), "{short}\n{long}");
    let (mut s2, mut d2) = (Tree::new(), Tree::new());
    s2.file("other.txt", b"ne2");
    s2.file("x.txt", b"moved");
    d2.file("y.txt", b"moved");
    d2.file("z.txt", b"going, going");
    s2.file("w.txt", b"w");
    d2.file("w.txt", b"w");
    assert_eq!(compare(&s2, &d2, false, false, true).render(false), short);
}
