//! Whole runs on file systems in memory: scan both, compare, plan, carry out, verify.

use std::collections::BTreeMap;

use filesync::apply::{
    aside_before_overwrite, copy_way, deletion, must_remove, needs_flush, relinked, temp_path, verified,
    verify_matches, Copied, CopyWay, Deletion, Found, Options, Outcome, Progression, Step, Verified,
};
use filesync::diff::{diff, hash_requests, Change, Diff, Examined};
use filesync::hash::{hash_bytes, HashOutcome, ReadFailure};
use filesync::links::{desired_target, resolve_target, Lead, Resolution};
use filesync::manifest::{DstRoot, Kind, Manifest, Mtime, SrcRoot};
use filesync::oserror::{Class, Codes, OsError};
use filesync::paths::FsPath;
use filesync::plan::{plan, Action};
use filesync::preflight::Answer;
use filesync::reports::findings::{header, root_line, skip_line, Report};
use filesync::scan::{is_stray, scan_destination, scan_with_errors, ScanOutcome, Sight, Sighting, Stat, WalkFailure};
use filesync::sync::{can_prepare, check_source, prepare};
use filesync::target::{probe, Capabilities};

#[derive(Clone, Debug, PartialEq)]
enum Node {
    Dir,
    File { content: Vec<u8>, secs: i64, ino: u64 },
    Link(String),
    Special,
}

/// A file system in memory. Files that are `locked` cannot be read, directories neither listed nor
/// written to; a full one takes no more files. `beyond` are absolute paths of files elsewhere.
#[derive(Clone, Debug)]
struct Disk {
    nodes: BTreeMap<String, Node>,
    locked: Vec<String>,
    beyond: Vec<String>,
    full: bool,
    next_ino: u64,
}

fn p(s: &str) -> FsPath {
    FsPath::parse(s.as_bytes())
}

fn text(path: &FsPath) -> String {
    String::from_utf8(path.to_bytes()).unwrap()
}

/// A path as it is spelled.
fn spelling(path: &FsPath) -> String {
    String::from_utf8(path.spelling()).unwrap()
}

fn os_error(message: &str, class: Class) -> OsError {
    OsError::new(message.to_string(), None, class, &Codes::here())
}

impl Disk {
    fn new() -> Disk {
        Disk { nodes: BTreeMap::new(), locked: Vec::new(), beyond: Vec::new(), full: false, next_ino: 1 }
    }

    fn parents(&mut self, rel: &str) {
        let parts: Vec<&str> = rel.split('/').collect();
        for i in 1..parts.len() {
            self.nodes.entry(parts[..i].join("/")).or_insert(Node::Dir);
        }
    }

    fn put(&mut self, rel: &str, n: Node) {
        self.parents(rel);
        self.nodes.insert(rel.to_string(), n);
    }

    fn file(&mut self, rel: &str, content: &[u8]) {
        self.file_at(rel, content, 1_700_000_000);
    }

    fn file_at(&mut self, rel: &str, content: &[u8], secs: i64) {
        let ino = self.next_ino;
        self.next_ino += 1;
        self.put(rel, Node::File { content: content.to_vec(), secs, ino });
    }

    fn link(&mut self, rel: &str, target: &str) {
        self.put(rel, Node::Link(target.to_string()));
    }

    fn hardlink(&mut self, rel: &str, name: &str) {
        let n = self.nodes[rel].clone();
        self.put(name, n);
    }

    /// Writes through an inode: all of its names get the new content.
    fn rewrite(&mut self, rel: &str, new: &[u8], at: i64) {
        let inode = self.ino(rel);
        for n in self.nodes.values_mut() {
            if let Node::File { content, secs, ino } = n {
                if *ino == inode {
                    *content = new.to_vec();
                    *secs = at;
                }
            }
        }
    }

    fn has(&self, rel: &str) -> bool {
        self.nodes.contains_key(rel)
    }

    fn read(&self, rel: &str) -> &[u8] {
        match &self.nodes[rel] {
            Node::File { content, .. } => content,
            other => panic!("{rel} is {other:?}"),
        }
    }

    fn ino(&self, rel: &str) -> u64 {
        match &self.nodes[rel] {
            Node::File { ino, .. } => *ino,
            other => panic!("{rel} is {other:?}"),
        }
    }

    fn within_locked(&self, rel: &str) -> bool {
        self.locked.iter().any(|l| rel.starts_with(&format!("{l}/")))
    }

    /// The canonical path of something on the source disk, which is mounted at `/s`.
    fn resolve(&self, path: &str) -> Option<String> {
        let mut parts: Vec<&str> = Vec::new();
        for c in path.split('/') {
            match c {
                "" | "." => {}
                ".." => {
                    parts.pop();
                }
                other => parts.push(other),
            }
        }
        let whole = format!("/{}", parts.join("/"));
        if whole == "/" || whole == "/s" || self.beyond.contains(&whole) {
            return Some(whole);
        }
        match self.nodes.get(whole.strip_prefix("/s/")?)? {
            Node::Link(t) if t.starts_with('/') => self.resolve(t),
            Node::Link(t) => self.resolve(&format!("{whole}/../{t}")),
            _ => Some(whole),
        }
    }

    fn lead(&self, rel: &FsPath, raw: &FsPath) -> Option<Resolution> {
        let mut answers: Vec<Answer> = Vec::new();
        loop {
            match resolve_target(&p("/s"), rel, raw, &Some(p("/s")), &Some(p("/")), &answers) {
                Lead::Known(r) => return r,
                Lead::Ask(q) => {
                    let resolved = self.resolve(&text(&q)).map(|r| p(&r));
                    answers.push(Answer { path: q, resolved });
                }
            }
        }
    }

    fn scan(&self, root: &str) -> ScanOutcome {
        scan_with_errors(&p(root), &self.sights(root, false))
    }

    /// What a walk meets; where strays are swept, they are removed on the way.
    fn sights(&self, root: &str, sweep: bool) -> Vec<Sight> {
        let root = p(root);
        let mut sights: Vec<Sight> = Vec::new();
        for (rel, n) in &self.nodes {
            if self.within_locked(rel) {
                continue;
            }
            if *n == Node::Dir && self.locked.contains(rel) {
                let failure = WalkFailure {
                    path: Some(root.join(&p(rel))),
                    io: Some("Permission denied (os error 13)".into()),
                    whole: "IO error".into(),
                    permission: true,
                };
                sights.push(Sight::Failed { failure, elevated: false });
            }
            let (kind, len, secs, ino) = match n {
                Node::Dir => (Kind::Dir, 0, 1_700_000_000, 0),
                Node::File { content, secs, ino } => (Kind::File, content.len() as u64, *secs, *ino),
                Node::Link(_) => (Kind::Symlink, 0, 1_700_000_000, 0),
                Node::Special => (Kind::Other, 0, 1_700_000_000, 0),
            };
            let names = self
                .nodes
                .values()
                .filter(|m| matches!(m, Node::File { ino: i, .. } if kind == Kind::File && *i == ino))
                .count() as u64;
            let at = Sighting {
                path: root.join(&p(rel)),
                depth: rel.split('/').count(),
                kind,
                stat: Some(Stat {
                    len,
                    mtime: Some(Mtime { secs, nanos: 0 }),
                    nlink: names,
                    dev: 1,
                    ino,
                    uid: 1000,
                    gid: 1000,
                    mode: 0o644,
                }),
                link_target: match n {
                    Node::Link(t) => Some(p(t)),
                    _ => None,
                },
            };
            let removed = is_stray(&at, sweep);
            sights.push(Sight::Entry { at, elevated: false, removed });
        }
        sights
    }

    fn hash(&self, rel: &FsPath) -> HashOutcome {
        match self.nodes.get(&text(rel)) {
            Some(Node::File { content, .. }) if !self.locked.contains(&text(rel)) => Ok(hash_bytes(content)),
            Some(_) => Err(ReadFailure { message: "Permission denied (os error 13)".into(), denied: true }),
            None => Err(ReadFailure { message: "No such file or directory (os error 2)".into(), denied: false }),
        }
    }

    fn content(&self) -> BTreeMap<String, String> {
        self.nodes
            .iter()
            .map(|(k, n)| {
                let v = match n {
                    Node::Dir => "dir".to_string(),
                    Node::File { content, .. } => format!("file {content:?}"),
                    Node::Link(t) => format!("-> {t}"),
                    Node::Special => "special".to_string(),
                };
                (k.clone(), v)
            })
            .collect()
    }
}

fn compare_with(s: &Disk, sm: &Manifest, d: &Disk, dm: &Manifest, eager: bool, relative: bool) -> Diff {
    let (want_src, want_dst) = hash_requests(sm, dm, eager);
    let examined = Examined {
        src: sm.iter().zip(&want_src).map(|(e, w)| if *w { Some(s.hash(&e.rel)) } else { None }).collect(),
        dst: dm.iter().zip(&want_dst).map(|(e, w)| if *w { Some(d.hash(&e.rel)) } else { None }).collect(),
        links: sm
            .iter()
            .map(|e| match &e.link_target {
                Some(t) if relative => s.lead(&e.rel, t),
                _ => None,
            })
            .collect(),
    };
    diff(sm, dm, &examined, eager, relative, false)
}

fn compare(s: &Disk, sm: &Manifest, d: &Disk, dm: &Manifest, eager: bool) -> Diff {
    compare_with(s, sm, d, dm, eager, false)
}

fn options() -> Options {
    Options { verify: true, fsync_each: false, backup_dir: None, relative_symlinks: false }
}

fn delete(d: &mut Disk, rel: &FsPath, opts: &Options) -> Result<(), OsError> {
    let found = match d.nodes.get(&text(rel)) {
        None => Found::Missing,
        Some(Node::Dir) => Found::Dir,
        Some(_) => Found::NotDir,
    };
    match deletion(found, rel, opts) {
        Deletion::Nothing => Ok(()),
        Deletion::RemoveDir => {
            let inside = format!("{}/", text(rel));
            if d.nodes.keys().any(|k| k.starts_with(&inside)) {
                return Err(os_error("Directory not empty (os error 39)", Class::Other));
            }
            d.nodes.remove(&text(rel));
            Ok(())
        }
        Deletion::MoveAside(to) => {
            let n = d.nodes.remove(&text(rel)).unwrap();
            d.put(&text(&to), n);
            Ok(())
        }
        Deletion::RemoveFile => {
            d.nodes.remove(&text(rel));
            Ok(())
        }
        Deletion::Fail => Err(os_error("cannot examine", Class::Other)),
    }
}

fn copy(s: &Disk, d: &mut Disk, rel: &FsPath, opts: &Options) -> Result<Copied, OsError> {
    let n = match s.nodes.get(&text(rel)) {
        Some(n) => n.clone(),
        None => return Err(os_error("No such file or directory (os error 2)", Class::NotFound)),
    };
    let kind = match &n {
        Node::File { .. } => Kind::File,
        Node::Dir => Kind::Dir,
        Node::Link(_) => Kind::Symlink,
        Node::Special => Kind::Other,
    };
    match copy_way(kind) {
        CopyWay::Relink => {
            let raw = match &n {
                Node::Link(t) => p(t),
                _ => unreachable!(),
            };
            let lead = if opts.relative_symlinks { s.lead(rel, &raw) } else { None };
            let target = desired_target(rel, &raw, opts.relative_symlinks, &lead);
            d.link(&text(rel), &spelling(&target));
            relinked(Ok(()), &target, opts, s.resolve(&format!("/s/{}", text(rel))).is_some())
        }
        CopyWay::Stream => {
            if s.locked.contains(&text(rel)) {
                return Err(os_error("Permission denied (os error 13)", Class::PermissionDenied));
            }
            if d.within_locked(&text(rel)) {
                return Err(os_error("Permission denied (os error 13)", Class::PermissionDenied));
            }
            if d.full {
                return Err(os_error("No space left on device (os error 28)", Class::StorageFull));
            }
            let (content, secs) = match &n {
                Node::File { content, secs, .. } => (content.clone(), *secs),
                _ => unreachable!(),
            };
            let occupied = d.nodes.contains_key(&text(rel));
            if let Some(to) = aside_before_overwrite(occupied, rel, opts) {
                let old = d.nodes.remove(&text(rel)).unwrap();
                d.put(&text(&to), old);
            }
            let dir = rel.parent().unwrap();
            let tmp = text(&temp_path(&dir, rel, 7));
            d.file_at(&tmp, &content, secs);
            let written = d.nodes.remove(&tmp).unwrap();
            d.put(&text(rel), written);
            Ok(Copied::File { bytes: content.len() as u64, hash: hash_bytes(&content) })
        }
        CopyWay::Nothing => Ok(Copied::NoContent),
    }
}

fn perform(s: &Disk, d: &mut Disk, a: &Action, opts: &Options) -> Outcome {
    let done = |r: Result<(), OsError>| match r {
        Ok(()) => Outcome::Done,
        Err(e) => Outcome::Failed(e),
    };
    match a {
        Action::CreateDir(rel) => {
            d.put(&text(rel), Node::Dir);
            Outcome::Done
        }
        Action::Rename { from, to } => match d.nodes.remove(&text(from)) {
            Some(Node::File { content, ino, .. }) => {
                let secs = match s.nodes.get(&text(to)) {
                    Some(Node::File { secs, .. }) => *secs,
                    _ => 0,
                };
                d.put(&text(to), Node::File { content, secs, ino });
                Outcome::Done
            }
            _ => Outcome::Failed(os_error("No such file or directory (os error 2)", Class::NotFound)),
        },
        Action::Delete(rel) => done(delete(d, rel, opts)),
        Action::Copy(rel) => match copy(s, d, rel, opts) {
            Ok(c) => Outcome::Copied(c),
            Err(e) => Outcome::Failed(e),
        },
        Action::RefreshMeta(rel) => {
            let now = match s.nodes.get(&text(rel)) {
                Some(Node::File { secs, .. }) => *secs,
                _ => 0,
            };
            if let Some(Node::File { secs, .. }) = d.nodes.get_mut(&text(rel)) {
                *secs = now;
            }
            Outcome::Done
        }
        Action::HardLink { leader, name } => {
            if let Err(e) = delete(d, name, opts) {
                return Outcome::Unlinked { link_error: e, copy: Ok(Copied::NoContent) };
            }
            match d.nodes.get(&text(leader)).cloned() {
                Some(n) => {
                    d.put(&text(name), n);
                    Outcome::Done
                }
                None => Outcome::Unlinked {
                    link_error: os_error("No such file or directory (os error 2)", Class::NotFound),
                    copy: copy(s, d, name, opts),
                },
            }
        }
    }
}

fn carry_out(s: &Disk, d: &mut Disk, actions: &Vec<Action>, opts: &Options, report: Report, stop: bool) -> Report {
    let mut run = Progression::start(report);
    let mut i = 0;
    loop {
        match run.next(actions, i, stop) {
            Step::Finished => break,
            Step::Stop => {
                run.record_stop(i, actions.len());
                break;
            }
            Step::Skip => run.record_skip(),
            Step::Perform => {
                let outcome = perform(s, d, &actions[i], opts);
                assert!(run.can_record(&outcome));
                run.record(&actions[i], &outcome);
            }
        }
        i += 1;
    }
    run.close();
    if opts.verify {
        let copied: Vec<(FsPath, Verified)> = run
            .copied
            .iter()
            .map(|c| {
                let back = d.hash(&c.rel);
                assert!(!must_remove(&back, &c.hash));
                (c.rel.clone(), verified(&back, &c.hash, &None))
            })
            .collect();
        for (rel, v) in &copied {
            run.record_verification(rel, v);
        }
    }
    run.report
}

/// Scan, compare, plan, carry out.
fn sync_with(s: &Disk, d: &mut Disk, opts: &Options) -> Report {
    let (sm, dm) = (s.scan("/s").manifest, d.scan("/d").manifest);
    let df = compare_with(s, &sm, d, &dm, false, opts.relative_symlinks);
    let actions = plan(&df);
    let mut r = Report::new();
    for issue in df.issues {
        r.issue_msg(issue);
    }
    carry_out(s, d, &actions, opts, r, false)
}

/// A whole run, with all that may hold it back.
fn run_sync(s: &Disk, d: &mut Disk, opts: &Options) -> Result<Report, String> {
    let (so, dout) = (s.scan("/s"), d.scan("/d"));
    check_source(&SrcRoot::new(p("/s")), &so.manifest)?;
    let df = compare_with(s, &so.manifest, d, &dout.manifest, false, opts.relative_symlinks);
    assert!(can_prepare(&so, &df));
    let prepared = prepare(&so, &dout, &df, Some(1 << 40), FULL);
    let mut r = Report::new();
    for m in prepared.issues {
        r.issue_msg(m);
    }
    for m in prepared.notes {
        r.skip_msg(m);
    }
    Ok(carry_out(s, d, &prepared.actions, opts, r, false))
}

/// The report file of a run.
fn report_text(r: &Report) -> String {
    let mut t = header("sync /s -> /d", "r.errors.txt");
    for m in &r.skipped {
        t.push_str(&skip_line(m));
    }
    for m in &r.root_assisted {
        t.push_str(&root_line(m));
    }
    let errors = if r.issues.is_empty() { None } else { Some("r.errors.txt".to_string()) };
    t.push_str(&r.finish(&errors));
    t
}

fn corpus() -> Disk {
    let mut s = Disk::new();
    s.file("empty_file", b"");
    s.put("empty_dir", Node::Dir);
    s.file("f1/a.txt", b"");
    s.file("f1/b.txt", b"hello world");
    s.file("f2/a.txt", b"another a");
    s.file("f2/ with  spaces ", b"spaces");
    s.file("f2/unicode_\u{30cf}\u{30f3}\u{30d0}\u{30fc}\u{30ac}\u{30fc}_\u{1f363}", b"unicode");
    s.file("f2/with\nnewline", b"newline");
    s.file("f2/with\ttab", b"tab");
    s.file("f3/.hidden", b"hidden");
    s.file("f3/inner/deep.txt", b"deep");
    s.file("dup/one.txt", b"DUPLICATE-CONTENT");
    s.file("dup/two.txt", b"DUPLICATE-CONTENT");
    s.file("hl/original.txt", b"hard-linked content");
    s.hardlink("hl/original.txt", "hl/linked.txt");
    s.link("links/rel", "../f1/b.txt");
    s.link("links/broken", "nonexistent");
    s.link("links/to_dir", "../f1");
    s
}

fn dirs() -> (Disk, Disk) {
    (Disk::new(), Disk::new())
}

fn backing_up() -> Options {
    Options { backup_dir: Some(p("bk")), ..options() }
}

fn relative() -> Options {
    Options { relative_symlinks: true, ..options() }
}

#[test]
fn round_trip_destination_matches_source() {
    let (s, mut d) = (corpus(), Disk::new());
    let r = sync_with(&s, &mut d, &options());
    assert!(r.issues.is_empty(), "unexpected issues: {:?}", r.issues);
    assert_eq!(s.content(), d.content());
    assert_eq!(d.nodes["empty_dir"], Node::Dir);
    let dm = d.scan("/d").manifest;
    let sl = dm.iter().find(|e| e.rel == p("links/rel")).expect("symlink copied");
    assert_eq!(sl.kind, Kind::Symlink);
    assert_eq!(sl.link_target, Some(p("../f1/b.txt")));
    assert_eq!(r.exit_code(), 0);
}

#[test]
fn an_old_mirror_is_brought_up_to_date() {
    let (s, mut d) = (corpus(), Disk::new());
    d.file("f1/stale.txt", b"stale");
    d.file("f1/b.txt", b"old");
    d.file("moved_away.txt", b"deep");
    let r = sync_with(&s, &mut d, &options());
    assert!(r.issues.is_empty(), "{:?}", r.issues);
    assert_eq!(s.content(), d.content());
}

#[test]
fn sync_does_not_modify_the_source() {
    let (s, mut d) = (corpus(), Disk::new());
    let before = s.nodes.clone();
    sync_with(&s, &mut d, &options());
    assert_eq!(before, s.nodes, "source must be untouched");
}

#[test]
fn move_executes_as_rename_preserving_inode() {
    let (mut s, mut d) = dirs();
    s.file("new/here.txt", b"PAYLOAD");
    d.file("old/there.txt", b"PAYLOAD");
    let before = d.ino("old/there.txt");
    let r = sync_with(&s, &mut d, &options());
    let after = d.ino("new/here.txt");
    assert_eq!(r.moved, 1);
    assert_eq!(before, after, "same inode: renamed in place, not re-copied");
    assert!(!d.has("old/there.txt"));
    assert!(!d.has("old"), "emptied dir removed");
}

#[test]
fn mirror_deletes_extras() {
    let (mut s, mut d) = dirs();
    s.file("keep.txt", b"k");
    d.file("extra.txt", b"e");
    let r = sync_with(&s, &mut d, &options());
    assert!(d.has("keep.txt"));
    // A new file of the same size is no move: the contents differ.
    assert!(!d.has("extra.txt"));
    assert_eq!(r.deleted, 1);
}

#[test]
fn changed_file_is_overwritten() {
    let (mut s, mut d) = dirs();
    s.file("f.txt", b"NEW");
    d.file("f.txt", b"old-and-longer");
    let r = sync_with(&s, &mut d, &options());
    assert!(r.issues.is_empty());
    assert_eq!(d.read("f.txt"), b"NEW");
}

#[test]
fn copy_preserves_mtime() {
    let (mut s, mut d) = dirs();
    s.file_at("f.txt", b"x", 1_500_000_000);
    sync_with(&s, &mut d, &options());
    assert!(matches!(d.nodes["f.txt"], Node::File { secs: 1_500_000_000, .. }));
}

#[test]
fn backup_dir_preserves_deleted_files() {
    let (s, mut d) = dirs();
    d.file("gone.txt", b"important");
    let r = sync_with(&s, &mut d, &backing_up());
    assert_eq!(r.deleted, 1);
    assert!(!d.has("gone.txt"));
    assert_eq!(d.read("bk/gone.txt"), b"important");
}

#[test]
fn backup_dir_preserves_overwritten_files() {
    let (mut s, mut d) = dirs();
    s.file("f.txt", b"NEW-CONTENT");
    d.file("f.txt", b"OLD-CONTENT-and-longer");
    let r = sync_with(&s, &mut d, &backing_up());
    assert!(r.issues.is_empty(), "issues: {:?}", r.issues);
    assert_eq!(d.read("f.txt"), b"NEW-CONTENT");
    assert_eq!(d.read("bk/f.txt"), b"OLD-CONTENT-and-longer");
}

#[test]
fn backup_dir_ignores_fresh_additions() {
    let (mut s, mut d) = dirs();
    s.file("new.txt", b"fresh");
    sync_with(&s, &mut d, &backing_up());
    assert!(d.has("new.txt"));
    assert!(!d.has("bk/new.txt"), "no backup for a fresh add");
}

#[test]
fn kind_swap_file_to_directory_is_resolved() {
    let (mut s, mut d) = dirs();
    d.file("x", b"i am a file");
    s.file("x/inner.txt", b"now a dir");
    let r = sync_with(&s, &mut d, &options());
    assert!(r.issues.is_empty(), "issues: {:?}", r.issues);
    assert_eq!(d.nodes["x"], Node::Dir, "x should now be a directory");
    assert_eq!(d.read("x/inner.txt"), b"now a dir");
}

#[test]
fn kind_swap_directory_to_file_is_resolved() {
    let (mut s, mut d) = dirs();
    d.file("y/old.txt", b"old");
    s.file("y", b"i am a file now");
    let r = sync_with(&s, &mut d, &options());
    assert!(r.issues.is_empty(), "issues: {:?}", r.issues);
    assert_eq!(d.read("y"), b"i am a file now");
}

#[test]
fn kind_swap_file_to_directory_backs_up_the_old_file() {
    let (mut s, mut d) = dirs();
    d.file("x", b"was a file");
    s.file("x/inner.txt", b"now a dir");
    let r = sync_with(&s, &mut d, &backing_up());
    assert!(r.issues.is_empty(), "issues: {:?}", r.issues);
    assert_eq!(d.nodes["x"], Node::Dir);
    assert_eq!(d.read("x/inner.txt"), b"now a dir");
    assert_eq!(d.read("bk/x"), b"was a file");
}

#[test]
fn kind_swap_directory_to_file_backs_up_the_old_contents() {
    let (mut s, mut d) = dirs();
    d.file("y/old.txt", b"old data");
    s.file("y", b"now a file");
    let r = sync_with(&s, &mut d, &backing_up());
    assert!(r.issues.is_empty(), "issues: {:?}", r.issues);
    assert_eq!(d.read("y"), b"now a file");
    assert_eq!(d.read("bk/y/old.txt"), b"old data");
}

#[test]
fn retargeted_symlink_is_updated() {
    let (mut s, mut d) = dirs();
    s.file("a.txt", b"content");
    d.file("a.txt", b"content");
    s.link("link", "a.txt");
    d.link("link", "elsewhere");
    let r = sync_with(&s, &mut d, &options());
    assert!(r.issues.is_empty(), "issues: {:?}", r.issues);
    assert_eq!(d.nodes["link"], Node::Link("a.txt".into()));
}

#[test]
fn kind_swap_symlink_to_file_is_resolved() {
    let (mut s, mut d) = dirs();
    s.file("x", b"now a real file");
    d.link("x", "dangling");
    let r = sync_with(&s, &mut d, &options());
    assert!(r.issues.is_empty(), "issues: {:?}", r.issues);
    assert_eq!(d.read("x"), b"now a real file");
}

#[test]
fn kind_swap_file_to_symlink_is_resolved() {
    let (mut s, mut d) = dirs();
    s.link("y", "target-path");
    d.file("y", b"old regular file");
    let r = sync_with(&s, &mut d, &options());
    assert!(r.issues.is_empty(), "issues: {:?}", r.issues);
    assert_eq!(d.nodes["y"], Node::Link("target-path".into()));
}

#[test]
fn second_sync_is_a_complete_noop() {
    let (s, mut d) = (corpus(), Disk::new());
    let r1 = sync_with(&s, &mut d, &options());
    assert!(r1.issues.is_empty(), "first sync issues: {:?}", r1.issues);
    let before = d.nodes.clone();
    let r2 = sync_with(&s, &mut d, &options());
    assert_eq!((r2.copied, r2.moved, r2.deleted), (0, 0, 0), "second sync must write nothing");
    assert!(r2.issues.is_empty(), "second sync issues: {:?}", r2.issues);
    assert_eq!(d.nodes, before, "dest untouched");
    let (sm, dm) = (s.scan("/s").manifest, d.scan("/d").manifest);
    assert!(plan(&compare(&s, &sm, &d, &dm, true)).is_empty());
}

#[test]
fn moved_file_is_not_recopied_by_the_next_run() {
    let (mut s, mut d) = dirs();
    s.file_at("new/place.bin", b"IDENTICAL-PAYLOAD", 1_600_000_000);
    d.file_at("old/place.bin", b"IDENTICAL-PAYLOAD", 1_500_000_000);
    let r1 = sync_with(&s, &mut d, &options());
    assert_eq!(r1.moved, 1, "content-identical relocation is a rename");
    assert!(r1.issues.is_empty(), "issues: {:?}", r1.issues);
    let r2 = sync_with(&s, &mut d, &options());
    assert_eq!((r2.copied, r2.moved, r2.deleted), (0, 0, 0));
}

#[test]
fn mtime_drift_with_identical_content_refreshes_instead_of_copying() {
    let (mut s, mut d) = dirs();
    s.file_at("f.bin", b"IDENTICAL-BYTES", 1_600_000_000);
    d.file_at("f.bin", b"IDENTICAL-BYTES", 1_500_000_000);
    let r1 = sync_with(&s, &mut d, &options());
    assert_eq!(r1.copied, 0, "identical bytes must not be re-copied");
    assert_eq!(r1.refreshed, 1, "their metadata is aligned instead");
    assert!(r1.issues.is_empty(), "issues: {:?}", r1.issues);
    let r2 = sync_with(&s, &mut d, &options());
    assert_eq!((r2.copied, r2.refreshed, r2.moved, r2.deleted), (0, 0, 0, 0));
}

#[test]
fn hardlinked_pair_mirrors_as_one_inode() {
    let (mut s, mut d) = dirs();
    s.file("a.txt", b"SHARED-CONTENT");
    s.hardlink("a.txt", "b.txt");
    let r1 = sync_with(&s, &mut d, &options());
    assert!(r1.issues.is_empty(), "issues: {:?}", r1.issues);
    assert_eq!(r1.copied, 1, "content written exactly once");
    assert_eq!(r1.linked, 1, "the second name is a link, not a copy");
    assert_eq!(d.ino("a.txt"), d.ino("b.txt"), "one inode at the destination, like the source");
    assert_eq!(d.read("b.txt"), b"SHARED-CONTENT");
    let r2 = sync_with(&s, &mut d, &options());
    assert_eq!((r2.copied, r2.linked, r2.moved, r2.deleted, r2.refreshed), (0, 0, 0, 0, 0));
    assert!(r2.issues.is_empty(), "issues: {:?}", r2.issues);
}

#[test]
fn stale_followers_are_relinked_when_the_source_inode_updates() {
    let (mut s, mut d) = dirs();
    s.file("a.txt", b"version one");
    s.hardlink("a.txt", "b.txt");
    let r1 = sync_with(&s, &mut d, &options());
    assert!(r1.issues.is_empty());
    s.rewrite("a.txt", b"version two, deliberately longer", 1_700_000_100);
    let r2 = sync_with(&s, &mut d, &options());
    assert!(r2.issues.is_empty(), "issues: {:?}", r2.issues);
    assert_eq!(r2.copied, 1, "leader re-copied once");
    assert_eq!(r2.linked, 1, "follower relinked to the leader's new inode");
    assert_eq!(d.read("b.txt"), b"version two, deliberately longer");
    assert_eq!(d.ino("a.txt"), d.ino("b.txt"));
}

#[test]
fn independent_destination_duplicates_converge_into_links() {
    let (mut s, mut d) = dirs();
    s.file_at("a.txt", b"same bytes", 1_000_000);
    s.hardlink("a.txt", "b.txt");
    d.file_at("a.txt", b"same bytes", 1_000_000);
    d.file_at("b.txt", b"same bytes", 1_000_000);
    let r = sync_with(&s, &mut d, &options());
    assert!(r.issues.is_empty(), "issues: {:?}", r.issues);
    assert_eq!(r.copied, 0, "convergence must not write any content");
    assert_eq!(r.linked, 1);
    assert_eq!(d.ino("a.txt"), d.ino("b.txt"), "the duplicate collapsed into a link");
}

#[test]
fn relative_symlinks_retarget_absolute_into_source() {
    let (mut s, mut d) = dirs();
    s.file("f1/b.txt", b"hello world");
    s.link("abs", "/s/f1/b.txt");
    let r = sync_with(&s, &mut d, &relative());
    assert!(r.issues.is_empty(), "issues: {:?}", r.issues);
    assert_eq!(d.nodes["abs"], Node::Link("f1/b.txt".into()), "rewritten, within the mirror");
    assert_eq!(d.read("f1/b.txt"), b"hello world");
}

#[test]
fn relative_symlinks_second_sync_is_a_noop() {
    let (mut s, mut d) = dirs();
    s.file("f1/b.txt", b"x");
    s.link("abs", "/s/f1/b.txt");
    let r1 = sync_with(&s, &mut d, &relative());
    assert!(r1.issues.is_empty(), "run 1 issues: {:?}", r1.issues);
    let r2 = sync_with(&s, &mut d, &relative());
    assert_eq!((r2.copied, r2.moved, r2.deleted), (0, 0, 0), "run 2 must rewrite nothing");
    assert!(r2.issues.is_empty(), "run 2 issues: {:?}", r2.issues);
}

#[test]
fn relative_symlinks_leave_internal_relative_links_unchanged() {
    let (mut s, mut d) = dirs();
    s.file("f1/b.txt", b"x");
    s.link("links/rel", "../f1/b.txt");
    let r = sync_with(&s, &mut d, &relative());
    assert!(r.issues.is_empty(), "issues: {:?}", r.issues);
    assert_eq!(d.nodes["links/rel"], Node::Link("../f1/b.txt".into()));
}

#[test]
fn relative_symlinks_keep_out_of_tree_verbatim_and_note_broken() {
    let (mut s, mut d) = dirs();
    s.beyond.push("/outside/ext.txt".into());
    s.link("out", "/outside/ext.txt");
    s.link("broken", "does_not_exist");
    let r = sync_with(&s, &mut d, &relative());
    assert_eq!(d.nodes["out"], Node::Link("/outside/ext.txt".into()));
    assert_eq!(d.nodes["broken"], Node::Link("does_not_exist".into()));
    assert!(
        r.issues.iter().any(|i| i.contains("broken") && i.contains("does not exist")),
        "dangling symlink should be noted: {:?}",
        r.issues
    );
}

#[test]
fn move_onto_a_kind_swapped_path_succeeds_in_one_run() {
    let (mut s, mut d) = dirs();
    s.file("x", b"THE-PAYLOAD");
    d.file("x/inner.txt", b"old");
    d.file("elsewhere.bin", b"THE-PAYLOAD");
    let r = sync_with(&s, &mut d, &options());
    assert!(r.issues.is_empty(), "one run must be enough, without errors: {:?}", r.issues);
    assert_eq!(r.moved, 1, "satisfied by rename, not copy");
    assert_eq!(r.copied, 0, "no bytes copied");
    assert_eq!(d.read("x"), b"THE-PAYLOAD");
    assert!(!d.has("elsewhere.bin"), "move source relocated");
}

#[test]
fn move_onto_a_kind_swapped_path_backs_up_the_doomed_directory_contents() {
    let (mut s, mut d) = dirs();
    s.file("x", b"THE-PAYLOAD");
    d.file("x/inner.txt", b"save me");
    d.file("elsewhere.bin", b"THE-PAYLOAD");
    let r = sync_with(&s, &mut d, &backing_up());
    assert!(r.issues.is_empty(), "issues: {:?}", r.issues);
    assert_eq!(d.read("x"), b"THE-PAYLOAD");
    assert_eq!(d.read("bk/x/inner.txt"), b"save me");
}

#[test]
fn unreadable_source_file_is_reported_and_skipped() {
    let (mut s, mut d) = dirs();
    s.file("ok.txt", b"copyable");
    s.file("locked.bin", b"secret");
    s.locked.push("locked.bin".into());
    let r = sync_with(&s, &mut d, &options());
    assert!(d.has("ok.txt"), "readable file still copied");
    assert!(!d.has("locked.bin"), "unreadable file not copied");
    assert_eq!(r.issues, vec!["locked.bin: Permission denied (os error 13)".to_string()]);
    assert_eq!(r.exit_code(), 1);
}

#[test]
fn unwritable_destination_subdir_reports_issue_and_continues() {
    let (mut s, mut d) = dirs();
    s.file("ok.txt", b"fine");
    s.file("vault/blocked.txt", b"unreachable");
    d.put("vault", Node::Dir);
    d.locked.push("vault".into());
    let r = sync_with(&s, &mut d, &options());
    assert!(d.has("ok.txt"), "unaffected file still copied");
    assert!(!d.has("vault/blocked.txt"));
    assert!(
        r.issues.iter().any(|i| i.contains("blocked.txt")),
        "expected an issue naming blocked.txt: {:?}",
        r.issues
    );
}

#[test]
fn fsync_each_still_round_trips() {
    let (mut s, mut d) = dirs();
    s.file("a/x.txt", b"content");
    s.file("b.txt", b"more");
    let opts = Options { fsync_each: true, ..options() };
    let r = sync_with(&s, &mut d, &opts);
    assert!(r.issues.is_empty());
    assert_eq!(s.content(), d.content());
    assert!(!needs_flush(&opts, &vec![Action::Copy(p("a"))]));
    assert!(needs_flush(&options(), &vec![Action::Copy(p("a"))]));
    assert!(!needs_flush(&options(), &vec![]));
}

#[test]
fn special_file_goes_to_skipped_not_issues() {
    let (mut s, mut d) = dirs();
    s.file("normal.txt", b"data");
    s.put("pipe", Node::Special);
    let r = sync_with(&s, &mut d, &options());
    assert!(d.has("normal.txt"), "the regular file is still copied");
    assert!(!d.has("pipe"), "the special file is not reproduced");
    assert!(r.issues.is_empty(), "a special file is not a failure: {:?}", r.issues);
    assert_eq!(r.skipped, vec!["pipe: special file (fifo/socket/device) — no content to copy".to_string()]);
    assert_eq!(r.exit_code(), 0);
}

#[test]
fn special_files_on_both_sides_are_unchanged() {
    let (mut s, mut d) = dirs();
    s.put("pipe", Node::Special);
    d.put("pipe", Node::Special);
    s.file("data.txt", b"x");
    d.file("data.txt", b"x");
    let r = sync_with(&s, &mut d, &options());
    assert!(r.issues.is_empty(), "issues: {:?}", r.issues);
    assert!(r.skipped.is_empty(), "no action attempted, nothing skipped: {:?}", r.skipped);
    assert_eq!((r.copied, r.deleted), (0, 0));
}

#[test]
fn failed_copy_leaves_no_partial_file() {
    let (s, mut d) = dirs();
    let actions = vec![Action::Copy(p("ghost.txt"))];
    let r = carry_out(&s, &mut d, &actions, &options(), Report::new(), false);
    assert_eq!(r.issues.len(), 1);
    assert!(!d.has("ghost.txt"));
}

#[test]
fn graceful_stop_halts_before_the_next_action_and_marks_the_report() {
    let (mut s, mut d) = dirs();
    s.file("a.txt", b"one");
    s.file("b.txt", b"two");
    let (sm, dm) = (s.scan("/s").manifest, d.scan("/d").manifest);
    let actions = plan(&compare(&s, &sm, &d, &dm, false));
    assert!(!actions.is_empty(), "there is real work to stop");
    let r = carry_out(&s, &mut d, &actions, &options(), Report::new(), true);
    assert_eq!(r.copied, 0, "a requested stop performs no further copies");
    assert!(!d.has("a.txt"), "nothing new is written after the stop");
    assert!(r.was_stopped_early(), "the report records the incomplete run");
    assert_eq!(r.exit_code(), 1);
}

#[test]
fn a_full_destination_skips_the_remaining_copies() {
    let (mut s, mut d) = (Disk::new(), Disk::new());
    for name in ["a", "b", "c"] {
        s.file(name, name.as_bytes());
    }
    d.full = true;
    let r = sync_with(&s, &mut d, &options());
    assert_eq!(
        r.issues,
        vec![
            "a: No space left on device (os error 28)".to_string(),
            "destination is full — skipped the remaining 2 copies; free some space (or use a larger \
             target) and re-run"
                .to_string(),
        ]
    );
}

#[test]
fn verify_matches_detects_mismatch() {
    let (good, other) = (hash_bytes(b"hello"), hash_bytes(b"different"));
    let read_back: HashOutcome = Ok(hash_bytes(b"hello"));
    assert!(verify_matches(&read_back, &good).unwrap());
    assert!(!verify_matches(&read_back, &other).unwrap());
}

#[test]
fn verify_removes_a_corrupt_copy_and_reports_it() {
    let back: HashOutcome = Ok(hash_bytes(b"what actually landed on the device"));
    let want = hash_bytes(b"what the source contained");
    assert!(must_remove(&back, &want));
    let mut run = Progression::start(Report::new());
    run.record_verification(&p("f.txt"), &verified(&back, &want, &None));
    assert_eq!(run.report.issues.len(), 1);
    assert!(run.report.issues[0].contains("removed"));
    let kept = verified(&back, &want, &Some("busy".into()));
    run.record_verification(&p("f.txt"), &kept);
    assert_eq!(
        run.report.issues[1],
        "f.txt: verify failed — content mismatch, and removing the corrupt copy also failed: busy"
    );
}

#[test]
fn verify_keeps_a_correct_copy() {
    let back: HashOutcome = Ok(hash_bytes(b"identical content"));
    let want = hash_bytes(b"identical content");
    assert!(!must_remove(&back, &want));
    let mut run = Progression::start(Report::new());
    run.record_verification(&p("f.txt"), &verified(&back, &want, &None));
    assert!(run.report.issues.is_empty());
}

#[test]
fn verify_reports_an_unreadable_copy_without_pretending_it_is_corrupt() {
    let back: HashOutcome = Err(ReadFailure { message: "No such file".into(), denied: false });
    let want = hash_bytes(b"anything");
    assert!(!must_remove(&back, &want));
    let mut run = Progression::start(Report::new());
    run.record_verification(&p("gone.txt"), &verified(&back, &want, &None));
    assert_eq!(run.report.issues, vec!["gone.txt: No such file".to_string()]);
    assert!(!run.report.issues[0].contains("removed"));
}

#[test]
fn links_that_cannot_be_made_fall_back_or_are_reported() {
    let link = Action::HardLink { leader: p("x"), name: p("y") };
    let e = || os_error("Operation not permitted", Class::PermissionDenied);
    let mut run = Progression::start(Report::new());
    let copy = Copied::File { bytes: 3, hash: hash_bytes(b"abc") };
    run.record(&link, &Outcome::Unlinked { link_error: e(), copy: Ok(copy) });
    assert_eq!((run.report.copied, run.report.bytes_copied, run.report.linked), (1, 3, 0));
    assert_eq!(
        run.report.skipped,
        vec!["y: hard link not possible (Operation not permitted); copied as an independent file".to_string()]
    );
    run.record(&link, &Outcome::Unlinked { link_error: e(), copy: Err(os_error("gone", Class::NotFound)) });
    run.record(&link, &Outcome::Unlinked { link_error: e(), copy: Ok(Copied::NoContent) });
    assert_eq!(
        run.report.issues,
        vec![
            "y: hard link failed (Operation not permitted) and the fallback copy failed (gone)".to_string(),
            "y: Operation not permitted".to_string(),
        ]
    );
    assert_eq!(run.flushed(), vec![p("y")]);
}

#[test]
fn a_link_that_the_destination_cannot_hold_is_recorded_with_its_target() {
    let opts = Options { relative_symlinks: true, ..options() };
    let r = relinked(Err(os_error("no links", Class::Unsupported)), &p("../f1/b.txt"), &opts, true).unwrap();
    let mut run = Progression::start(Report::new());
    run.record(&Action::Copy(p("l")), &Outcome::Copied(r));
    assert_eq!(
        run.report.issues,
        vec!["l: symlink (-> ../f1/b.txt) not supported on the destination filesystem; recorded here so it \
              can be reconstructed manually"
            .to_string()]
    );
    let dangling = relinked(Ok(()), &p("nowhere"), &opts, false).unwrap();
    run.record(&Action::Copy(p("m")), &Outcome::Copied(dangling));
    assert_eq!(run.report.issues[1], "m: symlink target does not exist (link copied anyway)");
    assert_eq!(run.report.copied, 1);
    let verbatim = relinked(Ok(()), &p("nowhere"), &options(), false).unwrap();
    assert!(matches!(verbatim, Copied::Symlink { broken: false }));
}

#[test]
fn a_copy_is_written_beside_its_place_first() {
    let tmp = temp_path(&p("/d/sub"), &p("/d/sub/a.txt"), 4242);
    assert_eq!(tmp, p("/d/sub/.filesync_staging.tmp.4242.a.txt"));
}

// ── preparing a run ──────────────────────────────────────────────────────────

const FULL: Capabilities = Capabilities { symlinks: true, hardlinks: true };

fn with_error(mut o: ScanOutcome) -> ScanOutcome {
    o.errors.push("cannot read secret: Permission denied (os error 13)".into());
    o
}

#[test]
fn unreadable_source_subtree_suspends_all_deletes() {
    let (mut s, mut d) = dirs();
    s.file("ok.txt", b"new content");
    s.file("vault/precious.txt", b"the only other copy is at dst");
    d.file("vault/precious.txt", b"the only other copy is at dst");
    d.file("genuinely_extra.txt", b"stale but must survive this run");
    s.locked.push("vault".into());
    let r = run_sync(&s, &mut d, &options()).unwrap();
    assert!(d.has("vault/precious.txt"), "the destination copy of the unreadable subtree must survive");
    assert!(d.has("genuinely_extra.txt"), "ALL deletions are suspended while the source view is incomplete");
    assert_eq!(d.read("ok.txt"), b"new content");
    assert!(r.finish(&None).contains("deleted: 0"), "no deletions may be counted");
    assert!(r.issues.iter().any(|i| i.contains("source: cannot read vault")), "{:?}", r.issues);
    assert!(r.issues.iter().any(|i| i.contains("2 deletion(s) suspended")), "{:?}", r.issues);
}

#[test]
fn unreadable_source_file_suspends_deletes() {
    let (mut s, mut d) = dirs();
    s.file("readable.txt", b"so the source isn't empty");
    s.file("renamed.bin", b"PRECIOUS-PAYLOAD");
    s.locked.push("renamed.bin".into());
    d.file("original.bin", b"PRECIOUS-PAYLOAD");
    d.file("unrelated_extra.txt", b"also must survive");
    let r = run_sync(&s, &mut d, &options()).unwrap();
    assert!(d.has("original.bin"), "the move partner may be the only readable copy of that content");
    assert!(d.has("unrelated_extra.txt"), "every deletion is suspended");
    assert!(r.finish(&None).contains("deleted: 0"), "no deletions counted");
    assert!(r.issues.iter().any(|i| i.contains("2 deletion(s) suspended")), "{:?}", r.issues);
    assert!(r.issues.iter().any(|i| i.starts_with("source: renamed.bin")), "{:?}", r.issues);
}

#[test]
fn run_reports_special_files_as_skipped_not_issues() {
    let (mut s, mut d) = dirs();
    s.file("data.txt", b"x");
    s.put("pipe", Node::Special);
    let r = run_sync(&s, &mut d, &options()).unwrap();
    let rep = report_text(&r);
    assert!(rep.contains("skipped: 1"), "skip counted:\n{rep}");
    assert!(rep.contains("issues:  0"), "without becoming an issue:\n{rep}");
    assert!(rep.contains("  ~ pipe"), "and listed with the ~ marker:\n{rep}");
    assert!(rep.contains("run completed"));
    assert_eq!(r.exit_code(), 0);
}

#[test]
fn a_special_file_is_all_that_a_second_sync_plans() {
    let (mut s, mut d) = (corpus(), Disk::new());
    s.put("pipe", Node::Special);
    sync_with(&s, &mut d, &options());
    assert!(!d.has("pipe"));
    let (sm, dm) = (s.scan("/s").manifest, d.scan("/d").manifest);
    let again = compare(&s, &sm, &d, &dm, false);
    assert_eq!(plan(&again), vec![Action::Copy(p("pipe"))]);
    let before = d.clone();
    let r = sync_with(&s, &mut d, &options());
    assert_eq!((r.copied, r.moved, r.deleted, r.bytes_copied), (0, 0, 0, 0));
    assert_eq!(d.nodes, before.nodes);
    s.nodes.remove("pipe");
    let (sm, dm) = (s.scan("/s").manifest, d.scan("/d").manifest);
    assert!(plan(&compare(&s, &sm, &d, &dm, false)).is_empty());
}

#[test]
fn no_temp_files_remain_after_sync() {
    let (s, mut d) = (corpus(), Disk::new());
    sync_with(&s, &mut d, &options());
    assert!(d.has("f3/inner/deep.txt"));
    let root = DstRoot::new(p("/d"));
    let (_, swept) = scan_destination(&root, &d.sights("/d", true));
    assert_eq!(swept, 0);
    // a temp file left behind would have been seen
    d.file(&text(&temp_path(&p("f1"), &p("f1/b.txt"), 7)), b"half");
    let (_, swept) = scan_destination(&root, &d.sights("/d", true));
    assert_eq!(swept, 1);
}

#[test]
fn hardlinks_appear_as_two_regular_files_with_equal_content() {
    let s = corpus();
    let m = s.scan("/s").manifest;
    let orig = m.iter().find(|e| e.rel == p("hl/original.txt")).unwrap();
    let link = m.iter().find(|e| e.rel == p("hl/linked.txt")).unwrap();
    assert_eq!(orig.kind, Kind::File);
    assert_eq!(link.kind, Kind::File);
    assert_eq!(orig.size, link.size);
    assert!(orig.link_id.is_some() && orig.link_id == link.link_id);
    let (ho, hl) = (s.hash(&orig.rel).unwrap(), s.hash(&link.rel).unwrap());
    assert_eq!(ho, hl);
    assert_ne!(ho, s.hash(&p("dup/one.txt")).unwrap());
}

#[test]
fn a_link_target_is_carried_over_to_the_letter() {
    let (mut s, mut d) = dirs();
    s.file("dir/f", b"x");
    s.link("l1", "dir/");
    s.link("l2", "dir//f");
    s.link("l3", "./dir/./f");
    let r = sync_with(&s, &mut d, &options());
    assert!(r.issues.is_empty(), "{:?}", r.issues);
    assert_eq!(d.nodes["l1"], Node::Link("dir/".into()));
    assert_eq!(d.nodes["l2"], Node::Link("dir//f".into()));
    assert_eq!(d.nodes["l3"], Node::Link("./dir/./f".into()));
    assert_eq!(spelling(&desired_target(&p("l2"), &p("dir//f"), true, &s.lead(&p("l2"), &p("dir//f")))), "dir/f");
    let refused = Err(os_error("not supported", Class::Unsupported));
    match relinked(refused, &p("dir//f/"), &options(), true).unwrap() {
        Copied::Failed(why) => assert!(why.starts_with("symlink (-> dir//f/) not supported"), "{why}"),
        other => panic!("{other:?}"),
    }
}

#[test]
fn a_complete_source_keeps_the_whole_plan() {
    let (mut s, mut d) = (Disk::new(), Disk::new());
    s.file("new.txt", b"n");
    d.file("extra.txt", b"x-x");
    let (so, dout) = (s.scan("/s"), d.scan("/d"));
    let diff = compare(&s, &so.manifest, &d, &dout.manifest, false);
    let r = prepare(&so, &dout, &diff, Some(0), FULL);
    assert_eq!(r.actions, plan(&diff));
    assert!(r.issues.is_empty() && r.notes.is_empty());
}

#[test]
fn too_little_room_without_deletions_skips_the_copies() {
    let (mut s, d) = (Disk::new(), Disk::new());
    s.file("new.txt", b"n");
    let (so, dout) = (with_error(s.scan("/s")), d.scan("/d"));
    let diff = compare(&s, &so.manifest, &d, &dout.manifest, false);
    let r = prepare(&so, &dout, &diff, Some(5 << 20), FULL);
    assert!(r.actions.is_empty());
    assert!(r.issues.iter().any(|i| i.contains("(need ~32 MiB, have 5 MiB) — copies skipped this run")));
}

#[test]
fn limits_of_the_destination_are_told_up_front() {
    let s = corpus();
    let d = Disk::new();
    let (so, dout) = (s.scan("/s"), d.scan("/d"));
    let diff = compare(&s, &so.manifest, &d, &dout.manifest, false);
    let r = prepare(&so, &dout, &diff, None, Capabilities { symlinks: false, hardlinks: false });
    assert_eq!(r.issues, vec!["destination cannot store symlinks; 3 will be skipped".to_string()]);
    assert_eq!(r.notes.len(), 1);
    assert!(r.notes[0].contains("1 linked name(s) will be copied as independent files"));
}

#[test]
fn run_rejects_empty_source() {
    let (s, mut d) = dirs();
    d.file("existing.txt", b"keep me");
    let e = run_sync(&s, &mut d, &options()).unwrap_err();
    assert!(d.has("existing.txt"), "an empty source must not wipe the destination");
    assert!(e.contains("source /s is empty — refusing to mirror"), "{e}");
    assert!(check_source(&SrcRoot::new(p("/s")), &corpus().scan("/s").manifest).is_ok());
}

#[test]
fn a_walk_failure_is_described() {
    let f = WalkFailure {
        path: Some(p("/s/sub/secret")),
        io: Some("Permission denied (os error 13)".into()),
        whole: "IO error for operation on /s/sub/secret".into(),
        permission: true,
    };
    let o = scan_with_errors(&p("/s"), &vec![Sight::Failed { failure: f, elevated: false }]);
    assert_eq!(o.errors, vec!["cannot read sub/secret: Permission denied (os error 13)".to_string()]);
    assert_eq!(o.denied, vec![p("sub/secret")]);
}

#[test]
fn probes_a_normal_dir() {
    let caps = probe(true, true, true);
    assert!(caps.symlinks);
    assert!(caps.hardlinks);
    assert!(!probe(true, false, true).hardlinks);
    assert!(!probe(false, true, false).symlinks);
    let dst = DstRoot::new(p("/d"));
    assert_eq!(*dst.path(), p("/d"));
}

#[test]
fn sizes_only_matter_to_the_plan_of_an_incomplete_source() {
    let mut s = Disk::new();
    s.file("a", b"a");
    s.file("b", b"b");
    let mut sights = s.sights("/s", false);
    for sight in sights.iter_mut() {
        if let Sight::Entry { at, .. } = sight {
            at.stat = at.stat.take().map(|stat| Stat { len: u64::MAX, ..stat });
        }
    }
    let huge = scan_with_errors(&p("/s"), &sights);
    let added = |rel: &str| Change { rel: p(rel), kind: Kind::File };
    let diff = Diff { added: vec![added("a"), added("b")], ..Diff::default() };
    assert!(can_prepare(&huge, &diff));
    assert_eq!(prepare(&huge, &Disk::new().scan("/d"), &diff, Some(0), FULL).actions.len(), 2);
    assert!(!can_prepare(&with_error(huge), &diff));
}
