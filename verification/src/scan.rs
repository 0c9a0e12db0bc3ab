//! What a walk of a directory tree saw, turned into a [`Manifest`]. Links are recorded, never
//! followed, so a scan cannot be led out of the tree or into a cycle. The root itself is left out.
//!
//! The walk itself reads the file system; it hands over one [`Sight`] for each thing it met.
use vstd::prelude::*;
use vstd::utf8::encode_utf8;

use crate::artifacts::{BACKUP_MARKER, LOCK_FILE, TMP_PREFIX};
use crate::collect::{collect, lemma_collect_contains};
use crate::manifest::{DstRoot, Entry, EntryV, Kind, Manifest, Mtime, clone_opt_path, entries_view, opt_path, rels};
use crate::order::{Item, add_item, by_path, lemma_by_path_strict, lemma_order, lemma_order_in_range, lemma_sorted_contains, lemma_sorted_in_order, order, path_lt, sort_items, sorted_with, values};
use crate::paths::{FsPath, PathV, SpelledV, add_path, bytes_same, copy_bytes, file_name_of, joined, named_view, path_bytes, relative_text, relative_to};
use crate::tally::{lemma_collected_count, total};
use crate::text::{add_text, dec, push_dec, push_spelled, texts_view, utf8_lossy};

verus! {

/// Everything a scan learned: the manifest, plus what it could not put there.
#[derive(Debug)]
pub struct ScanOutcome {
    pub manifest: Manifest,
    /// Messages for what could not be read.
    pub errors: Vec<String>,
    /// Root-relative paths of the backup directories that were skipped.
    pub skipped_backup_dirs: Vec<FsPath>,
    /// Root-relative paths of what could not be read for want of permission.
    pub denied: Vec<FsPath>,
}

/// The value of a [`ScanOutcome`].
pub struct ScanV {
    pub manifest: Seq<EntryV>,
    pub errors: Seq<Seq<char>>,
    pub skipped_backup_dirs: Seq<SpelledV>,
    pub denied: Seq<SpelledV>,
}

impl View for ScanOutcome {
    type V = ScanV;

    open spec fn view(&self) -> ScanV {
        ScanV {
            manifest: self.manifest@,
            errors: texts_view(self.errors@),
            skipped_backup_dirs: named_view(self.skipped_backup_dirs@),
            denied: named_view(self.denied@),
        }
    }
}

/// What the system tells of an entry beyond its type.
#[derive(Debug, Clone, Copy)]
pub struct Stat {
    pub len: u64,
    pub mtime: Option<Mtime>,
    /// How many names the entry's inode has.
    pub nlink: u64,
    pub dev: u64,
    pub ino: u64,
    pub uid: u32,
    pub gid: u32,
    pub mode: u32,
}

/// An entry that a walk met.
#[derive(Debug)]
pub struct Sighting {
    /// Where the walk found it: the walk's root with the way to the entry.
    pub path: FsPath,
    /// How far below the walk's root it lies.
    pub depth: usize,
    /// What the entry itself is; a link is not followed.
    pub kind: Kind,
    /// What the system tells of it, where it does.
    pub stat: Option<Stat>,
    /// What the link says, where the entry is a link that could be read.
    pub link_target: Option<FsPath>,
}

/// The value of a [`Sighting`].
pub struct SightingV {
    pub path: PathV,
    /// How the path is spelled.
    pub text: Seq<u8>,
    pub depth: int,
    pub kind: Kind,
    pub stat: Option<Stat>,
    pub link_target: Option<PathV>,
}

impl View for Sighting {
    type V = SightingV;

    open spec fn view(&self) -> SightingV {
        SightingV {
            path: self.path@,
            text: self.path.spelled(),
            depth: self.depth as int,
            kind: self.kind,
            stat: self.stat,
            link_target: opt_path(self.link_target),
        }
    }
}

/// Why a walk could not go on at some place.
#[derive(Debug)]
pub struct WalkFailure {
    /// Where, as far as that is known.
    pub path: Option<FsPath>,
    /// What the system reported, where the failure is the system's.
    pub io: Option<String>,
    /// The failure in the walk's own words.
    pub whole: String,
    /// Whether it is a failure of permission.
    pub permission: bool,
}

/// The value of a [`WalkFailure`].
pub struct FailureV {
    pub path: Option<SpelledV>,
    pub io: Option<Seq<char>>,
    pub whole: Seq<char>,
    pub permission: bool,
}

impl View for WalkFailure {
    type V = FailureV;

    open spec fn view(&self) -> FailureV {
        FailureV {
            path: match self.path {
                Some(p) => Some(p.named()),
                None => None,
            },
            io: crate::text::opt_text(self.io),
            whole: self.whole@,
            permission: self.permission,
        }
    }
}

/// One thing that a walk met.
#[derive(Debug)]
pub enum Sight {
    /// A directory that carries a backup marker; the walk did not enter it.
    Marked(FsPath),
    /// An entry. `elevated` tells that it was met while walking again, as root, a directory that
    /// the user may not read; `removed` that the walk deleted it as a stray of an earlier run.
    Entry { at: Sighting, elevated: bool, removed: bool },
    /// A failure; `elevated` as above.
    Failed { failure: WalkFailure, elevated: bool },
}

/// The value of a [`Sight`].
pub enum SightV {
    Marked(SpelledV),
    Entry { at: SightingV, elevated: bool, removed: bool },
    Failed { failure: FailureV, elevated: bool },
}

impl View for Sight {
    type V = SightV;

    open spec fn view(&self) -> SightV {
        match self {
            Sight::Marked(p) => SightV::Marked(p.named()),
            Sight::Entry { at, elevated, removed } => SightV::Entry {
                at: at@,
                elevated: *elevated,
                removed: *removed,
            },
            Sight::Failed { failure, elevated } => SightV::Failed {
                failure: failure@,
                elevated: *elevated,
            },
        }
    }
}

pub open spec fn sights_view(v: Seq<Sight>) -> Seq<SightV> {
    Seq::new(v.len(), |i: int| v[i]@)
}

// ── what counts as content ───────────────────────────────────────────────────

/// The name of an entry: its last component, or all of it where that is no name.
pub open spec fn name_of(p: PathV) -> Seq<u8> {
    match file_name_of(p) {
        Some(n) => n,
        None => path_bytes(p),
    }
}

/// `b` begins with `prefix`.
pub open spec fn begins_with(b: Seq<u8>, prefix: Seq<u8>) -> bool {
    prefix.len() <= b.len() && b.subrange(0, prefix.len() as int) == prefix
}

/// The entry is a temp file of an atomic copy: scratch, not content.
pub open spec fn is_scratch(p: PathV) -> bool {
    begins_with(name_of(p), encode_utf8(TMP_PREFIX@))
}

/// The entry is the lockfile of the running sync.
pub open spec fn is_lock(at: SightingV) -> bool {
    at.depth == 1 && name_of(at.path) == encode_utf8(LOCK_FILE@)
}

/// A place relative to the walk's root.
pub open spec fn below(root: PathV, at: SpelledV) -> SpelledV {
    SpelledV { path: relative_to(at.path, root), text: relative_text(at.path, at.text, root) }
}

/// The entry as a manifest holds it. Only files with more than one name get a link identity, for
/// every directory has several.
pub open spec fn entry_of(root: PathV, at: SightingV) -> EntryV {
    EntryV {
        rel: relative_to(at.path, root),
        text: relative_text(at.path, at.text, root),
        kind: at.kind,
        size: match (at.kind, at.stat) {
            (Kind::File, Some(m)) => m.len,
            _ => 0,
        },
        mtime: match at.stat {
            Some(m) => m.mtime,
            None => None,
        },
        link_target: if at.kind == Kind::Symlink {
            at.link_target
        } else {
            None
        },
        link_id: match (at.kind, at.stat) {
            (Kind::File, Some(m)) => if m.nlink > 1 {
                Some((m.dev, m.ino))
            } else {
                None
            },
            _ => None,
        },
        owner: match at.stat {
            Some(m) => Some((m.uid, m.gid)),
            None => None,
        },
        mode: match at.stat {
            Some(m) => Some(m.mode),
            None => None,
        },
    }
}

/// How a failure is reported.
pub open spec fn failure_text(root: PathV, f: FailureV) -> Seq<char> {
    match f.path {
        Some(at) => "cannot read "@ + utf8_lossy(below(root, at).text) + ": "@ + match f.io {
            Some(io) => io,
            None => f.whole,
        },
        None => "scan error: "@ + f.whole,
    }
}

/// What a walk's sights put into the manifest, in the order of the walk.
pub open spec fn entry_rule(root: PathV, w: Seq<SightV>) -> spec_fn(int) -> Option<EntryV> {
    |i: int|
        match w[i] {
            SightV::Entry { at, elevated, .. } => if is_scratch(at.path) || (!elevated && is_lock(at)) {
                None
            } else {
                Some(entry_of(root, at))
            },
            _ => None,
        }
}

/// The failures that are reported.
pub open spec fn error_rule(root: PathV, w: Seq<SightV>) -> spec_fn(int) -> Option<Seq<char>> {
    |i: int|
        match w[i] {
            SightV::Failed { failure, .. } => Some(failure_text(root, failure)),
            _ => None,
        }
}

/// The backup directories that were skipped.
pub open spec fn skipped_rule(root: PathV, w: Seq<SightV>) -> spec_fn(int) -> Option<SpelledV> {
    |i: int|
        match w[i] {
            SightV::Marked(at) => Some(below(root, at)),
            _ => None,
        }
}

/// The places that want of permission closes.
pub open spec fn denied_rule(root: PathV, w: Seq<SightV>) -> spec_fn(int) -> Option<SpelledV> {
    |i: int|
        match w[i] {
            SightV::Failed { failure, elevated } => if !elevated && failure.permission {
                match failure.path {
                    Some(at) => Some(below(root, at)),
                    None => None,
                }
            } else {
                None
            },
            _ => None,
        }
}

/// The strays that were swept.
pub open spec fn swept_rule(w: Seq<SightV>) -> spec_fn(int) -> Option<PathV> {
    |i: int|
        match w[i] {
            SightV::Entry { at, removed, .. } => if is_scratch(at.path) && at.kind == Kind::File && removed {
                Some(at.path)
            } else {
                None
            },
            _ => None,
        }
}

/// The entries of a scan, in the order of the walk.
pub open spec fn walked_entries(root: PathV, w: Seq<SightV>) -> Seq<EntryV> {
    collect(w.len() as int, entry_rule(root, w))
}

/// What a scan learns from a walk.
pub open spec fn scanned(root: PathV, w: Seq<SightV>) -> ScanV {
    let es = walked_entries(root, w);
    ScanV {
        manifest: sorted_with(es, rels(es), by_path()),
        errors: collect(w.len() as int, error_rule(root, w)),
        skipped_backup_dirs: collect(w.len() as int, skipped_rule(root, w)),
        denied: collect(w.len() as int, denied_rule(root, w)),
    }
}

/// The strays that a destination scan swept.
pub open spec fn swept(w: Seq<SightV>) -> Seq<PathV> {
    collect(w.len() as int, swept_rule(w))
}

// ── decisions during the walk ────────────────────────────────────────────────

/// Whether a walk leaves a directory out: it carries a backup marker. The root is exempt, for a
/// scan must never leave out its own root.
pub fn is_backup_dir(depth: usize, is_dir: bool, has_marker: bool) -> (r: bool)
    ensures
        r == (depth >= 1 && is_dir && has_marker),
{
    depth >= 1 && is_dir && has_marker
}

/// Where a directory's backup marker would lie.
pub fn marker_path(dir: &FsPath) -> (r: FsPath)
    ensures
        r@ == joined(dir@, seq![encode_utf8(BACKUP_MARKER@)]),
{
    let mut name = FsPath::empty();
    name.push(copy_bytes(BACKUP_MARKER.as_bytes()));
    assert(name@ =~= seq![encode_utf8(BACKUP_MARKER@)]);
    dir.join(&name)
}

fn name_bytes(p: &FsPath) -> (r: Vec<u8>)
    ensures
        r@ == name_of(p@),
{
    match p.file_name() {
        Some(n) => n,
        None => p.to_bytes(),
    }
}

pub(crate) fn has_prefix(b: &Vec<u8>, prefix: &[u8]) -> (r: bool)
    ensures
        r == begins_with(b@, prefix@),
{
    let n: usize = prefix.len();
    assert(prefix@.len() == n);
    if n > b.len() {
        return false;
    }
    let mut i: usize = 0;
    while i < n
        invariant
            n == prefix@.len(),
            n <= b@.len(),
            0 <= i <= n,
            forall|k: int| 0 <= k < i ==> b@[k] == prefix@[k],
        decreases n - i,
    {
        if b[i] != prefix[i] {
            assert(b@.subrange(0, n as int)[i as int] != prefix@[i as int]);
            return false;
        }
        i = i + 1;
    }
    assert(b@.subrange(0, n as int) =~= prefix@);
    true
}

/// Whether an entry is a temp file of an atomic copy.
pub fn scratch_path(p: &FsPath) -> (r: bool)
    ensures
        r == is_scratch(p@),
{
    let name = name_bytes(p);
    has_prefix(&name, TMP_PREFIX.as_bytes())
}

/// Whether a walk deletes an entry on the way: a stray temp file, in a destination scan.
pub fn is_stray(at: &Sighting, sweep_tmp: bool) -> (r: bool)
    ensures
        r == (sweep_tmp && is_scratch(at@.path) && at.kind == Kind::File),
{
    sweep_tmp && at.kind == Kind::File && scratch_path(&at.path)
}

/// Whether a directory that could not be read is walked again as root: root must be in reserve,
/// and the failure one of permission on something that is a directory.
pub fn wants_rescan(failure: &WalkFailure, root_in_reserve: bool, is_dir: bool) -> (r: bool)
    ensures
        r == (root_in_reserve && failure@.permission && failure@.path is Some && is_dir),
{
    root_in_reserve && failure.permission && failure.path.is_some() && is_dir
}

/// How a walk as root is recorded.
pub open spec fn rescan_text(dir: Seq<u8>, found: nat) -> Seq<char> {
    "read directory (elevated): "@ + utf8_lossy(dir) + " — "@ + dec(found) + " entr"@ + if found == 1 {
        "y"@
    } else {
        "ies"@
    } + " merged into the scan"@
}

/// The record of a walk as root that found `found` entries in `dir`.
pub fn rescan_note(dir: &FsPath, found: u64) -> (r: String)
    ensures
        r@ == rescan_text(dir.spelled(), found as nat),
{
    let mut s = String::from_str("read directory (elevated): ");
    push_spelled(&mut s, dir);
    s.append(" — ");
    push_dec(&mut s, found);
    s.append(" entr");
    if found == 1 {
        s.append("y");
    } else {
        s.append("ies");
    }
    s.append(" merged into the scan");
    s
}

// ── from sights to a manifest ────────────────────────────────────────────────

/// The entry as a manifest holds it.
pub fn entry_from(root: &FsPath, at: &Sighting) -> (e: Entry)
    ensures
        e@ == entry_of(root@, at@),
{
    let (size, link_id): (u64, Option<(u64, u64)>) = match (at.kind, at.stat) {
        (Kind::File, Some(m)) => (
            m.len,
            if m.nlink > 1 {
                Some((m.dev, m.ino))
            } else {
                None
            },
        ),
        _ => (0, None),
    };
    let link_target = match at.kind {
        Kind::Symlink => clone_opt_path(&at.link_target),
        _ => None,
    };
    let (mtime, owner, mode): (Option<Mtime>, Option<(u32, u32)>, Option<u32>) = match at.stat {
        Some(m) => (m.mtime, Some((m.uid, m.gid)), Some(m.mode)),
        None => (None, None, None),
    };
    Entry {
        rel: at.path.relative_to(root),
        kind: at.kind,
        size,
        mtime,
        link_target,
        link_id,
        owner,
        mode,
    }
}

/// A walk failure as `cannot read <path>: <reason>`, the path taken relative to the root.
pub fn describe_walk_error(root: &FsPath, f: &WalkFailure) -> (r: String)
    ensures
        r@ == failure_text(root@, f@),
{
    match &f.path {
        Some(p) => {
            let mut s = String::from_str("cannot read ");
            let rel = p.relative_to(root);
            push_spelled(&mut s, &rel);
            s.append(": ");
            match &f.io {
                Some(io) => s.append(io.as_str()),
                None => s.append(f.whole.as_str()),
            }
            s
        },
        None => {
            let mut s = String::from_str("scan error: ");
            s.append(f.whole.as_str());
            s
        },
    }
}

fn is_lockfile(at: &Sighting) -> (r: bool)
    ensures
        r == is_lock(at@),
{
    if at.depth != 1 {
        return false;
    }
    let name = name_bytes(&at.path);
    bytes_same(name.as_slice(), LOCK_FILE.as_bytes())
}

/// What a walk's sights come to, and how many strays were swept.
fn walk(root: &FsPath, sights: &Vec<Sight>) -> (r: (ScanOutcome, usize))
    ensures
        r.0@ == scanned(root@, sights_view(sights@)),
        r.1 == swept(sights_view(sights@)).len(),
{
    let ghost w = sights_view(sights@);
    let mut entries: Vec<Entry> = Vec::new();
    let mut errors: Vec<String> = Vec::new();
    let mut skipped_backup_dirs: Vec<FsPath> = Vec::new();
    let mut denied: Vec<FsPath> = Vec::new();
    let mut swept: usize = 0;
    let mut i: usize = 0;
    assert(values(entries@) =~= collect(0, entry_rule(root@, w)));
    assert(texts_view(errors@) =~= collect(0, error_rule(root@, w)));
    assert(named_view(skipped_backup_dirs@) =~= collect(0, skipped_rule(root@, w)));
    assert(named_view(denied@) =~= collect(0, denied_rule(root@, w)));
    while i < sights.len()
        invariant
            w == sights_view(sights@),
            0 <= i <= sights@.len(),
            values(entries@) == collect(i as int, entry_rule(root@, w)),
            texts_view(errors@) == collect(i as int, error_rule(root@, w)),
            named_view(skipped_backup_dirs@) == collect(i as int, skipped_rule(root@, w)),
            named_view(denied@) == collect(i as int, denied_rule(root@, w)),
            swept == collect(i as int, swept_rule(w)).len(),
            swept <= i,
        decreases sights@.len() - i,
    {
        assert(w[i as int] == sights@[i as int]@);
        match &sights[i] {
            Sight::Marked(p) => {
                add_path(&mut skipped_backup_dirs, p.relative_to(root));
            },
            Sight::Entry { at, elevated, removed } => {
                if scratch_path(&at.path) {
                    if at.kind == Kind::File && *removed {
                        swept = swept + 1;
                    }
                } else if *elevated || !is_lockfile(at) {
                    add_item(&mut entries, entry_from(root, at));
                }
            },
            Sight::Failed { failure, elevated } => {
                add_text(&mut errors, describe_walk_error(root, failure));
                if !*elevated && failure.permission {
                    if let Some(p) = &failure.path {
                        add_path(&mut denied, p.relative_to(root));
                    }
                }
            },
        }
        i = i + 1;
    }
    let sorted = sort_items(&entries);
    proof {
        let es = walked_entries(root@, w);
        assert(entries_view(entries@) =~= es);
        assert(entries_view(sorted@) =~= values(sorted@));
    }
    let manifest = Manifest::from_sorted(sorted);
    (ScanOutcome { manifest, errors, skipped_backup_dirs, denied }, swept)
}

/// The manifest of a tree from what a walk of it saw, sorted by relative path. What could not be
/// read and what was skipped is left out: use [`scan_with_errors`] where it matters.
pub fn scan(root: &FsPath, sights: &Vec<Sight>) -> (m: Manifest)
    ensures
        m@ == scanned(root@, sights_view(sights@)).manifest,
{
    scan_with_errors(root, sights).manifest
}

/// Like [`scan`], but also reports what was left out: what could not be read, and the backup
/// directories that were skipped.
pub fn scan_with_errors(root: &FsPath, sights: &Vec<Sight>) -> (r: ScanOutcome)
    ensures
        r@ == scanned(root@, sights_view(sights@)),
{
    walk(root, sights).0
}

/// Scans the destination, where the walk also swept the temp files that an interrupted run left
/// behind: the outcome, and how many were removed.
pub fn scan_destination(dst: &DstRoot, sights: &Vec<Sight>) -> (r: (ScanOutcome, usize))
    ensures
        r.0@ == scanned(dst@, sights_view(sights@)),
        r.1 == swept(sights_view(sights@)).len(),
{
    walk(dst.path(), sights)
}

// ── laws ─────────────────────────────────────────────────────────────────────

/// A sight that counts as content: an entry that is neither a temp file nor the running sync's lock.
pub open spec fn is_content(v: SightV) -> bool {
    v matches SightV::Entry { at, elevated, .. } && !is_scratch(at.path) && (elevated || !is_lock(at))
}

/// A manifest holds exactly what the walk met that counts as content: no temp file and no lock is
/// ever taken for content, and nothing that could be read is left out.
pub proof fn a_manifest_is_what_was_met(root: PathV, w: Seq<SightV>, e: EntryV)
    ensures
        scanned(root, w).manifest.contains(e) <==> exists|i: int|
            0 <= i < w.len() && is_content(#[trigger] w[i]) && e == entry_of(root, w[i]->at),
{
    let es = walked_entries(root, w);
    let rule = entry_rule(root, w);
    lemma_by_path_strict();
    lemma_sorted_contains(es, rels(es), by_path(), e);
    lemma_collect_contains(w.len() as int, rule, e);
    if exists|i: int| 0 <= i < w.len() && #[trigger] rule(i) == Some(e) {
        let i = choose|i: int| 0 <= i < w.len() && #[trigger] rule(i) == Some(e);
        assert(is_content(w[i]) && e == entry_of(root, w[i]->at));
    }
    if exists|i: int| 0 <= i < w.len() && is_content(#[trigger] w[i]) && e == entry_of(root, w[i]->at) {
        let i = choose|i: int|
            0 <= i < w.len() && is_content(#[trigger] w[i]) && e == entry_of(root, w[i]->at);
        assert(rule(i) == Some(e));
    }
}

/// A manifest is sorted by relative path.
pub proof fn a_manifest_is_in_path_order(root: PathV, w: Seq<SightV>, a: int, b: int)
    requires
        0 <= a < b < scanned(root, w).manifest.len(),
    ensures
        !path_lt(scanned(root, w).manifest[b].rel, scanned(root, w).manifest[a].rel),
{
    let es = walked_entries(root, w);
    lemma_by_path_strict();
    lemma_order(rels(es), by_path());
    lemma_sorted_in_order(es, rels(es), by_path(), a, b);
    lemma_order_in_range(order(rels(es), by_path()), es.len() as int);
    let o = order(rels(es), by_path());
    assert(scanned(root, w).manifest[a] == es[o[a]] && scanned(root, w).manifest[b] == es[o[b]]);
}

/// Only temp files of interrupted copies are ever swept.
pub proof fn only_temp_files_are_swept(w: Seq<SightV>, p: PathV)
    requires
        swept(w).contains(p),
    ensures
        is_scratch(p),
{
    lemma_collect_contains(w.len() as int, swept_rule(w), p);
}

/// Every failure of a walk is reported: where there is one, the scan is not silent.
pub proof fn every_failure_is_reported(root: PathV, w: Seq<SightV>, i: int)
    requires
        0 <= i < w.len(),
        w[i] is Failed,
    ensures
        scanned(root, w).errors.contains(failure_text(root, w[i]->failure)),
{
    let t = failure_text(root, w[i]->failure);
    assert(error_rule(root, w)(i) == Some(t));
    lemma_collect_contains(w.len() as int, error_rule(root, w), t);
}

/// Names of one file stay one file: two regular files that a walk met with the same device and inode,
/// where that has more than one name, get that device and inode as their link identity; a file with a
/// single name, and whatever is no regular file, gets none.
pub proof fn names_of_one_file_are_told_by_its_inode(root: PathV, a: SightingV, b: SightingV, m: Stat, n: Stat)
    requires
        a.kind == Kind::File,
        b.kind == Kind::File,
        a.stat == Some(m),
        b.stat == Some(n),
    ensures
        m.nlink >= 2 ==> entry_of(root, a).link_id == Some((m.dev, m.ino)),
        m.nlink < 2 ==> entry_of(root, a).link_id is None,
        m.nlink >= 2 && n.nlink >= 2 ==> (entry_of(root, a).link_id == entry_of(root, b).link_id <==> m.dev
            == n.dev && m.ino == n.ino),
        forall|c: SightingV| (#[trigger] entry_of(root, c)).link_id is Some ==> c.kind == Kind::File,
{
}

/// The names of one file that a walk met are told to belong together in the manifest.
pub proof fn a_manifest_keeps_the_names_of_a_file_together(
    root: PathV,
    w: Seq<SightV>,
    i: int,
    at: SightingV,
    m: Stat,
    elevated: bool,
    removed: bool,
)
    requires
        0 <= i < w.len(),
        w[i] == (SightV::Entry { at, elevated, removed }),
        at.kind == Kind::File,
        at.stat == Some(m),
        !begins_with(name_of(at.path), encode_utf8(TMP_PREFIX@)),
        at.depth != 1 || name_of(at.path) != encode_utf8(LOCK_FILE@),
    ensures
        exists|k: int|
            0 <= k < scanned(root, w).manifest.len() && {
                let e = #[trigger] scanned(root, w).manifest[k];
                &&& e.rel == relative_to(at.path, root)
                &&& e.kind == Kind::File
                &&& e.size == m.len
                &&& e.mtime == m.mtime
                &&& e.owner == Some((m.uid, m.gid))
                &&& e.mode == Some(m.mode)
                &&& m.nlink > 1 ==> e.link_id == Some((m.dev, m.ino))
                &&& m.nlink <= 1 ==> e.link_id is None
            },
{
    let e = entry_of(root, at);
    assert(is_content(w[i]) && e == entry_of(root, w[i]->at));
    a_manifest_is_what_was_met(root, w, e);
    let ms = scanned(root, w).manifest;
    let k = choose|k: int| 0 <= k < ms.len() && ms[k] == e;
    assert(ms[k] == e);
}

/// What a manifest holds of an entry is what the walk was told of it: its kind, the size of a file and
/// of nothing else, the target of a link and of nothing else, and its time, owner and mode.
pub proof fn an_entry_is_as_it_was_met(root: PathV, at: SightingV)
    ensures
        ({
            let e = entry_of(root, at);
            &&& e.kind == at.kind
            &&& e.rel == relative_to(at.path, root)
            &&& at.kind != Kind::File ==> e.size == 0 && e.link_id is None
            &&& at.kind != Kind::Symlink ==> e.link_target is None
            &&& at.kind == Kind::Symlink ==> e.link_target == at.link_target
            &&& at.stat matches Some(m) ==> {
                &&& at.kind == Kind::File ==> e.size == m.len
                &&& e.mtime == m.mtime
                &&& e.owner == Some((m.uid, m.gid))
                &&& e.mode == Some(m.mode)
            }
            &&& at.stat is None ==> e.size == 0 && e.mtime is None && e.owner is None && e.mode is None
                && e.link_id is None
        }),
{
}

/// An entry's place in the manifest, put below the root again, is where the walk met it.
pub proof fn a_place_below_the_root_leads_back(root: PathV, rel: PathV)
    requires
        root.len() > 0,
        rel.len() > 0 ==> rel[0] != crate::paths::cur_comp() && rel[0] != crate::paths::root_comp(),
    ensures
        relative_to(root + rel, root) == rel,
        joined(root, relative_to(root + rel, root)) == root + rel,
        below(root, SpelledV { path: root + rel, text: Seq::empty() }).path == rel,
{
    assert((root + rel).subrange(0, root.len() as int) =~= root);
    assert((root + rel).subrange(root.len() as int, (root + rel).len() as int) =~= rel);
}

/// Temp files and the running sync's lock are not content; the lock's name deeper in the tree is.
pub proof fn only_scratch_and_the_lock_are_left_out(at: SightingV, dir: PathV, name: Seq<u8>, elevated: bool, removed: bool)
    requires
        at.path == dir.push(name),
        crate::paths::is_name(name),
    ensures
        is_content(SightV::Entry { at, elevated, removed }) <==> !(encode_utf8(TMP_PREFIX@).len() <= name.len()
            && name.subrange(0, encode_utf8(TMP_PREFIX@).len() as int) == encode_utf8(TMP_PREFIX@)) && !(
        !elevated && at.depth == 1 && name == encode_utf8(LOCK_FILE@)),
{
    assert(dir.push(name).last() == name);
}

/// A failure is reported with its path below the root and the reason, and makes the place count as
/// denied exactly where it is one of permission that the user met.
pub proof fn a_failure_tells_where_and_why(root: PathV, w: Seq<SightV>, i: int, at: SpelledV, why: Seq<char>)
    requires
        0 <= i < w.len(),
        w[i] matches SightV::Failed { failure, .. } && failure.path == Some(at) && failure.io == Some(why),
    ensures
        scanned(root, w).errors.contains(
            "cannot read "@ + utf8_lossy(relative_text(at.path, at.text, root)) + ": "@ + why,
        ),
        w[i]->failure.permission && !w[i]->Failed_elevated ==> scanned(root, w).denied.contains(
            SpelledV { path: relative_to(at.path, root), text: relative_text(at.path, at.text, root) },
        ),
{
    every_failure_is_reported(root, w, i);
    let x = SpelledV { path: relative_to(at.path, root), text: relative_text(at.path, at.text, root) };
    if w[i]->failure.permission && !w[i]->Failed_elevated {
        assert(denied_rule(root, w)(i) == Some(x));
        lemma_collect_contains(w.len() as int, denied_rule(root, w), x);
    }
}

/// Only what want of permission closed to the user counts as denied.
pub proof fn only_walls_count_as_denied(root: PathV, w: Seq<SightV>, x: SpelledV)
    requires
        scanned(root, w).denied.contains(x),
    ensures
        exists|i: int|
            0 <= i < w.len() && (#[trigger] w[i] is Failed) && w[i]->failure.permission && !w[i]->Failed_elevated
                && (w[i]->failure.path matches Some(at) && relative_to(at.path, root) == x.path),
{
    lemma_collect_contains(w.len() as int, denied_rule(root, w), x);
    let i = choose|i: int| 0 <= i < w.len() && #[trigger] denied_rule(root, w)(i) == Some(x);
    assert(w[i] is Failed);
}

/// A scan is silent exactly where the walk met no failure, and no backup directory was skipped where
/// it met no marker.
pub proof fn a_silent_scan_met_no_failure(root: PathV, w: Seq<SightV>)
    ensures
        scanned(root, w).errors.len() == 0 <==> forall|i: int| 0 <= i < w.len() ==> !(#[trigger] w[i] is Failed),
        scanned(root, w).skipped_backup_dirs.len() == 0 <==> forall|i: int|
            0 <= i < w.len() ==> !(#[trigger] w[i] is Marked),
{
    let n = w.len() as int;
    let (f, g) = (error_rule(root, w), skipped_rule(root, w));
    let (es, sk) = (collect(n, f), collect(n, g));
    if es.len() > 0 {
        assert(es.contains(es[0]));
        lemma_collect_contains(n, f, es[0]);
        let i = choose|i: int| 0 <= i < n && #[trigger] f(i) == Some(es[0]);
        assert(w[i] is Failed);
    }
    if sk.len() > 0 {
        assert(sk.contains(sk[0]));
        lemma_collect_contains(n, g, sk[0]);
        let i = choose|i: int| 0 <= i < n && #[trigger] g(i) == Some(sk[0]);
        assert(w[i] is Marked);
    }
    if exists|i: int| 0 <= i < n && #[trigger] w[i] is Failed {
        let i = choose|i: int| 0 <= i < n && #[trigger] w[i] is Failed;
        every_failure_is_reported(root, w, i);
    }
    if exists|i: int| 0 <= i < n && #[trigger] w[i] is Marked {
        let i = choose|i: int| 0 <= i < n && #[trigger] w[i] is Marked;
        let x = below(root, w[i]->Marked_0);
        assert(g(i) == Some(x));
        lemma_collect_contains(n, g, x);
    }
}

/// What was swept are regular files with a temp file's name that the walk removed, and each of those
/// counts.
pub proof fn what_was_swept_was_removed(w: Seq<SightV>, p: PathV)
    ensures
        swept(w).contains(p) <==> exists|i: int|
            0 <= i < w.len() && (#[trigger] w[i] is Entry) && w[i]->at.path == p && w[i]->at.kind == Kind::File
                && w[i]->removed && begins_with(name_of(p), encode_utf8(TMP_PREFIX@)),
{
    let rule = swept_rule(w);
    lemma_collect_contains(w.len() as int, rule, p);
    if swept(w).contains(p) {
        let i = choose|i: int| 0 <= i < w.len() && #[trigger] rule(i) == Some(p);
        assert(w[i] is Entry);
    }
    if exists|i: int|
        0 <= i < w.len() && (#[trigger] w[i] is Entry) && w[i]->at.path == p && w[i]->at.kind == Kind::File
            && w[i]->removed && begins_with(name_of(p), encode_utf8(TMP_PREFIX@)) {
        let i = choose|i: int|
            0 <= i < w.len() && (#[trigger] w[i] is Entry) && w[i]->at.path == p && w[i]->at.kind == Kind::File
                && w[i]->removed && begins_with(name_of(p), encode_utf8(TMP_PREFIX@));
        assert(rule(i) == Some(p));
    }
}

/// Each backup directory that the walk skipped is listed with its place below the root, and nothing
/// else is.
pub proof fn a_skipped_backup_is_listed(root: PathV, w: Seq<SightV>, x: SpelledV)
    ensures
        scanned(root, w).skipped_backup_dirs.contains(x) <==> exists|i: int|
            0 <= i < w.len() && (#[trigger] w[i] is Marked) && relative_to(w[i]->Marked_0.path, root) == x.path
                && relative_text(w[i]->Marked_0.path, w[i]->Marked_0.text, root) == x.text,
{
    let rule = skipped_rule(root, w);
    lemma_collect_contains(w.len() as int, rule, x);
    if scanned(root, w).skipped_backup_dirs.contains(x) {
        let i = choose|i: int| 0 <= i < w.len() && #[trigger] rule(i) == Some(x);
        assert(w[i] is Marked);
    }
    if exists|i: int|
        0 <= i < w.len() && (#[trigger] w[i] is Marked) && relative_to(w[i]->Marked_0.path, root) == x.path
            && relative_text(w[i]->Marked_0.path, w[i]->Marked_0.text, root) == x.text {
        let i = choose|i: int|
            0 <= i < w.len() && (#[trigger] w[i] is Marked) && relative_to(w[i]->Marked_0.path, root) == x.path
                && relative_text(w[i]->Marked_0.path, w[i]->Marked_0.text, root) == x.text;
        assert(rule(i) == Some(x));
    }
}

/// A failure that names no place, or whose reason is not the system's, is told by the whole of what
/// the walk said.
pub proof fn an_unplaced_failure_is_told_whole(root: PathV, w: Seq<SightV>, i: int)
    requires
        0 <= i < w.len(),
        w[i] is Failed,
    ensures
        w[i]->failure.path is None ==> scanned(root, w).errors.contains("scan error: "@ + w[i]->failure.whole),
        w[i]->failure.io is None && w[i]->failure.path is Some ==> scanned(root, w).errors.contains(
            "cannot read "@ + utf8_lossy(
                relative_text(w[i]->failure.path->0.path, w[i]->failure.path->0.text, root),
            ) + ": "@ + w[i]->failure.whole,
        ),
{
    every_failure_is_reported(root, w, i);
}

/// A scan reports one error for each failure, and holds one entry for each sight of content.
pub proof fn a_scan_counts_what_was_met(root: PathV, w: Seq<SightV>)
    ensures
        scanned(root, w).errors.len() == total(
            w.len() as int,
            |i: int|
                if w[i] is Failed {
                    1int
                } else {
                    0
                },
        ),
        scanned(root, w).manifest.len() == total(
            w.len() as int,
            |i: int|
                if is_content(w[i]) {
                    1int
                } else {
                    0
                },
        ),
{
    let n = w.len() as int;
    let es = walked_entries(root, w);
    lemma_collected_count(
        n,
        error_rule(root, w),
        |i: int|
            if w[i] is Failed {
                1int
            } else {
                0
            },
    );
    lemma_collected_count(
        n,
        entry_rule(root, w),
        |i: int|
            if is_content(w[i]) {
                1int
            } else {
                0
            },
    );
    assert(scanned(root, w).manifest.len() == es.len());
}

/// One entry is spoken of in the singular, any other number in the plural.
pub proof fn a_rescan_is_told_in_words(dir: Seq<u8>, found: nat)
    ensures
        rescan_text(dir, 1) == "read directory (elevated): "@ + utf8_lossy(dir) + " — "@ + dec(1) + " entr"@ + "y"@
            + " merged into the scan"@,
        found != 1 ==> rescan_text(dir, found) == "read directory (elevated): "@ + utf8_lossy(dir) + " — "@ + dec(found)
            + " entr"@ + "ies"@ + " merged into the scan"@,
{
}

} // verus!
