//! Diagnostics for a comparison: distil a large classification into the few conclusions a human
//! should actually look at, loudest where data could be lost.
//!
//! The motivating danger: a mirror deletes whatever the source no longer has, so a folder that
//! vanished from the source by accident quietly takes its only surviving copy with it. Everything
//! is computed from the two manifests and the [`Diff`], without reading anything again.
use std::collections::HashSet;
use vstd::prelude::*;
use vstd::utf8::encode_utf8;

use crate::collect::{collect, lemma_collect_contains};
use crate::diff::{Change, ChangeV, Diff, DiffV, MoveV};
use crate::manifest::{Entry, EntryV, Kind, Manifest, entries_view, rels};
use crate::order::{Item, PathIndex, PathList, add_item, as_ints, copy_items, last_at, lemma_last_at, sorted_with, values};
use crate::paths::{DOT, FsPath, PathV, add_path, bytes_same, file_name_of, is_absolute, paths_view, starts_with};
use crate::tally::{bulk, by_amount_and_name, by_amount_and_path, firsts, group, ints, keep_top, key_of, lemma_firsts, lemma_key_of, lemma_share_bound, lemma_total_bound, lemma_total_ext, lemma_total_grows, magnitude, share_of, share_rule, shares, sort_by_amount_and_name, sort_by_amount_and_path, text_key, top, total};
use crate::text::{add_text, lowercase, text_of_bytes, texts_view, to_lower, utf8_lossy};

verus! {

/// How many rows a bounded list shows before it summarizes the rest.
pub const TOP_N: usize = 20;

/// A deleted destination subtree: a directory absent from the source, with everything under it.
#[derive(Debug, PartialEq, Eq)]
pub struct Subtree {
    pub root: FsPath,
    pub files: u64,
    pub bytes: u64,
}

/// The value of a [`Subtree`].
pub struct SubtreeV {
    pub root: PathV,
    /// How the root is spelled.
    pub text: Seq<u8>,
    pub files: int,
    pub bytes: int,
}

impl Item for Subtree {
    type Value = SubtreeV;

    open spec fn value(&self) -> SubtreeV {
        SubtreeV {
            root: self.root@,
            text: self.root.spelled(),
            files: self.files as int,
            bytes: self.bytes as int,
        }
    }

    fn dup(&self) -> (r: Subtree) {
        self.clone()
    }
}

impl Clone for Subtree {
    fn clone(&self) -> (r: Subtree)
        ensures
            r.value() == self.value(),
    {
        Subtree { root: self.root.clone(), files: self.files, bytes: self.bytes }
    }
}

impl PathList for Vec<Subtree> {
    open spec fn paths(&self) -> Seq<PathV> {
        Seq::new(self@.len(), |i: int| self@[i].root@)
    }

    fn count(&self) -> (n: usize) {
        self.len()
    }

    fn path_at(&self, i: usize) -> (p: &FsPath) {
        &self[i].root
    }
}

/// A file with its size.
#[derive(Debug, PartialEq, Eq)]
pub struct FileEntry {
    pub rel: FsPath,
    pub bytes: u64,
}

/// The value of a [`FileEntry`].
pub struct FileV {
    pub rel: PathV,
    /// How the path is spelled.
    pub text: Seq<u8>,
    pub bytes: int,
}

impl Item for FileEntry {
    type Value = FileV;

    open spec fn value(&self) -> FileV {
        FileV { rel: self.rel@, text: self.rel.spelled(), bytes: self.bytes as int }
    }

    fn dup(&self) -> (r: FileEntry) {
        self.clone()
    }
}

impl Clone for FileEntry {
    fn clone(&self) -> (r: FileEntry)
        ensures
            r.value() == self.value(),
    {
        FileEntry { rel: self.rel.clone(), bytes: self.bytes }
    }
}

impl PathList for Vec<FileEntry> {
    open spec fn paths(&self) -> Seq<PathV> {
        Seq::new(self@.len(), |i: int| self@[i].rel@)
    }

    fn count(&self) -> (n: usize) {
        self.len()
    }

    fn path_at(&self, i: usize) -> (p: &FsPath) {
        &self[i].rel
    }
}

/// One top-level folder's share of the change. Files only: directories are covered by [`Subtree`].
#[derive(Debug, PartialEq, Eq)]
pub struct FolderDelta {
    pub folder: String,
    pub added: usize,
    pub removed: usize,
    pub changed: usize,
    pub moved_in: usize,
    pub net_files: i64,
    pub net_bytes: i64,
}

/// The value of a [`FolderDelta`], and of what a single change adds to one.
pub struct FolderV {
    pub folder: Seq<char>,
    pub added: int,
    pub removed: int,
    pub changed: int,
    pub moved_in: int,
    pub net_files: int,
    pub net_bytes: int,
}

impl Item for FolderDelta {
    type Value = FolderV;

    open spec fn value(&self) -> FolderV {
        FolderV {
            folder: self.folder@,
            added: self.added as int,
            removed: self.removed as int,
            changed: self.changed as int,
            moved_in: self.moved_in as int,
            net_files: self.net_files as int,
            net_bytes: self.net_bytes as int,
        }
    }

    fn dup(&self) -> (r: FolderDelta) {
        self.clone()
    }
}

impl Clone for FolderDelta {
    fn clone(&self) -> (r: FolderDelta)
        ensures
            r.value() == self.value(),
    {
        FolderDelta {
            folder: self.folder.clone(),
            added: self.added,
            removed: self.removed,
            changed: self.changed,
            moved_in: self.moved_in,
            net_files: self.net_files,
            net_bytes: self.net_bytes,
        }
    }
}

/// A junk or system path's presence on each side of the job.
#[derive(Debug, PartialEq, Eq)]
pub struct JunkTally {
    pub pattern: String,
    pub deleting_from_dest: u64,
    pub copying_from_source: u64,
}

/// The value of a [`JunkTally`].
pub struct JunkV {
    pub pattern: Seq<char>,
    pub deleting_from_dest: int,
    pub copying_from_source: int,
}

impl Item for JunkTally {
    type Value = JunkV;

    open spec fn value(&self) -> JunkV {
        JunkV {
            pattern: self.pattern@,
            deleting_from_dest: self.deleting_from_dest as int,
            copying_from_source: self.copying_from_source as int,
        }
    }

    fn dup(&self) -> (r: JunkTally) {
        self.clone()
    }
}

impl Clone for JunkTally {
    fn clone(&self) -> (r: JunkTally)
        ensures
            r.value() == self.value(),
    {
        JunkTally {
            pattern: self.pattern.clone(),
            deleting_from_dest: self.deleting_from_dest,
            copying_from_source: self.copying_from_source,
        }
    }
}

impl Item for (String, u64) {
    type Value = (Seq<char>, int);

    open spec fn value(&self) -> (Seq<char>, int) {
        (self.0@, self.1 as int)
    }

    fn dup(&self) -> (r: (String, u64)) {
        (self.0.clone(), self.1)
    }
}

/// The distilled conclusions.
#[derive(Debug)]
pub struct Conclusions {
    pub deleted_files: u64,
    pub deleted_bytes: u64,
    pub dest_files: u64,
    pub dest_bytes: u64,
    /// Whole destination directories absent from the source, largest first.
    pub deleted_subtrees: Vec<Subtree>,
    /// Deletions whose name appears nowhere in the source, largest first: this content simply goes
    /// away.
    pub orphan_deletes: Vec<FileEntry>,
    pub orphan_bytes: u64,
    /// Of those, how many also have no file of the same size anywhere in the source.
    pub orphan_unique_size: u64,
    pub added: usize,
    pub added_bytes: u64,
    pub moved: usize,
    pub changed: usize,
    pub refreshed: usize,
    pub linked: usize,
    pub unchanged: usize,
    /// Empty files among the additions and the deletions.
    pub empty_adds: u64,
    pub empty_removes: u64,
    /// Per top-level folder, biggest byte losses first.
    pub folders: Vec<FolderDelta>,
    /// Junk and system paths in the job.
    pub junk: Vec<JunkTally>,
    pub largest_adds: Vec<FileEntry>,
    pub largest_deletes: Vec<FileEntry>,
    /// Deleted-file extensions by count, most first.
    pub delete_ext_histogram: Vec<(String, u64)>,
}

/// The value of [`Conclusions`].
pub struct ConclusionsV {
    pub deleted_files: int,
    pub deleted_bytes: int,
    pub dest_files: int,
    pub dest_bytes: int,
    pub deleted_subtrees: Seq<SubtreeV>,
    pub orphan_deletes: Seq<FileV>,
    pub orphan_bytes: int,
    pub orphan_unique_size: int,
    pub added: int,
    pub added_bytes: int,
    pub moved: int,
    pub changed: int,
    pub refreshed: int,
    pub linked: int,
    pub unchanged: int,
    pub empty_adds: int,
    pub empty_removes: int,
    pub folders: Seq<FolderV>,
    pub junk: Seq<JunkV>,
    pub largest_adds: Seq<FileV>,
    pub largest_deletes: Seq<FileV>,
    pub delete_ext_histogram: Seq<(Seq<char>, int)>,
}

impl View for Conclusions {
    type V = ConclusionsV;

    open spec fn view(&self) -> ConclusionsV {
        ConclusionsV {
            deleted_files: self.deleted_files as int,
            deleted_bytes: self.deleted_bytes as int,
            dest_files: self.dest_files as int,
            dest_bytes: self.dest_bytes as int,
            deleted_subtrees: values(self.deleted_subtrees@),
            orphan_deletes: values(self.orphan_deletes@),
            orphan_bytes: self.orphan_bytes as int,
            orphan_unique_size: self.orphan_unique_size as int,
            added: self.added as int,
            added_bytes: self.added_bytes as int,
            moved: self.moved as int,
            changed: self.changed as int,
            refreshed: self.refreshed as int,
            linked: self.linked as int,
            unchanged: self.unchanged as int,
            empty_adds: self.empty_adds as int,
            empty_removes: self.empty_removes as int,
            folders: values(self.folders@),
            junk: values(self.junk@),
            largest_adds: values(self.largest_adds@),
            largest_deletes: values(self.largest_deletes@),
            delete_ext_histogram: values(self.delete_ext_histogram@),
        }
    }
}

impl Clone for Conclusions {
    fn clone(&self) -> (r: Self)
        ensures
            r@ == self@,
    {
        Conclusions {
            deleted_files: self.deleted_files,
            deleted_bytes: self.deleted_bytes,
            dest_files: self.dest_files,
            dest_bytes: self.dest_bytes,
            deleted_subtrees: copy_items(&self.deleted_subtrees),
            orphan_deletes: copy_items(&self.orphan_deletes),
            orphan_bytes: self.orphan_bytes,
            orphan_unique_size: self.orphan_unique_size,
            added: self.added,
            added_bytes: self.added_bytes,
            moved: self.moved,
            changed: self.changed,
            refreshed: self.refreshed,
            linked: self.linked,
            unchanged: self.unchanged,
            empty_adds: self.empty_adds,
            empty_removes: self.empty_removes,
            folders: copy_items(&self.folders),
            junk: copy_items(&self.junk),
            largest_adds: copy_items(&self.largest_adds),
            largest_deletes: copy_items(&self.largest_deletes),
            delete_ext_histogram: copy_items(&self.delete_ext_histogram),
        }
    }
}

impl Default for Conclusions {
    fn default() -> (r: Self)
        ensures
            r@ == (ConclusionsV {
                deleted_files: 0,
                deleted_bytes: 0,
                dest_files: 0,
                dest_bytes: 0,
                deleted_subtrees: Seq::empty(),
                orphan_deletes: Seq::empty(),
                orphan_bytes: 0,
                orphan_unique_size: 0,
                added: 0,
                added_bytes: 0,
                moved: 0,
                changed: 0,
                refreshed: 0,
                linked: 0,
                unchanged: 0,
                empty_adds: 0,
                empty_removes: 0,
                folders: Seq::empty(),
                junk: Seq::empty(),
                largest_adds: Seq::empty(),
                largest_deletes: Seq::empty(),
                delete_ext_histogram: Seq::empty(),
            }),
    {
        let r = Conclusions {
            deleted_files: 0,
            deleted_bytes: 0,
            dest_files: 0,
            dest_bytes: 0,
            deleted_subtrees: Vec::new(),
            orphan_deletes: Vec::new(),
            orphan_bytes: 0,
            orphan_unique_size: 0,
            added: 0,
            added_bytes: 0,
            moved: 0,
            changed: 0,
            refreshed: 0,
            linked: 0,
            unchanged: 0,
            empty_adds: 0,
            empty_removes: 0,
            folders: Vec::new(),
            junk: Vec::new(),
            largest_adds: Vec::new(),
            largest_deletes: Vec::new(),
            delete_ext_histogram: Vec::new(),
        };
        proof {
            assert(values(r.deleted_subtrees@) =~= Seq::empty());
            assert(values(r.orphan_deletes@) =~= Seq::empty());
            assert(values(r.folders@) =~= Seq::empty());
            assert(values(r.junk@) =~= Seq::empty());
            assert(values(r.largest_adds@) =~= Seq::empty());
            assert(values(r.largest_deletes@) =~= Seq::empty());
            assert(values(r.delete_ext_histogram@) =~= Seq::empty());
        }
        r
    }
}

// ── sizes ────────────────────────────────────────────────────────────────────

pub open spec fn file_rule(es: Seq<EntryV>) -> spec_fn(int) -> Option<EntryV> {
    |i: int|
        if es[i].kind == Kind::File {
            Some(es[i])
        } else {
            None
        }
}

/// The files of a tree.
pub open spec fn files_of(es: Seq<EntryV>) -> Seq<EntryV> {
    collect(es.len() as int, file_rule(es))
}

/// The size of the file at `p`, where there is one.
pub open spec fn file_size(es: Seq<EntryV>, p: PathV) -> Option<int> {
    match last_at(rels(files_of(es)), p) {
        Some(i) => Some(files_of(es)[i].size as int),
        None => None,
    }
}

pub open spec fn size_or_zero(es: Seq<EntryV>, p: PathV) -> int {
    match file_size(es, p) {
        Some(n) => n,
        None => 0,
    }
}

/// The `i`-th file is the one that its path stands for.
pub open spec fn counts(fs: Seq<EntryV>, i: int) -> bool {
    last_at(rels(fs), fs[i].rel) == Some(i)
}

pub open spec fn counted_rule(fs: Seq<EntryV>) -> spec_fn(int) -> Option<int> {
    |i: int|
        if counts(fs, i) {
            Some(fs[i].size as int)
        } else {
            None
        }
}

/// The sizes of the files of a tree.
pub open spec fn file_sizes(es: Seq<EntryV>) -> Seq<int> {
    collect(files_of(es).len() as int, counted_rule(files_of(es)))
}

/// The sum of a list of sizes.
pub open spec fn sum_of(v: Seq<int>) -> int {
    total(v.len() as int, |i: int| v[i])
}

/// What the sizes of some files come to.
pub open spec fn bytes_of(fs: Seq<FileV>) -> int {
    total(fs.len() as int, bytes_rule(fs))
}

pub open spec fn bytes_rule(fs: Seq<FileV>) -> spec_fn(int) -> int {
    |i: int| fs[i].bytes
}

// ── additions and deletions ──────────────────────────────────────────────────

pub open spec fn sized_rule(cs: Seq<ChangeV>, es: Seq<EntryV>) -> spec_fn(int) -> Option<FileV> {
    |i: int|
        if cs[i].kind == Kind::File {
            Some(FileV { rel: cs[i].rel, text: cs[i].text, bytes: size_or_zero(es, cs[i].rel) })
        } else {
            None
        }
}

/// The files among some changes, with the sizes that `es` gives them.
pub open spec fn sized_files(cs: Seq<ChangeV>, es: Seq<EntryV>) -> Seq<FileV> {
    collect(cs.len() as int, sized_rule(cs, es))
}

/// What the additions come to, where the source has a size for them.
pub open spec fn added_total(cs: Seq<ChangeV>, es: Seq<EntryV>) -> int {
    total(cs.len() as int, added_rule(cs, es))
}

pub open spec fn added_rule(cs: Seq<ChangeV>, es: Seq<EntryV>) -> spec_fn(int) -> int {
    |i: int| size_or_zero(es, cs[i].rel)
}

pub open spec fn empty_rule(fs: Seq<FileV>) -> spec_fn(int) -> Option<FileV> {
    |i: int|
        if fs[i].bytes == 0 {
            Some(fs[i])
        } else {
            None
        }
}

/// How many of some files are empty.
pub open spec fn empties(fs: Seq<FileV>) -> int {
    collect(fs.len() as int, empty_rule(fs)).len() as int
}

/// `a` is an ancestor of `p`.
pub open spec fn above(a: PathV, p: PathV) -> bool {
    a.len() < p.len() && starts_with(p, a) && (is_absolute(p) ==> a.len() > 0)
}

/// The directory lies below another deleted directory.
pub open spec fn nested(removed: Seq<ChangeV>, p: PathV) -> bool {
    exists|j: int|
        0 <= j < removed.len() && (#[trigger] removed[j]).kind == Kind::Dir && above(removed[j].rel, p)
}

pub open spec fn under_rule(fs: Seq<FileV>, dir: PathV) -> spec_fn(int) -> Option<FileV> {
    |i: int|
        if starts_with(fs[i].rel, dir) {
            Some(fs[i])
        } else {
            None
        }
}

/// The files at or below a directory.
pub open spec fn files_under(fs: Seq<FileV>, dir: PathV) -> Seq<FileV> {
    collect(fs.len() as int, under_rule(fs, dir))
}

pub open spec fn subtree_rule(removed: Seq<ChangeV>, fs: Seq<FileV>) -> spec_fn(int) -> Option<SubtreeV> {
    |i: int|
        if removed[i].kind == Kind::Dir && !nested(removed, removed[i].rel) {
            Some(
                SubtreeV {
                    root: removed[i].rel,
                    text: removed[i].text,
                    files: files_under(fs, removed[i].rel).len() as int,
                    bytes: bytes_of(files_under(fs, removed[i].rel)),
                },
            )
        } else {
            None
        }
}

/// The topmost deleted directories, in the order of the deletions.
pub open spec fn subtrees(removed: Seq<ChangeV>, fs: Seq<FileV>) -> Seq<SubtreeV> {
    collect(removed.len() as int, subtree_rule(removed, fs))
}

/// Largest first, and the same sizes by path.
pub open spec fn largest_first(fs: Seq<FileV>) -> Seq<FileV> {
    sorted_with(fs, Seq::new(fs.len(), |i: int| (-fs[i].bytes, fs[i].rel)), by_amount_and_path())
}

/// Largest first, and the same sizes by path.
pub open spec fn largest_subtrees(ts: Seq<SubtreeV>) -> Seq<SubtreeV> {
    sorted_with(ts, Seq::new(ts.len(), |i: int| (-ts[i].bytes, ts[i].root)), by_amount_and_path())
}

// ── names ────────────────────────────────────────────────────────────────────

/// The file name in lower case.
pub open spec fn lower_name(p: PathV) -> Seq<char> {
    match file_name_of(p) {
        Some(n) => lowercase(utf8_lossy(n)),
        None => Seq::empty(),
    }
}

/// The source has an entry with this name, letter case aside.
pub open spec fn name_in(es: Seq<EntryV>, p: PathV) -> bool {
    exists|i: int| 0 <= i < es.len() && lower_name((#[trigger] es[i]).rel) == lower_name(p)
}

pub open spec fn orphan_rule(fs: Seq<FileV>, src: Seq<EntryV>) -> spec_fn(int) -> Option<FileV> {
    |i: int|
        if name_in(src, fs[i].rel) {
            None
        } else {
            Some(fs[i])
        }
}

/// The deletions whose name appears nowhere in the source.
pub open spec fn orphans(fs: Seq<FileV>, src: Seq<EntryV>) -> Seq<FileV> {
    collect(fs.len() as int, orphan_rule(fs, src))
}

pub open spec fn unique_rule(fs: Seq<FileV>, src: Seq<EntryV>) -> spec_fn(int) -> Option<FileV> {
    |i: int|
        if file_sizes(src).contains(fs[i].bytes) {
            None
        } else {
            Some(fs[i])
        }
}

/// The first component of a path below some folder; one bucket for what lies directly at the root.
pub open spec fn top_folder(p: PathV) -> Seq<char> {
    if p.len() >= 2 {
        utf8_lossy(p[0])
    } else {
        "(top-level files)"@
    }
}

/// The names that are pure noise.
pub open spec fn junk_names() -> Seq<Seq<char>> {
    seq![
        "$RECYCLE.BIN"@,
        "System Volume Information"@,
        ".DS_Store"@,
        "@eaDir"@,
        "lost+found"@,
        ".Spotlight-V100"@,
        ".fseventsd"@,
        ".TemporaryItems"@,
    ]
}

/// The junk pattern that a component matches, if any: a trash folder, or one of the names.
pub open spec fn junk_component(c: Seq<u8>) -> Option<Seq<char>> {
    if c == encode_utf8(".Trash"@) || crate::scan::begins_with(c, encode_utf8(".Trash-"@)) {
        Some(".Trash*"@)
    } else {
        junk_from(c, 0)
    }
}

/// The first junk name from the `k`-th on that the component is.
pub open spec fn junk_from(c: Seq<u8>, k: int) -> Option<Seq<char>>
    decreases junk_names().len() - k,
{
    if k < 0 || k >= junk_names().len() {
        None
    } else if c == encode_utf8(junk_names()[k]) {
        Some(junk_names()[k])
    } else {
        junk_from(c, k + 1)
    }
}

/// The junk pattern that the first matching component of a path matches, if any.
pub open spec fn junk_pattern_of(p: PathV) -> Option<Seq<char>>
    decreases p.len(),
{
    if p.len() == 0 {
        None
    } else {
        match junk_component(p[0]) {
            Some(t) => Some(t),
            None => junk_pattern_of(p.subrange(1, p.len() as int)),
        }
    }
}

/// The position of the last dot of a name, from `k` down.
pub open spec fn last_dot(name: Seq<u8>, k: int) -> Option<int>
    decreases k,
{
    if k <= 0 {
        None
    } else if name[k - 1] == DOT {
        Some(k - 1)
    } else {
        last_dot(name, k - 1)
    }
}

/// What follows the last dot of a file name; a name that only begins with a dot has none.
pub open spec fn extension_of(p: PathV) -> Option<Seq<u8>> {
    match file_name_of(p) {
        Some(n) => match last_dot(n, n.len() as int) {
            Some(k) => if k > 0 {
                Some(n.subrange(k + 1, n.len() as int))
            } else {
                None
            },
            None => None,
        },
        None => None,
    }
}

/// The extension in lower case, with its dot.
pub open spec fn extension_text(p: PathV) -> Seq<char> {
    match extension_of(p) {
        Some(e) => "."@ + lowercase(utf8_lossy(e)),
        None => "(none)"@,
    }
}

// ── by folder ────────────────────────────────────────────────────────────────

pub open spec fn added_share(f: FileV) -> FolderV {
    FolderV {
        folder: top_folder(f.rel),
        added: 1,
        removed: 0,
        changed: 0,
        moved_in: 0,
        net_files: 1,
        net_bytes: f.bytes,
    }
}

pub open spec fn removed_share(f: FileV) -> FolderV {
    FolderV {
        folder: top_folder(f.rel),
        added: 0,
        removed: 1,
        changed: 0,
        moved_in: 0,
        net_files: -1,
        net_bytes: -f.bytes,
    }
}

/// An update in place only shifts bytes, not the number of files.
pub open spec fn changed_share(rel: PathV, before: int, after: int) -> FolderV {
    FolderV {
        folder: top_folder(rel),
        added: 0,
        removed: 0,
        changed: 1,
        moved_in: 0,
        net_files: 0,
        net_bytes: after - before,
    }
}

pub open spec fn moved_in_share(to: PathV, bytes: int) -> FolderV {
    FolderV {
        folder: top_folder(to),
        added: 0,
        removed: 0,
        changed: 0,
        moved_in: 1,
        net_files: 1,
        net_bytes: bytes,
    }
}

/// A move within a folder comes to nothing; a move between folders shows as a shift.
pub open spec fn moved_out_share(from: PathV, bytes: int) -> FolderV {
    FolderV {
        folder: top_folder(from),
        added: 0,
        removed: 0,
        changed: 0,
        moved_in: 0,
        net_files: -1,
        net_bytes: -bytes,
    }
}

pub open spec fn changed_rule(cs: Seq<ChangeV>, s: Seq<EntryV>, t: Seq<EntryV>) -> spec_fn(int) -> Option<FolderV> {
    |i: int|
        if cs[i].kind == Kind::File {
            Some(changed_share(cs[i].rel, size_or_zero(t, cs[i].rel), size_or_zero(s, cs[i].rel)))
        } else {
            None
        }
}

pub open spec fn added_shares(fs: Seq<FileV>) -> Seq<FolderV> {
    Seq::new(fs.len(), |i: int| added_share(fs[i]))
}

pub open spec fn removed_shares(fs: Seq<FileV>) -> Seq<FolderV> {
    Seq::new(fs.len(), |i: int| removed_share(fs[i]))
}

/// Each move, where it leads to and where it comes from.
pub open spec fn moved_shares(ms: Seq<MoveV>, s: Seq<EntryV>) -> Seq<FolderV> {
    Seq::new(
        2 * ms.len(),
        |i: int|
            if i % 2 == 0 {
                moved_in_share(ms[i / 2].to, size_or_zero(s, ms[i / 2].to))
            } else {
                moved_out_share(ms[i / 2].from, size_or_zero(s, ms[i / 2].to))
            },
    )
}

/// What each change adds to the top-level folders.
pub open spec fn folder_shares(d: DiffV, s: Seq<EntryV>, t: Seq<EntryV>) -> Seq<FolderV> {
    added_shares(sized_files(d.added, s)) + removed_shares(sized_files(d.removed, t)) + collect(
        d.changed.len() as int,
        changed_rule(d.changed, s, t),
    ) + moved_shares(d.moved, s)
}

pub open spec fn folder_names(v: Seq<FolderV>) -> Seq<Seq<char>> {
    Seq::new(v.len(), |i: int| v[i].folder)
}

pub open spec fn added_column(v: Seq<FolderV>) -> Seq<int> {
    Seq::new(v.len(), |i: int| v[i].added)
}

pub open spec fn removed_column(v: Seq<FolderV>) -> Seq<int> {
    Seq::new(v.len(), |i: int| v[i].removed)
}

pub open spec fn changed_column(v: Seq<FolderV>) -> Seq<int> {
    Seq::new(v.len(), |i: int| v[i].changed)
}

pub open spec fn moved_in_column(v: Seq<FolderV>) -> Seq<int> {
    Seq::new(v.len(), |i: int| v[i].moved_in)
}

pub open spec fn net_files_column(v: Seq<FolderV>) -> Seq<int> {
    Seq::new(v.len(), |i: int| v[i].net_files)
}

pub open spec fn net_bytes_column(v: Seq<FolderV>) -> Seq<int> {
    Seq::new(v.len(), |i: int| v[i].net_bytes)
}

/// What the shares of one folder come to.
pub open spec fn folder_row(v: Seq<FolderV>, folder: Seq<char>) -> FolderV {
    let names = folder_names(v);
    FolderV {
        folder,
        added: share_of(names, added_column(v), folder),
        removed: share_of(names, removed_column(v), folder),
        changed: share_of(names, changed_column(v), folder),
        moved_in: share_of(names, moved_in_column(v), folder),
        net_files: share_of(names, net_files_column(v), folder),
        net_bytes: share_of(names, net_bytes_column(v), folder),
    }
}

/// One row for each folder.
pub open spec fn folder_rows(v: Seq<FolderV>) -> Seq<FolderV> {
    let at = firsts(folder_names(v));
    Seq::new(at.len(), |k: int| folder_row(v, v[at[k]].folder))
}

/// Biggest byte losses first, and the same by name.
pub open spec fn biggest_losses_first(rows: Seq<FolderV>) -> Seq<FolderV> {
    sorted_with(
        rows,
        Seq::new(rows.len(), |i: int| (rows[i].net_bytes, encode_utf8(rows[i].folder))),
        by_amount_and_name(),
    )
}

// ── junk and extensions ──────────────────────────────────────────────────────

pub open spec fn junk_rule(cs: Seq<ChangeV>) -> spec_fn(int) -> Option<Seq<char>> {
    |i: int| junk_pattern_of(cs[i].rel)
}

/// The junk patterns that some changes match.
pub open spec fn junk_in(cs: Seq<ChangeV>) -> Seq<Seq<char>> {
    collect(cs.len() as int, junk_rule(cs))
}

/// One for each of the first `a` positions, then `b` times nothing.
pub open spec fn ones_then_zeros(a: nat, b: nat) -> Seq<int> {
    Seq::new(
        a + b,
        |i: int|
            if i < a {
                1int
            } else {
                0int
            },
    )
}

/// Nothing for each of the first `a` positions, then `b` times one.
pub open spec fn zeros_then_ones(a: nat, b: nat) -> Seq<int> {
    Seq::new(
        a + b,
        |i: int|
            if i < a {
                0int
            } else {
                1int
            },
    )
}

/// One row for each junk pattern, from the deletions' and the additions' patterns.
pub open spec fn junk_rows(del: Seq<Seq<char>>, cp: Seq<Seq<char>>) -> Seq<JunkV> {
    let all = del + cp;
    let at = firsts(all);
    Seq::new(
        at.len(),
        |k: int|
            JunkV {
                pattern: all[at[k]],
                deleting_from_dest: share_of(all, ones_then_zeros(del.len(), cp.len()), all[at[k]]),
                copying_from_source: share_of(all, zeros_then_ones(del.len(), cp.len()), all[at[k]]),
            },
    )
}

/// Most frequent first, and the same by name.
pub open spec fn most_junk_first(rows: Seq<JunkV>) -> Seq<JunkV> {
    sorted_with(
        rows,
        Seq::new(
            rows.len(),
            |i: int|
                (-(rows[i].deleting_from_dest + rows[i].copying_from_source), encode_utf8(rows[i].pattern)),
        ),
        by_amount_and_name(),
    )
}

pub open spec fn extensions_of(fs: Seq<FileV>) -> Seq<Seq<char>> {
    Seq::new(fs.len(), |i: int| extension_text(fs[i].rel))
}

/// How often each text occurs.
pub open spec fn histogram(texts: Seq<Seq<char>>) -> Seq<(Seq<char>, int)> {
    let at = firsts(texts);
    Seq::new(
        at.len(),
        |k: int| (texts[at[k]], share_of(texts, ones_then_zeros(texts.len(), 0), texts[at[k]])),
    )
}

/// Most frequent first, and the same by name.
pub open spec fn most_first(rows: Seq<(Seq<char>, int)>) -> Seq<(Seq<char>, int)> {
    sorted_with(
        rows,
        Seq::new(rows.len(), |i: int| (-rows[i].1, encode_utf8(rows[i].0))),
        by_amount_and_name(),
    )
}

// ── the conclusions ──────────────────────────────────────────────────────────

/// The conclusions from a classified difference and the two trees it came from.
pub open spec fn concluded(d: DiffV, s: Seq<EntryV>, t: Seq<EntryV>) -> ConclusionsV {
    let adds = sized_files(d.added, s);
    let dels = sized_files(d.removed, t);
    let lost = orphans(dels, s);
    ConclusionsV {
        deleted_files: dels.len() as int,
        deleted_bytes: bytes_of(dels),
        dest_files: file_sizes(t).len() as int,
        dest_bytes: sum_of(file_sizes(t)),
        deleted_subtrees: largest_subtrees(subtrees(d.removed, dels)),
        orphan_deletes: largest_first(lost),
        orphan_bytes: bytes_of(lost),
        orphan_unique_size: collect(lost.len() as int, unique_rule(lost, s)).len() as int,
        added: d.added.len() as int,
        added_bytes: added_total(d.added, s),
        moved: d.moved.len() as int,
        changed: d.changed.len() as int,
        refreshed: d.touched.len() as int,
        linked: d.to_link.len() as int,
        unchanged: d.unchanged,
        empty_adds: empties(adds),
        empty_removes: empties(dels),
        folders: biggest_losses_first(folder_rows(folder_shares(d, s, t))),
        junk: most_junk_first(junk_rows(junk_in(d.removed), junk_in(d.added))),
        largest_adds: top(largest_first(adds), TOP_N as int),
        largest_deletes: top(largest_first(dels), TOP_N as int),
        delete_ext_histogram: top(most_first(histogram(extensions_of(dels))), TOP_N as int),
    }
}

/// What each folder gains or loses in bytes can be held.
pub open spec fn rows_fit(v: Seq<FolderV>) -> bool {
    forall|k: int|
        0 <= k < folder_rows(v).len() ==> i64::MIN <= (#[trigger] folder_rows(v)[k]).net_bytes <= i64::MAX
}

/// The totals can be held: no count and no sum of sizes exceeds what a machine number holds.
pub open spec fn countable(d: DiffV, s: Seq<EntryV>, t: Seq<EntryV>) -> bool {
    let v = folder_shares(d, s, t);
    &&& v.len() <= i64::MAX
    &&& rows_fit(v)
    &&& bytes_of(sized_files(d.removed, t)) <= u64::MAX
    &&& added_total(d.added, s) <= u64::MAX
    &&& sum_of(file_sizes(t)) <= u64::MAX
}

// ── looking sizes up ─────────────────────────────────────────────────────────

/// The files of a tree, to be found by path.
struct Files<'a> {
    list: Vec<&'a Entry>,
}

impl<'a> PathList for Files<'a> {
    closed spec fn paths(&self) -> Seq<PathV> {
        Seq::new(self.list@.len(), |i: int| self.list@[i].rel@)
    }

    fn count(&self) -> (n: usize) {
        self.list.len()
    }

    fn path_at(&self, i: usize) -> (p: &FsPath) {
        &self.list[i].rel
    }
}

impl<'a> Files<'a> {
    spec fn entries(&self) -> Seq<EntryV> {
        Seq::new(self.list@.len(), |i: int| self.list@[i]@)
    }
}

fn files<'a>(m: &'a Manifest) -> (r: Files<'a>)
    ensures
        r.entries() == files_of(m@),
        r.paths() == rels(files_of(m@)),
{
    let entries = m.entries();
    let ghost es = m@;
    let mut list: Vec<&'a Entry> = Vec::new();
    let mut i: usize = 0;
    while i < entries.len()
        invariant
            es == entries_view(entries@),
            0 <= i <= entries@.len(),
            Seq::new(list@.len(), |k: int| list@[k]@) == collect(i as int, file_rule(es)),
        decreases entries@.len() - i,
    {
        assert(es[i as int] == entries@[i as int]@);
        if entries[i].kind == Kind::File {
            let ghost before = list@;
            list.push(&entries[i]);
            assert(Seq::new(list@.len(), |k: int| list@[k]@) =~= Seq::new(
                before.len(),
                |k: int| before[k]@,
            ).push(es[i as int]));
        }
        i = i + 1;
    }
    let r = Files { list };
    assert(r.paths() =~= rels(files_of(m@)));
    r
}

fn look_up(files: &Files, index: &PathIndex, p: &FsPath, Ghost(es): Ghost<Seq<EntryV>>) -> (r: u64)
    requires
        files.entries() == files_of(es),
        index.indexes(files.paths()),
    ensures
        r == size_or_zero(es, p@),
{
    assert(files.paths() =~= rels(files_of(es)));
    match index.find(files, p) {
        Some(i) => {
            proof {
                lemma_last_at(rels(files_of(es)), p@);
            }
            assert(files.entries()[i as int] == files.list@[i as int]@);
            files.list[i].size
        },
        None => 0,
    }
}

/// The sizes of the files of a tree, where their sum can be told.
fn sizes(files: &Files, index: &PathIndex, Ghost(es): Ghost<Seq<EntryV>>) -> (r: Vec<u64>)
    requires
        files.entries() == files_of(es),
        index.indexes(files.paths()),
    ensures
        Seq::new(r@.len(), |k: int| r@[k] as int) == file_sizes(es),
{
    let ghost fs = files_of(es);
    assert(files.paths() =~= rels(fs));
    let mut out: Vec<u64> = Vec::new();
    let n: usize = files.list.len();
    let mut i: usize = 0;
    while i < n
        invariant
            n == files.list@.len(),
            fs == files_of(es),
            files.entries() == fs,
            files.paths() == rels(fs),
            index.indexes(files.paths()),
            0 <= i <= n,
            Seq::new(out@.len(), |k: int| out@[k] as int) == collect(i as int, counted_rule(fs)),
        decreases n - i,
    {
        assert(fs[i as int] == files.list@[i as int]@);
        let at = index.find(files, &files.list[i].rel);
        let counted = match at {
            Some(k) => k == i,
            None => false,
        };
        if counted {
            let ghost before = out@;
            out.push(files.list[i].size);
            assert(Seq::new(out@.len(), |k: int| out@[k] as int) =~= Seq::new(
                before.len(),
                |k: int| before[k] as int,
            ).push(fs[i as int].size as int));
        }
        i = i + 1;
    }
    out
}

/// The sum of some sizes, where it can be held.
fn add_up(v: &Vec<u64>) -> (r: Option<u64>)
    ensures
        r is Some <==> sum_of(Seq::new(v@.len(), |k: int| v@[k] as int)) <= u64::MAX,
        r matches Some(n) ==> n == sum_of(Seq::new(v@.len(), |k: int| v@[k] as int)),
{
    let ghost vs = Seq::new(v@.len(), |k: int| v@[k] as int);
    let ghost f = |i: int| vs[i];
    let mut acc: u64 = 0;
    let mut i: usize = 0;
    while i < v.len()
        invariant
            vs == Seq::new(v@.len(), |k: int| v@[k] as int),
            f == (|i: int| vs[i]),
            0 <= i <= v@.len(),
            acc == total(i as int, f),
        decreases v@.len() - i,
    {
        proof {
            lemma_total_grows(i + 1, vs.len() as int, f);
        }
        match acc.checked_add(v[i]) {
            Some(x) => {
                acc = x;
            },
            None => {
                return None;
            },
        }
        i = i + 1;
    }
    Some(acc)
}

// ── additions and deletions, computed ────────────────────────────────────────

fn size_files(
    cs: &Vec<Change>,
    files: &Files,
    index: &PathIndex,
    Ghost(es): Ghost<Seq<EntryV>>,
) -> (r: Vec<FileEntry>)
    requires
        files.entries() == files_of(es),
        index.indexes(files.paths()),
    ensures
        values(r@) == sized_files(values(cs@), es),
{
    let ghost cv = values(cs@);
    let mut out: Vec<FileEntry> = Vec::new();
    let mut i: usize = 0;
    assert(values(out@) =~= collect(0, sized_rule(cv, es)));
    while i < cs.len()
        invariant
            cv == values(cs@),
            files.entries() == files_of(es),
            index.indexes(files.paths()),
            0 <= i <= cs@.len(),
            values(out@) == collect(i as int, sized_rule(cv, es)),
        decreases cs@.len() - i,
    {
        assert(cv[i as int] == cs@[i as int].value());
        if cs[i].kind == Kind::File {
            let bytes: u64 = look_up(files, index, &cs[i].rel, Ghost(es));
            add_item(&mut out, FileEntry { rel: cs[i].rel.clone(), bytes });
        }
        i = i + 1;
    }
    out
}

fn added_sizes(
    cs: &Vec<Change>,
    files: &Files,
    index: &PathIndex,
    Ghost(es): Ghost<Seq<EntryV>>,
) -> (r: Vec<u64>)
    requires
        files.entries() == files_of(es),
        index.indexes(files.paths()),
    ensures
        r@.len() == cs@.len(),
        sum_of(Seq::new(r@.len(), |k: int| r@[k] as int)) == added_total(values(cs@), es),
{
    let ghost cv = values(cs@);
    let mut out: Vec<u64> = Vec::new();
    let mut i: usize = 0;
    while i < cs.len()
        invariant
            cv == values(cs@),
            files.entries() == files_of(es),
            index.indexes(files.paths()),
            0 <= i <= cs@.len(),
            out@.len() == i,
            forall|k: int| 0 <= k < i ==> #[trigger] out@[k] == size_or_zero(es, cv[k].rel),
        decreases cs@.len() - i,
    {
        assert(cv[i as int] == cs@[i as int].value());
        out.push(look_up(files, index, &cs[i].rel, Ghost(es)));
        i = i + 1;
    }
    proof {
        let vs = Seq::new(out@.len(), |k: int| out@[k] as int);
        lemma_total_ext(vs.len() as int, |i: int| vs[i], added_rule(cv, es));
    }
    out
}

fn entry_bytes(fs: &Vec<FileEntry>) -> (r: Vec<u64>)
    ensures
        r@.len() == fs@.len(),
        sum_of(Seq::new(r@.len(), |k: int| r@[k] as int)) == bytes_of(values(fs@)),
{
    let ghost fv = values(fs@);
    let mut out: Vec<u64> = Vec::new();
    let mut i: usize = 0;
    while i < fs.len()
        invariant
            fv == values(fs@),
            0 <= i <= fs@.len(),
            out@.len() == i,
            forall|k: int| 0 <= k < i ==> #[trigger] out@[k] == fv[k].bytes,
        decreases fs@.len() - i,
    {
        out.push(fs[i].bytes);
        i = i + 1;
    }
    proof {
        let vs = Seq::new(out@.len(), |k: int| out@[k] as int);
        lemma_total_ext(vs.len() as int, |i: int| vs[i], bytes_rule(fv));
    }
    out
}

fn count_empty(fs: &Vec<FileEntry>) -> (r: u64)
    ensures
        r == empties(values(fs@)),
{
    let ghost fv = values(fs@);
    let mut n: u64 = 0;
    let mut i: usize = 0;
    while i < fs.len()
        invariant
            fv == values(fs@),
            0 <= i <= fs@.len(),
            n == collect(i as int, empty_rule(fv)).len(),
            n <= i,
        decreases fs@.len() - i,
    {
        assert(fv[i as int] == fs@[i as int].value());
        if fs[i].bytes == 0 {
            n = n + 1;
        }
        i = i + 1;
    }
    n
}

/// Sorts files largest first.
fn sort_largest(fs: &Vec<FileEntry>) -> (r: Vec<FileEntry>)
    ensures
        values(r@) == largest_first(values(fs@)),
{
    let mut amounts: Vec<i128> = Vec::new();
    let mut i: usize = 0;
    while i < fs.len()
        invariant
            0 <= i <= fs@.len(),
            amounts@.len() == i,
            forall|k: int| 0 <= k < i ==> #[trigger] amounts@[k] == -fs@[k].bytes,
        decreases fs@.len() - i,
    {
        amounts.push(-(fs[i].bytes as i128));
        i = i + 1;
    }
    let r = sort_by_amount_and_path(fs, &amounts);
    proof {
        let fv = values(fs@);
        assert(Seq::new(fs@.len(), |i: int| (amounts@[i] as int, fs.paths()[i])) =~= Seq::new(
            fv.len(),
            |i: int| (-fv[i].bytes, fv[i].rel),
        ));
    }
    r
}

/// The paths of the deleted directories.
fn removed_dirs(removed: &Vec<Change>) -> (r: Vec<FsPath>)
    ensures
        forall|p: PathV|
            #[trigger] paths_view(r@).contains(p) <==> exists|j: int|
                0 <= j < removed@.len() && (#[trigger] values(removed@)[j]).kind == Kind::Dir
                    && values(removed@)[j].rel == p,
{
    let ghost rv = values(removed@);
    let ghost rule = |i: int|
        if rv[i].kind == Kind::Dir {
            Some(rv[i].rel)
        } else {
            None
        };
    let mut out: Vec<FsPath> = Vec::new();
    let mut i: usize = 0;
    assert(paths_view(out@) =~= collect(0, rule));
    while i < removed.len()
        invariant
            rv == values(removed@),
            rule == (|i: int|
                if rv[i].kind == Kind::Dir {
                    Some(rv[i].rel)
                } else {
                    None
                }),
            0 <= i <= removed@.len(),
            paths_view(out@) == collect(i as int, rule),
        decreases removed@.len() - i,
    {
        assert(rv[i as int] == removed@[i as int].value());
        if removed[i].kind == Kind::Dir {
            add_path(&mut out, removed[i].rel.clone());
        }
        i = i + 1;
    }
    assert forall|p: PathV| #[trigger] paths_view(out@).contains(p) <==> exists|j: int|
        0 <= j < removed@.len() && (#[trigger] values(removed@)[j]).kind == Kind::Dir
            && values(removed@)[j].rel == p by {
        lemma_collect_contains(rv.len() as int, rule, p);
        if exists|j: int| 0 <= j < removed@.len() && (#[trigger] rv[j]).kind == Kind::Dir && rv[j].rel == p {
            let j = choose|j: int| 0 <= j < removed@.len() && (#[trigger] rv[j]).kind == Kind::Dir && rv[j].rel == p;
            assert(rule(j) == Some(p));
        }
    }
    out
}

/// Whether a deleted directory lies below another.
fn is_nested(p: &FsPath, dirs: &Vec<FsPath>, index: &PathIndex, Ghost(rv): Ghost<Seq<ChangeV>>) -> (r: bool)
    requires
        index.indexes(dirs.paths()),
        forall|p: PathV|
            #[trigger] paths_view(dirs@).contains(p) <==> exists|j: int|
                0 <= j < rv.len() && (#[trigger] rv[j]).kind == Kind::Dir && rv[j].rel == p,
    ensures
        r == nested(rv, p@),
{
    let n: usize = p.depth();
    let mut k: usize = if p.is_absolute() {
        1
    } else {
        0
    };
    let ghost low = k;
    while k < n
        invariant
            n == p@.len(),
            low == if is_absolute(p@) {
                1usize
            } else {
                0usize
            },
            low <= k,
            index.indexes(dirs.paths()),
            forall|p: PathV|
                #[trigger] paths_view(dirs@).contains(p) <==> exists|j: int|
                    0 <= j < rv.len() && (#[trigger] rv[j]).kind == Kind::Dir && rv[j].rel == p,
            forall|m: int| low <= m < k ==> !paths_view(dirs@).contains(#[trigger] p@.subrange(0, m)),
        decreases n - k,
    {
        let a = p.slice(0, k);
        let found = index.find(dirs, &a);
        proof {
            assert(dirs.paths() =~= paths_view(dirs@));
            lemma_last_at(paths_view(dirs@), a@);
        }
        if found.is_some() {
            proof {
                let j = choose|j: int| 0 <= j < rv.len() && (#[trigger] rv[j]).kind == Kind::Dir && rv[j].rel == a@;
                assert(p@.subrange(0, a@.len() as int) =~= a@);
                assert(above(rv[j].rel, p@));
            }
            return true;
        }
        k = k + 1;
    }
    proof {
        if nested(rv, p@) {
            let j = choose|j: int|
                0 <= j < rv.len() && (#[trigger] rv[j]).kind == Kind::Dir && above(rv[j].rel, p@);
            let a = rv[j].rel;
            assert(p@.subrange(0, a.len() as int) == a);
            assert(paths_view(dirs@).contains(a));
        }
    }
    false
}

/// The sum of the sizes of a part of some files is no more than of all.
pub proof fn lemma_part_bytes(fs: Seq<FileV>, rule: spec_fn(int) -> Option<FileV>, n: int)
    requires
        0 <= n <= fs.len(),
        forall|i: int| 0 <= i < fs.len() ==> (#[trigger] rule(i) matches Some(x) ==> x == fs[i]),
        forall|i: int| 0 <= i < fs.len() ==> (#[trigger] fs[i]).bytes >= 0,
    ensures
        0 <= bytes_of(collect(n, rule)) <= total(n, bytes_rule(fs)),
    decreases n,
{
    let c = collect(n, rule);
    if n > 0 {
        lemma_part_bytes(fs, rule, n - 1);
        let b = collect(n - 1, rule);
        assert(fs[n - 1].bytes >= 0);
        assert(rule(n - 1) == rule(n - 1));
        if rule(n - 1) is Some {
            lemma_bytes_push(b, fs[n - 1]);
        }
    }
}

proof fn lemma_bytes_push(fs: Seq<FileV>, f: FileV)
    ensures
        bytes_of(fs.push(f)) == bytes_of(fs) + f.bytes,
{
    let after = fs.push(f);
    assert(after[fs.len() as int] == f);
    lemma_total_ext(fs.len() as int, bytes_rule(fs), bytes_rule(after));
}

fn measure_subtree(fs: &Vec<FileEntry>, dir: &FsPath) -> (r: Subtree)
    requires
        bytes_of(values(fs@)) <= u64::MAX,
    ensures
        r.value() == (SubtreeV {
            root: dir@,
            text: dir.spelled(),
            files: files_under(values(fs@), dir@).len() as int,
            bytes: bytes_of(files_under(values(fs@), dir@)),
        }),
{
    let ghost fv = values(fs@);
    let mut n: u64 = 0;
    let mut bytes: u64 = 0;
    let mut i: usize = 0;
    while i < fs.len()
        invariant
            fv == values(fs@),
            bytes_of(fv) <= u64::MAX,
            0 <= i <= fs@.len(),
            n == collect(i as int, under_rule(fv, dir@)).len(),
            n <= i,
            bytes == bytes_of(collect(i as int, under_rule(fv, dir@))),
        decreases fs@.len() - i,
    {
        assert(fv[i as int] == fs@[i as int].value());
        if fs[i].rel.starts_with(dir) {
            proof {
                lemma_bytes_push(collect(i as int, under_rule(fv, dir@)), fv[i as int]);
                lemma_part_bytes(fv, under_rule(fv, dir@), i + 1);
                lemma_total_grows(i + 1, fv.len() as int, bytes_rule(fv));
            }
            n = n + 1;
            bytes = bytes + fs[i].bytes;
        }
        i = i + 1;
    }
    Subtree { root: dir.clone(), files: n, bytes }
}

fn find_subtrees(removed: &Vec<Change>, fs: &Vec<FileEntry>) -> (r: Vec<Subtree>)
    requires
        bytes_of(values(fs@)) <= u64::MAX,
    ensures
        values(r@) == largest_subtrees(subtrees(values(removed@), values(fs@))),
{
    let ghost rv = values(removed@);
    let ghost fv = values(fs@);
    let dirs = removed_dirs(removed);
    let index = PathIndex::build(&dirs);
    let mut out: Vec<Subtree> = Vec::new();
    let mut amounts: Vec<i128> = Vec::new();
    let mut i: usize = 0;
    assert(values(out@) =~= collect(0, subtree_rule(rv, fv)));
    while i < removed.len()
        invariant
            rv == values(removed@),
            fv == values(fs@),
            bytes_of(fv) <= u64::MAX,
            index.indexes(dirs.paths()),
            forall|p: PathV|
                #[trigger] paths_view(dirs@).contains(p) <==> exists|j: int|
                    0 <= j < rv.len() && (#[trigger] rv[j]).kind == Kind::Dir && rv[j].rel == p,
            0 <= i <= removed@.len(),
            values(out@) == collect(i as int, subtree_rule(rv, fv)),
            amounts@.len() == values(out@).len(),
            forall|k: int| 0 <= k < amounts@.len() ==> #[trigger] amounts@[k] == -values(out@)[k].bytes,
        decreases removed@.len() - i,
    {
        assert(rv[i as int] == removed@[i as int].value());
        if removed[i].kind == Kind::Dir {
            if !is_nested(&removed[i].rel, &dirs, &index, Ghost(rv)) {
                let t = measure_subtree(fs, &removed[i].rel);
                amounts.push(-(t.bytes as i128));
                add_item(&mut out, t);
            }
        }
        i = i + 1;
    }
    let r = sort_by_amount_and_path(&out, &amounts);
    proof {
        let ov = values(out@);
        assert(Seq::new(out@.len(), |i: int| (amounts@[i] as int, out.paths()[i])) =~= Seq::new(
            ov.len(),
            |i: int| (-ov[i].bytes, ov[i].root),
        ));
    }
    r
}

// ── names, computed ──────────────────────────────────────────────────────────

/// The file name in lower case.
fn basename_lower(rel: &FsPath) -> (r: String)
    ensures
        r@ == lower_name(rel@),
{
    match rel.file_name() {
        Some(n) => {
            let t = text_of_bytes(n.as_slice());
            to_lower(t.as_str())
        },
        None => {
            let s = String::new();
            assert(s@ =~= Seq::empty());
            s
        },
    }
}

/// The first path component where the entry lies under a folder; one bucket for the rest.
fn top_level(rel: &FsPath) -> (r: String)
    ensures
        r@ == top_folder(rel@),
{
    if rel.depth() >= 2 {
        text_of_bytes(rel.component(0).as_slice())
    } else {
        String::from_str("(top-level files)")
    }
}

fn is_text(c: &Vec<u8>, t: &str) -> (r: bool)
    ensures
        r == (c@ == encode_utf8(t@)),
{
    bytes_same(c.as_slice(), t.as_bytes())
}

/// The junk pattern that one component matches, if any.
fn junk_name(c: &Vec<u8>) -> (r: Option<&'static str>)
    ensures
        r is Some <==> junk_component(c@) is Some,
        r matches Some(t) ==> junk_component(c@) == Some(t@),
{
    proof {
        reveal_with_fuel(junk_from, 9);
    }
    if is_text(c, ".Trash") || crate::scan::has_prefix(c, ".Trash-".as_bytes()) {
        Some(".Trash*")
    } else if is_text(c, "$RECYCLE.BIN") {
        Some("$RECYCLE.BIN")
    } else if is_text(c, "System Volume Information") {
        Some("System Volume Information")
    } else if is_text(c, ".DS_Store") {
        Some(".DS_Store")
    } else if is_text(c, "@eaDir") {
        Some("@eaDir")
    } else if is_text(c, "lost+found") {
        Some("lost+found")
    } else if is_text(c, ".Spotlight-V100") {
        Some(".Spotlight-V100")
    } else if is_text(c, ".fseventsd") {
        Some(".fseventsd")
    } else if is_text(c, ".TemporaryItems") {
        Some(".TemporaryItems")
    } else {
        None
    }
}

/// The junk pattern that a path matches, if any.
fn junk_pattern(rel: &FsPath) -> (r: Option<&'static str>)
    ensures
        r is Some <==> junk_pattern_of(rel@) is Some,
        r matches Some(t) ==> junk_pattern_of(rel@) == Some(t@),
{
    let n: usize = rel.depth();
    let mut i: usize = 0;
    assert(rel@.subrange(0, n as int) =~= rel@);
    while i < n
        invariant
            n == rel@.len(),
            0 <= i <= n,
            junk_pattern_of(rel@) == junk_pattern_of(rel@.subrange(i as int, n as int)),
        decreases n - i,
    {
        let ghost rest = rel@.subrange(i as int, n as int);
        assert(rest[0] == rel@[i as int]);
        assert(rest.subrange(1, rest.len() as int) =~= rel@.subrange(i + 1, n as int));
        let found = junk_name(rel.component(i));
        if found.is_some() {
            return found;
        }
        i = i + 1;
    }
    None
}

/// The extension in lower case, with its dot.
fn extension_lower(rel: &FsPath) -> (r: String)
    ensures
        r@ == extension_text(rel@),
{
    match rel.file_name() {
        Some(name) => {
            let n: usize = name.len();
            let mut k: usize = n;
            while k > 0 && name[k - 1] != DOT
                invariant
                    n == name@.len(),
                    0 <= k <= n,
                    last_dot(name@, n as int) == last_dot(name@, k as int),
                decreases k,
            {
                k = k - 1;
            }
            if k >= 2 {
                // the dot stands at k - 1
                let tail = name.as_slice();
                let mut ext: Vec<u8> = Vec::new();
                let mut i: usize = k;
                while i < n
                    invariant
                        n == name@.len(),
                        tail@ == name@,
                        k <= i <= n,
                        ext@ == name@.subrange(k as int, i as int),
                    decreases n - i,
                {
                    ext.push(tail[i]);
                    i = i + 1;
                    assert(ext@ =~= name@.subrange(k as int, i as int));
                }
                let t = text_of_bytes(ext.as_slice());
                let low = to_lower(t.as_str());
                let mut s = String::from_str(".");
                s.append(low.as_str());
                s
            } else {
                String::from_str("(none)")
            }
        },
        None => String::from_str("(none)"),
    }
}

// ── orphans, computed ────────────────────────────────────────────────────────

/// The names of the source's entries in lower case, as keys.
fn name_keys(m: &Manifest) -> (r: Vec<FsPath>)
    ensures
        r@.len() == m@.len(),
        forall|i: int| 0 <= i < m@.len() ==> #[trigger] paths_view(r@)[i] == key_of(lower_name(m@[i].rel)),
{
    let entries = m.entries();
    let ghost es = m@;
    let mut out: Vec<FsPath> = Vec::new();
    let mut i: usize = 0;
    while i < entries.len()
        invariant
            es == entries_view(entries@),
            0 <= i <= entries@.len(),
            out@.len() == i,
            forall|k: int| 0 <= k < i ==> #[trigger] out@[k]@ == key_of(lower_name(es[k].rel)),
        decreases entries@.len() - i,
    {
        assert(es[i as int] == entries@[i as int]@);
        let name = basename_lower(&entries[i].rel);
        out.push(text_key(name.as_str()));
        i = i + 1;
    }
    out
}

fn is_known_name(
    p: &FsPath,
    keys: &Vec<FsPath>,
    index: &PathIndex,
    Ghost(es): Ghost<Seq<EntryV>>,
) -> (r: bool)
    requires
        keys@.len() == es.len(),
        forall|i: int| 0 <= i < es.len() ==> #[trigger] paths_view(keys@)[i] == key_of(lower_name(es[i].rel)),
        index.indexes(keys.paths()),
    ensures
        r == name_in(es, p@),
{
    let name = basename_lower(p);
    let key = text_key(name.as_str());
    let found = index.find(keys, &key);
    proof {
        let ks = paths_view(keys@);
        assert(keys.paths() =~= ks);
        lemma_last_at(ks, key@);
        if found is Some {
            let i = found->0 as int;
            assert(ks[i] == key_of(lower_name(es[i].rel)));
            lemma_key_of(lower_name(es[i].rel), lower_name(p@));
            assert(lower_name(es[i].rel) == lower_name(p@));
        }
        if name_in(es, p@) {
            let i = choose|i: int| 0 <= i < es.len() && lower_name((#[trigger] es[i]).rel) == lower_name(p@);
            assert(ks[i] == key@);
            assert(ks.contains(key@));
        }
    }
    found.is_some()
}

fn find_orphans(fs: &Vec<FileEntry>, src_m: &Manifest) -> (r: Vec<FileEntry>)
    ensures
        values(r@) == orphans(values(fs@), src_m@),
{
    let ghost fv = values(fs@);
    let ghost es = src_m@;
    let keys = name_keys(src_m);
    let index = PathIndex::build(&keys);
    let mut out: Vec<FileEntry> = Vec::new();
    let mut i: usize = 0;
    assert(values(out@) =~= collect(0, orphan_rule(fv, es)));
    while i < fs.len()
        invariant
            fv == values(fs@),
            es == src_m@,
            keys@.len() == es.len(),
            forall|i: int|
                0 <= i < es.len() ==> #[trigger] paths_view(keys@)[i] == key_of(lower_name(es[i].rel)),
            index.indexes(keys.paths()),
            0 <= i <= fs@.len(),
            values(out@) == collect(i as int, orphan_rule(fv, es)),
        decreases fs@.len() - i,
    {
        assert(fv[i as int] == fs@[i as int].value());
        if !is_known_name(&fs[i].rel, &keys, &index, Ghost(es)) {
            add_item(&mut out, fs[i].dup());
        }
        i = i + 1;
    }
    out
}

fn count_unique(fs: &Vec<FileEntry>, sizes: &Vec<u64>, Ghost(es): Ghost<Seq<EntryV>>) -> (r: u64)
    requires
        Seq::new(sizes@.len(), |k: int| sizes@[k] as int) == file_sizes(es),
    ensures
        r == collect(fs@.len() as int, unique_rule(values(fs@), es)).len(),
{
    broadcast use vstd::std_specs::hash::group_hash_axioms;

    let ghost fv = values(fs@);
    let ghost ss = file_sizes(es);
    let mut known: HashSet<u64> = HashSet::new();
    let mut k: usize = 0;
    while k < sizes.len()
        invariant
            vstd::std_specs::hash::obeys_key_model::<u64>(),
            vstd::std_specs::hash::builds_valid_hashers::<std::hash::RandomState>(),
            0 <= k <= sizes@.len(),
            forall|x: u64| #[trigger] known@.contains(x) <==> exists|j: int| 0 <= j < k && #[trigger] sizes@[j] == x,
        decreases sizes@.len() - k,
    {
        let ghost before = known@;
        known.insert(sizes[k]);
        assert forall|x: u64| #[trigger] known@.contains(x) <==> exists|j: int|
            0 <= j < k + 1 && #[trigger] sizes@[j] == x by {
            assert(known@.contains(x) <==> before.contains(x) || x == sizes@[k as int]);
            if before.contains(x) {
                let j = choose|j: int| 0 <= j < k && #[trigger] sizes@[j] == x;
                assert(sizes@[j] == x);
            }
        }
        k = k + 1;
    }
    let mut n: u64 = 0;
    let mut i: usize = 0;
    while i < fs.len()
        invariant
            vstd::std_specs::hash::obeys_key_model::<u64>(),
            vstd::std_specs::hash::builds_valid_hashers::<std::hash::RandomState>(),
            fv == values(fs@),
            ss == file_sizes(es),
            ss == Seq::new(sizes@.len(), |k: int| sizes@[k] as int),
            forall|x: u64| #[trigger] known@.contains(x) <==> exists|j: int|
                0 <= j < sizes@.len() && #[trigger] sizes@[j] == x,
            0 <= i <= fs@.len(),
            n == collect(i as int, unique_rule(fv, es)).len(),
            n <= i,
        decreases fs@.len() - i,
    {
        assert(fv[i as int] == fs@[i as int].value());
        let b: u64 = fs[i].bytes;
        let have = known.contains(&b);
        proof {
            assert(have == known@.contains(b));
            if have {
                let j = choose|j: int| 0 <= j < sizes@.len() && #[trigger] sizes@[j] == b;
                assert(ss[j] == b as int);
                assert(ss.contains(b as int));
            }
            if ss.contains(b as int) {
                let j = choose|j: int| 0 <= j < ss.len() && ss[j] == b as int;
                assert(sizes@[j] == b);
            }
        }
        if !have {
            n = n + 1;
        }
        i = i + 1;
    }
    n
}

// ── folders, computed ────────────────────────────────────────────────────────

/// The shares of the top-level folders, column by column.
struct Shares {
    folder: Vec<String>,
    added: Vec<i128>,
    removed: Vec<i128>,
    changed: Vec<i128>,
    moved_in: Vec<i128>,
    net_files: Vec<i128>,
    net_bytes: Vec<i128>,
}

impl Shares {
    spec fn wf(&self) -> bool {
        let n = self.folder@.len();
        &&& self.added@.len() == n
        &&& self.removed@.len() == n
        &&& self.changed@.len() == n
        &&& self.moved_in@.len() == n
        &&& self.net_files@.len() == n
        &&& self.net_bytes@.len() == n
    }

    spec fn rows(&self) -> Seq<FolderV> {
        Seq::new(
            self.folder@.len(),
            |i: int|
                FolderV {
                    folder: self.folder@[i]@,
                    added: self.added@[i] as int,
                    removed: self.removed@[i] as int,
                    changed: self.changed@[i] as int,
                    moved_in: self.moved_in@[i] as int,
                    net_files: self.net_files@[i] as int,
                    net_bytes: self.net_bytes@[i] as int,
                },
        )
    }

    fn new() -> (r: Shares)
        ensures
            r.wf(),
            r.rows() == Seq::<FolderV>::empty(),
    {
        let r = Shares {
            folder: Vec::new(),
            added: Vec::new(),
            removed: Vec::new(),
            changed: Vec::new(),
            moved_in: Vec::new(),
            net_files: Vec::new(),
            net_bytes: Vec::new(),
        };
        assert(r.rows() =~= Seq::<FolderV>::empty());
        r
    }

    fn push(
        &mut self,
        folder: String,
        added: i128,
        removed: i128,
        changed: i128,
        moved_in: i128,
        net_files: i128,
        net_bytes: i128,
    )
        requires
            old(self).wf(),
        ensures
            final(self).wf(),
            final(self).rows() == old(self).rows().push(
                (FolderV {
                    folder: folder@,
                    added: added as int,
                    removed: removed as int,
                    changed: changed as int,
                    moved_in: moved_in as int,
                    net_files: net_files as int,
                    net_bytes: net_bytes as int,
                }),
            ),
    {
        let ghost before = self.rows();
        let ghost row = FolderV {
            folder: folder@,
            added: added as int,
            removed: removed as int,
            changed: changed as int,
            moved_in: moved_in as int,
            net_files: net_files as int,
            net_bytes: net_bytes as int,
        };
        self.folder.push(folder);
        self.added.push(added);
        self.removed.push(removed);
        self.changed.push(changed);
        self.moved_in.push(moved_in);
        self.net_files.push(net_files);
        self.net_bytes.push(net_bytes);
        assert(self.rows() =~= before.push(row));
    }
}

/// Each share counts at most one.
spec fn simple(v: Seq<FolderV>) -> bool {
    forall|i: int|
        0 <= i < v.len() ==> {
            &&& 0 <= (#[trigger] v[i]).added <= 1
            &&& 0 <= v[i].removed <= 1
            &&& 0 <= v[i].changed <= 1
            &&& 0 <= v[i].moved_in <= 1
            &&& -1 <= v[i].net_files <= 1
        }
}

proof fn lemma_simple(d: DiffV, s: Seq<EntryV>, t: Seq<EntryV>)
    ensures
        simple(folder_shares(d, s, t)),
{
    let a = added_shares(sized_files(d.added, s));
    let b = removed_shares(sized_files(d.removed, t));
    let rule = changed_rule(d.changed, s, t);
    let n = d.changed.len() as int;
    let c = collect(n, rule);
    let e = moved_shares(d.moved, s);
    let v = folder_shares(d, s, t);
    assert forall|i: int| 0 <= i < v.len() implies {
        &&& 0 <= (#[trigger] v[i]).added <= 1
        &&& 0 <= v[i].removed <= 1
        &&& 0 <= v[i].changed <= 1
        &&& 0 <= v[i].moved_in <= 1
        &&& -1 <= v[i].net_files <= 1
    } by {
        if i < a.len() {
            assert(v[i] == a[i]);
        } else if i < a.len() + b.len() {
            assert(v[i] == b[i - a.len()]);
        } else if i < a.len() + b.len() + c.len() {
            let k = i - a.len() - b.len();
            assert(v[i] == c[k]);
            assert(c.contains(c[k]));
            lemma_collect_contains(n, rule, c[k]);
        } else {
            assert(v[i] == e[i - a.len() - b.len() - c.len()]);
        }
    }
}

fn gather_shares(
    d: &Diff,
    adds: &Vec<FileEntry>,
    dels: &Vec<FileEntry>,
    src: &Files,
    src_index: &PathIndex,
    dst: &Files,
    dst_index: &PathIndex,
    Ghost(s): Ghost<Seq<EntryV>>,
    Ghost(t): Ghost<Seq<EntryV>>,
) -> (r: Shares)
    requires
        src.entries() == files_of(s),
        src_index.indexes(src.paths()),
        dst.entries() == files_of(t),
        dst_index.indexes(dst.paths()),
        values(adds@) == sized_files(d@.added, s),
        values(dels@) == sized_files(d@.removed, t),
    ensures
        r.wf(),
        r.rows() == folder_shares(d@, s, t),
{
    let ghost dv = d@;
    let ghost av = values(adds@);
    let ghost rv = values(dels@);
    let ghost p1 = added_shares(av);
    let ghost p2 = removed_shares(rv);
    let ghost p3 = collect(dv.changed.len() as int, changed_rule(dv.changed, s, t));
    let ghost p4 = moved_shares(dv.moved, s);
    let mut out = Shares::new();
    let mut i: usize = 0;
    assert(out.rows() =~= p1.subrange(0, 0));
    while i < adds.len()
        invariant
            av == values(adds@),
            p1 == added_shares(av),
            out.wf(),
            0 <= i <= adds@.len(),
            out.rows() == p1.subrange(0, i as int),
        decreases adds@.len() - i,
    {
        assert(av[i as int] == adds@[i as int].value());
        let folder = top_level(&adds[i].rel);
        out.push(folder, 1, 0, 0, 0, 1, adds[i].bytes as i128);
        i = i + 1;
        assert(out.rows() =~= p1.subrange(0, i as int));
    }
    assert(out.rows() =~= p1 + p2.subrange(0, 0));
    let mut j: usize = 0;
    while j < dels.len()
        invariant
            rv == values(dels@),
            p2 == removed_shares(rv),
            out.wf(),
            0 <= j <= dels@.len(),
            out.rows() == p1 + p2.subrange(0, j as int),
        decreases dels@.len() - j,
    {
        assert(rv[j as int] == dels@[j as int].value());
        let folder = top_level(&dels[j].rel);
        out.push(folder, 0, 1, 0, 0, -1, -(dels[j].bytes as i128));
        j = j + 1;
        assert(out.rows() =~= p1 + p2.subrange(0, j as int));
    }
    assert(out.rows() =~= p1 + p2);
    let mut k: usize = 0;
    assert(out.rows() =~= p1 + p2 + collect(0, changed_rule(dv.changed, s, t)));
    while k < d.changed.len()
        invariant
            dv == d@,
            src.entries() == files_of(s),
            src_index.indexes(src.paths()),
            dst.entries() == files_of(t),
            dst_index.indexes(dst.paths()),
            out.wf(),
            0 <= k <= d.changed@.len(),
            out.rows() == p1 + p2 + collect(k as int, changed_rule(dv.changed, s, t)),
        decreases d.changed@.len() - k,
    {
        assert(dv.changed[k as int] == d.changed@[k as int].value());
        let ghost before = out.rows();
        if d.changed[k].kind == Kind::File {
            let was: u64 = look_up(dst, dst_index, &d.changed[k].rel, Ghost(t));
            let is: u64 = look_up(src, src_index, &d.changed[k].rel, Ghost(s));
            let folder = top_level(&d.changed[k].rel);
            out.push(folder, 0, 0, 1, 0, 0, is as i128 - was as i128);
        }
        k = k + 1;
        assert(out.rows() =~= p1 + p2 + collect(k as int, changed_rule(dv.changed, s, t)));
    }
    assert(out.rows() =~= p1 + p2 + p3 + p4.subrange(0, 0));
    let mut m: usize = 0;
    while m < d.moved.len()
        invariant
            dv == d@,
            src.entries() == files_of(s),
            src_index.indexes(src.paths()),
            p4 == moved_shares(dv.moved, s),
            out.wf(),
            0 <= m <= d.moved@.len(),
            out.rows() == p1 + p2 + p3 + p4.subrange(0, 2 * m as int),
        decreases d.moved@.len() - m,
    {
        assert(dv.moved[m as int] == d.moved@[m as int].value());
        let size: u64 = look_up(src, src_index, &d.moved[m].to, Ghost(s));
        let to = top_level(&d.moved[m].to);
        let from = top_level(&d.moved[m].from);
        assert(p4[2 * m as int] == moved_in_share(dv.moved[m as int].to, size as int));
        assert(p4[2 * m as int + 1] == moved_out_share(dv.moved[m as int].from, size as int));
        out.push(to, 0, 0, 0, 1, 1, size as i128);
        out.push(from, 0, 0, 0, 0, -1, -(size as i128));
        m = m + 1;
        assert(out.rows() =~= p1 + p2 + p3 + p4.subrange(0, 2 * m as int));
    }
    assert(out.rows() =~= p1 + p2 + p3 + p4);
    out
}

/// A column of ones, zeros and minus ones comes to no more than its length.
proof fn lemma_unit_bulk(v: Seq<int>)
    requires
        forall|i: int| 0 <= i < v.len() ==> -1 <= #[trigger] v[i] <= 1,
    ensures
        0 <= bulk(v) <= v.len(),
{
    let f = |i: int| magnitude(v[i]);
    let g = |i: int| 1int;
    assert forall|i: int| 0 <= i < v.len() implies -g(i) <= #[trigger] f(i) <= g(i) by {
        assert(-1 <= v[i] <= 1);
    }
    lemma_total_bound(v.len() as int, f, g);
    lemma_total_const(v.len() as int);
    lemma_total_grows(0, v.len() as int, f);
}

proof fn lemma_total_const(n: int)
    requires
        0 <= n,
    ensures
        total(n, |i: int| 1int) == n,
    decreases n,
{
    if n > 0 {
        lemma_total_const(n - 1);
    }
}

/// A share of what is never negative is not negative.
proof fn lemma_share_nonneg(texts: Seq<Seq<char>>, amounts: Seq<int>, t: Seq<char>)
    requires
        texts.len() == amounts.len(),
        forall|i: int| 0 <= i < amounts.len() ==> #[trigger] amounts[i] >= 0,
    ensures
        share_of(texts, amounts, t) >= 0,
{
    let f = share_rule(texts, amounts, t);
    assert forall|i: int| 0 <= i < texts.len() implies #[trigger] f(i) >= 0 by {
        assert(amounts[i] >= 0);
    }
    lemma_total_grows(0, texts.len() as int, f);
}

fn folder_table(sh: &Shares, Ghost(v): Ghost<Seq<FolderV>>) -> (r: Vec<FolderDelta>)
    requires
        sh.wf(),
        sh.rows() == v,
        simple(v),
        v.len() <= i64::MAX,
        rows_fit(v),
        bulk(net_bytes_column(v)) <= i128::MAX,
    ensures
        values(r@) == biggest_losses_first(folder_rows(v)),
{
    let ghost names = folder_names(v);
    let g = group(&sh.folder);
    proof {
        assert(texts_view(sh.folder@) =~= names);
        assert(ints(sh.added@) =~= added_column(v));
        assert(ints(sh.removed@) =~= removed_column(v));
        assert(ints(sh.changed@) =~= changed_column(v));
        assert(ints(sh.moved_in@) =~= moved_in_column(v));
        assert(ints(sh.net_files@) =~= net_files_column(v));
        assert(ints(sh.net_bytes@) =~= net_bytes_column(v));
        assert forall|i: int| 0 <= i < v.len() implies -1 <= #[trigger] added_column(v)[i] <= 1 by {
            assert(v[i].added <= 1);
        }
        assert forall|i: int| 0 <= i < v.len() implies -1 <= #[trigger] removed_column(v)[i] <= 1 by {
            assert(v[i].added <= 1);
        }
        assert forall|i: int| 0 <= i < v.len() implies -1 <= #[trigger] changed_column(v)[i] <= 1 by {
            assert(v[i].added <= 1);
        }
        assert forall|i: int| 0 <= i < v.len() implies -1 <= #[trigger] moved_in_column(v)[i] <= 1 by {
            assert(v[i].added <= 1);
        }
        assert forall|i: int| 0 <= i < v.len() implies -1 <= #[trigger] net_files_column(v)[i] <= 1 by {
            assert(v[i].added <= 1);
        }
        lemma_unit_bulk(added_column(v));
        lemma_unit_bulk(removed_column(v));
        lemma_unit_bulk(changed_column(v));
        lemma_unit_bulk(moved_in_column(v));
        lemma_unit_bulk(net_files_column(v));
    }
    let n: usize = sh.folder.len();
    let added = shares(&g, &sh.added, Ghost(names));
    let removed = shares(&g, &sh.removed, Ghost(names));
    let changed = shares(&g, &sh.changed, Ghost(names));
    let moved_in = shares(&g, &sh.moved_in, Ghost(names));
    let net_files = shares(&g, &sh.net_files, Ghost(names));
    let net_bytes = shares(&g, &sh.net_bytes, Ghost(names));
    let ghost rows = folder_rows(v);
    let mut out: Vec<FolderDelta> = Vec::new();
    let mut folders: Vec<String> = Vec::new();
    let mut k: usize = 0;
    while k < g.first.len()
        invariant
            sh.wf(),
            sh.rows() == v,
            simple(v),
            n == sh.folder@.len(),
            n == v.len(),
            n <= i64::MAX,
            names == folder_names(v),
            texts_view(sh.folder@) == names,
            g.of(names),
            rows == folder_rows(v),
            rows_fit(v),
            bulk(added_column(v)) <= n,
            bulk(removed_column(v)) <= n,
            bulk(changed_column(v)) <= n,
            bulk(moved_in_column(v)) <= n,
            bulk(net_files_column(v)) <= n,
            added@.len() == g.first@.len(),
            removed@.len() == g.first@.len(),
            changed@.len() == g.first@.len(),
            moved_in@.len() == g.first@.len(),
            net_files@.len() == g.first@.len(),
            net_bytes@.len() == g.first@.len(),
            forall|k: int|
                0 <= k < added@.len() ==> #[trigger] added@[k] == share_of(
                    names,
                    added_column(v),
                    names[g.first@[k] as int],
                ),
            forall|k: int|
                0 <= k < added@.len() ==> #[trigger] removed@[k] == share_of(
                    names,
                    removed_column(v),
                    names[g.first@[k] as int],
                ),
            forall|k: int|
                0 <= k < added@.len() ==> #[trigger] changed@[k] == share_of(
                    names,
                    changed_column(v),
                    names[g.first@[k] as int],
                ),
            forall|k: int|
                0 <= k < added@.len() ==> #[trigger] moved_in@[k] == share_of(
                    names,
                    moved_in_column(v),
                    names[g.first@[k] as int],
                ),
            forall|k: int|
                0 <= k < added@.len() ==> #[trigger] net_files@[k] == share_of(
                    names,
                    net_files_column(v),
                    names[g.first@[k] as int],
                ),
            forall|k: int|
                0 <= k < added@.len() ==> #[trigger] net_bytes@[k] == share_of(
                    names,
                    net_bytes_column(v),
                    names[g.first@[k] as int],
                ),
            0 <= k <= g.first@.len(),
            out@.len() == k,
            folders@.len() == k,
            forall|j: int| 0 <= j < k ==> #[trigger] out@[j].value() == rows[j],
            forall|j: int| 0 <= j < k ==> #[trigger] folders@[j]@ == rows[j].folder,
        decreases g.first@.len() - k,
    {
        let at: usize = g.first[k];
        proof {
            assert(as_ints(g.first@)[k as int] == at);
            lemma_firsts(names, k as int, k as int);
            let t = names[at as int];
            assert(t == v[at as int].folder);
            assert(t == sh.folder@[at as int]@);
            lemma_share_bound(names, added_column(v), t, names.len() as int);
            lemma_share_bound(names, removed_column(v), t, names.len() as int);
            lemma_share_bound(names, changed_column(v), t, names.len() as int);
            lemma_share_bound(names, moved_in_column(v), t, names.len() as int);
            lemma_share_bound(names, net_files_column(v), t, names.len() as int);
            assert(rows[k as int].net_bytes == net_bytes@[k as int]);
            assert forall|i: int| 0 <= i < v.len() implies #[trigger] added_column(v)[i] >= 0 by {
                assert(v[i].added >= 0);
            }
            assert forall|i: int| 0 <= i < v.len() implies #[trigger] removed_column(v)[i] >= 0 by {
                assert(v[i].added >= 0);
            }
            assert forall|i: int| 0 <= i < v.len() implies #[trigger] changed_column(v)[i] >= 0 by {
                assert(v[i].added >= 0);
            }
            assert forall|i: int| 0 <= i < v.len() implies #[trigger] moved_in_column(v)[i] >= 0 by {
                assert(v[i].added >= 0);
            }
            lemma_share_nonneg(names, added_column(v), t);
            lemma_share_nonneg(names, removed_column(v), t);
            lemma_share_nonneg(names, changed_column(v), t);
            lemma_share_nonneg(names, moved_in_column(v), t);
        }
        let row = FolderDelta {
            folder: sh.folder[at].clone(),
            added: added[k] as usize,
            removed: removed[k] as usize,
            changed: changed[k] as usize,
            moved_in: moved_in[k] as usize,
            net_files: net_files[k] as i64,
            net_bytes: net_bytes[k] as i64,
        };
        assert(row.value() == rows[k as int]);
        out.push(row);
        folders.push(sh.folder[at].clone());
        k = k + 1;
    }
    assert(values(out@) =~= rows);
    let r = sort_by_amount_and_name(&out, &net_bytes, &folders);
    proof {
        assert(Seq::new(out@.len(), |i: int| (net_bytes@[i] as int, encode_utf8(folders@[i]@))) =~= Seq::new(
            rows.len(),
            |i: int| (rows[i].net_bytes, encode_utf8(rows[i].folder)),
        )) by {
            assert forall|i: int| 0 <= i < out@.len() implies net_bytes@[i] as int == rows[i].net_bytes by {
                assert(out@[i].value() == rows[i]);
                assert(as_ints(g.first@)[i] == g.first@[i]);
                lemma_firsts(names, i, i);
            }
        }
    }
    r
}

// ── junk and extensions, computed ────────────────────────────────────────────

fn junk_texts(cs: &Vec<Change>) -> (r: Vec<String>)
    ensures
        texts_view(r@) == junk_in(values(cs@)),
{
    let ghost cv = values(cs@);
    let mut out: Vec<String> = Vec::new();
    let mut i: usize = 0;
    assert(texts_view(out@) =~= collect(0, junk_rule(cv)));
    while i < cs.len()
        invariant
            cv == values(cs@),
            0 <= i <= cs@.len(),
            texts_view(out@) == collect(i as int, junk_rule(cv)),
        decreases cs@.len() - i,
    {
        assert(cv[i as int] == cs@[i as int].value());
        match junk_pattern(&cs[i].rel) {
            Some(t) => {
                add_text(&mut out, String::from_str(t));
            },
            None => {},
        }
        i = i + 1;
    }
    out
}

/// `a` times the first number, then `b` times the second.
fn two_runs(a: usize, x: i128, b: usize, y: i128) -> (r: Vec<i128>)
    requires
        a + b <= usize::MAX,
    ensures
        r@.len() == a + b,
        forall|i: int|
            0 <= i < r@.len() ==> #[trigger] r@[i] == if i < a {
                x
            } else {
                y
            },
{
    let mut out: Vec<i128> = Vec::new();
    let n: usize = a + b;
    let mut i: usize = 0;
    while i < n
        invariant
            n == a + b,
            0 <= i <= n,
            out@.len() == i,
            forall|k: int|
                0 <= k < i ==> #[trigger] out@[k] == if k < a {
                    x
                } else {
                    y
                },
        decreases n - i,
    {
        out.push(
            if i < a {
                x
            } else {
                y
            },
        );
        i = i + 1;
    }
    out
}

fn junk_table(removed: &Vec<Change>, added: &Vec<Change>) -> (r: Vec<JunkTally>)
    ensures
        values(r@) == most_junk_first(junk_rows(junk_in(values(removed@)), junk_in(values(added@)))),
{
    let mut all = junk_texts(removed);
    let a: usize = all.len();
    let mut rest = junk_texts(added);
    let b: usize = rest.len();
    let ghost del = junk_in(values(removed@));
    let ghost cp = junk_in(values(added@));
    proof {
        crate::text::lemma_texts_add(all@, rest@);
        assert(texts_view(all@).len() == a);
        assert(texts_view(rest@).len() == b);
    }
    all.append(&mut rest);
    let ghost texts = del + cp;
    assert(texts_view(all@) =~= texts);
    let n: usize = all.len();
    assert(n == a + b);
    let dels = two_runs(a, 1, b, 0);
    let cps = two_runs(a, 0, b, 1);
    let g = group(&all);
    proof {
        assert(ints(dels@) =~= ones_then_zeros(del.len(), cp.len()));
        assert(ints(cps@) =~= zeros_then_ones(del.len(), cp.len()));
        lemma_unit_bulk(ints(dels@));
        lemma_unit_bulk(ints(cps@));
    }
    let del_sums = shares(&g, &dels, Ghost(texts));
    let cp_sums = shares(&g, &cps, Ghost(texts));
    let ghost rows = junk_rows(del, cp);
    let mut out: Vec<JunkTally> = Vec::new();
    let mut amounts: Vec<i128> = Vec::new();
    let mut names: Vec<String> = Vec::new();
    let mut k: usize = 0;
    while k < g.first.len()
        invariant
            n == all@.len(),
            texts.len() == n,
            texts == del + cp,
            texts_view(all@) == texts,
            g.of(texts),
            rows == junk_rows(del, cp),
            dels@.len() == n,
            cps@.len() == n,
            ints(dels@) == ones_then_zeros(del.len(), cp.len()),
            ints(cps@) == zeros_then_ones(del.len(), cp.len()),
            bulk(ints(dels@)) <= n,
            bulk(ints(cps@)) <= n,
            del_sums@.len() == g.first@.len(),
            cp_sums@.len() == g.first@.len(),
            forall|k: int|
                0 <= k < del_sums@.len() ==> #[trigger] del_sums@[k] == share_of(
                    texts,
                    ints(dels@),
                    texts[g.first@[k] as int],
                ),
            forall|k: int|
                0 <= k < cp_sums@.len() ==> #[trigger] cp_sums@[k] == share_of(
                    texts,
                    ints(cps@),
                    texts[g.first@[k] as int],
                ),
            0 <= k <= g.first@.len(),
            out@.len() == k,
            amounts@.len() == k,
            names@.len() == k,
            forall|j: int| 0 <= j < k ==> #[trigger] out@[j].value() == rows[j],
            forall|j: int|
                0 <= j < k ==> #[trigger] amounts@[j] == -(rows[j].deleting_from_dest + rows[j].copying_from_source),
            forall|j: int| 0 <= j < k ==> #[trigger] names@[j]@ == rows[j].pattern,
        decreases g.first@.len() - k,
    {
        let at: usize = g.first[k];
        proof {
            assert(as_ints(g.first@)[k as int] == at);
            lemma_firsts(texts, k as int, k as int);
            let t = texts[at as int];
            assert(t == all@[at as int]@);
            lemma_share_bound(texts, ints(dels@), t, texts.len() as int);
            lemma_share_bound(texts, ints(cps@), t, texts.len() as int);
            lemma_share_nonneg(texts, ints(dels@), t);
            lemma_share_nonneg(texts, ints(cps@), t);
        }
        let row = JunkTally {
            pattern: all[at].clone(),
            deleting_from_dest: del_sums[k] as u64,
            copying_from_source: cp_sums[k] as u64,
        };
        assert(row.value() == rows[k as int]);
        amounts.push(-(del_sums[k] + cp_sums[k]));
        names.push(all[at].clone());
        out.push(row);
        k = k + 1;
    }
    assert(values(out@) =~= rows);
    let r = sort_by_amount_and_name(&out, &amounts, &names);
    proof {
        assert(Seq::new(out@.len(), |i: int| (amounts@[i] as int, encode_utf8(names@[i]@))) =~= Seq::new(
            rows.len(),
            |i: int|
                (-(rows[i].deleting_from_dest + rows[i].copying_from_source), encode_utf8(rows[i].pattern)),
        ));
    }
    r
}

fn extension_table(fs: &Vec<FileEntry>) -> (r: Vec<(String, u64)>)
    ensures
        values(r@) == top(most_first(histogram(extensions_of(values(fs@)))), TOP_N as int),
{
    let ghost fv = values(fs@);
    let ghost texts = extensions_of(fv);
    let mut all: Vec<String> = Vec::new();
    let mut i: usize = 0;
    while i < fs.len()
        invariant
            fv == values(fs@),
            texts == extensions_of(fv),
            0 <= i <= fs@.len(),
            all@.len() == i,
            forall|k: int| 0 <= k < i ==> #[trigger] all@[k]@ == texts[k],
        decreases fs@.len() - i,
    {
        assert(fv[i as int] == fs@[i as int].value());
        all.push(extension_lower(&fs[i].rel));
        i = i + 1;
    }
    let n: usize = all.len();
    assert(texts_view(all@) =~= texts);
    let ones = two_runs(n, 1, 0, 0);
    let g = group(&all);
    proof {
        assert(ints(ones@) =~= ones_then_zeros(texts.len(), 0));
        lemma_unit_bulk(ints(ones@));
    }
    let sums = shares(&g, &ones, Ghost(texts));
    let ghost rows = histogram(texts);
    let mut out: Vec<(String, u64)> = Vec::new();
    let mut amounts: Vec<i128> = Vec::new();
    let mut names: Vec<String> = Vec::new();
    let mut k: usize = 0;
    while k < g.first.len()
        invariant
            n == all@.len(),
            texts.len() == n,
            texts_view(all@) == texts,
            g.of(texts),
            rows == histogram(texts),
            ones@.len() == n,
            ints(ones@) == ones_then_zeros(texts.len(), 0),
            bulk(ints(ones@)) <= n,
            sums@.len() == g.first@.len(),
            forall|k: int|
                0 <= k < sums@.len() ==> #[trigger] sums@[k] == share_of(
                    texts,
                    ints(ones@),
                    texts[g.first@[k] as int],
                ),
            0 <= k <= g.first@.len(),
            out@.len() == k,
            amounts@.len() == k,
            names@.len() == k,
            forall|j: int| 0 <= j < k ==> #[trigger] out@[j].value() == rows[j],
            forall|j: int| 0 <= j < k ==> #[trigger] amounts@[j] == -rows[j].1,
            forall|j: int| 0 <= j < k ==> #[trigger] names@[j]@ == rows[j].0,
        decreases g.first@.len() - k,
    {
        let at: usize = g.first[k];
        proof {
            assert(as_ints(g.first@)[k as int] == at);
            lemma_firsts(texts, k as int, k as int);
            let t = texts[at as int];
            assert(t == all@[at as int]@);
            lemma_share_bound(texts, ints(ones@), t, texts.len() as int);
            lemma_share_nonneg(texts, ints(ones@), t);
        }
        let row = (all[at].clone(), sums[k] as u64);
        assert(row.value() == rows[k as int]);
        amounts.push(-sums[k]);
        names.push(all[at].clone());
        out.push(row);
        k = k + 1;
    }
    assert(values(out@) =~= rows);
    let sorted = sort_by_amount_and_name(&out, &amounts, &names);
    proof {
        assert(Seq::new(out@.len(), |i: int| (amounts@[i] as int, encode_utf8(names@[i]@))) =~= Seq::new(
            rows.len(),
            |i: int| (-rows[i].1, encode_utf8(rows[i].0)),
        ));
    }
    keep_top(&sorted, TOP_N)
}

// ── the analysis ─────────────────────────────────────────────────────────────

/// So many numbers of this size come to no more than a wide machine number holds.
proof fn lemma_bulk_fits(v: Seq<int>)
    requires
        v.len() <= i64::MAX,
        forall|i: int| 0 <= i < v.len() ==> -u64::MAX <= #[trigger] v[i] <= u64::MAX,
    ensures
        bulk(v) <= i128::MAX,
{
    let f = |i: int| magnitude(v[i]);
    let n = v.len() as int;
    assert forall|i: int| 0 <= i < n implies 0 <= #[trigger] f(i) <= u64::MAX by {
        assert(-u64::MAX <= v[i] <= u64::MAX);
    }
    lemma_total_limit(n, f, u64::MAX as int);
    assert(n * (u64::MAX as int) <= (i64::MAX as int) * (u64::MAX as int)) by (nonlinear_arith)
        requires
            0 <= n <= i64::MAX as int,
    ;
}

proof fn lemma_total_limit(n: int, f: spec_fn(int) -> int, m: int)
    requires
        0 <= n,
        forall|i: int| 0 <= i < n ==> #[trigger] f(i) <= m,
    ensures
        total(n, f) <= n * m,
    decreases n,
{
    if n > 0 {
        lemma_total_limit(n - 1, f, m);
        assert(f(n - 1) <= m);
        assert((n - 1) * m + m == n * m) by (nonlinear_arith);
    } else {
        assert(n * m == 0) by (nonlinear_arith)
            requires
                n == 0,
        ;
    }
}

proof fn lemma_share_sizes(d: DiffV, s: Seq<EntryV>, t: Seq<EntryV>)
    ensures
        forall|i: int|
            0 <= i < folder_shares(d, s, t).len() ==> -u64::MAX
                <= #[trigger] folder_shares(d, s, t)[i].net_bytes <= u64::MAX,
{
    let adds = sized_files(d.added, s);
    let dels = sized_files(d.removed, t);
    let a = added_shares(adds);
    let b = removed_shares(dels);
    let rule = changed_rule(d.changed, s, t);
    let n = d.changed.len() as int;
    let c = collect(n, rule);
    let e = moved_shares(d.moved, s);
    let v = folder_shares(d, s, t);
    assert forall|i: int| 0 <= i < v.len() implies -u64::MAX <= #[trigger] v[i].net_bytes <= u64::MAX by {
        if i < a.len() {
            assert(v[i] == a[i]);
            assert(adds.contains(adds[i]));
            lemma_collect_contains(d.added.len() as int, sized_rule(d.added, s), adds[i]);
        } else if i < a.len() + b.len() {
            let k = i - a.len();
            assert(v[i] == b[k]);
            assert(dels.contains(dels[k]));
            lemma_collect_contains(d.removed.len() as int, sized_rule(d.removed, t), dels[k]);
        } else if i < a.len() + b.len() + c.len() {
            let k = i - a.len() - b.len();
            assert(v[i] == c[k]);
            assert(c.contains(c[k]));
            lemma_collect_contains(n, rule, c[k]);
        } else {
            assert(v[i] == e[i - a.len() - b.len() - c.len()]);
        }
    }
}

/// Whether the totals of a comparison can be held.
pub fn can_analyze(d: &Diff, src_m: &Manifest, dst_m: &Manifest) -> (r: bool)
    ensures
        r == countable(d@, src_m@, dst_m@),
{
    let ghost (s, t) = (src_m@, dst_m@);
    let src = files(src_m);
    let dst = files(dst_m);
    let src_index = PathIndex::build(&src);
    let dst_index = PathIndex::build(&dst);
    let adds = size_files(&d.added, &src, &src_index, Ghost(s));
    let dels = size_files(&d.removed, &dst, &dst_index, Ghost(t));
    let sh = gather_shares(d, &adds, &dels, &src, &src_index, &dst, &dst_index, Ghost(s), Ghost(t));
    let ghost v = folder_shares(d@, s, t);
    proof {
        assert(ints(sh.net_bytes@) =~= net_bytes_column(v));
        lemma_share_sizes(d@, s, t);
        assert forall|i: int| 0 <= i < v.len() implies -u64::MAX <= #[trigger] net_bytes_column(v)[i]
            <= u64::MAX by {
            assert(-u64::MAX <= v[i].net_bytes <= u64::MAX);
        }
    }
    let added = added_sizes(&d.added, &src, &src_index, Ghost(s));
    let del_bytes = entry_bytes(&dels);
    let dst_sizes = sizes(&dst, &dst_index, Ghost(t));
    if sh.folder.len() as u64 > i64::MAX as u64 {
        return false;
    }
    let ghost names = folder_names(v);
    let g = group(&sh.folder);
    proof {
        assert(texts_view(sh.folder@) =~= names);
        lemma_bulk_fits(net_bytes_column(v));
    }
    let nets = shares(&g, &sh.net_bytes, Ghost(names));
    let mut fits = true;
    let mut k: usize = 0;
    assert(folder_rows(v).len() == nets@.len()) by {
        assert(as_ints(g.first@).len() == g.first@.len());
    }
    while k < nets.len()
        invariant
            names == folder_names(v),
            g.of(names),
            nets@.len() == g.first@.len(),
            folder_rows(v).len() == nets@.len(),
            forall|k: int|
                0 <= k < nets@.len() ==> #[trigger] nets@[k] == share_of(
                    names,
                    net_bytes_column(v),
                    names[g.first@[k] as int],
                ),
            0 <= k <= nets@.len(),
            fits == (forall|j: int|
                0 <= j < k ==> i64::MIN <= (#[trigger] folder_rows(v)[j]).net_bytes <= i64::MAX),
        decreases nets@.len() - k,
    {
        proof {
            assert(as_ints(g.first@)[k as int] == g.first@[k as int]);
            lemma_firsts(names, k as int, k as int);
            assert(folder_rows(v)[k as int].net_bytes == nets@[k as int]);
        }
        if nets[k] < i64::MIN as i128 || nets[k] > i64::MAX as i128 {
            fits = false;
        }
        k = k + 1;
    }
    fits && add_up(&added).is_some() && add_up(&del_bytes).is_some() && add_up(&dst_sizes).is_some()
}

fn sure_sum(v: &Vec<u64>) -> (r: u64)
    requires
        sum_of(Seq::new(v@.len(), |k: int| v@[k] as int)) <= u64::MAX,
    ensures
        r == sum_of(Seq::new(v@.len(), |k: int| v@[k] as int)),
{
    match add_up(v) {
        Some(n) => n,
        None => 0,
    }
}

/// Compute the conclusions from a classified difference and the two manifests it came from.
pub fn analyze(d: &Diff, src_m: &Manifest, dst_m: &Manifest) -> (c: Conclusions)
    requires
        countable(d@, src_m@, dst_m@),
    ensures
        c@ == concluded(d@, src_m@, dst_m@),
{
    let ghost (s, t) = (src_m@, dst_m@);
    let src = files(src_m);
    let dst = files(dst_m);
    let src_index = PathIndex::build(&src);
    let dst_index = PathIndex::build(&dst);
    let adds = size_files(&d.added, &src, &src_index, Ghost(s));
    let dels = size_files(&d.removed, &dst, &dst_index, Ghost(t));
    let ghost dv = sized_files(d@.removed, t);
    let added = added_sizes(&d.added, &src, &src_index, Ghost(s));
    let del_bytes = entry_bytes(&dels);
    let src_sizes = sizes(&src, &src_index, Ghost(s));
    let dst_sizes = sizes(&dst, &dst_index, Ghost(t));
    proof {
        assert(file_sizes(t).len() == dst_sizes@.len());
    }
    let lost = find_orphans(&dels, src_m);
    let lost_bytes = entry_bytes(&lost);
    proof {
        assert forall|i: int| 0 <= i < dv.len() implies (#[trigger] dv[i]).bytes >= 0 by {
            assert(dv[i] == dels@[i].value());
        }
        lemma_part_bytes(dv, orphan_rule(dv, s), dv.len() as int);
    }
    let unique: u64 = count_unique(&lost, &src_sizes, Ghost(s));
    let sh = gather_shares(d, &adds, &dels, &src, &src_index, &dst, &dst_index, Ghost(s), Ghost(t));
    proof {
        lemma_simple(d@, s, t);
        lemma_share_sizes(d@, s, t);
        let v = folder_shares(d@, s, t);
        assert forall|i: int| 0 <= i < v.len() implies -u64::MAX <= #[trigger] net_bytes_column(v)[i]
            <= u64::MAX by {
            assert(-u64::MAX <= v[i].net_bytes <= u64::MAX);
        }
        lemma_bulk_fits(net_bytes_column(v));
    }
    let sorted_adds = sort_largest(&adds);
    let sorted_dels = sort_largest(&dels);
    Conclusions {
        deleted_files: dels.len() as u64,
        deleted_bytes: sure_sum(&del_bytes),
        dest_files: dst_sizes.len() as u64,
        dest_bytes: sure_sum(&dst_sizes),
        deleted_subtrees: find_subtrees(&d.removed, &dels),
        orphan_deletes: sort_largest(&lost),
        orphan_bytes: sure_sum(&lost_bytes),
        orphan_unique_size: unique,
        added: d.added.len(),
        added_bytes: sure_sum(&added),
        moved: d.moved.len(),
        changed: d.changed.len(),
        refreshed: d.touched.len(),
        linked: d.to_link.len(),
        unchanged: d.unchanged,
        empty_adds: count_empty(&adds),
        empty_removes: count_empty(&dels),
        folders: folder_table(&sh, Ghost(folder_shares(d@, s, t))),
        junk: junk_table(&d.removed, &d.added),
        largest_adds: keep_top(&sorted_adds, TOP_N),
        largest_deletes: keep_top(&sorted_dels, TOP_N),
        delete_ext_histogram: extension_table(&dels),
    }
}

} // verus!
