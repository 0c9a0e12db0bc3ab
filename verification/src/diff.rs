//! Compare a source and destination tree into actions: added / removed / changed / moved /
//! unchanged. Content-identical files that are new on one side and extra on the other are moves.
//!
//! Only files whose size appears on both the add and the remove side ("contested") can be moves,
//! so of those two sides nothing else is ever hashed.
//!
//! Comparing does no I/O. [`hash_requests`] says which files have to be hashed; [`diff`] takes
//! what came of hashing them. A file that could not be read does not stop the comparison: a
//! move-candidate falls back to a plain copy/delete, a comparison by content falls back to
//! "changed", and each such case is recorded in [`Diff::issues`].
use vstd::prelude::*;

use std::collections::HashSet;

use crate::collect::collect;
use crate::hash::{Digest, HashOutcome, HashV, hash_view};
use crate::links::{Resolution, desired, desired_target, resolution_view};
use crate::manifest::{Entry, EntryV, Kind, Manifest, Mtime, entries_view, leader, leaders, opt_int, rels, total_nanos};
use crate::moves::{digests, pair_up, partner};
use crate::order::{Item, PathIndex, PathList, as_ints, by_path, last_at, lemma_last_at, lemma_values_add, lemma_values_push, sort_ascending, sort_items, sorted_with, values};
use crate::paths::{FsPath, PathV, SpelledV, bare, lemma_paths_add, lemma_paths_push, named_view, paths_view};
use crate::text::{dec, lemma_texts_add, lemma_texts_push, opt_text, push_dec, push_spelled, show_spelled, texts_view, utf8_lossy};

verus! {

// ── what a comparison yields ─────────────────────────────────────────────────

/// A single-path difference, with the entry's kind, so the planner knows how to realize it.
#[derive(Debug, PartialEq, Eq)]
pub struct Change {
    pub rel: FsPath,
    pub kind: Kind,
}

/// A content-identical file currently at `from` on the destination that should live at `to`
/// (its path in the source): a rename, not a copy.
#[derive(Debug, PartialEq, Eq)]
pub struct Move {
    pub from: FsPath,
    pub to: FsPath,
}

/// A hard link to create at the destination: `name` becomes another name for `leader`'s inode.
/// The content is written once, via the leader, and never copied for `name`.
#[derive(Debug, PartialEq, Eq)]
pub struct Link {
    pub leader: FsPath,
    pub name: FsPath,
}

/// The value of a [`Change`].
pub struct ChangeV {
    pub rel: PathV,
    /// How the path is spelled.
    pub text: Seq<u8>,
    pub kind: Kind,
}

/// The value of a [`Move`].
pub struct MoveV {
    pub from: PathV,
    pub to: PathV,
    /// How the two paths are spelled.
    pub from_text: Seq<u8>,
    pub to_text: Seq<u8>,
}

/// The value of a [`Link`].
pub struct LinkV {
    pub leader: PathV,
    pub name: PathV,
    /// How the two paths are spelled.
    pub leader_text: Seq<u8>,
    pub name_text: Seq<u8>,
}

impl Item for Change {
    type Value = ChangeV;

    open spec fn value(&self) -> ChangeV {
        ChangeV { rel: self.rel@, text: self.rel.spelled(), kind: self.kind }
    }

    fn dup(&self) -> (r: Change) {
        self.clone()
    }
}

impl Clone for Change {
    fn clone(&self) -> (r: Change)
        ensures
            r.value() == self.value(),
    {
        Change { rel: self.rel.clone(), kind: self.kind }
    }
}

impl Item for Move {
    type Value = MoveV;

    open spec fn value(&self) -> MoveV {
        MoveV {
            from: self.from@,
            to: self.to@,
            from_text: self.from.spelled(),
            to_text: self.to.spelled(),
        }
    }

    fn dup(&self) -> (r: Move) {
        self.clone()
    }
}

impl Clone for Move {
    fn clone(&self) -> (r: Move)
        ensures
            r.value() == self.value(),
    {
        Move { from: self.from.clone(), to: self.to.clone() }
    }
}

impl Item for Link {
    type Value = LinkV;

    open spec fn value(&self) -> LinkV {
        LinkV {
            leader: self.leader@,
            name: self.name@,
            leader_text: self.leader.spelled(),
            name_text: self.name.spelled(),
        }
    }

    fn dup(&self) -> (r: Link) {
        self.clone()
    }
}

impl Clone for Link {
    fn clone(&self) -> (r: Link)
        ensures
            r.value() == self.value(),
    {
        Link { leader: self.leader.clone(), name: self.name.clone() }
    }
}

/// The paths of changes.
pub open spec fn change_paths(c: Seq<ChangeV>) -> Seq<PathV> {
    Seq::new(c.len(), |i: int| c[i].rel)
}

/// Some change in a list is of this path and kind.
pub open spec fn has_change(c: Seq<ChangeV>, p: PathV, kind: Kind) -> bool {
    exists|k: int| 0 <= k < c.len() && (#[trigger] c[k]).rel == p && c[k].kind == kind
}

/// Some move in a list leads from the one path to the other.
pub open spec fn has_move(m: Seq<MoveV>, from: PathV, to: PathV) -> bool {
    exists|k: int| 0 <= k < m.len() && (#[trigger] m[k]).from == from && m[k].to == to
}

/// Some link in a list makes the one path a name of the other's file.
pub open spec fn has_link(l: Seq<LinkV>, leader: PathV, name: PathV) -> bool {
    exists|k: int| 0 <= k < l.len() && (#[trigger] l[k]).leader == leader && l[k].name == name
}

/// The paths that moves lead to.
pub open spec fn move_targets(m: Seq<MoveV>) -> Seq<PathV> {
    Seq::new(m.len(), |i: int| m[i].to)
}

/// The names that links create.
pub open spec fn link_names(l: Seq<LinkV>) -> Seq<PathV> {
    Seq::new(l.len(), |i: int| l[i].name)
}

impl PathList for Vec<Change> {
    open spec fn paths(&self) -> Seq<PathV> {
        change_paths(values(self@))
    }

    fn count(&self) -> (n: usize) {
        self.len()
    }

    fn path_at(&self, i: usize) -> (p: &FsPath) {
        &self[i].rel
    }
}

impl PathList for Vec<Move> {
    open spec fn paths(&self) -> Seq<PathV> {
        move_targets(values(self@))
    }

    fn count(&self) -> (n: usize) {
        self.len()
    }

    fn path_at(&self, i: usize) -> (p: &FsPath) {
        &self[i].to
    }
}

impl PathList for Vec<Link> {
    open spec fn paths(&self) -> Seq<PathV> {
        link_names(values(self@))
    }

    fn count(&self) -> (n: usize) {
        self.len()
    }

    fn path_at(&self, i: usize) -> (p: &FsPath) {
        &self[i].name
    }
}

/// Changes in path order.
pub open spec fn sorted_changes(c: Seq<ChangeV>) -> Seq<ChangeV> {
    sorted_with(c, change_paths(c), by_path())
}

/// Moves in the order of the paths they lead to.
pub open spec fn sorted_moves(m: Seq<MoveV>) -> Seq<MoveV> {
    sorted_with(m, move_targets(m), by_path())
}

/// Links in the order of the names they create.
pub open spec fn sorted_links(l: Seq<LinkV>) -> Seq<LinkV> {
    sorted_with(l, link_names(l), by_path())
}

/// The classified difference between a source and a destination tree.
#[derive(Debug)]
pub struct Diff {
    /// In the source, missing at the destination: copy.
    pub added: Vec<Change>,
    /// Extra at the destination, not in the source: delete.
    pub removed: Vec<Change>,
    /// Present on both sides but differing: update.
    pub changed: Vec<Change>,
    /// Content-identical relocation: rename at the destination.
    pub moved: Vec<Move>,
    /// Content-identical (hash-verified) but with another modification time: a metadata refresh at
    /// the destination, never a re-copy.
    pub touched: Vec<Change>,
    /// Hard links to (re)create: later names of source files whose destination linkage is
    /// missing, wrong, or invalidated because the first name is written anew.
    pub to_link: Vec<Link>,
    pub unchanged: usize,
    /// Paths of unchanged entries, only listed on request: on a large tree this list can dwarf
    /// every other.
    pub unchanged_paths: Vec<FsPath>,
    /// Files that could not be examined as intended; each message names its side.
    pub issues: Vec<String>,
    /// A source file could not be read while classifying. The view of the source is then
    /// incomplete in a way that can endanger deletions: a would-be move degrades to copy and
    /// delete, so a destination file due for deletion might be the unreadable file's content under
    /// a new name.
    pub source_unreadable: bool,
    /// Source files whose content was denied to this user while classifying.
    pub denied_source: Vec<FsPath>,
    /// Destination files whose content was denied to this user while classifying.
    pub denied_dest: Vec<FsPath>,
}

/// The value of a [`Diff`].
pub struct DiffV {
    pub added: Seq<ChangeV>,
    pub removed: Seq<ChangeV>,
    pub changed: Seq<ChangeV>,
    pub moved: Seq<MoveV>,
    pub touched: Seq<ChangeV>,
    pub to_link: Seq<LinkV>,
    pub unchanged: int,
    pub unchanged_paths: Seq<SpelledV>,
    pub issues: Seq<Seq<char>>,
    pub source_unreadable: bool,
    pub denied_source: Seq<SpelledV>,
    pub denied_dest: Seq<SpelledV>,
}

impl View for Diff {
    type V = DiffV;

    open spec fn view(&self) -> DiffV {
        DiffV {
            added: values(self.added@),
            removed: values(self.removed@),
            changed: values(self.changed@),
            moved: values(self.moved@),
            touched: values(self.touched@),
            to_link: values(self.to_link@),
            unchanged: self.unchanged as int,
            unchanged_paths: named_view(self.unchanged_paths@),
            issues: texts_view(self.issues@),
            source_unreadable: self.source_unreadable,
            denied_source: named_view(self.denied_source@),
            denied_dest: named_view(self.denied_dest@),
        }
    }
}

/// The difference that says nothing.
pub open spec fn no_diff() -> DiffV {
    DiffV {
        added: Seq::empty(),
        removed: Seq::empty(),
        changed: Seq::empty(),
        moved: Seq::empty(),
        touched: Seq::empty(),
        to_link: Seq::empty(),
        unchanged: 0,
        unchanged_paths: Seq::empty(),
        issues: Seq::empty(),
        source_unreadable: false,
        denied_source: Seq::empty(),
        denied_dest: Seq::empty(),
    }
}

impl Default for Diff {
    fn default() -> (r: Self)
        ensures
            r@ == no_diff(),
    {
        let r = Diff {
            added: Vec::new(),
            removed: Vec::new(),
            changed: Vec::new(),
            moved: Vec::new(),
            touched: Vec::new(),
            to_link: Vec::new(),
            unchanged: 0,
            unchanged_paths: Vec::new(),
            issues: Vec::new(),
            source_unreadable: false,
            denied_source: Vec::new(),
            denied_dest: Vec::new(),
        };
        proof {
            assert(r@.added =~= no_diff().added);
            assert(r@.removed =~= no_diff().removed);
            assert(r@.changed =~= no_diff().changed);
            assert(r@.moved =~= no_diff().moved);
            assert(r@.touched =~= no_diff().touched);
            assert(r@.to_link =~= no_diff().to_link);
            assert(r@.unchanged_paths =~= no_diff().unchanged_paths);
            assert(r@.issues =~= no_diff().issues);
            assert(r@.denied_source =~= no_diff().denied_source);
            assert(r@.denied_dest =~= no_diff().denied_dest);
        }
        r
    }
}

// ── which entries face each other ────────────────────────────────────────────

/// The destination entry at the path of source entry `i`.
pub open spec fn place(s: Seq<EntryV>, d: Seq<EntryV>, i: int) -> Option<int> {
    last_at(rels(d), s[i].rel)
}

/// Source entry `i` is a later name of a file that has an earlier one.
pub open spec fn is_follower(s: Seq<EntryV>, i: int) -> bool {
    leader(s, i) is Some
}

/// There is no destination entry of its kind at the path of source entry `i`.
pub open spec fn is_new(s: Seq<EntryV>, d: Seq<EntryV>, i: int) -> bool {
    match place(s, d, i) {
        Some(j) => s[i].kind != d[j].kind,
        None => true,
    }
}

/// The destination entry that source entry `i` is compared with: the one at its path, where the
/// kinds agree. Later names of a file are never compared.
pub open spec fn counterpart(s: Seq<EntryV>, d: Seq<EntryV>, i: int) -> Option<int> {
    if is_follower(s, i) || is_new(s, d, i) {
        None
    } else {
        place(s, d, i)
    }
}

/// The source has nothing at the path of destination entry `j`.
pub open spec fn is_extra(s: Seq<EntryV>, d: Seq<EntryV>, j: int) -> bool {
    !rels(s).contains(d[j].rel)
}

pub open spec fn add_file_rule(s: Seq<EntryV>, d: Seq<EntryV>) -> spec_fn(int) -> Option<int> {
    |i: int|
        if s[i].kind == Kind::File && !is_follower(s, i) && is_new(s, d, i) {
            Some(i)
        } else {
            None
        }
}

/// The source files that have to be brought to the destination, by position.
pub open spec fn add_files(s: Seq<EntryV>, d: Seq<EntryV>) -> Seq<int> {
    collect(s.len() as int, add_file_rule(s, d))
}

pub open spec fn clash_file_rule(s: Seq<EntryV>, d: Seq<EntryV>) -> spec_fn(int) -> Option<int> {
    |i: int|
        match place(s, d, i) {
            Some(j) => if !is_follower(s, i) && s[i].kind != d[j].kind && d[j].kind == Kind::File {
                Some(j)
            } else {
                None
            },
            None => None,
        }
}

pub open spec fn extra_file_rule(s: Seq<EntryV>, d: Seq<EntryV>) -> spec_fn(int) -> Option<int> {
    |j: int|
        if is_extra(s, d, j) && d[j].kind == Kind::File {
            Some(j)
        } else {
            None
        }
}

/// The destination files that have to go, by position: those where the source has another kind,
/// then those where it has nothing.
pub open spec fn rm_files(s: Seq<EntryV>, d: Seq<EntryV>) -> Seq<int> {
    collect(s.len() as int, clash_file_rule(s, d)) + collect(d.len() as int, extra_file_rule(s, d))
}

/// Some file of this size has to be brought, and some file of this size has to go.
pub open spec fn contested(s: Seq<EntryV>, d: Seq<EntryV>, size: u64) -> bool {
    &&& exists|k: int|
        0 <= k < add_files(s, d).len() && s[#[trigger] add_files(s, d)[k]].size == size
    &&& exists|k: int| 0 <= k < rm_files(s, d).len() && d[#[trigger] rm_files(s, d)[k]].size == size
}

pub open spec fn add_cand_rule(s: Seq<EntryV>, d: Seq<EntryV>) -> spec_fn(int) -> Option<int> {
    |k: int|
        if contested(s, d, s[add_files(s, d)[k]].size) {
            Some(k)
        } else {
            None
        }
}

/// The files to bring that can turn out to be moves, as positions in [`add_files`].
pub open spec fn add_cands(s: Seq<EntryV>, d: Seq<EntryV>) -> Seq<int> {
    collect(add_files(s, d).len() as int, add_cand_rule(s, d))
}

pub open spec fn rem_cand_rule(s: Seq<EntryV>, d: Seq<EntryV>) -> spec_fn(int) -> Option<int> {
    |k: int|
        if contested(s, d, d[rm_files(s, d)[k]].size) {
            Some(k)
        } else {
            None
        }
}

/// The files to remove that can turn out to be moves, as positions in [`rm_files`].
pub open spec fn rem_cands(s: Seq<EntryV>, d: Seq<EntryV>) -> Seq<int> {
    collect(rm_files(s, d).len() as int, rem_cand_rule(s, d))
}

/// Modification times within two seconds count as equal, which tolerates the coarse timestamps of
/// FAT filesystems. Where either side has none, it is not used to flag a change.
pub open spec fn mtime_near(a: Option<Mtime>, b: Option<Mtime>) -> bool {
    match (a, b) {
        (Some(x), Some(y)) => -2_000_000_000 <= total_nanos(x) - total_nanos(y) <= 2_000_000_000,
        _ => true,
    }
}

/// Two files at the same path have to be compared by content.
pub open spec fn by_content(se: EntryV, de: EntryV, eager: bool) -> bool {
    se.kind == Kind::File && se.size == de.size && (eager || !mtime_near(se.mtime, de.mtime))
}

/// Source entry `i` has to be hashed.
pub open spec fn needs_src(s: Seq<EntryV>, d: Seq<EntryV>, eager: bool, i: int) -> bool {
    ||| (counterpart(s, d, i) matches Some(j) && by_content(s[i], d[j], eager))
    ||| exists|k: int| 0 <= k < add_cands(s, d).len() && add_files(s, d)[#[trigger] add_cands(s, d)[k]] == i
}

/// Destination entry `j` has to be hashed.
pub open spec fn needs_dst(s: Seq<EntryV>, d: Seq<EntryV>, eager: bool, j: int) -> bool {
    ||| exists|i: int|
        0 <= i < s.len() && #[trigger] counterpart(s, d, i) == Some(j) && by_content(s[i], d[j], eager)
    ||| exists|k: int| 0 <= k < rem_cands(s, d).len() && rm_files(s, d)[#[trigger] rem_cands(s, d)[k]] == j
}

/// How the entries of two trees face each other.
struct Survey {
    /// For each source entry, the destination entry at its path.
    places: Vec<Option<usize>>,
    /// For each source entry, the first name of the file it is a later name of.
    leaders: Vec<Option<usize>>,
    /// For each destination entry, whether the source has nothing at its path.
    extra: Vec<bool>,
    add_files: Vec<usize>,
    rm_files: Vec<usize>,
    add_cands: Vec<usize>,
    rem_cands: Vec<usize>,
}

impl Survey {
    spec fn holds(&self, s: Seq<EntryV>, d: Seq<EntryV>) -> bool {
        &&& self.places@.len() == s.len()
        &&& forall|i: int| 0 <= i < s.len() ==> opt_int(#[trigger] self.places@[i]) == place(s, d, i)
        &&& forall|i: int|
            0 <= i < s.len() ==> (#[trigger] self.places@[i] matches Some(j) ==> j < d.len())
        &&& self.leaders@.len() == s.len()
        &&& forall|i: int| 0 <= i < s.len() ==> opt_int(#[trigger] self.leaders@[i]) == leader(s, i)
        &&& forall|i: int|
            0 <= i < s.len() ==> (#[trigger] self.leaders@[i] matches Some(j) ==> j < s.len())
        &&& self.extra@.len() == d.len()
        &&& forall|j: int| 0 <= j < d.len() ==> #[trigger] self.extra@[j] == is_extra(s, d, j)
        &&& as_ints(self.add_files@) == add_files(s, d)
        &&& as_ints(self.rm_files@) == rm_files(s, d)
        &&& as_ints(self.add_cands@) == add_cands(s, d)
        &&& as_ints(self.rem_cands@) == rem_cands(s, d)
        &&& forall|k: int| 0 <= k < self.add_files@.len() ==> #[trigger] self.add_files@[k] < s.len()
        &&& forall|k: int| 0 <= k < self.rm_files@.len() ==> #[trigger] self.rm_files@[k] < d.len()
        &&& forall|k: int|
            0 <= k < self.add_cands@.len() ==> #[trigger] self.add_cands@[k] < self.add_files@.len()
        &&& forall|k: int|
            0 <= k < self.rem_cands@.len() ==> #[trigger] self.rem_cands@[k] < self.rm_files@.len()
    }
}

proof fn lemma_as_ints_push(v: Seq<usize>, x: usize)
    ensures
        as_ints(v.push(x)) == as_ints(v).push(x as int),
{
    assert(as_ints(v.push(x)) =~= as_ints(v).push(x as int));
}

/// The positions of the entries of `list` at the paths of `of`.
fn locate(of: &Vec<Entry>, list: &Vec<Entry>) -> (r: Vec<Option<usize>>)
    ensures
        r@.len() == of@.len(),
        forall|i: int|
            0 <= i < of@.len() ==> opt_int(#[trigger] r@[i]) == last_at(
                rels(entries_view(list@)),
                entries_view(of@)[i].rel,
            ),
        forall|i: int| 0 <= i < of@.len() ==> (#[trigger] r@[i] matches Some(j) ==> j < list@.len()),
{
    let index = PathIndex::build(list);
    let mut r: Vec<Option<usize>> = Vec::new();
    let mut i: usize = 0;
    while i < of.len()
        invariant
            0 <= i <= of@.len(),
            r@.len() == i,
            index.indexes(list.paths()),
            forall|k: int|
                0 <= k < i ==> opt_int(#[trigger] r@[k]) == last_at(
                    rels(entries_view(list@)),
                    entries_view(of@)[k].rel,
                ),
            forall|k: int| 0 <= k < i ==> (#[trigger] r@[k] matches Some(j) ==> j < list@.len()),
        decreases of@.len() - i,
    {
        let found = index.find(list, &of[i].rel);
        assert(entries_view(of@)[i as int].rel == of@[i as int].rel@);
        r.push(found);
        i = i + 1;
    }
    r
}

/// Which files have to be brought and which have to go.
fn sides(src: &Vec<Entry>, dst: &Vec<Entry>, places: &Vec<Option<usize>>, lead: &Vec<Option<usize>>, extra: &Vec<bool>) -> (r: (Vec<usize>, Vec<usize>))
    requires
        ({
            let (s, d) = (entries_view(src@), entries_view(dst@));
            &&& places@.len() == s.len()
            &&& forall|i: int| 0 <= i < s.len() ==> opt_int(#[trigger] places@[i]) == place(s, d, i)
            &&& forall|i: int| 0 <= i < s.len() ==> (#[trigger] places@[i] matches Some(j) ==> j < d.len())
            &&& lead@.len() == s.len()
            &&& forall|i: int| 0 <= i < s.len() ==> opt_int(#[trigger] lead@[i]) == leader(s, i)
            &&& extra@.len() == d.len()
            &&& forall|j: int| 0 <= j < d.len() ==> #[trigger] extra@[j] == is_extra(s, d, j)
        }),
    ensures
        as_ints(r.0@) == add_files(entries_view(src@), entries_view(dst@)),
        as_ints(r.1@) == rm_files(entries_view(src@), entries_view(dst@)),
        forall|k: int| 0 <= k < r.0@.len() ==> #[trigger] r.0@[k] < src@.len(),
        forall|k: int| 0 <= k < r.1@.len() ==> #[trigger] r.1@[k] < dst@.len(),
{
    let ghost s = entries_view(src@);
    let ghost d = entries_view(dst@);
    let mut adds: Vec<usize> = Vec::new();
    let mut rms: Vec<usize> = Vec::new();
    let mut i: usize = 0;
    assert(as_ints(adds@) =~= collect(0, add_file_rule(s, d)));
    assert(as_ints(rms@) =~= collect(0, clash_file_rule(s, d)));
    while i < src.len()
        invariant
            s == entries_view(src@),
            d == entries_view(dst@),
            0 <= i <= src@.len(),
            places@.len() == s.len(),
            forall|i: int| 0 <= i < s.len() ==> opt_int(#[trigger] places@[i]) == place(s, d, i),
            forall|i: int| 0 <= i < s.len() ==> (#[trigger] places@[i] matches Some(j) ==> j < d.len()),
            lead@.len() == s.len(),
            forall|i: int| 0 <= i < s.len() ==> opt_int(#[trigger] lead@[i]) == leader(s, i),
            as_ints(adds@) == collect(i as int, add_file_rule(s, d)),
            as_ints(rms@) == collect(i as int, clash_file_rule(s, d)),
            forall|k: int| 0 <= k < adds@.len() ==> #[trigger] adds@[k] < src@.len(),
            forall|k: int| 0 <= k < rms@.len() ==> #[trigger] rms@[k] < dst@.len(),
        decreases src@.len() - i,
    {
        assert(s[i as int] == src@[i as int]@);
        let first_name = lead[i].is_none();
        let kind = src[i].kind;
        assert(first_name == !is_follower(s, i as int));
        match places[i] {
            Some(j) => {
                assert(d[j as int] == dst@[j as int]@);
                if first_name && kind != dst[j].kind {
                    if kind == Kind::File {
                        proof {
                            lemma_as_ints_push(adds@, i);
                        }
                        adds.push(i);
                    }
                    if dst[j].kind == Kind::File {
                        proof {
                            lemma_as_ints_push(rms@, j);
                        }
                        rms.push(j);
                    }
                }
            },
            None => {
                if first_name && kind == Kind::File {
                    proof {
                        lemma_as_ints_push(adds@, i);
                    }
                    adds.push(i);
                }
            },
        }
        i = i + 1;
    }
    let ghost clashes = as_ints(rms@);
    let mut j: usize = 0;
    assert(as_ints(rms@) =~= clashes + collect(0, extra_file_rule(s, d)));
    while j < dst.len()
        invariant
            d == entries_view(dst@),
            0 <= j <= dst@.len(),
            extra@.len() == d.len(),
            forall|j: int| 0 <= j < d.len() ==> #[trigger] extra@[j] == is_extra(s, d, j),
            as_ints(rms@) == clashes + collect(j as int, extra_file_rule(s, d)),
            forall|k: int| 0 <= k < rms@.len() ==> #[trigger] rms@[k] < dst@.len(),
        decreases dst@.len() - j,
    {
        assert(d[j as int] == dst@[j as int]@);
        if extra[j] && dst[j].kind == Kind::File {
            proof {
                lemma_as_ints_push(rms@, j);
            }
            rms.push(j);
        }
        j = j + 1;
        assert(as_ints(rms@) =~= clashes + collect(j as int, extra_file_rule(s, d)));
    }
    (adds, rms)
}

fn size_set(entries: &Vec<Entry>, of: &Vec<usize>) -> (r: HashSet<u64>)
    requires
        forall|k: int| 0 <= k < of@.len() ==> #[trigger] of@[k] < entries@.len(),
    ensures
        forall|z: u64|
            #[trigger] r@.contains(z) <==> exists|k: int|
                0 <= k < of@.len() && entries@[#[trigger] of@[k] as int].size == z,
{
    broadcast use vstd::std_specs::hash::group_hash_axioms;

    let mut r: HashSet<u64> = HashSet::new();
    let mut k: usize = 0;
    while k < of.len()
        invariant
            forall|k: int| 0 <= k < of@.len() ==> #[trigger] of@[k] < entries@.len(),
            0 <= k <= of@.len(),
            forall|z: u64|
                #[trigger] r@.contains(z) <==> exists|q: int|
                    0 <= q < k && entries@[#[trigger] of@[q] as int].size == z,
        decreases of@.len() - k,
    {
        let ghost before = r@;
        let z: u64 = entries[of[k]].size;
        r.insert(z);
        proof {
            assert forall|y: u64| #[trigger] r@.contains(y) <==> exists|q: int|
                0 <= q < k + 1 && entries@[#[trigger] of@[q] as int].size == y by {
                if r@.contains(y) {
                    if before.contains(y) {
                        let q = choose|q: int| 0 <= q < k && entries@[#[trigger] of@[q] as int].size == y;
                        assert(0 <= q < k + 1 && entries@[of@[q] as int].size == y);
                    } else {
                        assert(entries@[of@[k as int] as int].size == y);
                    }
                }
                if exists|q: int| 0 <= q < k + 1 && entries@[#[trigger] of@[q] as int].size == y {
                    let q = choose|q: int| 0 <= q < k + 1 && entries@[#[trigger] of@[q] as int].size == y;
                    if q < k {
                        assert(before.contains(y));
                    }
                }
            }
        }
        k = k + 1;
    }
    r
}

/// The positions in `of` whose file has a contested size.
fn candidates(entries: &Vec<Entry>, of: &Vec<usize>, sizes: &HashSet<u64>, other: &HashSet<u64>, rule: Ghost<spec_fn(int) -> Option<int>>) -> (r: Vec<usize>)
    requires
        forall|k: int| 0 <= k < of@.len() ==> #[trigger] of@[k] < entries@.len(),
        forall|k: int|
            0 <= k < of@.len() ==> #[trigger] rule@(k) == if sizes@.contains(
                entries@[of@[k] as int].size,
            ) && other@.contains(entries@[of@[k] as int].size) {
                Some(k)
            } else {
                None
            },
    ensures
        as_ints(r@) == collect(of@.len() as int, rule@),
        forall|k: int| 0 <= k < r@.len() ==> #[trigger] r@[k] < of@.len(),
{
    broadcast use vstd::std_specs::hash::group_hash_axioms;

    let mut r: Vec<usize> = Vec::new();
    let mut k: usize = 0;
    assert(as_ints(r@) =~= collect(0, rule@));
    while k < of.len()
        invariant
            forall|k: int| 0 <= k < of@.len() ==> #[trigger] of@[k] < entries@.len(),
            forall|k: int|
                0 <= k < of@.len() ==> #[trigger] rule@(k) == if sizes@.contains(
                    entries@[of@[k] as int].size,
                ) && other@.contains(entries@[of@[k] as int].size) {
                    Some(k)
                } else {
                    None
                },
            0 <= k <= of@.len(),
            as_ints(r@) == collect(k as int, rule@),
            forall|q: int| 0 <= q < r@.len() ==> #[trigger] r@[q] < of@.len(),
        decreases of@.len() - k,
    {
        let z: u64 = entries[of[k]].size;
        let yes = sizes.contains(&z) && other.contains(&z);
        assert(rule@(k as int) == if yes {
            Some(k as int)
        } else {
            None
        });
        if yes {
            proof {
                lemma_as_ints_push(r@, k);
            }
            r.push(k);
        }
        k = k + 1;
    }
    r
}

fn survey(src: &Vec<Entry>, dst: &Vec<Entry>) -> (r: Survey)
    ensures
        r.holds(entries_view(src@), entries_view(dst@)),
{
    let ghost s = entries_view(src@);
    let ghost d = entries_view(dst@);
    let places = locate(src, dst);
    let back = locate(dst, src);
    let lead = leaders(src);
    let mut extra: Vec<bool> = Vec::new();
    let mut j: usize = 0;
    while j < dst.len()
        invariant
            s == entries_view(src@),
            d == entries_view(dst@),
            0 <= j <= dst@.len(),
            back@.len() == dst@.len(),
            forall|k: int|
                0 <= k < dst@.len() ==> opt_int(#[trigger] back@[k]) == last_at(rels(s), d[k].rel),
            extra@.len() == j,
            forall|k: int| 0 <= k < j ==> #[trigger] extra@[k] == is_extra(s, d, k),
        decreases dst@.len() - j,
    {
        proof {
            lemma_last_at(rels(s), d[j as int].rel);
        }
        extra.push(back[j].is_none());
        j = j + 1;
    }
    let (adds, rms) = sides(src, dst, &places, &lead, &extra);
    let add_sizes = size_set(src, &adds);
    let rem_sizes = size_set(dst, &rms);
    proof {
        assert forall|z: u64| contested(s, d, z) == (add_sizes@.contains(z) && rem_sizes@.contains(z)) by {
            if add_sizes@.contains(z) {
                let k = choose|k: int| 0 <= k < adds@.len() && src@[#[trigger] adds@[k] as int].size == z;
                assert(add_files(s, d)[k] == adds@[k]);
                assert(s[add_files(s, d)[k]].size == z);
            }
            if rem_sizes@.contains(z) {
                let k = choose|k: int| 0 <= k < rms@.len() && dst@[#[trigger] rms@[k] as int].size == z;
                assert(rm_files(s, d)[k] == rms@[k]);
                assert(d[rm_files(s, d)[k]].size == z);
            }
            if contested(s, d, z) {
                let k = choose|k: int|
                    0 <= k < add_files(s, d).len() && s[#[trigger] add_files(s, d)[k]].size == z;
                assert(as_ints(adds@)[k] == adds@[k]);
                assert(src@[adds@[k] as int].size == z);
                let q = choose|q: int|
                    0 <= q < rm_files(s, d).len() && d[#[trigger] rm_files(s, d)[q]].size == z;
                assert(as_ints(rms@)[q] == rms@[q]);
                assert(dst@[rms@[q] as int].size == z);
            }
        }
        assert forall|k: int| 0 <= k < adds@.len() implies #[trigger] add_cand_rule(s, d)(k) == if add_sizes@.contains(
            src@[adds@[k] as int].size,
        ) && rem_sizes@.contains(src@[adds@[k] as int].size) {
            Some(k)
        } else {
            None
        } by {
            assert(as_ints(adds@)[k] == adds@[k]);
            assert(contested(s, d, s[adds@[k] as int].size) == (add_sizes@.contains(src@[adds@[k] as int].size) && rem_sizes@.contains(src@[adds@[k] as int].size)));
        }
        assert forall|k: int| 0 <= k < rms@.len() implies #[trigger] rem_cand_rule(s, d)(k) == if rem_sizes@.contains(
            dst@[rms@[k] as int].size,
        ) && add_sizes@.contains(dst@[rms@[k] as int].size) {
            Some(k)
        } else {
            None
        } by {
            assert(as_ints(rms@)[k] == rms@[k]);
            assert(contested(s, d, d[rms@[k] as int].size) == (add_sizes@.contains(dst@[rms@[k] as int].size) && rem_sizes@.contains(dst@[rms@[k] as int].size)));
        }
    }
    let acs = candidates(src, &adds, &add_sizes, &rem_sizes, Ghost(add_cand_rule(s, d)));
    let rcs = candidates(dst, &rms, &rem_sizes, &add_sizes, Ghost(rem_cand_rule(s, d)));
    proof {
        assert(add_files(s, d).len() == adds@.len());
        assert(rm_files(s, d).len() == rms@.len());
    }
    Survey { places, leaders: lead, extra, add_files: adds, rm_files: rms, add_cands: acs, rem_cands: rcs }
}

/// Whether two modification times count as equal.
pub fn mtime_close(a: Option<Mtime>, b: Option<Mtime>) -> (r: bool)
    ensures
        r == mtime_near(a, b),
{
    match (a, b) {
        (Some(x), Some(y)) => {
            let nx: i128 = (x.secs as i128) * 1_000_000_000 + (x.nanos as i128);
            let ny: i128 = (y.secs as i128) * 1_000_000_000 + (y.nanos as i128);
            let delta: i128 = nx - ny;
            -2_000_000_000 <= delta && delta <= 2_000_000_000
        },
        _ => true,
    }
}

fn wants_content(se: &Entry, de: &Entry, eager: bool) -> (r: bool)
    ensures
        r == by_content(se@, de@, eager),
{
    se.kind == Kind::File && se.size == de.size && (eager || !mtime_close(se.mtime, de.mtime))
}

fn flags(n: usize) -> (r: Vec<bool>)
    ensures
        r@.len() == n,
        forall|k: int| 0 <= k < n ==> !#[trigger] r@[k],
{
    let mut r: Vec<bool> = Vec::new();
    let mut z: usize = 0;
    while z < n
        invariant
            0 <= z <= n,
            r@.len() == z,
            forall|k: int| 0 <= k < z ==> !#[trigger] r@[k],
        decreases n - z,
    {
        r.push(false);
        z = z + 1;
    }
    r
}

/// Raises the flags of the entries `of[c]` for every candidate `c`.
fn raise(r: &mut Vec<bool>, of: &Vec<usize>, cands: &Vec<usize>)
    requires
        forall|k: int| 0 <= k < of@.len() ==> #[trigger] of@[k] < old(r)@.len(),
        forall|k: int| 0 <= k < cands@.len() ==> #[trigger] cands@[k] < of@.len(),
    ensures
        final(r)@.len() == old(r)@.len(),
        forall|i: int|
            0 <= i < old(r)@.len() ==> (#[trigger] final(r)@[i] <==> old(r)@[i] || exists|k: int|
                0 <= k < cands@.len() && of@[#[trigger] cands@[k] as int] == i),
{
    let ghost start = r@;
    let mut c: usize = 0;
    while c < cands.len()
        invariant
            r@.len() == start.len(),
            forall|k: int| 0 <= k < of@.len() ==> #[trigger] of@[k] < r@.len(),
            forall|k: int| 0 <= k < cands@.len() ==> #[trigger] cands@[k] < of@.len(),
            0 <= c <= cands@.len(),
            forall|i: int|
                0 <= i < r@.len() ==> (#[trigger] r@[i] <==> start[i] || exists|k: int|
                    0 <= k < c && of@[#[trigger] cands@[k] as int] == i),
        decreases cands@.len() - c,
    {
        let ghost before = r@;
        let x: usize = of[cands[c]];
        r.set(x, true);
        proof {
            assert forall|i: int| 0 <= i < r@.len() implies (#[trigger] r@[i] <==> start[i] || exists|k: int|
                0 <= k < c + 1 && of@[#[trigger] cands@[k] as int] == i) by {
                if i == x {
                    assert(of@[cands@[c as int] as int] == i);
                } else {
                    assert(r@[i] == before[i]);
                    if before[i] && !start[i] {
                        let k = choose|k: int| 0 <= k < c && of@[#[trigger] cands@[k] as int] == i;
                        assert(0 <= k < c + 1 && of@[cands@[k] as int] == i);
                    }
                    if exists|k: int| 0 <= k < c + 1 && of@[#[trigger] cands@[k] as int] == i {
                        let k = choose|k: int| 0 <= k < c + 1 && of@[#[trigger] cands@[k] as int] == i;
                        assert(k < c);
                    }
                }
            }
        }
        c = c + 1;
    }
}

/// Which source and which destination entries have to be hashed before the trees can be compared.
pub fn hash_requests(src_m: &Manifest, dst_m: &Manifest, eager: bool) -> (r: (Vec<bool>, Vec<bool>))
    ensures
        r.0@.len() == src_m@.len(),
        r.1@.len() == dst_m@.len(),
        forall|i: int|
            0 <= i < src_m@.len() ==> #[trigger] r.0@[i] == needs_src(src_m@, dst_m@, eager, i),
        forall|j: int|
            0 <= j < dst_m@.len() ==> #[trigger] r.1@[j] == needs_dst(src_m@, dst_m@, eager, j),
{
    let src = src_m.entries();
    let dst = dst_m.entries();
    let ghost s = src_m@;
    let ghost d = dst_m@;
    let sv = survey(src, dst);
    let mut fs = flags(src.len());
    let mut fd = flags(dst.len());
    let mut i: usize = 0;
    while i < src.len()
        invariant
            s == entries_view(src@),
            d == entries_view(dst@),
            sv.holds(s, d),
            0 <= i <= src@.len(),
            fs@.len() == s.len(),
            fd@.len() == d.len(),
            forall|k: int|
                0 <= k < s.len() ==> (#[trigger] fs@[k] <==> k < i && (counterpart(s, d, k) matches Some(
                    j,
                ) && by_content(s[k], d[j], eager))),
            forall|j: int|
                0 <= j < d.len() ==> (#[trigger] fd@[j] <==> exists|k: int|
                    0 <= k < i && #[trigger] counterpart(s, d, k) == Some(j) && by_content(
                        s[k],
                        d[j],
                        eager,
                    )),
        decreases src@.len() - i,
    {
        assert(s[i as int] == src@[i as int]@);
        let ghost bd = fd@;
        let first_name = sv.leaders[i].is_none();
        assert(first_name == !is_follower(s, i as int));
        let ghost mut hit: int = -1;
        if let Some(j) = sv.places[i] {
            assert(d[j as int] == dst@[j as int]@);
            if first_name && src[i].kind == dst[j].kind && wants_content(&src[i], &dst[j], eager) {
                fs.set(i, true);
                fd.set(j, true);
                proof {
                    hit = j as int;
                }
            }
        }
        proof {
            assert((hit >= 0) == (counterpart(s, d, i as int) matches Some(j) && by_content(
                s[i as int],
                d[j],
                eager,
            )));
            assert(hit >= 0 ==> counterpart(s, d, i as int) == Some(hit));
            assert forall|j: int| 0 <= j < d.len() implies (#[trigger] fd@[j] <==> exists|k: int|
                0 <= k < i + 1 && #[trigger] counterpart(s, d, k) == Some(j) && by_content(
                    s[k],
                    d[j],
                    eager,
                )) by {
                if j == hit {
                    assert(counterpart(s, d, i as int) == Some(j));
                } else {
                    assert(fd@[j] == bd[j]);
                    if bd[j] {
                        let k = choose|k: int|
                            0 <= k < i && #[trigger] counterpart(s, d, k) == Some(j) && by_content(
                                s[k],
                                d[j],
                                eager,
                            );
                        assert(0 <= k < i + 1 && counterpart(s, d, k) == Some(j));
                    }
                    if exists|k: int|
                        0 <= k < i + 1 && #[trigger] counterpart(s, d, k) == Some(j) && by_content(
                            s[k],
                            d[j],
                            eager,
                        ) {
                        let k = choose|k: int|
                            0 <= k < i + 1 && #[trigger] counterpart(s, d, k) == Some(j) && by_content(
                                s[k],
                                d[j],
                                eager,
                            );
                        assert(k < i);
                    }
                }
            }
        }
        i = i + 1;
    }
    let ghost fs1 = fs@;
    let ghost fd1 = fd@;
    raise(&mut fs, &sv.add_files, &sv.add_cands);
    raise(&mut fd, &sv.rm_files, &sv.rem_cands);
    proof {
        assert forall|i: int| 0 <= i < s.len() implies #[trigger] fs@[i] == needs_src(s, d, eager, i) by {
            assert(fs1[i] <==> (counterpart(s, d, i) matches Some(j) && by_content(s[i], d[j], eager)));
            if exists|k: int| 0 <= k < sv.add_cands@.len() && sv.add_files@[#[trigger] sv.add_cands@[k] as int] == i {
                let k = choose|k: int|
                    0 <= k < sv.add_cands@.len() && sv.add_files@[#[trigger] sv.add_cands@[k] as int] == i;
                assert(as_ints(sv.add_cands@)[k] == sv.add_cands@[k]);
                assert(as_ints(sv.add_files@)[sv.add_cands@[k] as int] == i);
                assert(add_files(s, d)[add_cands(s, d)[k]] == i);
            }
            if exists|k: int| 0 <= k < add_cands(s, d).len() && add_files(s, d)[#[trigger] add_cands(s, d)[k]] == i {
                let k = choose|k: int|
                    0 <= k < add_cands(s, d).len() && add_files(s, d)[#[trigger] add_cands(s, d)[k]] == i;
                assert(as_ints(sv.add_cands@)[k] == sv.add_cands@[k]);
                assert(as_ints(sv.add_files@)[sv.add_cands@[k] as int] == sv.add_files@[sv.add_cands@[k] as int]);
                assert(sv.add_files@[sv.add_cands@[k] as int] == i);
            }
        }
        assert forall|j: int| 0 <= j < d.len() implies #[trigger] fd@[j] == needs_dst(s, d, eager, j) by {
            assert(fd1[j] <==> exists|i: int|
                0 <= i < s.len() && #[trigger] counterpart(s, d, i) == Some(j) && by_content(
                    s[i],
                    d[j],
                    eager,
                ));
            if exists|k: int| 0 <= k < sv.rem_cands@.len() && sv.rm_files@[#[trigger] sv.rem_cands@[k] as int] == j {
                let k = choose|k: int|
                    0 <= k < sv.rem_cands@.len() && sv.rm_files@[#[trigger] sv.rem_cands@[k] as int] == j;
                assert(as_ints(sv.rem_cands@)[k] == sv.rem_cands@[k]);
                assert(as_ints(sv.rm_files@)[sv.rem_cands@[k] as int] == j);
                assert(rm_files(s, d)[rem_cands(s, d)[k]] == j);
            }
            if exists|k: int| 0 <= k < rem_cands(s, d).len() && rm_files(s, d)[#[trigger] rem_cands(s, d)[k]] == j {
                let k = choose|k: int|
                    0 <= k < rem_cands(s, d).len() && rm_files(s, d)[#[trigger] rem_cands(s, d)[k]] == j;
                assert(as_ints(sv.rem_cands@)[k] == sv.rem_cands@[k]);
                assert(as_ints(sv.rm_files@)[sv.rem_cands@[k] as int] == sv.rm_files@[sv.rem_cands@[k] as int]);
                assert(sv.rm_files@[sv.rem_cands@[k] as int] == j);
            }
        }
    }
    (fs, fd)
}

// ── comparing two entries at the same path ───────────────────────────────────

/// What comparing two entries of the same kind at the same path says.
#[derive(Debug, Clone, Copy, PartialEq, Eq, Structural)]
pub enum Verdict {
    Unchanged,
    /// Content identical (hash-verified), modification time drifted: refresh, don't re-copy.
    Touched,
    Changed,
}

/// The outcome of comparing two entries.
#[derive(Debug)]
pub struct Comparison {
    pub verdict: Verdict,
    /// What has to be reported of it.
    pub issue: Option<String>,
    /// The source file could not be read.
    pub source_unreadable: bool,
    /// Reading the source file was denied.
    pub denied_source: bool,
    /// Reading the destination file was denied.
    pub denied_dest: bool,
}

/// The value of a [`Comparison`].
pub struct ComparisonV {
    pub verdict: Verdict,
    pub issue: Option<Seq<char>>,
    pub source_unreadable: bool,
    pub denied_source: bool,
    pub denied_dest: bool,
}

impl View for Comparison {
    type V = ComparisonV;

    open spec fn view(&self) -> ComparisonV {
        ComparisonV {
            verdict: self.verdict,
            issue: opt_text(self.issue),
            source_unreadable: self.source_unreadable,
            denied_source: self.denied_source,
            denied_dest: self.denied_dest,
        }
    }
}

/// A comparison that says no more than its verdict.
pub open spec fn plainly(verdict: Verdict) -> ComparisonV {
    ComparisonV {
        verdict,
        issue: None,
        source_unreadable: false,
        denied_source: false,
        denied_dest: false,
    }
}

/// Same size and modification time, different content.
pub open spec fn corruption_text(rel: Seq<u8>) -> Seq<char> {
    utf8_lossy(rel)
        + ": content differs although size and mtime match — possible corruption on one side (or an mtime-preserving edit); will re-copy from the source"@
}

/// A file could not be read for comparing.
pub open spec fn unreadable_text(side: Seq<char>, rel: Seq<u8>, why: Seq<char>) -> Seq<char> {
    side + ": "@ + utf8_lossy(rel) + ": cannot read to compare content ("@ + why + "); treating as changed"@
}

/// A file could not be hashed for move-detection.
pub open spec fn unhashable_text(side: Seq<char>, rel: Seq<u8>, why: Seq<char>) -> Seq<char> {
    side + ": "@ + utf8_lossy(rel) + ": cannot hash for move-detection ("@ + why
        + "); treating as a plain copy/delete"@
}

/// What comparing the contents of two files says. `near` tells whether their modification times
/// count as equal, `rel` how the path is spelled. A failure on the source side is the consequential
/// one, so it goes first.
pub open spec fn compared_contents(
    rel: Seq<u8>,
    near: bool,
    sh: Option<HashV>,
    dh: Option<HashV>,
) -> ComparisonV {
    match (sh, dh) {
        (Some(HashV::Digest(a)), Some(HashV::Digest(b))) => if a == b {
            plainly(
                if near {
                    Verdict::Unchanged
                } else {
                    Verdict::Touched
                },
            )
        } else if near {
            ComparisonV { issue: Some(corruption_text(rel)), ..plainly(Verdict::Changed) }
        } else {
            plainly(Verdict::Changed)
        },
        (Some(HashV::Failed { message, denied }), _) => ComparisonV {
            issue: Some(unreadable_text("source"@, rel, message)),
            source_unreadable: true,
            denied_source: denied,
            ..plainly(Verdict::Changed)
        },
        (_, Some(HashV::Failed { message, denied })) => ComparisonV {
            issue: Some(unreadable_text("destination"@, rel, message)),
            denied_dest: denied,
            ..plainly(Verdict::Changed)
        },
        _ => plainly(Verdict::Changed),
    }
}

/// What comparing two entries at the same path says.
///
/// - A same-size file is never declared changed on its modification time alone: then its content
///   decides.
/// - A link is held against the target that a copy would write.
/// - Directories and special files of the same kind need nothing.
pub open spec fn compared(
    se: EntryV,
    de: EntryV,
    eager: bool,
    relative: bool,
    link: Option<(PathV, PathV)>,
    sh: Option<HashV>,
    dh: Option<HashV>,
) -> ComparisonV {
    if se.kind != de.kind {
        plainly(Verdict::Changed)
    } else {
        match se.kind {
            Kind::Dir => plainly(Verdict::Unchanged),
            Kind::Other => plainly(Verdict::Unchanged),
            Kind::Symlink => match (se.link_target, de.link_target) {
                (Some(st), Some(dt)) => plainly(
                    if desired(se.rel, st, relative, link) == dt {
                        Verdict::Unchanged
                    } else {
                        Verdict::Changed
                    },
                ),
                (None, None) => plainly(Verdict::Unchanged),
                _ => plainly(Verdict::Changed),
            },
            Kind::File => if se.size != de.size {
                plainly(Verdict::Changed)
            } else if !by_content(se, de, eager) {
                plainly(Verdict::Unchanged)
            } else {
                compared_contents(se.text, mtime_near(se.mtime, de.mtime), sh, dh)
            },
        }
    }
}

/// The value of what came of hashing, where a file was hashed.
pub open spec fn opt_hash(o: Option<HashOutcome>) -> Option<HashV> {
    match o {
        Some(x) => Some(hash_view(x)),
        None => None,
    }
}

fn plain_comparison(verdict: Verdict) -> (r: Comparison)
    ensures
        r@ == plainly(verdict),
{
    Comparison {
        verdict,
        issue: None,
        source_unreadable: false,
        denied_source: false,
        denied_dest: false,
    }
}

fn unreadable_message(side: &str, rel: &FsPath, why: &str) -> (r: String)
    ensures
        r@ == unreadable_text(side@, rel.spelled(), why@),
{
    let mut m = String::from_str(side);
    m.append(": ");
    push_spelled(&mut m, rel);
    m.append(": cannot read to compare content (");
    m.append(why);
    m.append("); treating as changed");
    m
}

fn unhashable_message(side: &str, rel: &FsPath, why: &str) -> (r: String)
    ensures
        r@ == unhashable_text(side@, rel.spelled(), why@),
{
    let mut m = String::from_str(side);
    m.append(": ");
    push_spelled(&mut m, rel);
    m.append(": cannot hash for move-detection (");
    m.append(why);
    m.append("); treating as a plain copy/delete");
    m
}

/// Compares the contents of two files by what came of hashing them.
pub fn compare_contents(
    rel: &FsPath,
    near: bool,
    sh: &Option<HashOutcome>,
    dh: &Option<HashOutcome>,
) -> (r: Comparison)
    ensures
        r@ == compared_contents(rel.spelled(), near, opt_hash(*sh), opt_hash(*dh)),
{
    match sh {
        Some(Ok(a)) => match dh {
            Some(Ok(b)) => if a.matches(b) {
                plain_comparison(
                    if near {
                        Verdict::Unchanged
                    } else {
                        Verdict::Touched
                    },
                )
            } else if near {
                let mut m = show_spelled(rel);
                m.append(": content differs although size and mtime match — possible corruption on one side (or an mtime-preserving edit); will re-copy from the source");
                let mut c = plain_comparison(Verdict::Changed);
                c.issue = Some(m);
                c
            } else {
                plain_comparison(Verdict::Changed)
            },
            Some(Err(e)) => {
                let mut c = plain_comparison(Verdict::Changed);
                c.issue = Some(unreadable_message("destination", rel, e.message.as_str()));
                c.denied_dest = e.denied;
                c
            },
            None => plain_comparison(Verdict::Changed),
        },
        Some(Err(e)) => {
            let mut c = plain_comparison(Verdict::Changed);
            c.issue = Some(unreadable_message("source", rel, e.message.as_str()));
            c.source_unreadable = true;
            c.denied_source = e.denied;
            c
        },
        None => match dh {
            Some(Err(e)) => {
                let mut c = plain_comparison(Verdict::Changed);
                c.issue = Some(unreadable_message("destination", rel, e.message.as_str()));
                c.denied_dest = e.denied;
                c
            },
            _ => plain_comparison(Verdict::Changed),
        },
    }
}

/// Same path: has the entry changed?
pub fn compare_entries(
    se: &Entry,
    de: &Entry,
    eager: bool,
    relative_symlinks: bool,
    link: &Option<Resolution>,
    sh: &Option<HashOutcome>,
    dh: &Option<HashOutcome>,
) -> (r: Comparison)
    ensures
        r@ == compared(
            se@,
            de@,
            eager,
            relative_symlinks,
            resolution_view(*link),
            opt_hash(*sh),
            opt_hash(*dh),
        ),
{
    if se.kind != de.kind {
        return plain_comparison(Verdict::Changed);
    }
    match se.kind {
        Kind::Dir => plain_comparison(Verdict::Unchanged),
        Kind::Other => plain_comparison(Verdict::Unchanged),
        Kind::Symlink => match (&se.link_target, &de.link_target) {
            (Some(st), Some(dt)) => {
                let want = desired_target(&se.rel, st, relative_symlinks, link);
                plain_comparison(
                    if want.same(dt) {
                        Verdict::Unchanged
                    } else {
                        Verdict::Changed
                    },
                )
            },
            (None, None) => plain_comparison(Verdict::Unchanged),
            _ => plain_comparison(Verdict::Changed),
        },
        Kind::File => {
            if se.size != de.size {
                plain_comparison(Verdict::Changed)
            } else if !wants_content(se, de, eager) {
                plain_comparison(Verdict::Unchanged)
            } else {
                compare_contents(&se.rel, mtime_close(se.mtime, de.mtime), sh, dh)
            }
        },
    }
}

// ── classifying two trees ────────────────────────────────────────────────────

/// What was found out about the files of two trees before comparing them.
#[derive(Debug)]
pub struct Examined {
    /// For each source entry, what came of hashing it, where it was hashed.
    pub src: Vec<Option<HashOutcome>>,
    /// The same for each destination entry.
    pub dst: Vec<Option<HashOutcome>>,
    /// For each source entry, where its link leads, where that was resolved.
    pub links: Vec<Option<Resolution>>,
}

/// All that a comparison depends on.
pub struct DiffIn {
    pub s: Seq<EntryV>,
    pub d: Seq<EntryV>,
    pub src_hash: Seq<Option<HashV>>,
    pub dst_hash: Seq<Option<HashV>>,
    pub links: Seq<Option<(PathV, PathV)>>,
    pub eager: bool,
    pub relative: bool,
    pub include_same: bool,
}

pub open spec fn hashes_view(v: Seq<Option<HashOutcome>>) -> Seq<Option<HashV>> {
    Seq::new(v.len(), |i: int| opt_hash(v[i]))
}

pub open spec fn resolutions_view(v: Seq<Option<Resolution>>) -> Seq<Option<(PathV, PathV)>> {
    Seq::new(v.len(), |i: int| resolution_view(v[i]))
}

/// There is a record for each entry, and every file that has to be hashed was.
pub open spec fn covers(x: DiffIn) -> bool {
    &&& x.src_hash.len() == x.s.len()
    &&& x.dst_hash.len() == x.d.len()
    &&& x.links.len() == x.s.len()
    &&& forall|i: int|
        0 <= i < x.s.len() && needs_src(x.s, x.d, x.eager, i) ==> #[trigger] x.src_hash[i] is Some
    &&& forall|j: int|
        0 <= j < x.d.len() && needs_dst(x.s, x.d, x.eager, j) ==> #[trigger] x.dst_hash[j] is Some
}

/// What comparing source entry `i` with its counterpart says.
pub open spec fn comparison(x: DiffIn, i: int) -> Option<ComparisonV> {
    match counterpart(x.s, x.d, i) {
        Some(j) => Some(
            compared(
                x.s[i],
                x.d[j],
                x.eager,
                x.relative,
                x.links[i],
                x.src_hash[i],
                x.dst_hash[j],
            ),
        ),
        None => None,
    }
}

pub open spec fn change_of(e: EntryV) -> ChangeV {
    ChangeV { rel: e.rel, text: e.text, kind: e.kind }
}

pub open spec fn verdict_rule(x: DiffIn, v: Verdict) -> spec_fn(int) -> Option<ChangeV> {
    |i: int|
        match comparison(x, i) {
            Some(c) => if c.verdict == v {
                Some(change_of(x.s[i]))
            } else {
                None
            },
            None => None,
        }
}

pub open spec fn issue_rule(x: DiffIn) -> spec_fn(int) -> Option<Seq<char>> {
    |i: int|
        match comparison(x, i) {
            Some(c) => c.issue,
            None => None,
        }
}

pub open spec fn denied_source_rule(x: DiffIn) -> spec_fn(int) -> Option<SpelledV> {
    |i: int|
        match comparison(x, i) {
            Some(c) => if c.denied_source {
                Some(name_of_entry(x.s[i]))
            } else {
                None
            },
            None => None,
        }
}

pub open spec fn denied_dest_rule(x: DiffIn) -> spec_fn(int) -> Option<SpelledV> {
    |i: int|
        match comparison(x, i) {
            Some(c) => if c.denied_dest {
                Some(name_of_entry(x.s[i]))
            } else {
                None
            },
            None => None,
        }
}

/// New entries that are not files.
pub open spec fn plain_add_rule(x: DiffIn) -> spec_fn(int) -> Option<ChangeV> {
    |i: int|
        if x.s[i].kind != Kind::File && !is_follower(x.s, i) && is_new(x.s, x.d, i) {
            Some(change_of(x.s[i]))
        } else {
            None
        }
}

/// Destination entries, other than files, where the source has another kind.
pub open spec fn clash_rule(x: DiffIn) -> spec_fn(int) -> Option<ChangeV> {
    |i: int|
        match place(x.s, x.d, i) {
            Some(j) => if x.s[i].kind != x.d[j].kind && x.d[j].kind != Kind::File {
                Some(change_of(x.d[j]))
            } else {
                None
            },
            None => None,
        }
}

/// Destination entries, other than files, where the source has nothing.
pub open spec fn extra_rule(x: DiffIn) -> spec_fn(int) -> Option<ChangeV> {
    |j: int|
        if is_extra(x.s, x.d, j) && x.d[j].kind != Kind::File {
            Some(change_of(x.d[j]))
        } else {
            None
        }
}

/// What came of hashing the `c`-th candidate on the source side.
pub open spec fn add_outcome(x: DiffIn, c: int) -> Option<HashV> {
    x.src_hash[add_files(x.s, x.d)[add_cands(x.s, x.d)[c]]]
}

/// What came of hashing the `c`-th candidate on the destination side.
pub open spec fn rem_outcome(x: DiffIn, c: int) -> Option<HashV> {
    x.dst_hash[rm_files(x.s, x.d)[rem_cands(x.s, x.d)[c]]]
}

pub open spec fn add_hash_rule(x: DiffIn) -> spec_fn(int) -> Option<(int, Seq<u8>)> {
    |c: int|
        match add_outcome(x, c) {
            Some(HashV::Digest(h)) => Some((add_cands(x.s, x.d)[c], h)),
            _ => None,
        }
}

pub open spec fn rem_hash_rule(x: DiffIn) -> spec_fn(int) -> Option<(int, Seq<u8>)> {
    |c: int|
        match rem_outcome(x, c) {
            Some(HashV::Digest(h)) => Some((rem_cands(x.s, x.d)[c], h)),
            _ => None,
        }
}

/// The hashed candidates on the source side: position in [`add_files`] and digest.
pub open spec fn add_hashed(x: DiffIn) -> Seq<(int, Seq<u8>)> {
    collect(add_cands(x.s, x.d).len() as int, add_hash_rule(x))
}

/// The hashed candidates on the destination side: position in [`rm_files`] and digest.
pub open spec fn rem_hashed(x: DiffIn) -> Seq<(int, Seq<u8>)> {
    collect(rem_cands(x.s, x.d).len() as int, rem_hash_rule(x))
}

pub open spec fn hash_column(v: Seq<(int, Seq<u8>)>) -> Seq<Seq<u8>> {
    Seq::new(v.len(), |i: int| v[i].1)
}

/// The destination candidate that source candidate `k` is paired with.
pub open spec fn match_of(x: DiffIn, k: int) -> Option<int> {
    partner(hash_column(add_hashed(x)), hash_column(rem_hashed(x)), k)
}

/// The move of a destination entry to the place of a source entry.
pub open spec fn move_between(de: EntryV, se: EntryV) -> MoveV {
    MoveV { from: de.rel, to: se.rel, from_text: de.text, to_text: se.text }
}

/// The link that makes the second entry a name of the first.
pub open spec fn link_between(leader: EntryV, name: EntryV) -> LinkV {
    LinkV { leader: leader.rel, name: name.rel, leader_text: leader.text, name_text: name.text }
}

/// The paths of changes as they are spelled.
pub open spec fn change_names(c: Seq<ChangeV>) -> Seq<SpelledV> {
    Seq::new(c.len(), |i: int| name_of_change(c[i]))
}

/// The path of a change as it is spelled.
pub open spec fn name_of_change(c: ChangeV) -> SpelledV {
    SpelledV { path: c.rel, text: c.text }
}

/// The path of an entry as it is spelled.
pub open spec fn name_of_entry(e: EntryV) -> SpelledV {
    SpelledV { path: e.rel, text: e.text }
}

pub open spec fn move_rule(x: DiffIn) -> spec_fn(int) -> Option<MoveV> {
    |k: int|
        match match_of(x, k) {
            Some(q) => Some(
                move_between(
                    x.d[rm_files(x.s, x.d)[rem_hashed(x)[q].0]],
                    x.s[add_files(x.s, x.d)[add_hashed(x)[k].0]],
                ),
            ),
            None => None,
        }
}

/// The `p`-th file to bring is moved into place.
pub open spec fn comes_by_move(x: DiffIn, p: int) -> bool {
    exists|k: int| 0 <= k < add_hashed(x).len() && (#[trigger] add_hashed(x)[k]).0 == p && match_of(x, k) is Some
}

/// The `p`-th file to remove is moved away.
pub open spec fn goes_by_move(x: DiffIn, p: int) -> bool {
    exists|k: int|
        0 <= k < add_hashed(x).len() && (#[trigger] match_of(x, k) matches Some(q) && rem_hashed(x)[q].0 == p)
}

pub open spec fn kept_add_rule(x: DiffIn) -> spec_fn(int) -> Option<ChangeV> {
    |p: int|
        if comes_by_move(x, p) {
            None
        } else {
            Some(ChangeV { kind: Kind::File, ..change_of(x.s[add_files(x.s, x.d)[p]]) })
        }
}

pub open spec fn kept_rem_rule(x: DiffIn) -> spec_fn(int) -> Option<ChangeV> {
    |p: int|
        if goes_by_move(x, p) {
            None
        } else {
            Some(ChangeV { kind: Kind::File, ..change_of(x.d[rm_files(x.s, x.d)[p]]) })
        }
}

pub open spec fn add_issue_rule(x: DiffIn) -> spec_fn(int) -> Option<Seq<char>> {
    |c: int|
        match add_outcome(x, c) {
            Some(HashV::Failed { message, denied }) => Some(
                unhashable_text("source"@, x.s[add_files(x.s, x.d)[add_cands(x.s, x.d)[c]]].text, message),
            ),
            _ => None,
        }
}

pub open spec fn rem_issue_rule(x: DiffIn) -> spec_fn(int) -> Option<Seq<char>> {
    |c: int|
        match rem_outcome(x, c) {
            Some(HashV::Failed { message, denied }) => Some(
                unhashable_text("destination"@, x.d[rm_files(x.s, x.d)[rem_cands(x.s, x.d)[c]]].text, message),
            ),
            _ => None,
        }
}

pub open spec fn add_denied_rule(x: DiffIn) -> spec_fn(int) -> Option<SpelledV> {
    |c: int|
        match add_outcome(x, c) {
            Some(HashV::Failed { message, denied }) => if denied {
                Some(name_of_entry(x.s[add_files(x.s, x.d)[add_cands(x.s, x.d)[c]]]))
            } else {
                None
            },
            _ => None,
        }
}

pub open spec fn rem_denied_rule(x: DiffIn) -> spec_fn(int) -> Option<SpelledV> {
    |c: int|
        match rem_outcome(x, c) {
            Some(HashV::Failed { message, denied }) => if denied {
                Some(name_of_entry(x.d[rm_files(x.s, x.d)[rem_cands(x.s, x.d)[c]]]))
            } else {
                None
            },
            _ => None,
        }
}

/// Entries to copy, before sorting.
pub open spec fn added_list(x: DiffIn) -> Seq<ChangeV> {
    collect(x.s.len() as int, plain_add_rule(x)) + collect(
        add_files(x.s, x.d).len() as int,
        kept_add_rule(x),
    )
}

/// Entries to delete, before sorting.
pub open spec fn removed_list(x: DiffIn) -> Seq<ChangeV> {
    collect(x.s.len() as int, clash_rule(x)) + collect(x.d.len() as int, extra_rule(x)) + collect(
        rm_files(x.s, x.d).len() as int,
        kept_rem_rule(x),
    )
}

/// Entries to update, before sorting.
pub open spec fn changed_list(x: DiffIn) -> Seq<ChangeV> {
    collect(x.s.len() as int, verdict_rule(x, Verdict::Changed))
}

/// Entries to refresh, before sorting.
pub open spec fn touched_list(x: DiffIn) -> Seq<ChangeV> {
    collect(x.s.len() as int, verdict_rule(x, Verdict::Touched))
}

/// Files to rename, before sorting.
pub open spec fn moved_list(x: DiffIn) -> Seq<MoveV> {
    collect(add_hashed(x).len() as int, move_rule(x))
}

/// The paths whose destination inode will be new after this run.
pub open spec fn written_anew(x: DiffIn) -> Seq<PathV> {
    change_paths(added_list(x)) + change_paths(changed_list(x)) + move_targets(moved_list(x))
}

/// Source entry `i`, a later name of entry `l`, is already a name of the same file at the
/// destination, and stays so: a first name that is written anew gets a new inode, so the others
/// would keep the old content.
pub open spec fn well_linked(x: DiffIn, i: int, l: int) -> bool {
    !written_anew(x).contains(x.s[l].rel) && match (place(x.s, x.d, i), place(x.s, x.d, l)) {
        (Some(a), Some(b)) => x.d[a].kind == Kind::File && x.d[b].link_id is Some && x.d[a].link_id
            == x.d[b].link_id,
        _ => false,
    }
}

pub open spec fn link_rule(x: DiffIn) -> spec_fn(int) -> Option<LinkV> {
    |i: int|
        match leader(x.s, i) {
            Some(l) => if well_linked(x, i, l) {
                None
            } else {
                Some(link_between(x.s[l], x.s[i]))
            },
            None => None,
        }
}

/// Links to create, before sorting.
pub open spec fn link_list(x: DiffIn) -> Seq<LinkV> {
    collect(x.s.len() as int, link_rule(x))
}

/// Source entry `i` needs nothing at the destination.
pub open spec fn is_unchanged(x: DiffIn, i: int) -> bool {
    match leader(x.s, i) {
        Some(l) => well_linked(x, i, l),
        None => comparison(x, i) matches Some(c) && c.verdict == Verdict::Unchanged,
    }
}

pub open spec fn unchanged_rule(x: DiffIn) -> spec_fn(int) -> Option<SpelledV> {
    |i: int|
        if is_unchanged(x, i) {
            Some(name_of_entry(x.s[i]))
        } else {
            None
        }
}

/// The unchanged entries.
pub open spec fn unchanged_list(x: DiffIn) -> Seq<SpelledV> {
    collect(x.s.len() as int, unchanged_rule(x))
}

/// All that could not be examined as intended: comparisons, then candidates of either side.
pub open spec fn issue_list(x: DiffIn) -> Seq<Seq<char>> {
    collect(x.s.len() as int, issue_rule(x)) + collect(
        add_cands(x.s, x.d).len() as int,
        add_issue_rule(x),
    ) + collect(rem_cands(x.s, x.d).len() as int, rem_issue_rule(x))
}

/// Some source file could not be read while classifying.
pub open spec fn source_gap(x: DiffIn) -> bool {
    ||| exists|i: int|
        0 <= i < x.s.len() && (#[trigger] comparison(x, i) matches Some(c) && c.source_unreadable)
    ||| exists|c: int| 0 <= c < add_cands(x.s, x.d).len() && (#[trigger] add_outcome(x, c)) matches Some(HashV::Failed { .. })
}

/// The difference between two trees.
pub open spec fn classified(x: DiffIn) -> DiffV {
    DiffV {
        added: sorted_changes(added_list(x)),
        removed: sorted_changes(removed_list(x)),
        changed: sorted_changes(changed_list(x)),
        moved: sorted_moves(moved_list(x)),
        touched: sorted_changes(touched_list(x)),
        to_link: sorted_links(link_list(x)),
        unchanged: unchanged_list(x).len() as int,
        unchanged_paths: if x.include_same {
            sorted_with(unchanged_list(x), bare(unchanged_list(x)), by_path())
        } else {
            Seq::empty()
        },
        issues: issue_list(x),
        source_unreadable: source_gap(x),
        denied_source: collect(x.s.len() as int, denied_source_rule(x)) + collect(
            add_cands(x.s, x.d).len() as int,
            add_denied_rule(x),
        ),
        denied_dest: collect(x.s.len() as int, denied_dest_rule(x)) + collect(
            rem_cands(x.s, x.d).len() as int,
            rem_denied_rule(x),
        ),
    }
}

/// The input that these values make up.
pub open spec fn diff_input(
    s: Seq<EntryV>,
    d: Seq<EntryV>,
    ex: Examined,
    eager: bool,
    relative: bool,
    include_same: bool,
) -> DiffIn {
    DiffIn {
        s,
        d,
        src_hash: hashes_view(ex.src@),
        dst_hash: hashes_view(ex.dst@),
        links: resolutions_view(ex.links@),
        eager,
        relative,
        include_same,
    }
}

pub open spec fn opt_comparison(c: Option<Comparison>) -> Option<ComparisonV> {
    match c {
        Some(y) => Some(y@),
        None => None,
    }
}

/// Compares every source entry that has a counterpart.
fn compare_all(
    src: &Vec<Entry>,
    dst: &Vec<Entry>,
    sv: &Survey,
    ex: &Examined,
    eager: bool,
    relative: bool,
    include_same: bool,
) -> (r: Vec<Option<Comparison>>)
    requires
        sv.holds(entries_view(src@), entries_view(dst@)),
        covers(diff_input(entries_view(src@), entries_view(dst@), *ex, eager, relative, include_same)),
    ensures
        r@.len() == src@.len(),
        forall|i: int|
            0 <= i < src@.len() ==> opt_comparison(#[trigger] r@[i]) == comparison(
                diff_input(entries_view(src@), entries_view(dst@), *ex, eager, relative, include_same),
                i,
            ),
{
    let ghost x = diff_input(entries_view(src@), entries_view(dst@), *ex, eager, relative, include_same);
    let mut r: Vec<Option<Comparison>> = Vec::new();
    let mut i: usize = 0;
    while i < src.len()
        invariant
            x == diff_input(entries_view(src@), entries_view(dst@), *ex, eager, relative, include_same),
            sv.holds(x.s, x.d),
            covers(x),
            0 <= i <= src@.len(),
            r@.len() == i,
            forall|k: int| 0 <= k < i ==> opt_comparison(#[trigger] r@[k]) == comparison(x, k),
        decreases src@.len() - i,
    {
        assert(x.s[i as int] == src@[i as int]@);
        assert(x.links[i as int] == resolution_view(ex.links@[i as int]));
        assert(x.src_hash[i as int] == opt_hash(ex.src@[i as int]));
        let first_name = sv.leaders[i].is_none();
        assert(first_name == !is_follower(x.s, i as int));
        match sv.places[i] {
            Some(j) => {
                assert(x.d[j as int] == dst@[j as int]@);
                assert(x.dst_hash[j as int] == opt_hash(ex.dst@[j as int]));
                if first_name && src[i].kind == dst[j].kind {
                    r.push(
                        Some(
                            compare_entries(
                                &src[i],
                                &dst[j],
                                eager,
                                relative,
                                &ex.links[i],
                                &ex.src[i],
                                &ex.dst[j],
                            ),
                        ),
                    );
                } else {
                    r.push(None);
                }
            },
            None => {
                r.push(None);
            },
        }
        i = i + 1;
    }
    r
}

/// What the comparisons say, sorted out.
struct Sifted {
    changed: Vec<Change>,
    touched: Vec<Change>,
    issues: Vec<String>,
    denied_source: Vec<FsPath>,
    denied_dest: Vec<FsPath>,
    gap: bool,
}

fn sift(src: &Vec<Entry>, comps: &Vec<Option<Comparison>>, x: Ghost<DiffIn>) -> (r: Sifted)
    requires
        x@.s == entries_view(src@),
        comps@.len() == src@.len(),
        forall|i: int| 0 <= i < src@.len() ==> opt_comparison(#[trigger] comps@[i]) == comparison(x@, i),
    ensures
        values(r.changed@) == changed_list(x@),
        values(r.touched@) == touched_list(x@),
        texts_view(r.issues@) == collect(x@.s.len() as int, issue_rule(x@)),
        named_view(r.denied_source@) == collect(x@.s.len() as int, denied_source_rule(x@)),
        named_view(r.denied_dest@) == collect(x@.s.len() as int, denied_dest_rule(x@)),
        r.gap == exists|i: int|
            0 <= i < x@.s.len() && (#[trigger] comparison(x@, i) matches Some(c) && c.source_unreadable),
{
    let mut r = Sifted {
        changed: Vec::new(),
        touched: Vec::new(),
        issues: Vec::new(),
        denied_source: Vec::new(),
        denied_dest: Vec::new(),
        gap: false,
    };
    let mut i: usize = 0;
    assert(values(r.changed@) =~= collect(0, verdict_rule(x@, Verdict::Changed)));
    assert(values(r.touched@) =~= collect(0, verdict_rule(x@, Verdict::Touched)));
    assert(texts_view(r.issues@) =~= collect(0, issue_rule(x@)));
    assert(named_view(r.denied_source@) =~= collect(0, denied_source_rule(x@)));
    assert(named_view(r.denied_dest@) =~= collect(0, denied_dest_rule(x@)));
    while i < src.len()
        invariant
            x@.s == entries_view(src@),
            comps@.len() == src@.len(),
            forall|i: int|
                0 <= i < src@.len() ==> opt_comparison(#[trigger] comps@[i]) == comparison(x@, i),
            0 <= i <= src@.len(),
            values(r.changed@) == collect(i as int, verdict_rule(x@, Verdict::Changed)),
            values(r.touched@) == collect(i as int, verdict_rule(x@, Verdict::Touched)),
            texts_view(r.issues@) == collect(i as int, issue_rule(x@)),
            named_view(r.denied_source@) == collect(i as int, denied_source_rule(x@)),
            named_view(r.denied_dest@) == collect(i as int, denied_dest_rule(x@)),
            r.gap == exists|k: int|
                0 <= k < i && (#[trigger] comparison(x@, k) matches Some(c) && c.source_unreadable),
        decreases src@.len() - i,
    {
        let ghost before = r;
        assert(x@.s[i as int] == src@[i as int]@);
        assert(opt_comparison(comps@[i as int]) == comparison(x@, i as int));
        if let Some(c) = &comps[i] {
            match c.verdict {
                Verdict::Changed => {
                    let ch = Change { rel: src[i].rel.clone(), kind: src[i].kind };
                    proof {
                        lemma_values_push(r.changed@, ch);
                    }
                    r.changed.push(ch);
                },
                Verdict::Touched => {
                    let ch = Change { rel: src[i].rel.clone(), kind: src[i].kind };
                    proof {
                        lemma_values_push(r.touched@, ch);
                    }
                    r.touched.push(ch);
                },
                Verdict::Unchanged => {},
            }
            if let Some(m) = &c.issue {
                let t = m.clone();
                proof {
                    lemma_texts_push(r.issues@, t);
                }
                r.issues.push(t);
            }
            if c.denied_source {
                let p = src[i].rel.clone();
                proof {
                    lemma_paths_push(r.denied_source@, p);
                }
                r.denied_source.push(p);
            }
            if c.denied_dest {
                let p = src[i].rel.clone();
                proof {
                    lemma_paths_push(r.denied_dest@, p);
                }
                r.denied_dest.push(p);
            }
            if c.source_unreadable {
                r.gap = true;
            }
        }
        proof {
            if before.gap {
                let k = choose|k: int|
                    0 <= k < i && (#[trigger] comparison(x@, k) matches Some(c) && c.source_unreadable);
                assert(0 <= k < i + 1);
            }
            if exists|k: int|
                0 <= k < i + 1 && (#[trigger] comparison(x@, k) matches Some(c) && c.source_unreadable) {
                let k = choose|k: int|
                    0 <= k < i + 1 && (#[trigger] comparison(x@, k) matches Some(c) && c.source_unreadable);
                if k < i {
                    assert(before.gap);
                }
            }
        }
        i = i + 1;
    }
    r
}

/// Entries other than files that are new, and entries other than files that have to go.
fn plain_sides(src: &Vec<Entry>, dst: &Vec<Entry>, sv: &Survey, x: Ghost<DiffIn>) -> (r: (Vec<Change>, Vec<Change>))
    requires
        x@.s == entries_view(src@),
        x@.d == entries_view(dst@),
        sv.holds(x@.s, x@.d),
    ensures
        values(r.0@) == collect(x@.s.len() as int, plain_add_rule(x@)),
        values(r.1@) == collect(x@.s.len() as int, clash_rule(x@)) + collect(
            x@.d.len() as int,
            extra_rule(x@),
        ),
{
    let mut added: Vec<Change> = Vec::new();
    let mut removed: Vec<Change> = Vec::new();
    let mut i: usize = 0;
    assert(values(added@) =~= collect(0, plain_add_rule(x@)));
    assert(values(removed@) =~= collect(0, clash_rule(x@)));
    while i < src.len()
        invariant
            x@.s == entries_view(src@),
            x@.d == entries_view(dst@),
            sv.holds(x@.s, x@.d),
            0 <= i <= src@.len(),
            values(added@) == collect(i as int, plain_add_rule(x@)),
            values(removed@) == collect(i as int, clash_rule(x@)),
        decreases src@.len() - i,
    {
        assert(x@.s[i as int] == src@[i as int]@);
        let first_name = sv.leaders[i].is_none();
        assert(first_name == !is_follower(x@.s, i as int));
        let kind = src[i].kind;
        let fresh = match sv.places[i] {
            Some(j) => {
                assert(x@.d[j as int] == dst@[j as int]@);
                if kind != dst[j].kind && dst[j].kind != Kind::File {
                    let ch = Change { rel: dst[j].rel.clone(), kind: dst[j].kind };
                    proof {
                        lemma_values_push(removed@, ch);
                    }
                    removed.push(ch);
                }
                kind != dst[j].kind
            },
            None => true,
        };
        assert(fresh == is_new(x@.s, x@.d, i as int));
        if kind != Kind::File && first_name && fresh {
            let ch = Change { rel: src[i].rel.clone(), kind };
            proof {
                lemma_values_push(added@, ch);
            }
            added.push(ch);
        }
        i = i + 1;
    }
    let ghost clashes = values(removed@);
    let mut j: usize = 0;
    assert(values(removed@) =~= clashes + collect(0, extra_rule(x@)));
    while j < dst.len()
        invariant
            x@.d == entries_view(dst@),
            sv.holds(x@.s, x@.d),
            0 <= j <= dst@.len(),
            values(removed@) == clashes + collect(j as int, extra_rule(x@)),
        decreases dst@.len() - j,
    {
        assert(x@.d[j as int] == dst@[j as int]@);
        if sv.extra[j] && dst[j].kind != Kind::File {
            let ch = Change { rel: dst[j].rel.clone(), kind: dst[j].kind };
            proof {
                lemma_values_push(removed@, ch);
            }
            removed.push(ch);
        }
        j = j + 1;
        assert(values(removed@) =~= clashes + collect(j as int, extra_rule(x@)));
    }
    (added, removed)
}

/// The hashed candidates of one side, and what could not be hashed.
struct Hashed {
    list: Vec<(usize, Digest)>,
    issues: Vec<String>,
    denied: Vec<FsPath>,
    failed: bool,
}

/// The values of hashed candidates.
spec fn hashed_view(v: Seq<(usize, Digest)>) -> Seq<(int, Seq<u8>)> {
    Seq::new(v.len(), |i: int| (v[i].0 as int, v[i].1@))
}

/// Sorts out what came of hashing the candidates of one side. A candidate that could not be hashed
/// takes no part in matching, and is reported.
fn hash_candidates(
    side: &str,
    entries: &Vec<Entry>,
    of: &Vec<usize>,
    cands: &Vec<usize>,
    outcomes: &Vec<Option<HashOutcome>>,
    hash_rule: Ghost<spec_fn(int) -> Option<(int, Seq<u8>)>>,
    text_rule: Ghost<spec_fn(int) -> Option<Seq<char>>>,
    deny_rule: Ghost<spec_fn(int) -> Option<SpelledV>>,
) -> (r: Hashed)
    requires
        forall|k: int| 0 <= k < of@.len() ==> #[trigger] of@[k] < entries@.len(),
        forall|k: int| 0 <= k < cands@.len() ==> #[trigger] cands@[k] < of@.len(),
        outcomes@.len() == entries@.len(),
        forall|c: int|
            0 <= c < cands@.len() ==> #[trigger] hash_rule@(c) == match opt_hash(
                outcomes@[of@[cands@[c] as int] as int],
            ) {
                Some(HashV::Digest(h)) => Some((cands@[c] as int, h)),
                _ => None,
            },
        forall|c: int|
            0 <= c < cands@.len() ==> #[trigger] text_rule@(c) == match opt_hash(
                outcomes@[of@[cands@[c] as int] as int],
            ) {
                Some(HashV::Failed { message, denied }) => Some(
                    unhashable_text(side@, entries@[of@[cands@[c] as int] as int].rel.spelled(), message),
                ),
                _ => None,
            },
        forall|c: int|
            0 <= c < cands@.len() ==> #[trigger] deny_rule@(c) == match opt_hash(
                outcomes@[of@[cands@[c] as int] as int],
            ) {
                Some(HashV::Failed { message, denied }) => if denied {
                    Some(entries@[of@[cands@[c] as int] as int].rel.named())
                } else {
                    None
                },
                _ => None,
            },
    ensures
        hashed_view(r.list@) == collect(cands@.len() as int, hash_rule@),
        texts_view(r.issues@) == collect(cands@.len() as int, text_rule@),
        named_view(r.denied@) == collect(cands@.len() as int, deny_rule@),
        r.failed == exists|c: int|
            0 <= c < cands@.len() && (opt_hash(outcomes@[of@[#[trigger] cands@[c] as int] as int]) matches Some(
                HashV::Failed { .. },
            )),
        forall|k: int| 0 <= k < r.list@.len() ==> (#[trigger] r.list@[k]).0 < of@.len(),
{
    let mut r = Hashed { list: Vec::new(), issues: Vec::new(), denied: Vec::new(), failed: false };
    let mut c: usize = 0;
    assert(hashed_view(r.list@) =~= collect(0, hash_rule@));
    assert(texts_view(r.issues@) =~= collect(0, text_rule@));
    assert(named_view(r.denied@) =~= collect(0, deny_rule@));
    while c < cands.len()
        invariant
            forall|k: int| 0 <= k < of@.len() ==> #[trigger] of@[k] < entries@.len(),
            forall|k: int| 0 <= k < cands@.len() ==> #[trigger] cands@[k] < of@.len(),
            outcomes@.len() == entries@.len(),
            forall|c: int|
                0 <= c < cands@.len() ==> #[trigger] hash_rule@(c) == match opt_hash(
                    outcomes@[of@[cands@[c] as int] as int],
                ) {
                    Some(HashV::Digest(h)) => Some((cands@[c] as int, h)),
                    _ => None,
                },
            forall|c: int|
                0 <= c < cands@.len() ==> #[trigger] text_rule@(c) == match opt_hash(
                    outcomes@[of@[cands@[c] as int] as int],
                ) {
                    Some(HashV::Failed { message, denied }) => Some(
                        unhashable_text(side@, entries@[of@[cands@[c] as int] as int].rel.spelled(), message),
                    ),
                    _ => None,
                },
            forall|c: int|
                0 <= c < cands@.len() ==> #[trigger] deny_rule@(c) == match opt_hash(
                    outcomes@[of@[cands@[c] as int] as int],
                ) {
                    Some(HashV::Failed { message, denied }) => if denied {
                        Some(entries@[of@[cands@[c] as int] as int].rel.named())
                    } else {
                        None
                    },
                    _ => None,
                },
            0 <= c <= cands@.len(),
            hashed_view(r.list@) == collect(c as int, hash_rule@),
            texts_view(r.issues@) == collect(c as int, text_rule@),
            named_view(r.denied@) == collect(c as int, deny_rule@),
            r.failed == exists|k: int|
                0 <= k < c && (opt_hash(outcomes@[of@[#[trigger] cands@[k] as int] as int]) matches Some(
                    HashV::Failed { .. },
                )),
            forall|k: int| 0 <= k < r.list@.len() ==> (#[trigger] r.list@[k]).0 < of@.len(),
        decreases cands@.len() - c,
    {
        let ghost before = r;
        let p: usize = cands[c];
        let e: usize = of[p];
        let ghost out = opt_hash(outcomes@[e as int]);
        assert(hash_rule@(c as int) == match out {
            Some(HashV::Digest(h)) => Some((p as int, h)),
            _ => None,
        });
        assert(text_rule@(c as int) == match out {
            Some(HashV::Failed { message, denied }) => Some(
                unhashable_text(side@, entries@[e as int].rel.spelled(), message),
            ),
            _ => None,
        });
        assert(deny_rule@(c as int) == match out {
            Some(HashV::Failed { message, denied }) => if denied {
                Some(entries@[e as int].rel.named())
            } else {
                None
            },
            _ => None,
        });
        match &outcomes[e] {
            Some(Ok(h)) => {
                let ghost old_list = r.list@;
                r.list.push((p, *h));
                assert(hashed_view(r.list@) =~= hashed_view(old_list).push((p as int, h@)));
            },
            Some(Err(f)) => {
                let t = unhashable_message(side, &entries[e].rel, f.message.as_str());
                proof {
                    lemma_texts_push(r.issues@, t);
                }
                r.issues.push(t);
                if f.denied {
                    let q = entries[e].rel.clone();
                    proof {
                        lemma_paths_push(r.denied@, q);
                    }
                    r.denied.push(q);
                }
                r.failed = true;
            },
            None => {},
        }
        proof {
            if before.failed {
                let k = choose|k: int|
                    0 <= k < c && (opt_hash(outcomes@[of@[#[trigger] cands@[k] as int] as int]) matches Some(
                        HashV::Failed { .. },
                    ));
                assert(0 <= k < c + 1 && cands@[k] == cands@[k]);
            }
            if r.failed && !before.failed {
                assert(opt_hash(outcomes@[of@[cands@[c as int] as int] as int]) matches Some(
                    HashV::Failed { .. },
                ));
            }
            if exists|k: int|
                0 <= k < c + 1 && (opt_hash(outcomes@[of@[#[trigger] cands@[k] as int] as int]) matches Some(
                    HashV::Failed { .. },
                )) {
                let k = choose|k: int|
                    0 <= k < c + 1 && (opt_hash(outcomes@[of@[#[trigger] cands@[k] as int] as int]) matches Some(
                        HashV::Failed { .. },
                    ));
                if k < c {
                    assert(before.failed);
                }
            }
        }
        c = c + 1;
    }
    r
}

/// What move-detection makes of the files to bring and the files to remove.
struct Settled {
    moved: Vec<Move>,
    kept_added: Vec<Change>,
    kept_removed: Vec<Change>,
}

/// Pairs content-identical files to bring with files to remove: those are moves. The others stay
/// plain copies and deletes.
fn detect_moves(
    src: &Vec<Entry>,
    dst: &Vec<Entry>,
    sv: &Survey,
    adds: &Vec<(usize, Digest)>,
    rems: &Vec<(usize, Digest)>,
    x: Ghost<DiffIn>,
) -> (r: Settled)
    requires
        x@.s == entries_view(src@),
        x@.d == entries_view(dst@),
        sv.holds(x@.s, x@.d),
        hashed_view(adds@) == add_hashed(x@),
        hashed_view(rems@) == rem_hashed(x@),
        forall|k: int| 0 <= k < adds@.len() ==> (#[trigger] adds@[k]).0 < sv.add_files@.len(),
        forall|k: int| 0 <= k < rems@.len() ==> (#[trigger] rems@[k]).0 < sv.rm_files@.len(),
    ensures
        values(r.moved@) == moved_list(x@),
        values(r.kept_added@) == collect(add_files(x@.s, x@.d).len() as int, kept_add_rule(x@)),
        values(r.kept_removed@) == collect(rm_files(x@.s, x@.d).len() as int, kept_rem_rule(x@)),
{
    let ghost s = x@.s;
    let ghost d = x@.d;
    let ghost wanted = add_hashed(x@);
    let ghost spare = rem_hashed(x@);
    let pairs = pair_up(adds, rems);
    proof {
        assert(digests(adds@) =~= hash_column(wanted)) by {
            assert forall|k: int| 0 <= k < adds@.len() implies digests(adds@)[k] == hash_column(wanted)[k] by {
                assert(hashed_view(adds@)[k].1 == adds@[k].1@);
            }
        }
        assert(digests(rems@) =~= hash_column(spare)) by {
            assert forall|k: int| 0 <= k < rems@.len() implies digests(rems@)[k] == hash_column(spare)[k] by {
                assert(hashed_view(rems@)[k].1 == rems@[k].1@);
            }
        }
        assert(wanted.len() == adds@.len());
        assert(spare.len() == rems@.len());
        assert(as_ints(sv.add_files@).len() == sv.add_files@.len());
        assert(as_ints(sv.rm_files@).len() == sv.rm_files@.len());
    }
    let mut moved: Vec<Move> = Vec::new();
    let mut gone_add = flags(sv.add_files.len());
    let mut gone_rem = flags(sv.rm_files.len());
    let mut k: usize = 0;
    assert(values(moved@) =~= collect(0, move_rule(x@)));
    while k < adds.len()
        invariant
            s == x@.s,
            d == x@.d,
            s == entries_view(src@),
            d == entries_view(dst@),
            sv.holds(s, d),
            wanted == add_hashed(x@),
            spare == rem_hashed(x@),
            hashed_view(adds@) == wanted,
            hashed_view(rems@) == spare,
            wanted.len() == adds@.len(),
            spare.len() == rems@.len(),
            forall|k: int| 0 <= k < adds@.len() ==> (#[trigger] adds@[k]).0 < sv.add_files@.len(),
            forall|k: int| 0 <= k < rems@.len() ==> (#[trigger] rems@[k]).0 < sv.rm_files@.len(),
            pairs@.len() == adds@.len(),
            forall|k: int| 0 <= k < pairs@.len() ==> opt_int(#[trigger] pairs@[k]) == match_of(x@, k),
            forall|k: int|
                0 <= k < pairs@.len() ==> (#[trigger] pairs@[k] matches Some(q) ==> q < rems@.len()),
            gone_add@.len() == sv.add_files@.len(),
            gone_rem@.len() == sv.rm_files@.len(),
            0 <= k <= adds@.len(),
            values(moved@) == collect(k as int, move_rule(x@)),
            forall|p: int|
                0 <= p < gone_add@.len() ==> (#[trigger] gone_add@[p] <==> exists|c: int|
                    0 <= c < k && (#[trigger] wanted[c]).0 == p && match_of(x@, c) is Some),
            forall|p: int|
                0 <= p < gone_rem@.len() ==> (#[trigger] gone_rem@[p] <==> exists|c: int|
                    0 <= c < k && (#[trigger] match_of(x@, c) matches Some(q) && spare[q].0 == p)),
        decreases adds@.len() - k,
    {
        let ghost ga = gone_add@;
        let ghost gr = gone_rem@;
        assert(wanted[k as int] == hashed_view(adds@)[k as int]);
        assert(opt_int(pairs@[k as int]) == match_of(x@, k as int));
        let ghost mut hit_a: int = -1;
        let ghost mut hit_r: int = -1;
        if let Some(q) = pairs[k] {
            assert(spare[q as int] == hashed_view(rems@)[q as int]);
            let ap: usize = adds[k].0;
            let rp: usize = rems[q].0;
            assert(as_ints(sv.add_files@)[ap as int] == sv.add_files@[ap as int]);
            assert(as_ints(sv.rm_files@)[rp as int] == sv.rm_files@[rp as int]);
            let ai: usize = sv.add_files[ap];
            let ri: usize = sv.rm_files[rp];
            assert(s[ai as int] == src@[ai as int]@);
            assert(d[ri as int] == dst@[ri as int]@);
            let mv = Move { from: dst[ri].rel.clone(), to: src[ai].rel.clone() };
            proof {
                lemma_values_push(moved@, mv);
                assert(move_rule(x@)(k as int) == Some(mv.value()));
                hit_a = ap as int;
                hit_r = rp as int;
            }
            moved.push(mv);
            gone_add.set(ap, true);
            gone_rem.set(rp, true);
        } else {
            assert(move_rule(x@)(k as int) is None);
        }
        proof {
            assert forall|p: int| 0 <= p < gone_add@.len() implies (#[trigger] gone_add@[p] <==> exists|c: int|
                0 <= c < k + 1 && (#[trigger] wanted[c]).0 == p && match_of(x@, c) is Some) by {
                if p == hit_a {
                    assert(wanted[k as int].0 == p && match_of(x@, k as int) is Some);
                } else {
                    assert(gone_add@[p] == ga[p]);
                    if ga[p] {
                        let c = choose|c: int|
                            0 <= c < k && (#[trigger] wanted[c]).0 == p && match_of(x@, c) is Some;
                        assert(0 <= c < k + 1 && wanted[c].0 == p);
                    }
                    if exists|c: int| 0 <= c < k + 1 && (#[trigger] wanted[c]).0 == p && match_of(x@, c) is Some {
                        let c = choose|c: int|
                            0 <= c < k + 1 && (#[trigger] wanted[c]).0 == p && match_of(x@, c) is Some;
                        assert(c < k);
                    }
                }
            }
            assert forall|p: int| 0 <= p < gone_rem@.len() implies (#[trigger] gone_rem@[p] <==> exists|c: int|
                0 <= c < k + 1 && (#[trigger] match_of(x@, c) matches Some(q) && spare[q].0 == p)) by {
                if p == hit_r {
                    assert(match_of(x@, k as int) matches Some(q) && spare[q].0 == p);
                } else {
                    assert(gone_rem@[p] == gr[p]);
                    if gr[p] {
                        let c = choose|c: int|
                            0 <= c < k && (#[trigger] match_of(x@, c) matches Some(q) && spare[q].0 == p);
                        assert(0 <= c < k + 1);
                    }
                    if exists|c: int|
                        0 <= c < k + 1 && (#[trigger] match_of(x@, c) matches Some(q) && spare[q].0 == p) {
                        let c = choose|c: int|
                            0 <= c < k + 1 && (#[trigger] match_of(x@, c) matches Some(q) && spare[q].0 == p);
                        assert(c < k);
                    }
                }
            }
        }
        k = k + 1;
    }
    let mut kept_added: Vec<Change> = Vec::new();
    let mut p: usize = 0;
    assert(values(kept_added@) =~= collect(0, kept_add_rule(x@)));
    while p < sv.add_files.len()
        invariant
            s == x@.s,
            d == x@.d,
            s == entries_view(src@),
            sv.holds(s, d),
            wanted == add_hashed(x@),
            gone_add@.len() == sv.add_files@.len(),
            forall|p: int| 0 <= p < gone_add@.len() ==> (#[trigger] gone_add@[p] <==> comes_by_move(x@, p)),
            0 <= p <= sv.add_files@.len(),
            values(kept_added@) == collect(p as int, kept_add_rule(x@)),
        decreases sv.add_files@.len() - p,
    {
        assert(as_ints(sv.add_files@)[p as int] == sv.add_files@[p as int]);
        if !gone_add[p] {
            let i: usize = sv.add_files[p];
            assert(s[i as int] == src@[i as int]@);
            let ch = Change { rel: src[i].rel.clone(), kind: Kind::File };
            proof {
                lemma_values_push(kept_added@, ch);
            }
            kept_added.push(ch);
        }
        p = p + 1;
    }
    let mut kept_removed: Vec<Change> = Vec::new();
    let mut q: usize = 0;
    assert(values(kept_removed@) =~= collect(0, kept_rem_rule(x@)));
    while q < sv.rm_files.len()
        invariant
            s == x@.s,
            d == x@.d,
            d == entries_view(dst@),
            sv.holds(s, d),
            gone_rem@.len() == sv.rm_files@.len(),
            forall|p: int| 0 <= p < gone_rem@.len() ==> (#[trigger] gone_rem@[p] <==> goes_by_move(x@, p)),
            0 <= q <= sv.rm_files@.len(),
            values(kept_removed@) == collect(q as int, kept_rem_rule(x@)),
        decreases sv.rm_files@.len() - q,
    {
        assert(as_ints(sv.rm_files@)[q as int] == sv.rm_files@[q as int]);
        if !gone_rem[q] {
            let i: usize = sv.rm_files[q];
            assert(d[i as int] == dst@[i as int]@);
            let ch = Change { rel: dst[i].rel.clone(), kind: Kind::File };
            proof {
                lemma_values_push(kept_removed@, ch);
            }
            kept_removed.push(ch);
        }
        q = q + 1;
    }
    Settled { moved, kept_added, kept_removed }
}

/// The paths that get a new inode.
fn anew(added: &Vec<Change>, changed: &Vec<Change>, moved: &Vec<Move>) -> (r: Vec<FsPath>)
    ensures
        paths_view(r@) == change_paths(values(added@)) + change_paths(values(changed@)) + move_targets(
            values(moved@),
        ),
{
    let ghost want = change_paths(values(added@)) + change_paths(values(changed@)) + move_targets(
        values(moved@),
    );
    let mut r: Vec<FsPath> = Vec::new();
    let mut i: usize = 0;
    while i < added.len()
        invariant
            0 <= i <= added@.len(),
            r@.len() == i,
            forall|k: int| 0 <= k < i ==> #[trigger] r@[k]@ == added@[k].rel@,
        decreases added@.len() - i,
    {
        r.push(added[i].rel.clone());
        i = i + 1;
    }
    assert(paths_view(r@) =~= change_paths(values(added@)));
    let ghost first = paths_view(r@);
    i = 0;
    assert(paths_view(r@) =~= first + change_paths(values(changed@)).subrange(0, 0));
    while i < changed.len()
        invariant
            0 <= i <= changed@.len(),
            paths_view(r@) == first + change_paths(values(changed@)).subrange(0, i as int),
        decreases changed@.len() - i,
    {
        let p = changed[i].rel.clone();
        proof {
            lemma_paths_push(r@, p);
        }
        r.push(p);
        i = i + 1;
        assert(paths_view(r@) =~= first + change_paths(values(changed@)).subrange(0, i as int));
    }
    assert(paths_view(r@) =~= first + change_paths(values(changed@)));
    let ghost second = paths_view(r@);
    i = 0;
    assert(paths_view(r@) =~= second + move_targets(values(moved@)).subrange(0, 0));
    while i < moved.len()
        invariant
            0 <= i <= moved@.len(),
            paths_view(r@) == second + move_targets(values(moved@)).subrange(0, i as int),
        decreases moved@.len() - i,
    {
        let p = moved[i].to.clone();
        proof {
            lemma_paths_push(r@, p);
        }
        r.push(p);
        i = i + 1;
        assert(paths_view(r@) =~= second + move_targets(values(moved@)).subrange(0, i as int));
    }
    assert(paths_view(r@) =~= want);
    r
}

/// The linkage of later names, and what is unchanged.
struct Linkage {
    to_link: Vec<Link>,
    unchanged: usize,
    unchanged_paths: Vec<FsPath>,
}

/// Decides which later names need a (re)link, and counts what needs nothing.
fn link_up(
    src: &Vec<Entry>,
    dst: &Vec<Entry>,
    sv: &Survey,
    comps: &Vec<Option<Comparison>>,
    fresh: &Vec<FsPath>,
    x: Ghost<DiffIn>,
    include_same: bool,
) -> (r: Linkage)
    requires
        x@.s == entries_view(src@),
        x@.d == entries_view(dst@),
        x@.include_same == include_same,
        sv.holds(x@.s, x@.d),
        comps@.len() == src@.len(),
        forall|i: int| 0 <= i < src@.len() ==> opt_comparison(#[trigger] comps@[i]) == comparison(x@, i),
        paths_view(fresh@) == written_anew(x@),
    ensures
        values(r.to_link@) == link_list(x@),
        r.unchanged == unchanged_list(x@).len(),
        named_view(r.unchanged_paths@) == if include_same {
            unchanged_list(x@)
        } else {
            Seq::empty()
        },
{
    let ghost s = x@.s;
    let ghost d = x@.d;
    let index = PathIndex::build(fresh);
    let mut to_link: Vec<Link> = Vec::new();
    let mut same: Vec<FsPath> = Vec::new();
    let mut unchanged: usize = 0;
    let mut i: usize = 0;
    assert(values(to_link@) =~= collect(0, link_rule(x@)));
    assert(named_view(same@) =~= if include_same {
        collect(0, unchanged_rule(x@))
    } else {
        Seq::empty()
    });
    while i < src.len()
        invariant
            s == x@.s,
            d == x@.d,
            s == entries_view(src@),
            d == entries_view(dst@),
            sv.holds(s, d),
            comps@.len() == src@.len(),
            forall|i: int|
                0 <= i < src@.len() ==> opt_comparison(#[trigger] comps@[i]) == comparison(x@, i),
            index.indexes(fresh.paths()),
            paths_view(fresh@) == written_anew(x@),
            0 <= i <= src@.len(),
            values(to_link@) == collect(i as int, link_rule(x@)),
            unchanged == collect(i as int, unchanged_rule(x@)).len(),
            unchanged <= i,
            named_view(same@) == if include_same {
                collect(i as int, unchanged_rule(x@))
            } else {
                Seq::empty()
            },
        decreases src@.len() - i,
    {
        assert(s[i as int] == src@[i as int]@);
        assert(opt_comparison(comps@[i as int]) == comparison(x@, i as int));
        let settled = match sv.leaders[i] {
            Some(l) => {
                assert(s[l as int] == src@[l as int]@);
                let stale = index.find(fresh, &src[l].rel).is_some();
                proof {
                    lemma_last_at(written_anew(x@), s[l as int].rel);
                }
                let joined = match (sv.places[i], sv.places[l]) {
                    (Some(a), Some(b)) => {
                        assert(d[a as int] == dst@[a as int]@);
                        assert(d[b as int] == dst@[b as int]@);
                        match (dst[a].link_id, dst[b].link_id) {
                            (Some(ia), Some(ib)) => dst[a].kind == Kind::File && ia.0 == ib.0 && ia.1 == ib.1,
                            _ => false,
                        }
                    },
                    _ => false,
                };
                let good = !stale && joined;
                assert(good == well_linked(x@, i as int, l as int));
                if !good {
                    let li = Link { leader: src[l].rel.clone(), name: src[i].rel.clone() };
                    proof {
                        lemma_values_push(to_link@, li);
                    }
                    to_link.push(li);
                }
                good
            },
            None => match &comps[i] {
                Some(c) => match c.verdict {
                    Verdict::Unchanged => true,
                    _ => false,
                },
                None => false,
            },
        };
        assert(settled == is_unchanged(x@, i as int));
        if settled {
            unchanged = unchanged + 1;
            if include_same {
                let q = src[i].rel.clone();
                proof {
                    lemma_paths_push(same@, q);
                }
                same.push(q);
            }
        }
        i = i + 1;
    }
    Linkage { to_link, unchanged, unchanged_paths: same }
}

/// Classify a source against a destination. `eager` compares files by content hash instead of
/// size and modification time. With `relative_symlinks`, each destination link is held against the
/// target that a copy would write, so a link already rewritten by an earlier run is unchanged.
///
/// `examined` holds what came of hashing the files that [`hash_requests`] asks for, and where the
/// source's links lead.
pub fn diff(
    src_m: &Manifest,
    dst_m: &Manifest,
    examined: &Examined,
    eager: bool,
    relative_symlinks: bool,
    include_same: bool,
) -> (r: Diff)
    requires
        covers(diff_input(src_m@, dst_m@, *examined, eager, relative_symlinks, include_same)),
    ensures
        r@ == classified(
            diff_input(src_m@, dst_m@, *examined, eager, relative_symlinks, include_same),
        ),
{
    let ghost x = diff_input(src_m@, dst_m@, *examined, eager, relative_symlinks, include_same);
    let src = src_m.entries();
    let dst = dst_m.entries();
    let sv = survey(src, dst);
    let comps = compare_all(src, dst, &sv, examined, eager, relative_symlinks, include_same);
    let sifted = sift(src, &comps, Ghost(x));
    let (mut added, mut removed) = plain_sides(src, dst, &sv, Ghost(x));
    proof {
        assert forall|c: int| 0 <= c < sv.add_cands@.len() implies add_outcome(x, c) == opt_hash(
            examined.src@[sv.add_files@[#[trigger] sv.add_cands@[c] as int] as int],
        ) && x.s[add_files(x.s, x.d)[add_cands(x.s, x.d)[c]]] == src@[sv.add_files@[sv.add_cands@[c] as int] as int]@
            && add_cands(x.s, x.d)[c] == sv.add_cands@[c] by {
            assert(as_ints(sv.add_cands@)[c] == sv.add_cands@[c]);
            assert(as_ints(sv.add_files@)[sv.add_cands@[c] as int] == sv.add_files@[sv.add_cands@[c] as int]);
        }
        assert forall|c: int| 0 <= c < sv.rem_cands@.len() implies rem_outcome(x, c) == opt_hash(
            examined.dst@[sv.rm_files@[#[trigger] sv.rem_cands@[c] as int] as int],
        ) && x.d[rm_files(x.s, x.d)[rem_cands(x.s, x.d)[c]]] == dst@[sv.rm_files@[sv.rem_cands@[c] as int] as int]@
            && rem_cands(x.s, x.d)[c] == sv.rem_cands@[c] by {
            assert(as_ints(sv.rem_cands@)[c] == sv.rem_cands@[c]);
            assert(as_ints(sv.rm_files@)[sv.rem_cands@[c] as int] == sv.rm_files@[sv.rem_cands@[c] as int]);
        }
        assert(as_ints(sv.add_cands@).len() == sv.add_cands@.len());
        assert(as_ints(sv.rem_cands@).len() == sv.rem_cands@.len());
    }
    let adds = hash_candidates(
        "source",
        src,
        &sv.add_files,
        &sv.add_cands,
        &examined.src,
        Ghost(add_hash_rule(x)),
        Ghost(add_issue_rule(x)),
        Ghost(add_denied_rule(x)),
    );
    let rems = hash_candidates(
        "destination",
        dst,
        &sv.rm_files,
        &sv.rem_cands,
        &examined.dst,
        Ghost(rem_hash_rule(x)),
        Ghost(rem_issue_rule(x)),
        Ghost(rem_denied_rule(x)),
    );
    let mut settled = detect_moves(src, dst, &sv, &adds.list, &rems.list, Ghost(x));
    proof {
        lemma_values_add(added@, settled.kept_added@);
        lemma_values_add(removed@, settled.kept_removed@);
    }
    added.append(&mut settled.kept_added);
    removed.append(&mut settled.kept_removed);
    assert(values(added@) == added_list(x));
    assert(values(removed@) == removed_list(x));
    let fresh = anew(&added, &sifted.changed, &settled.moved);
    let linkage = link_up(src, dst, &sv, &comps, &fresh, Ghost(x), include_same);
    let Sifted { changed, touched, issues, denied_source, denied_dest, gap } = sifted;
    let (mut issues, mut denied_source, mut denied_dest) = (issues, denied_source, denied_dest);
    let Hashed { list: _, issues: add_issues, denied: add_denied, failed: add_failed } = adds;
    let Hashed { list: _, issues: rem_issues, denied: rem_denied, failed: _ } = rems;
    let (mut add_issues, mut rem_issues) = (add_issues, rem_issues);
    let (mut add_denied, mut rem_denied) = (add_denied, rem_denied);
    proof {
        lemma_texts_add(issues@, add_issues@);
        lemma_texts_add(issues@ + add_issues@, rem_issues@);
        lemma_paths_add(denied_source@, add_denied@);
        lemma_paths_add(denied_dest@, rem_denied@);
    }
    issues.append(&mut add_issues);
    issues.append(&mut rem_issues);
    denied_source.append(&mut add_denied);
    denied_dest.append(&mut rem_denied);
    let source_unreadable = gap || add_failed;
    proof {
        assert(source_unreadable == source_gap(x)) by {
            if exists|c: int| 0 <= c < add_cands(x.s, x.d).len() && (#[trigger] add_outcome(x, c)) matches Some(HashV::Failed { .. }) {
                let c = choose|c: int| 0 <= c < add_cands(x.s, x.d).len() && (#[trigger] add_outcome(x, c)) matches Some(HashV::Failed { .. });
                assert(sv.add_cands@[c] == sv.add_cands@[c]);
                assert(add_failed);
            }
            if add_failed {
                let c = choose|c: int|
                    0 <= c < sv.add_cands@.len() && (opt_hash(
                        examined.src@[sv.add_files@[#[trigger] sv.add_cands@[c] as int] as int],
                    ) matches Some(HashV::Failed { .. }));
                assert(add_outcome(x, c) matches Some(HashV::Failed { .. }));
            }
        }
    }
    let unchanged_paths = sort_ascending(&linkage.unchanged_paths);
    proof {
        assert(paths_view(linkage.unchanged_paths@) =~= bare(named_view(linkage.unchanged_paths@)));
        if !include_same {
            let e = Seq::<SpelledV>::empty();
            assert(sorted_with(e, bare(e), by_path()) =~= e);
        }
    }
    Diff {
        added: sort_items(&added),
        removed: sort_items(&removed),
        changed: sort_items(&changed),
        moved: sort_items(&settled.moved),
        touched: sort_items(&touched),
        to_link: sort_items(&linkage.to_link),
        unchanged: linkage.unchanged,
        unchanged_paths,
        issues,
        source_unreadable,
        denied_source,
        denied_dest,
    }
}

// ── rendering ────────────────────────────────────────────────────────────────

/// `out` with a count line: a label, a number and a line break.
pub open spec fn put_count(out: Seq<char>, label: Seq<char>, n: int) -> Seq<char> {
    out + label + dec(n as nat) + "\n"@
}

/// How one change is listed.
pub open spec fn put_change(mark: Seq<char>) -> spec_fn(Seq<char>, ChangeV) -> Seq<char> {
    |out: Seq<char>, c: ChangeV| out + mark + utf8_lossy(c.text) + "\n"@
}

/// How one entry to copy is listed: special files carry a note.
pub open spec fn put_added() -> spec_fn(Seq<char>, ChangeV) -> Seq<char> {
    |out: Seq<char>, c: ChangeV|
        if c.kind == Kind::Other {
            out + "    + "@ + utf8_lossy(c.text) + " (special file — no content; will be skipped)\n"@
        } else {
            out + "    + "@ + utf8_lossy(c.text) + "\n"@
        }
}

/// How one move is listed.
pub open spec fn put_move() -> spec_fn(Seq<char>, MoveV) -> Seq<char> {
    |out: Seq<char>, m: MoveV| out + "    ~ "@ + utf8_lossy(m.from_text) + "  ->  "@ + utf8_lossy(m.to_text) + "\n"@
}

/// How one link is listed.
pub open spec fn put_link() -> spec_fn(Seq<char>, LinkV) -> Seq<char> {
    |out: Seq<char>, l: LinkV| out + "    & "@ + utf8_lossy(l.name_text) + "  ->  "@ + utf8_lossy(l.leader_text) + "\n"@
}

/// How one unchanged path is listed.
pub open spec fn put_same() -> spec_fn(Seq<char>, SpelledV) -> Seq<char> {
    |out: Seq<char>, p: SpelledV| out + "    = "@ + utf8_lossy(p.text) + "\n"@
}

/// `out` with the items listed, where detail is wanted.
pub open spec fn put_detail<T>(
    out: Seq<char>,
    detail: bool,
    items: Seq<T>,
    put: spec_fn(Seq<char>, T) -> Seq<char>,
) -> Seq<char> {
    if detail {
        crate::text::put_all(out, items, put)
    } else {
        out
    }
}

/// The textual summary of a difference.
pub open spec fn rendered(d: DiffV, detail: bool) -> Seq<char> {
    let o1 = put_count(Seq::empty(), "moved:     "@, d.moved.len() as int);
    let o2 = put_detail(o1, detail, d.moved, put_move());
    let o3 = put_count(o2, "to copy:   "@, d.added.len() as int);
    let o4 = put_detail(o3, detail, d.added, put_added());
    let o5 = put_count(o4, "to delete: "@, d.removed.len() as int);
    let o6 = put_detail(o5, detail, d.removed, put_change("    - "@));
    let o7 = put_count(o6, "to update: "@, d.changed.len() as int);
    let o8 = put_detail(o7, detail, d.changed, put_change("    * "@));
    let o9 = o8 + "to link:   "@ + dec(d.to_link.len())
        + " (hard links — content written once via the leader)\n"@;
    let o10 = put_detail(o9, detail, d.to_link, put_link());
    let o11 = put_count(
        o10,
        "to refresh (content identical, metadata drift): "@,
        d.touched.len() as int,
    );
    let o12 = put_detail(o11, detail, d.touched, put_change("    ≈ "@));
    let o13 = put_count(o12, "unchanged: "@, d.unchanged);
    put_detail(o13, detail, d.unchanged_paths, put_same())
}

fn push_count(out: &mut String, label: &str, n: usize)
    ensures
        final(out)@ == put_count(old(out)@, label@, n as int),
{
    out.append(label);
    push_dec(out, n as u64);
    out.append("\n");
}

fn push_changes(out: &mut String, mark: &str, list: &Vec<Change>)
    ensures
        final(out)@ == crate::text::put_all(old(out)@, values(list@), put_change(mark@)),
{
    let ghost start = out@;
    let ghost items = values(list@);
    let mut i: usize = 0;
    while i < list.len()
        invariant
            items == values(list@),
            0 <= i <= list@.len(),
            out@ == crate::text::put_each(start, items, i as int, put_change(mark@)),
        decreases list@.len() - i,
    {
        assert(items[i as int] == list@[i as int].value());
        out.append(mark);
        push_spelled(out, &list[i].rel);
        out.append("\n");
        i = i + 1;
    }
}

impl Diff {
    /// The paths of the entries to copy.
    pub fn added_paths(&self) -> (r: Vec<FsPath>)
        ensures
            named_view(r@) == change_names(self@.added),
    {
        copy_paths(&self.added)
    }

    /// The paths of the entries to delete.
    pub fn removed_paths(&self) -> (r: Vec<FsPath>)
        ensures
            named_view(r@) == change_names(self@.removed),
    {
        copy_paths(&self.removed)
    }

    /// The paths of the entries to update.
    pub fn changed_paths(&self) -> (r: Vec<FsPath>)
        ensures
            named_view(r@) == change_names(self@.changed),
    {
        copy_paths(&self.changed)
    }

    /// A textual summary. `detail` controls whether the per-file lines are there: a findings file
    /// gets the full listing, the terminal only the count lines.
    pub fn render(&self, detail: bool) -> (s: String)
        ensures
            s@ == rendered(self@, detail),
    {
        let mut s = String::new();
        push_count(&mut s, "moved:     ", self.moved.len());
        if detail {
            let ghost start = s@;
            let ghost items = values(self.moved@);
            let mut i: usize = 0;
            while i < self.moved.len()
                invariant
                    items == values(self.moved@),
                    0 <= i <= self.moved@.len(),
                    s@ == crate::text::put_each(start, items, i as int, put_move()),
                decreases self.moved@.len() - i,
            {
                assert(items[i as int] == self.moved@[i as int].value());
                s.append("    ~ ");
                push_spelled(&mut s, &self.moved[i].from);
                s.append("  ->  ");
                push_spelled(&mut s, &self.moved[i].to);
                s.append("\n");
                i = i + 1;
            }
        }
        push_count(&mut s, "to copy:   ", self.added.len());
        if detail {
            let ghost start = s@;
            let ghost items = values(self.added@);
            let mut i: usize = 0;
            while i < self.added.len()
                invariant
                    items == values(self.added@),
                    0 <= i <= self.added@.len(),
                    s@ == crate::text::put_each(start, items, i as int, put_added()),
                decreases self.added@.len() - i,
            {
                assert(items[i as int] == self.added@[i as int].value());
                s.append("    + ");
                push_spelled(&mut s, &self.added[i].rel);
                if self.added[i].kind == Kind::Other {
                    s.append(" (special file — no content; will be skipped)\n");
                } else {
                    s.append("\n");
                }
                i = i + 1;
            }
        }
        push_count(&mut s, "to delete: ", self.removed.len());
        if detail {
            push_changes(&mut s, "    - ", &self.removed);
        }
        push_count(&mut s, "to update: ", self.changed.len());
        if detail {
            push_changes(&mut s, "    * ", &self.changed);
        }
        s.append("to link:   ");
        push_dec(&mut s, self.to_link.len() as u64);
        s.append(" (hard links — content written once via the leader)\n");
        if detail {
            let ghost start = s@;
            let ghost items = values(self.to_link@);
            let mut i: usize = 0;
            while i < self.to_link.len()
                invariant
                    items == values(self.to_link@),
                    0 <= i <= self.to_link@.len(),
                    s@ == crate::text::put_each(start, items, i as int, put_link()),
                decreases self.to_link@.len() - i,
            {
                assert(items[i as int] == self.to_link@[i as int].value());
                s.append("    & ");
                push_spelled(&mut s, &self.to_link[i].name);
                s.append("  ->  ");
                push_spelled(&mut s, &self.to_link[i].leader);
                s.append("\n");
                i = i + 1;
            }
        }
        push_count(&mut s, "to refresh (content identical, metadata drift): ", self.touched.len());
        if detail {
            push_changes(&mut s, "    ≈ ", &self.touched);
        }
        push_count(&mut s, "unchanged: ", self.unchanged);
        if detail {
            let ghost start = s@;
            let ghost items = named_view(self.unchanged_paths@);
            let mut i: usize = 0;
            while i < self.unchanged_paths.len()
                invariant
                    items == named_view(self.unchanged_paths@),
                    0 <= i <= self.unchanged_paths@.len(),
                    s@ == crate::text::put_each(start, items, i as int, put_same()),
                decreases self.unchanged_paths@.len() - i,
            {
                assert(items[i as int] == self.unchanged_paths@[i as int].named());
                s.append("    = ");
                push_spelled(&mut s, &self.unchanged_paths[i]);
                s.append("\n");
                i = i + 1;
            }
        }
        s
    }
}

fn copy_paths(list: &Vec<Change>) -> (r: Vec<FsPath>)
    ensures
        named_view(r@) == change_names(values(list@)),
{
    let mut r: Vec<FsPath> = Vec::new();
    let mut i: usize = 0;
    while i < list.len()
        invariant
            0 <= i <= list@.len(),
            r@.len() == i,
            forall|k: int| 0 <= k < i ==> (#[trigger] r@[k]).named() == list@[k].rel.named(),
        decreases list@.len() - i,
    {
        r.push(list[i].rel.clone());
        i = i + 1;
    }
    assert forall|k: int| 0 <= k < r@.len() implies #[trigger] named_view(r@)[k] == change_names(values(list@))[k] by {
        assert(r@[k].named() == list@[k].rel.named());
        assert(values(list@)[k] == list@[k].value());
    }
    assert(named_view(r@) =~= change_names(values(list@)));
    r
}

} // verus!
