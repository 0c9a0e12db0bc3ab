//! Turn a [`Diff`] into an ordered list of concrete destination [`Action`]s.
//!
//! The order encodes "destructive/space-freeing work first, writes last", and delete-before-create,
//! so that a path whose kind changed is cleared before the new version is placed:
//!   1. Delete what sits at or under a move's target, so that the rename cannot fail on it.
//!   2. Rename: carry out the detected moves within the destination; no bytes are copied.
//!   3. Delete the remaining extras, children before parents.
//!   4. Create new directories, parents before children.
//!   5. Copy the new and changed files: the space-consuming writes, last.
//!   6. Refresh the metadata of content-identical files.
//!   7. Hard-link, strictly after the copies, so that every first name is in place.
use vstd::prelude::*;

use crate::collect::{collect, lemma_collect_contains, lemma_collect_shared};
use crate::diff::{ChangeV, Diff, DiffV, LinkV, Move, MoveV, change_names, change_paths, has_change, has_link, has_move, name_of_change};
use crate::manifest::{EntryV, Kind, Manifest, rels};
use crate::order::{Item, PathIndex, PathList, ascending, by_path, by_path_down, descending, is_strict_order, last_at, lemma_ascending, lemma_below_is_after, lemma_by_path_strict, lemma_descending, lemma_last_at, lemma_order, lemma_order_in_range, lemma_sorted_contains, lemma_values_push, order, path_lt, sort_ascending, sort_descending, sorted_with, values};
use crate::paths::{FsPath, PathV, SpelledV, bare, lemma_paths_push, named_view, paths_view, spellings, starts_with};

verus! {

/// A concrete operation on the destination. Paths are relative to the destination root.
#[derive(Debug, PartialEq, Eq)]
pub enum Action {
    CreateDir(FsPath),
    Rename { from: FsPath, to: FsPath },
    Delete(FsPath),
    /// Reproduce the source entry at this path (copy a file, or recreate a symlink).
    Copy(FsPath),
    /// Align modification time and permissions with the source; the content was hash-verified
    /// identical, so no bytes move.
    RefreshMeta(FsPath),
    /// Make `name` another name for `leader`'s inode.
    HardLink { leader: FsPath, name: FsPath },
}

/// The value of an [`Action`].
pub enum ActionV {
    CreateDir(PathV),
    Rename { from: PathV, to: PathV },
    Delete(PathV),
    Copy(PathV),
    RefreshMeta(PathV),
    HardLink { leader: PathV, name: PathV },
}

impl Item for Action {
    type Value = ActionV;

    open spec fn value(&self) -> ActionV {
        match self {
            Action::CreateDir(p) => ActionV::CreateDir(p@),
            Action::Rename { from, to } => ActionV::Rename { from: from@, to: to@ },
            Action::Delete(p) => ActionV::Delete(p@),
            Action::Copy(p) => ActionV::Copy(p@),
            Action::RefreshMeta(p) => ActionV::RefreshMeta(p@),
            Action::HardLink { leader, name } => ActionV::HardLink { leader: leader@, name: name@ },
        }
    }

    fn dup(&self) -> (r: Action) {
        self.clone()
    }
}

/// How the paths of an action are spelled.
pub open spec fn action_texts(a: Action) -> Seq<Seq<u8>> {
    match a {
        Action::CreateDir(p) => seq![p.spelled()],
        Action::Rename { from, to } => seq![from.spelled(), to.spelled()],
        Action::Delete(p) => seq![p.spelled()],
        Action::Copy(p) => seq![p.spelled()],
        Action::RefreshMeta(p) => seq![p.spelled()],
        Action::HardLink { leader, name } => seq![leader.spelled(), name.spelled()],
    }
}

impl Clone for Action {
    fn clone(&self) -> (r: Action)
        ensures
            r.value() == self.value(),
            action_texts(r) == action_texts(*self),
            reported_text(r) == reported_text(*self),
    {
        match self {
            Action::CreateDir(p) => Action::CreateDir(p.clone()),
            Action::Rename { from, to } => Action::Rename { from: from.clone(), to: to.clone() },
            Action::Delete(p) => Action::Delete(p.clone()),
            Action::Copy(p) => Action::Copy(p.clone()),
            Action::RefreshMeta(p) => Action::RefreshMeta(p.clone()),
            Action::HardLink { leader, name } => Action::HardLink {
                leader: leader.clone(),
                name: name.clone(),
            },
        }
    }
}

// ── the plan ─────────────────────────────────────────────────────────────────

/// Something at `rel` stands in the way of a move: it sits at or under the move's target.
pub open spec fn blocks(d: DiffV, rel: PathV) -> bool {
    exists|m: int| 0 <= m < d.moved.len() && starts_with(rel, (#[trigger] d.moved[m]).to)
}

pub open spec fn blocking_rule(d: DiffV) -> spec_fn(int) -> Option<PathV> {
    |i: int|
        if blocks(d, d.removed[i].rel) {
            Some(d.removed[i].rel)
        } else {
            None
        }
}

pub open spec fn other_delete_rule(d: DiffV) -> spec_fn(int) -> Option<PathV> {
    |i: int|
        if blocks(d, d.removed[i].rel) {
            None
        } else {
            Some(d.removed[i].rel)
        }
}

pub open spec fn new_dir_rule(d: DiffV) -> spec_fn(int) -> Option<PathV> {
    |i: int|
        if d.added[i].kind == Kind::Dir {
            Some(d.added[i].rel)
        } else {
            None
        }
}

pub open spec fn new_copy_rule(d: DiffV) -> spec_fn(int) -> Option<PathV> {
    |i: int|
        if d.added[i].kind == Kind::Dir {
            None
        } else {
            Some(d.added[i].rel)
        }
}

/// What is deleted before the renames.
pub open spec fn early_deletes(d: DiffV) -> Seq<PathV> {
    descending(collect(d.removed.len() as int, blocking_rule(d)))
}

/// What is deleted after the renames.
pub open spec fn late_deletes(d: DiffV) -> Seq<PathV> {
    descending(collect(d.removed.len() as int, other_delete_rule(d)))
}

/// The directories to create.
pub open spec fn new_dirs(d: DiffV) -> Seq<PathV> {
    ascending(collect(d.added.len() as int, new_dir_rule(d)))
}

/// What is copied.
pub open spec fn copies(d: DiffV) -> Seq<PathV> {
    ascending(collect(d.added.len() as int, new_copy_rule(d)) + change_paths(d.changed))
}

pub open spec fn deletes_of(s: Seq<PathV>) -> Seq<ActionV> {
    Seq::new(s.len(), |i: int| ActionV::Delete(s[i]))
}

pub open spec fn renames_of(s: Seq<MoveV>) -> Seq<ActionV> {
    Seq::new(s.len(), |i: int| ActionV::Rename { from: s[i].from, to: s[i].to })
}

pub open spec fn creates_of(s: Seq<PathV>) -> Seq<ActionV> {
    Seq::new(s.len(), |i: int| ActionV::CreateDir(s[i]))
}

pub open spec fn copies_of(s: Seq<PathV>) -> Seq<ActionV> {
    Seq::new(s.len(), |i: int| ActionV::Copy(s[i]))
}

pub open spec fn refreshes_of(s: Seq<ChangeV>) -> Seq<ActionV> {
    Seq::new(s.len(), |i: int| ActionV::RefreshMeta(s[i].rel))
}

pub open spec fn links_of(s: Seq<LinkV>) -> Seq<ActionV> {
    Seq::new(s.len(), |i: int| ActionV::HardLink { leader: s[i].leader, name: s[i].name })
}

/// The ordered actions that realize a difference.
pub open spec fn planned(d: DiffV) -> Seq<ActionV> {
    deletes_of(early_deletes(d)) + renames_of(d.moved) + deletes_of(late_deletes(d)) + creates_of(
        new_dirs(d),
    ) + copies_of(copies(d)) + refreshes_of(d.touched) + links_of(d.to_link)
}

/// How the path by which an action is reported is spelled.
pub open spec fn reported_text(a: Action) -> Seq<u8> {
    match a {
        Action::CreateDir(p) => p.spelled(),
        Action::Rename { to, .. } => to.spelled(),
        Action::Delete(p) => p.spelled(),
        Action::Copy(p) => p.spelled(),
        Action::RefreshMeta(p) => p.spelled(),
        Action::HardLink { name, .. } => name.spelled(),
    }
}

pub open spec fn reported_texts(v: Seq<Action>) -> Seq<Seq<u8>> {
    Seq::new(v.len(), |i: int| reported_text(v[i]))
}

/// The removed entries that stand in the way of a move, as spelled, or the others.
pub open spec fn removed_rule(d: DiffV, in_the_way: bool) -> spec_fn(int) -> Option<SpelledV> {
    |i: int|
        if blocks(d, d.removed[i].rel) == in_the_way {
            Some(name_of_change(d.removed[i]))
        } else {
            None
        }
}

/// The added directories, as spelled, or the other added entries.
pub open spec fn added_rule(d: DiffV, dirs: bool) -> spec_fn(int) -> Option<SpelledV> {
    |i: int|
        if (d.added[i].kind == Kind::Dir) == dirs {
            Some(name_of_change(d.added[i]))
        } else {
            None
        }
}

/// How what is deleted before the renames is spelled, or what is deleted after them.
pub open spec fn delete_texts(d: DiffV, in_the_way: bool) -> Seq<Seq<u8>> {
    let list = collect(d.removed.len() as int, removed_rule(d, in_the_way));
    spellings(sorted_with(list, bare(list), by_path_down()))
}

/// How the directories to create are spelled.
pub open spec fn create_texts(d: DiffV) -> Seq<Seq<u8>> {
    let list = collect(d.added.len() as int, added_rule(d, true));
    spellings(sorted_with(list, bare(list), by_path()))
}

/// How what is copied is spelled.
pub open spec fn copy_texts(d: DiffV) -> Seq<Seq<u8>> {
    let list = collect(d.added.len() as int, added_rule(d, false)) + change_names(d.changed);
    spellings(sorted_with(list, bare(list), by_path()))
}

/// How the paths are spelled by which the actions of a plan are reported: as in the difference.
pub open spec fn planned_texts(d: DiffV) -> Seq<Seq<u8>> {
    delete_texts(d, true) + Seq::new(d.moved.len(), |i: int| d.moved[i].to_text) + delete_texts(d, false)
        + create_texts(d) + copy_texts(d) + spellings(change_names(d.touched)) + Seq::new(
        d.to_link.len(),
        |i: int| d.to_link[i].name_text,
    )
}

pub proof fn lemma_action_push(v: Seq<Action>, a: Action)
    ensures
        values(v.push(a)) == values(v).push(a.value()),
        reported_texts(v.push(a)) == reported_texts(v).push(reported_text(a)),
{
    lemma_values_push(v, a);
    assert(reported_texts(v.push(a)) =~= reported_texts(v).push(reported_text(a)));
}

proof fn lemma_bare(v: Seq<FsPath>)
    ensures
        bare(named_view(v)) == paths_view(v),
{
    assert(bare(named_view(v)) =~= paths_view(v));
}

/// Appends a deletion for each path.
fn push_deletes(actions: &mut Vec<Action>, list: &Vec<FsPath>)
    ensures
        values(final(actions)@) == values(old(actions)@) + deletes_of(paths_view(list@)),
        reported_texts(final(actions)@) == reported_texts(old(actions)@) + spellings(named_view(list@)),
{
    let ghost start = values(actions@);
    let ghost want = deletes_of(paths_view(list@));
    let ghost said = reported_texts(actions@);
    let ghost words = spellings(named_view(list@));
    assert(reported_texts(actions@) =~= said + words.subrange(0, 0));
    let mut i: usize = 0;
    assert(values(actions@) =~= start + want.subrange(0, 0));
    while i < list.len()
        invariant
            want == deletes_of(paths_view(list@)),
            words == spellings(named_view(list@)),
            0 <= i <= list@.len(),
            reported_texts(actions@) == said + words.subrange(0, i as int),
            values(actions@) == start + want.subrange(0, i as int),
        decreases list@.len() - i,
    {
        let a = Action::Delete(list[i].clone());
        proof {
            lemma_action_push(actions@, a);
            assert(a.value() == want[i as int]);
            assert(reported_text(a) == words[i as int]);
        }
        actions.push(a);
        i = i + 1;
        assert(values(actions@) =~= start + want.subrange(0, i as int));
        assert(reported_texts(actions@) =~= said + words.subrange(0, i as int));
    }
    assert(want.subrange(0, list@.len() as int) =~= want);
    assert(words.subrange(0, list@.len() as int) =~= words);
}

fn stands_in_the_way(rel: &FsPath, moved: &Vec<Move>) -> (r: bool)
    ensures
        r == exists|m: int|
            0 <= m < values(moved@).len() && starts_with(rel@, (#[trigger] values(moved@)[m]).to),
{
    let mut m: usize = 0;
    while m < moved.len()
        invariant
            0 <= m <= moved@.len(),
            forall|k: int| 0 <= k < m ==> !starts_with(rel@, (#[trigger] values(moved@)[k]).to),
        decreases moved@.len() - m,
    {
        assert(values(moved@)[m as int].to == moved@[m as int].to@);
        if rel.starts_with(&moved[m].to) {
            return true;
        }
        m = m + 1;
    }
    false
}

/// The deletions before and those after the renames.
fn split_deletes(diff: &Diff) -> (r: (Vec<FsPath>, Vec<FsPath>))
    ensures
        paths_view(r.0@) == collect(diff@.removed.len() as int, blocking_rule(diff@)),
        paths_view(r.1@) == collect(diff@.removed.len() as int, other_delete_rule(diff@)),
        named_view(r.0@) == collect(diff@.removed.len() as int, removed_rule(diff@, true)),
        named_view(r.1@) == collect(diff@.removed.len() as int, removed_rule(diff@, false)),
{
    let ghost d = diff@;
    let mut early: Vec<FsPath> = Vec::new();
    let mut late: Vec<FsPath> = Vec::new();
    let mut i: usize = 0;
    assert(paths_view(early@) =~= collect(0, blocking_rule(d)));
    assert(paths_view(late@) =~= collect(0, other_delete_rule(d)));
    assert(named_view(early@) =~= collect(0, removed_rule(d, true)));
    assert(named_view(late@) =~= collect(0, removed_rule(d, false)));
    while i < diff.removed.len()
        invariant
            d == diff@,
            0 <= i <= diff.removed@.len(),
            paths_view(early@) == collect(i as int, blocking_rule(d)),
            paths_view(late@) == collect(i as int, other_delete_rule(d)),
            named_view(early@) == collect(i as int, removed_rule(d, true)),
            named_view(late@) == collect(i as int, removed_rule(d, false)),
        decreases diff.removed@.len() - i,
    {
        assert(d.removed[i as int] == diff.removed@[i as int].value());
        let p = diff.removed[i].rel.clone();
        if stands_in_the_way(&p, &diff.moved) {
            assert(blocks(d, p@));
            proof {
                lemma_paths_push(early@, p);
            }
            early.push(p);
        } else {
            assert(!blocks(d, p@));
            proof {
                lemma_paths_push(late@, p);
            }
            late.push(p);
        }
        i = i + 1;
    }
    (early, late)
}

/// The new directories, and the new entries that are copied.
fn split_added(diff: &Diff) -> (r: (Vec<FsPath>, Vec<FsPath>))
    ensures
        paths_view(r.0@) == collect(diff@.added.len() as int, new_dir_rule(diff@)),
        paths_view(r.1@) == collect(diff@.added.len() as int, new_copy_rule(diff@)),
        named_view(r.0@) == collect(diff@.added.len() as int, added_rule(diff@, true)),
        named_view(r.1@) == collect(diff@.added.len() as int, added_rule(diff@, false)),
{
    let ghost d = diff@;
    let mut dirs: Vec<FsPath> = Vec::new();
    let mut files: Vec<FsPath> = Vec::new();
    let mut i: usize = 0;
    assert(paths_view(dirs@) =~= collect(0, new_dir_rule(d)));
    assert(paths_view(files@) =~= collect(0, new_copy_rule(d)));
    assert(named_view(dirs@) =~= collect(0, added_rule(d, true)));
    assert(named_view(files@) =~= collect(0, added_rule(d, false)));
    while i < diff.added.len()
        invariant
            d == diff@,
            0 <= i <= diff.added@.len(),
            paths_view(dirs@) == collect(i as int, new_dir_rule(d)),
            paths_view(files@) == collect(i as int, new_copy_rule(d)),
            named_view(dirs@) == collect(i as int, added_rule(d, true)),
            named_view(files@) == collect(i as int, added_rule(d, false)),
        decreases diff.added@.len() - i,
    {
        assert(d.added[i as int] == diff.added@[i as int].value());
        let p = diff.added[i].rel.clone();
        if diff.added[i].kind == Kind::Dir {
            proof {
                lemma_paths_push(dirs@, p);
            }
            dirs.push(p);
        } else {
            proof {
                lemma_paths_push(files@, p);
            }
            files.push(p);
        }
        i = i + 1;
    }
    (dirs, files)
}

/// Produce the ordered action list for realizing `diff` on the destination.
pub fn plan(diff: &Diff) -> (actions: Vec<Action>)
    ensures
        values(actions@) == planned(diff@),
        reported_texts(actions@) == planned_texts(diff@),
{
    let ghost d = diff@;
    let mut actions: Vec<Action> = Vec::new();
    assert(values(actions@) =~= Seq::<ActionV>::empty());
    assert(reported_texts(actions@) =~= Seq::<Seq<u8>>::empty());
    let (early, late) = split_deletes(diff);
    proof {
        lemma_bare(early@);
        lemma_bare(late@);
    }

    // 1. what would make a rename fail goes first, children before parents
    let blocking = sort_descending(&early);
    push_deletes(&mut actions, &blocking);
    let ghost p1 = values(actions@);
    let ghost t1 = reported_texts(actions@);
    assert(p1 =~= deletes_of(early_deletes(d)));
    assert(t1 =~= delete_texts(d, true));

    // 2. the renames, before the remaining deletes: a moved file leaves its old directory empty
    let ghost renames = renames_of(d.moved);
    let ghost words = Seq::new(d.moved.len(), |i: int| d.moved[i].to_text);
    let mut i: usize = 0;
    assert(reported_texts(actions@) =~= t1 + words.subrange(0, 0));
    assert(values(actions@) =~= p1 + renames.subrange(0, 0));
    while i < diff.moved.len()
        invariant
            d == diff@,
            renames == renames_of(d.moved),
            0 <= i <= diff.moved@.len(),
            values(actions@) == p1 + renames.subrange(0, i as int),
            words == Seq::new(d.moved.len(), |i: int| d.moved[i].to_text),
            reported_texts(actions@) == t1 + words.subrange(0, i as int),
        decreases diff.moved@.len() - i,
    {
        let a = Action::Rename { from: diff.moved[i].from.clone(), to: diff.moved[i].to.clone() };
        proof {
            assert(d.moved[i as int] == diff.moved@[i as int].value());
            lemma_action_push(actions@, a);
            assert(a.value() == renames[i as int]);
        }
        actions.push(a);
        i = i + 1;
        assert(values(actions@) =~= p1 + renames.subrange(0, i as int));
        assert(reported_texts(actions@) =~= t1 + words.subrange(0, i as int));
    }
    assert(renames.subrange(0, renames.len() as int) =~= renames);
    assert(words.subrange(0, renames.len() as int) =~= words);

    // 3. the other deletes, children before parents
    let rest = sort_descending(&late);
    push_deletes(&mut actions, &rest);
    let ghost p3 = values(actions@);
    let ghost t3 = reported_texts(actions@);
    assert(t3 =~= t1 + words + delete_texts(d, false));

    // 4. new directories, parents before children; 5. then the copies
    let (dirs, files) = split_added(diff);
    proof {
        lemma_bare(dirs@);
    }
    let dirs = sort_ascending(&dirs);
    let ghost creates = creates_of(new_dirs(d));
    let ghost words = create_texts(d);
    i = 0;
    assert(reported_texts(actions@) =~= t3 + words.subrange(0, 0));
    assert(values(actions@) =~= p3 + creates.subrange(0, 0));
    while i < dirs.len()
        invariant
            creates == creates_of(new_dirs(d)),
            paths_view(dirs@) == new_dirs(d),
            0 <= i <= dirs@.len(),
            values(actions@) == p3 + creates.subrange(0, i as int),
            words == spellings(named_view(dirs@)),
            reported_texts(actions@) == t3 + words.subrange(0, i as int),
        decreases dirs@.len() - i,
    {
        let a = Action::CreateDir(dirs[i].clone());
        proof {
            assert(new_dirs(d)[i as int] == dirs@[i as int]@);
            assert(words[i as int] == reported_text(a));
            lemma_action_push(actions@, a);
            assert(a.value() == creates[i as int]);
        }
        actions.push(a);
        i = i + 1;
        assert(values(actions@) =~= p3 + creates.subrange(0, i as int));
        assert(reported_texts(actions@) =~= t3 + words.subrange(0, i as int));
    }
    assert(creates.subrange(0, creates.len() as int) =~= creates);
    assert(words.subrange(0, creates.len() as int) =~= words);
    let ghost p4 = values(actions@);
    let ghost t4 = reported_texts(actions@);
    let mut files = files;
    let ghost fresh = paths_view(files@);
    let ghost fresh_named = named_view(files@);
    i = 0;
    assert(named_view(files@) =~= fresh_named + change_names(d.changed).subrange(0, 0));
    assert(paths_view(files@) =~= fresh + change_paths(d.changed).subrange(0, 0));
    while i < diff.changed.len()
        invariant
            d == diff@,
            0 <= i <= diff.changed@.len(),
            paths_view(files@) == fresh + change_paths(d.changed).subrange(0, i as int),
            named_view(files@) == fresh_named + change_names(d.changed).subrange(0, i as int),
        decreases diff.changed@.len() - i,
    {
        let p = diff.changed[i].rel.clone();
        proof {
            assert(d.changed[i as int] == diff.changed@[i as int].value());
            lemma_paths_push(files@, p);
        }
        files.push(p);
        i = i + 1;
        assert(paths_view(files@) =~= fresh + change_paths(d.changed).subrange(0, i as int));
        assert(named_view(files@) =~= fresh_named + change_names(d.changed).subrange(0, i as int));
    }
    assert(paths_view(files@) =~= fresh + change_paths(d.changed));
    assert(named_view(files@) =~= fresh_named + change_names(d.changed));
    proof {
        lemma_bare(files@);
    }
    let files = sort_ascending(&files);
    let ghost writes = copies_of(copies(d));
    let ghost words = copy_texts(d);
    i = 0;
    assert(reported_texts(actions@) =~= t4 + words.subrange(0, 0));
    assert(values(actions@) =~= p4 + writes.subrange(0, 0));
    while i < files.len()
        invariant
            writes == copies_of(copies(d)),
            paths_view(files@) == copies(d),
            0 <= i <= files@.len(),
            values(actions@) == p4 + writes.subrange(0, i as int),
            words == spellings(named_view(files@)),
            reported_texts(actions@) == t4 + words.subrange(0, i as int),
        decreases files@.len() - i,
    {
        let a = Action::Copy(files[i].clone());
        proof {
            assert(copies(d)[i as int] == files@[i as int]@);
            assert(words[i as int] == reported_text(a));
            lemma_action_push(actions@, a);
            assert(a.value() == writes[i as int]);
        }
        actions.push(a);
        i = i + 1;
        assert(values(actions@) =~= p4 + writes.subrange(0, i as int));
        assert(reported_texts(actions@) =~= t4 + words.subrange(0, i as int));
    }
    assert(writes.subrange(0, writes.len() as int) =~= writes);
    assert(words.subrange(0, writes.len() as int) =~= words);

    // 6. metadata refreshes: no data is written
    let ghost p5 = values(actions@);
    let ghost t5 = reported_texts(actions@);
    let ghost refreshes = refreshes_of(d.touched);
    let ghost words = spellings(change_names(d.touched));
    i = 0;
    assert(reported_texts(actions@) =~= t5 + words.subrange(0, 0));
    assert(values(actions@) =~= p5 + refreshes.subrange(0, 0));
    while i < diff.touched.len()
        invariant
            d == diff@,
            refreshes == refreshes_of(d.touched),
            0 <= i <= diff.touched@.len(),
            values(actions@) == p5 + refreshes.subrange(0, i as int),
            words == spellings(change_names(d.touched)),
            reported_texts(actions@) == t5 + words.subrange(0, i as int),
        decreases diff.touched@.len() - i,
    {
        let a = Action::RefreshMeta(diff.touched[i].rel.clone());
        proof {
            assert(d.touched[i as int] == diff.touched@[i as int].value());
            assert(words[i as int] == reported_text(a));
            lemma_action_push(actions@, a);
            assert(a.value() == refreshes[i as int]);
        }
        actions.push(a);
        i = i + 1;
        assert(values(actions@) =~= p5 + refreshes.subrange(0, i as int));
        assert(reported_texts(actions@) =~= t5 + words.subrange(0, i as int));
    }
    assert(refreshes.subrange(0, refreshes.len() as int) =~= refreshes);
    assert(words.subrange(0, refreshes.len() as int) =~= words);

    // 7. hard links, once every first name is in place
    let ghost p6 = values(actions@);
    let ghost t6 = reported_texts(actions@);
    let ghost links = links_of(d.to_link);
    let ghost words = Seq::new(d.to_link.len(), |i: int| d.to_link[i].name_text);
    i = 0;
    assert(reported_texts(actions@) =~= t6 + words.subrange(0, 0));
    assert(values(actions@) =~= p6 + links.subrange(0, 0));
    while i < diff.to_link.len()
        invariant
            d == diff@,
            links == links_of(d.to_link),
            0 <= i <= diff.to_link@.len(),
            values(actions@) == p6 + links.subrange(0, i as int),
            words == Seq::new(d.to_link.len(), |i: int| d.to_link[i].name_text),
            reported_texts(actions@) == t6 + words.subrange(0, i as int),
        decreases diff.to_link@.len() - i,
    {
        let a = Action::HardLink {
            leader: diff.to_link[i].leader.clone(),
            name: diff.to_link[i].name.clone(),
        };
        proof {
            assert(d.to_link[i as int] == diff.to_link@[i as int].value());
            assert(words[i as int] == reported_text(a));
            lemma_action_push(actions@, a);
            assert(a.value() == links[i as int]);
        }
        actions.push(a);
        i = i + 1;
        assert(values(actions@) =~= p6 + links.subrange(0, i as int));
        assert(reported_texts(actions@) =~= t6 + words.subrange(0, i as int));
    }
    assert(links.subrange(0, links.len() as int) =~= links);
    assert(words.subrange(0, links.len() as int) =~= words);
    assert(values(actions@) =~= planned(d));
    assert(reported_texts(actions@) =~= planned_texts(d));
    actions
}

// ── how much a plan writes ───────────────────────────────────────────────────

/// The size of the source entry at `rel`; nothing where there is none.
pub open spec fn size_at(es: Seq<EntryV>, rel: PathV) -> nat {
    match last_at(rels(es), rel) {
        Some(i) => es[i].size as nat,
        None => 0,
    }
}

/// The bytes that the first `n` actions copy.
pub open spec fn copied_bytes(actions: Seq<ActionV>, es: Seq<EntryV>, n: int) -> nat
    decreases n,
{
    if n <= 0 {
        0
    } else {
        copied_bytes(actions, es, n - 1) + match actions[n - 1] {
            ActionV::Copy(rel) => size_at(es, rel),
            _ => 0,
        }
    }
}

/// The bytes that the actions copy.
pub open spec fn copy_total(actions: Seq<ActionV>, es: Seq<EntryV>) -> nat {
    copied_bytes(actions, es, actions.len() as int)
}

proof fn lemma_copied_bytes_grows(actions: Seq<ActionV>, es: Seq<EntryV>, m: int, n: int)
    requires
        0 <= m <= n,
    ensures
        copied_bytes(actions, es, m) <= copied_bytes(actions, es, n),
    decreases n - m,
{
    if m < n {
        lemma_copied_bytes_grows(actions, es, m, n - 1);
    }
}

/// How many bytes the copies of a plan amount to, where that fits.
pub fn checked_copy_bytes(actions: &Vec<Action>, src_m: &Manifest) -> (r: Option<u64>)
    ensures
        r is Some <==> copy_total(values(actions@), src_m@) <= u64::MAX,
        r matches Some(n) ==> n == copy_total(values(actions@), src_m@),
{
    let entries = src_m.entries();
    let ghost es = src_m@;
    let ghost av = values(actions@);
    let index = PathIndex::build(entries);
    let mut total: u64 = 0;
    let mut i: usize = 0;
    while i < actions.len()
        invariant
            av == values(actions@),
            es == crate::manifest::entries_view(entries@),
            es == src_m@,
            index.indexes(entries.paths()),
            0 <= i <= actions@.len(),
            total == copied_bytes(av, es, i as int),
        decreases actions@.len() - i,
    {
        proof {
            assert(av[i as int] == actions@[i as int].value());
            lemma_copied_bytes_grows(av, es, i + 1, av.len() as int);
        }
        if let Action::Copy(rel) = &actions[i] {
            match index.find(entries, rel) {
                Some(k) => {
                    assert(es[k as int].size == entries@[k as int].size);
                    match total.checked_add(entries[k].size) {
                        Some(t) => {
                            total = t;
                        },
                        None => {
                            return None;
                        },
                    }
                },
                None => {},
            }
        }
        i = i + 1;
    }
    Some(total)
}

/// Total bytes the planned copies will write (source sizes; symlinks count as 0), for the length
/// of a progress bar and for looking ahead at the space needed.
pub fn planned_copy_bytes(actions: &Vec<Action>, src_m: &Manifest) -> (r: u64)
    requires
        copy_total(values(actions@), src_m@) <= u64::MAX,
    ensures
        r == copy_total(values(actions@), src_m@),
{
    match checked_copy_bytes(actions, src_m) {
        Some(n) => n,
        None => 0,
    }
}

// ── what every plan keeps ────────────────────────────────────────────────────

/// Where the phases of a plan end.
pub open spec fn phase_end(d: DiffV, phase: int) -> int
    decreases phase,
{
    if phase <= 0 {
        0
    } else {
        phase_end(d, phase - 1) + if phase == 1 {
            early_deletes(d).len()
        } else if phase == 2 {
            d.moved.len()
        } else if phase == 3 {
            late_deletes(d).len()
        } else if phase == 4 {
            new_dirs(d).len()
        } else if phase == 5 {
            copies(d).len()
        } else if phase == 6 {
            d.touched.len()
        } else {
            d.to_link.len()
        }
    }
}

/// Each action of a plan stands in its phase.
pub proof fn lemma_phases(d: DiffV)
    ensures
        planned(d).len() == phase_end(d, 7),
        0 <= phase_end(d, 1) <= phase_end(d, 2) <= phase_end(d, 3) <= phase_end(d, 4) <= phase_end(d, 5)
            <= phase_end(d, 6) <= phase_end(d, 7),
        phase_end(d, 1) == early_deletes(d).len(),
        phase_end(d, 2) - phase_end(d, 1) == d.moved.len(),
        phase_end(d, 3) - phase_end(d, 2) == late_deletes(d).len(),
        phase_end(d, 4) - phase_end(d, 3) == new_dirs(d).len(),
        phase_end(d, 5) - phase_end(d, 4) == copies(d).len(),
        phase_end(d, 6) - phase_end(d, 5) == d.touched.len(),
        phase_end(d, 7) - phase_end(d, 6) == d.to_link.len(),
        forall|k: int|
            0 <= k < phase_end(d, 1) ==> #[trigger] planned(d)[k] == ActionV::Delete(early_deletes(d)[k]),
        forall|k: int|
            phase_end(d, 1) <= k < phase_end(d, 2) ==> #[trigger] planned(d)[k] == (ActionV::Rename {
                from: d.moved[k - phase_end(d, 1)].from,
                to: d.moved[k - phase_end(d, 1)].to,
            }),
        forall|k: int|
            phase_end(d, 2) <= k < phase_end(d, 3) ==> #[trigger] planned(d)[k] == ActionV::Delete(
                late_deletes(d)[k - phase_end(d, 2)],
            ),
        forall|k: int|
            phase_end(d, 3) <= k < phase_end(d, 4) ==> #[trigger] planned(d)[k] == ActionV::CreateDir(
                new_dirs(d)[k - phase_end(d, 3)],
            ),
        forall|k: int|
            phase_end(d, 4) <= k < phase_end(d, 5) ==> #[trigger] planned(d)[k] == ActionV::Copy(
                copies(d)[k - phase_end(d, 4)],
            ),
        forall|k: int|
            phase_end(d, 5) <= k < phase_end(d, 6) ==> #[trigger] planned(d)[k] == ActionV::RefreshMeta(
                d.touched[k - phase_end(d, 5)].rel,
            ),
        forall|k: int|
            phase_end(d, 6) <= k < phase_end(d, 7) ==> #[trigger] planned(d)[k] == (ActionV::HardLink {
                leader: d.to_link[k - phase_end(d, 6)].leader,
                name: d.to_link[k - phase_end(d, 6)].name,
            }),
{
    reveal_with_fuel(phase_end, 8);
}

/// The difference holds the path of this action, spelled so.
pub open spec fn spelled_in(d: DiffV, a: ActionV, text: Seq<u8>) -> bool {
    match a {
        ActionV::Delete(p) => change_names(d.removed).contains(SpelledV { path: p, text }),
        ActionV::CreateDir(p) => change_names(d.added).contains(SpelledV { path: p, text }),
        ActionV::Copy(p) => change_names(d.added).contains(SpelledV { path: p, text }) || change_names(
            d.changed,
        ).contains(SpelledV { path: p, text }),
        ActionV::RefreshMeta(p) => change_names(d.touched).contains(SpelledV { path: p, text }),
        ActionV::Rename { from, to } => exists|k: int|
            0 <= k < d.moved.len() && (#[trigger] d.moved[k]).from == from && d.moved[k].to == to
                && d.moved[k].to_text == text,
        ActionV::HardLink { leader, name } => exists|k: int|
            0 <= k < d.to_link.len() && (#[trigger] d.to_link[k]).leader == leader && d.to_link[k].name == name
                && d.to_link[k].name_text == text,
    }
}

/// What is collected by a rule that yields paths as spelled is what the rule for the bare paths
/// yields.
proof fn lemma_collect_bare(
    n: int,
    rule: spec_fn(int) -> Option<SpelledV>,
    plain: spec_fn(int) -> Option<PathV>,
)
    requires
        forall|i: int|
            0 <= i < n ==> #[trigger] plain(i) == match rule(i) {
                Some(x) => Some(x.path),
                None => None,
            },
    ensures
        bare(collect(n, rule)) == collect(n, plain),
    decreases n,
{
    if n > 0 {
        lemma_collect_bare(n - 1, rule, plain);
        assert(plain(n - 1) == match rule(n - 1) {
            Some(x) => Some(x.path),
            None => None,
        });
    }
    assert(bare(collect(n, rule)) =~= collect(n, plain));
}

/// Paths sorted as spelled stand where the bare paths stand.
proof fn lemma_sorted_names(list: Seq<SpelledV>, lt: spec_fn(PathV, PathV) -> bool, k: int)
    requires
        is_strict_order(lt),
        0 <= k < list.len(),
    ensures
        sorted_with(bare(list), bare(list), lt).len() == list.len(),
        spellings(sorted_with(list, bare(list), lt)).len() == list.len(),
        list.contains(
            SpelledV {
                path: sorted_with(bare(list), bare(list), lt)[k],
                text: spellings(sorted_with(list, bare(list), lt))[k],
            },
        ),
{
    let keys = bare(list);
    let out = sorted_with(list, keys, lt);
    lemma_sorted_contains(list, keys, lt, out[k]);
    lemma_order(keys, lt);
    lemma_order_in_range(order(keys, lt), keys.len() as int);
    let i = order(keys, lt)[k];
    assert(keys[i] == list[i].path);
    assert(list[i] == (SpelledV { path: sorted_with(keys, keys, lt)[k], text: spellings(out)[k] }));
}

/// What a rule collects from changes are names of theirs.
proof fn lemma_collected_names(c: Seq<ChangeV>, rule: spec_fn(int) -> Option<SpelledV>, x: SpelledV)
    requires
        forall|i: int|
            0 <= i < c.len() ==> ((#[trigger] rule(i)) matches Some(y) ==> y == name_of_change(c[i])),
        collect(c.len() as int, rule).contains(x),
    ensures
        change_names(c).contains(x),
{
    lemma_collect_contains(c.len() as int, rule, x);
    let i = choose|i: int| 0 <= i < c.len() && #[trigger] rule(i) == Some(x);
    assert(change_names(c)[i] == x);
}

/// Each action of a plan is reported by its path as the difference spells it.
pub proof fn actions_are_spelled_as_in_the_difference(d: DiffV, k: int)
    requires
        0 <= k < planned(d).len(),
    ensures
        planned_texts(d).len() == planned(d).len(),
        spelled_in(d, planned(d)[k], planned_texts(d)[k]),
{
    lemma_phases(d);
    lemma_by_path_strict();
    let early = collect(d.removed.len() as int, removed_rule(d, true));
    let late = collect(d.removed.len() as int, removed_rule(d, false));
    let dirs = collect(d.added.len() as int, added_rule(d, true));
    let fresh = collect(d.added.len() as int, added_rule(d, false));
    let files = fresh + change_names(d.changed);
    lemma_collect_bare(d.removed.len() as int, removed_rule(d, true), blocking_rule(d));
    lemma_collect_bare(d.removed.len() as int, removed_rule(d, false), other_delete_rule(d));
    lemma_collect_bare(d.added.len() as int, added_rule(d, true), new_dir_rule(d));
    lemma_collect_bare(d.added.len() as int, added_rule(d, false), new_copy_rule(d));
    assert(bare(change_names(d.changed)) =~= change_paths(d.changed));
    assert(bare(files) =~= bare(fresh) + change_paths(d.changed));
    let a = planned(d)[k];
    let t = planned_texts(d)[k];
    assert(delete_texts(d, true).len() == early_deletes(d).len());
    assert(delete_texts(d, false).len() == late_deletes(d).len());
    assert(create_texts(d).len() == new_dirs(d).len());
    assert(copy_texts(d).len() == copies(d).len());
    if k < phase_end(d, 1) {
        let x = SpelledV { path: early_deletes(d)[k], text: t };
        lemma_sorted_names(early, by_path_down(), k);
        assert(t == delete_texts(d, true)[k]);
        lemma_collected_names(d.removed, removed_rule(d, true), x);
    } else if k < phase_end(d, 2) {
        let m = d.moved[k - phase_end(d, 1)];
        assert(t == m.to_text);
    } else if k < phase_end(d, 3) {
        let i = k - phase_end(d, 2);
        let x = SpelledV { path: late_deletes(d)[i], text: t };
        lemma_sorted_names(late, by_path_down(), i);
        assert(t == delete_texts(d, false)[i]);
        lemma_collected_names(d.removed, removed_rule(d, false), x);
    } else if k < phase_end(d, 4) {
        let i = k - phase_end(d, 3);
        let x = SpelledV { path: new_dirs(d)[i], text: t };
        lemma_sorted_names(dirs, by_path(), i);
        assert(t == create_texts(d)[i]);
        lemma_collected_names(d.added, added_rule(d, true), x);
    } else if k < phase_end(d, 5) {
        let i = k - phase_end(d, 4);
        let x = SpelledV { path: copies(d)[i], text: t };
        lemma_sorted_names(files, by_path(), i);
        assert(t == copy_texts(d)[i]);
        let j = choose|j: int| 0 <= j < files.len() && files[j] == x;
        if j < fresh.len() {
            assert(fresh[j] == x);
            lemma_collected_names(d.added, added_rule(d, false), x);
        } else {
            assert(change_names(d.changed)[j - fresh.len()] == x);
        }
    } else if k < phase_end(d, 6) {
        let i = k - phase_end(d, 5);
        assert(change_names(d.touched)[i] == (SpelledV { path: d.touched[i].rel, text: t }));
    } else {
        let l = d.to_link[k - phase_end(d, 6)];
        assert(t == l.name_text);
    }
}

/// What is deleted early are the removed entries in the way of a move; what is deleted late are
/// the other removed entries.
pub proof fn lemma_deletes(d: DiffV, p: PathV)
    ensures
        early_deletes(d).contains(p) <==> change_paths(d.removed).contains(p) && blocks(d, p),
        late_deletes(d).contains(p) <==> change_paths(d.removed).contains(p) && !blocks(d, p),
{
    let n = d.removed.len() as int;
    let early = collect(n, blocking_rule(d));
    let late = collect(n, other_delete_rule(d));
    lemma_descending(early);
    lemma_descending(late);
    assert(early_deletes(d).contains(p) <==> early.contains(p));
    assert(late_deletes(d).contains(p) <==> late.contains(p));
    lemma_collect_contains(n, blocking_rule(d), p);
    lemma_collect_contains(n, other_delete_rule(d), p);
    let paths = change_paths(d.removed);
    if paths.contains(p) {
        let i = choose|i: int| 0 <= i < paths.len() && paths[i] == p;
        assert(d.removed[i].rel == p);
        if blocks(d, p) {
            assert(blocking_rule(d)(i) == Some(p));
        } else {
            assert(other_delete_rule(d)(i) == Some(p));
        }
    }
    if early.contains(p) {
        let i = choose|i: int| 0 <= i < n && #[trigger] blocking_rule(d)(i) == Some(p);
        assert(paths[i] == p);
    }
    if late.contains(p) {
        let i = choose|i: int| 0 <= i < n && #[trigger] other_delete_rule(d)(i) == Some(p);
        assert(paths[i] == p);
    }
}

/// The directories created are the added directories; what is copied are the other added entries
/// and the changed ones.
pub proof fn lemma_builds(d: DiffV, p: PathV)
    ensures
        new_dirs(d).contains(p) <==> has_change(d.added, p, Kind::Dir),
        copies(d).contains(p) <==> change_paths(d.changed).contains(p) || exists|i: int|
            0 <= i < d.added.len() && (#[trigger] d.added[i]).rel == p && d.added[i].kind != Kind::Dir,
{
    let n = d.added.len() as int;
    let dirs = collect(n, new_dir_rule(d));
    let files = collect(n, new_copy_rule(d));
    let all = files + change_paths(d.changed);
    lemma_ascending(dirs);
    lemma_ascending(all);
    assert(new_dirs(d).contains(p) <==> dirs.contains(p));
    assert(copies(d).contains(p) <==> all.contains(p));
    lemma_collect_contains(n, new_dir_rule(d), p);
    lemma_collect_contains(n, new_copy_rule(d), p);
    if has_change(d.added, p, Kind::Dir) {
        let i = choose|i: int| 0 <= i < n && (#[trigger] d.added[i]).rel == p && d.added[i].kind == Kind::Dir;
        assert(new_dir_rule(d)(i) == Some(p));
    }
    if dirs.contains(p) {
        let i = choose|i: int| 0 <= i < n && #[trigger] new_dir_rule(d)(i) == Some(p);
        assert(d.added[i].rel == p);
    }
    if files.contains(p) {
        let i = choose|i: int| 0 <= i < n && #[trigger] new_copy_rule(d)(i) == Some(p);
        assert(d.added[i].rel == p);
        let k = choose|k: int| 0 <= k < files.len() && files[k] == p;
        assert(all[k] == p);
    }
    if exists|i: int| 0 <= i < d.added.len() && (#[trigger] d.added[i]).rel == p && d.added[i].kind != Kind::Dir {
        let i = choose|i: int|
            0 <= i < d.added.len() && (#[trigger] d.added[i]).rel == p && d.added[i].kind != Kind::Dir;
        assert(new_copy_rule(d)(i) == Some(p));
    }
    if change_paths(d.changed).contains(p) {
        let k = choose|k: int| 0 <= k < change_paths(d.changed).len() && change_paths(d.changed)[k] == p;
        assert(all[files.len() + k] == p);
    }
    if all.contains(p) && !files.contains(p) {
        let k = choose|k: int| 0 <= k < all.len() && all[k] == p;
        if k < files.len() {
            assert(files[k] == p);
        }
        assert(change_paths(d.changed)[k - files.len()] == p);
    }
}

/// The action that a difference calls for.
pub open spec fn calls_for(d: DiffV, a: ActionV) -> bool {
    match a {
        ActionV::Delete(p) => change_paths(d.removed).contains(p),
        ActionV::Rename { from, to } => has_move(d.moved, from, to),
        ActionV::CreateDir(p) => has_change(d.added, p, Kind::Dir),
        ActionV::Copy(p) => change_paths(d.changed).contains(p) || exists|i: int|
            0 <= i < d.added.len() && (#[trigger] d.added[i]).rel == p && d.added[i].kind != Kind::Dir,
        ActionV::RefreshMeta(p) => change_paths(d.touched).contains(p),
        ActionV::HardLink { leader, name } => has_link(d.to_link, leader, name),
    }
}

/// A plan does exactly what the difference calls for: nothing is deleted, renamed, created,
/// copied, refreshed or linked but what the difference says, and all of that is.
pub proof fn plans_do_what_the_difference_says(d: DiffV, a: ActionV)
    ensures
        planned(d).contains(a) <==> calls_for(d, a),
{
    lemma_phases(d);
    let pl = planned(d);
    if pl.contains(a) {
        let k = choose|k: int| 0 <= k < pl.len() && pl[k] == a;
        if k < phase_end(d, 1) {
            let p = early_deletes(d)[k];
            assert(early_deletes(d).contains(p));
            lemma_deletes(d, p);
        } else if k < phase_end(d, 2) {
            let m = d.moved[k - phase_end(d, 1)];
            assert(has_move(d.moved, m.from, m.to));
        } else if k < phase_end(d, 3) {
            let p = late_deletes(d)[k - phase_end(d, 2)];
            assert(late_deletes(d).contains(p));
            lemma_deletes(d, p);
        } else if k < phase_end(d, 4) {
            let p = new_dirs(d)[k - phase_end(d, 3)];
            assert(new_dirs(d).contains(p));
            lemma_builds(d, p);
        } else if k < phase_end(d, 5) {
            let p = copies(d)[k - phase_end(d, 4)];
            assert(copies(d).contains(p));
            lemma_builds(d, p);
        } else if k < phase_end(d, 6) {
            let i = k - phase_end(d, 5);
            assert(change_paths(d.touched)[i] == d.touched[i].rel);
        } else {
            let l = d.to_link[k - phase_end(d, 6)];
            assert(has_link(d.to_link, l.leader, l.name));
        }
    }
    if calls_for(d, a) {
        match a {
            ActionV::Delete(p) => {
                lemma_deletes(d, p);
                if blocks(d, p) {
                    let k = choose|k: int| 0 <= k < early_deletes(d).len() && early_deletes(d)[k] == p;
                    assert(pl[k] == a);
                } else {
                    let k = choose|k: int| 0 <= k < late_deletes(d).len() && late_deletes(d)[k] == p;
                    assert(pl[phase_end(d, 2) + k] == a);
                }
            },
            ActionV::Rename { from, to } => {
                let k = choose|k: int|
                    0 <= k < d.moved.len() && (#[trigger] d.moved[k]).from == from && d.moved[k].to == to;
                assert(pl[phase_end(d, 1) + k] == a);
            },
            ActionV::CreateDir(p) => {
                lemma_builds(d, p);
                let k = choose|k: int| 0 <= k < new_dirs(d).len() && new_dirs(d)[k] == p;
                assert(pl[phase_end(d, 3) + k] == a);
            },
            ActionV::Copy(p) => {
                lemma_builds(d, p);
                let k = choose|k: int| 0 <= k < copies(d).len() && copies(d)[k] == p;
                assert(pl[phase_end(d, 4) + k] == a);
            },
            ActionV::RefreshMeta(p) => {
                let k = choose|k: int|
                    0 <= k < change_paths(d.touched).len() && change_paths(d.touched)[k] == p;
                assert(pl[phase_end(d, 5) + k] == a);
            },
            ActionV::HardLink { leader, name } => {
                let k = choose|k: int|
                    0 <= k < d.to_link.len() && (#[trigger] d.to_link[k]).leader == leader && d.to_link[k].name == name;
                assert(pl[phase_end(d, 6) + k] == a);
            },
        }
    }
}

/// An empty difference plans nothing, and only an empty one does.
pub proof fn only_an_empty_difference_plans_nothing(d: DiffV)
    ensures
        planned(d).len() == 0 <==> d.removed.len() == 0 && d.moved.len() == 0 && d.added.len() == 0
            && d.changed.len() == 0 && d.touched.len() == 0 && d.to_link.len() == 0,
{
    lemma_phases(d);
    let early = collect(d.removed.len() as int, blocking_rule(d));
    let late = collect(d.removed.len() as int, other_delete_rule(d));
    let dirs = collect(d.added.len() as int, new_dir_rule(d));
    let files = collect(d.added.len() as int, new_copy_rule(d));
    lemma_descending(early);
    lemma_descending(late);
    lemma_ascending(dirs);
    lemma_ascending(files + change_paths(d.changed));
    if d.removed.len() > 0 {
        plans_do_what_the_difference_says(d, ActionV::Delete(d.removed[0].rel));
        assert(change_paths(d.removed)[0] == d.removed[0].rel);
    }
    if d.added.len() > 0 {
        let c = d.added[0];
        if c.kind == Kind::Dir {
            assert(has_change(d.added, c.rel, Kind::Dir));
            plans_do_what_the_difference_says(d, ActionV::CreateDir(c.rel));
        } else {
            plans_do_what_the_difference_says(d, ActionV::Copy(c.rel));
        }
    }
}

/// The step of the work that an action belongs to: clearing, creating directories, copying,
/// refreshing, linking.
pub open spec fn stage(a: ActionV) -> int {
    match a {
        ActionV::Delete(_) => 0,
        ActionV::Rename { .. } => 0,
        ActionV::CreateDir(_) => 1,
        ActionV::Copy(_) => 2,
        ActionV::RefreshMeta(_) => 3,
        ActionV::HardLink { .. } => 4,
    }
}

/// Deletes and renames come first, then new directories, then copies, then refreshes, then hard
/// links.
pub proof fn plans_free_space_first_and_link_last(d: DiffV, i: int, j: int)
    requires
        0 <= i < j < planned(d).len(),
    ensures
        stage(planned(d)[i]) <= stage(planned(d)[j]),
{
    lemma_phases(d);
}

/// A directory is empty of removed entries when its turn comes: nothing that lies below a deleted
/// path is deleted after it.
pub proof fn children_are_deleted_before_their_parents(d: DiffV, i: int, j: int, p: PathV, q: PathV)
    requires
        0 <= i < j < planned(d).len(),
        planned(d)[i] == ActionV::Delete(p),
        planned(d)[j] == ActionV::Delete(q),
    ensures
        !(starts_with(q, p) && q != p),
{
    lemma_phases(d);
    if starts_with(q, p) && q != p {
        lemma_below_is_after(q, p);
        let early = collect(d.removed.len() as int, blocking_rule(d));
        let late = collect(d.removed.len() as int, other_delete_rule(d));
        lemma_descending(early);
        lemma_descending(late);
        if j < phase_end(d, 1) {
            assert(!path_lt(early_deletes(d)[i], early_deletes(d)[j]));
        } else if i >= phase_end(d, 2) {
            assert(!path_lt(
                late_deletes(d)[i - phase_end(d, 2)],
                late_deletes(d)[j - phase_end(d, 2)],
            ));
        } else {
            assert(early_deletes(d)[i] == p);
            assert(early_deletes(d).contains(p));
            assert(late_deletes(d)[j - phase_end(d, 2)] == q);
            assert(late_deletes(d).contains(q));
            lemma_deletes(d, p);
            lemma_deletes(d, q);
            let m = choose|m: int| 0 <= m < d.moved.len() && starts_with(p, (#[trigger] d.moved[m]).to);
            let t = d.moved[m].to;
            assert(q.subrange(0, t.len() as int) =~= p.subrange(0, t.len() as int)) by {
                assert forall|k: int| 0 <= k < t.len() implies q[k] == p[k] by {
                    assert(q.subrange(0, p.len() as int)[k] == p[k]);
                }
            }
            assert(starts_with(q, d.moved[m].to));
            assert(blocks(d, q));
        }
    }
}

/// Whatever sits at or under the target of a rename is deleted before the rename.
pub proof fn what_blocks_a_rename_is_deleted_first(d: DiffV, i: int, j: int, from: PathV, to: PathV, p: PathV)
    requires
        0 <= i < planned(d).len(),
        0 <= j < planned(d).len(),
        planned(d)[i] == (ActionV::Rename { from, to }),
        planned(d)[j] == ActionV::Delete(p),
        starts_with(p, to),
    ensures
        j < i,
{
    lemma_phases(d);
    let m = d.moved[i - phase_end(d, 1)];
    assert(m.to == to);
    assert(blocks(d, p));
    if j >= phase_end(d, 2) {
        let q = late_deletes(d)[j - phase_end(d, 2)];
        assert(late_deletes(d).contains(q));
        lemma_deletes(d, q);
    }
}

/// No directory is created after one that lies below it.
pub proof fn parents_are_created_before_their_children(d: DiffV, i: int, j: int, p: PathV, q: PathV)
    requires
        0 <= i < j < planned(d).len(),
        planned(d)[i] == ActionV::CreateDir(p),
        planned(d)[j] == ActionV::CreateDir(q),
    ensures
        !(starts_with(p, q) && p != q),
{
    lemma_phases(d);
    if starts_with(p, q) && p != q {
        lemma_below_is_after(p, q);
        lemma_ascending(collect(d.added.len() as int, new_dir_rule(d)));
        assert(!path_lt(
            new_dirs(d)[j - phase_end(d, 3)],
            new_dirs(d)[i - phase_end(d, 3)],
        ));
    }
}

/// A copy takes the size of the source's entry at its path, and nothing else takes room: an action that
/// is added to others adds so much.
pub proof fn only_copies_take_room(acts: Seq<ActionV>, a: ActionV, es: Seq<EntryV>, k: int)
    requires
        0 <= k < es.len(),
        forall|j: int| k < j < es.len() ==> (#[trigger] es[j]).rel != es[k].rel,
    ensures
        copy_total(Seq::empty(), es) == 0,
        a == ActionV::Copy(es[k].rel) ==> copy_total(acts.push(a), es) == copy_total(acts, es) + es[k].size,
        !(a is Copy) ==> copy_total(acts.push(a), es) == copy_total(acts, es),
{
    let n = acts.len() as int;
    let all = acts.push(a);
    lemma_same_bytes(all, acts, es, n);
    assert(all[n] == a);
    let p = es[k].rel;
    lemma_last_at(rels(es), p);
    assert(rels(es)[k] == p);
    assert(rels(es).contains(p));
    let i = last_at(rels(es), p)->0;
    if i < k {
        assert(rels(es)[k] != p);
    } else if k < i {
        assert(es[i].rel != es[k].rel);
    }
}

/// A copy of what the source does not have takes no room.
pub proof fn an_unknown_copy_takes_no_room(acts: Seq<ActionV>, p: PathV, es: Seq<EntryV>)
    requires
        forall|j: int| 0 <= j < es.len() ==> (#[trigger] es[j]).rel != p,
    ensures
        copy_total(acts.push(ActionV::Copy(p)), es) == copy_total(acts, es),
{
    let n = acts.len() as int;
    let all = acts.push(ActionV::Copy(p));
    lemma_same_bytes(all, acts, es, n);
    assert(all[n] == ActionV::Copy(p));
    lemma_last_at(rels(es), p);
    if rels(es).contains(p) {
        let j = choose|j: int| 0 <= j < rels(es).len() && rels(es)[j] == p;
        assert(es[j].rel == p);
    }
}

proof fn lemma_same_bytes(a: Seq<ActionV>, b: Seq<ActionV>, es: Seq<EntryV>, n: int)
    requires
        n <= a.len(),
        n <= b.len(),
        forall|i: int| 0 <= i < n ==> #[trigger] a[i] == b[i],
    ensures
        copied_bytes(a, es, n) == copied_bytes(b, es, n),
    decreases n,
{
    if n > 0 {
        lemma_same_bytes(a, b, es, n - 1);
        assert(a[n - 1] == b[n - 1]);
    }
}

/// A plan holds one action for each entry of the difference.
pub proof fn a_plan_is_as_long_as_its_difference(d: DiffV)
    ensures
        planned(d).len() == d.removed.len() + d.moved.len() + d.added.len() + d.changed.len() + d.touched.len()
            + d.to_link.len(),
{
    lemma_descending(collect(d.removed.len() as int, blocking_rule(d)));
    lemma_descending(collect(d.removed.len() as int, other_delete_rule(d)));
    lemma_ascending(collect(d.added.len() as int, new_dir_rule(d)));
    lemma_ascending(collect(d.added.len() as int, new_copy_rule(d)) + change_paths(d.changed));
    lemma_collect_shared(d.removed.len() as int, blocking_rule(d), other_delete_rule(d));
    lemma_collect_shared(d.added.len() as int, new_dir_rule(d), new_copy_rule(d));
}

/// Copies are made in path order, and so are directories.
pub proof fn a_plan_goes_in_path_order(d: DiffV, i: int, j: int, p: PathV, q: PathV)
    requires
        0 <= i < j < planned(d).len(),
    ensures
        planned(d)[i] == ActionV::Copy(p) && planned(d)[j] == ActionV::Copy(q) ==> !path_lt(q, p),
        planned(d)[i] == ActionV::CreateDir(p) && planned(d)[j] == ActionV::CreateDir(q) ==> !path_lt(q, p),
{
    lemma_phases(d);
    lemma_ascending(collect(d.added.len() as int, new_dir_rule(d)));
    lemma_ascending(collect(d.added.len() as int, new_copy_rule(d)) + change_paths(d.changed));
    let acts = planned(d);
    let (p3, p4) = (phase_end(d, 3), phase_end(d, 4));
    if acts[i] == ActionV::Copy(p) && acts[j] == ActionV::Copy(q) {
        assert(copies(d)[i - p4] == p && copies(d)[j - p4] == q);
    }
    if acts[i] == ActionV::CreateDir(p) && acts[j] == ActionV::CreateDir(q) {
        assert(new_dirs(d)[i - p3] == p && new_dirs(d)[j - p3] == q);
    }
}

} // verus!
