//! The end-of-run durability barrier.
//!
//! One flush of the whole file system covers data and metadata alike. Where that is not to be had,
//! every copied file is flushed, then each directory that an action touched, so that renames and
//! deletions survive too.
use vstd::prelude::*;

use crate::manifest::DstRoot;
use crate::order::{Item, lemma_ascending, lemma_path_total, lemma_path_trans, path_lt, sort_ascending, values};
use crate::paths::{FsPath, PathV, add_path, is_name, joined, parent_of, paths_view};
use crate::plan::{Action, ActionV};

verus! {

/// Why a sync is refused where directories cannot be flushed.
pub const NO_BARRIER: &'static str = "on Windows the default end-of-run durability barrier cannot persist renames — run with --fsync-each";

/// Refuses a sync that would promise more than it can keep: where directories cannot be flushed, as
/// on Windows, the barrier at the end of a run does not make renames durable, so each file has to be
/// flushed on its own.
pub fn check_barrier(dirs_can_be_flushed: bool, fsync_each: bool) -> (r: Result<(), String>)
    ensures
        r is Ok <==> dirs_can_be_flushed || fsync_each,
        r matches Err(why) ==> why@ == NO_BARRIER@,
{
    if dirs_can_be_flushed || fsync_each {
        Ok(())
    } else {
        Err(String::from_str(NO_BARRIER))
    }
}

/// The directory whose entries change when something appears or vanishes at `rel`.
pub open spec fn holder_of(dst: PathV, rel: PathV) -> PathV {
    match parent_of(joined(dst, rel)) {
        Some(p) => p,
        None => dst,
    }
}

/// The action changes entries of this directory.
pub open spec fn touches(dst: PathV, a: ActionV, dir: PathV) -> bool {
    match a {
        ActionV::Copy(rel) => dir == holder_of(dst, rel),
        ActionV::Delete(rel) => dir == holder_of(dst, rel),
        ActionV::CreateDir(rel) => dir == holder_of(dst, rel),
        ActionV::RefreshMeta(_) => false,
        ActionV::HardLink { leader: _, name } => dir == holder_of(dst, name),
        ActionV::Rename { from, to } => dir == holder_of(dst, from) || dir == holder_of(dst, to),
    }
}

/// Some action changes entries of this directory.
pub open spec fn is_touched(dst: PathV, acts: Seq<ActionV>, dir: PathV) -> bool {
    exists|i: int| 0 <= i < acts.len() && touches(dst, #[trigger] acts[i], dir)
}

fn push_holder(dirs: &mut Vec<FsPath>, dst: &FsPath, rel: &FsPath)
    ensures
        paths_view(final(dirs)@) == paths_view(old(dirs)@).push(holder_of(dst@, rel@)),
{
    let abs = dst.join(rel);
    match abs.parent() {
        Some(p) => {
            add_path(dirs, p);
        },
        None => {
            add_path(dirs, dst.clone());
        },
    }
}

proof fn lemma_push_contains(s: Seq<PathV>, x: PathV, y: PathV)
    ensures
        s.push(x).contains(y) <==> s.contains(y) || x == y,
{
    if s.contains(y) {
        let k = choose|k: int| 0 <= k < s.len() && s[k] == y;
        assert(s.push(x)[k] == y);
    }
    if s.push(x).contains(y) && x != y {
        let k = choose|k: int| 0 <= k < s.push(x).len() && s.push(x)[k] == y;
        assert(s[k] == y);
    }
    if x == y {
        assert(s.push(x)[s.len() as int] == y);
    }
}

/// Strictly ascending: each directory once, in path order.
pub open spec fn strictly_ascending(s: Seq<PathV>) -> bool {
    forall|a: int, b: int| #![trigger s[a], s[b]] 0 <= a < b < s.len() ==> path_lt(s[a], s[b])
}

fn touched_list(dst: &DstRoot, actions: &Vec<Action>) -> (r: Vec<FsPath>)
    ensures
        forall|d: PathV| paths_view(r@).contains(d) <==> #[trigger] is_touched(dst@, values(actions@), d),
{
    let root = dst.path();
    let ghost acts = values(actions@);
    let mut dirs: Vec<FsPath> = Vec::new();
    let mut i: usize = 0;
    while i < actions.len()
        invariant
            root@ == dst@,
            acts == values(actions@),
            0 <= i <= actions@.len(),
            forall|d: PathV| paths_view(dirs@).contains(d) <==> (exists|k: int|
                0 <= k < i && touches(dst@, #[trigger] acts[k], d)),
        decreases actions@.len() - i,
    {
        let ghost before = paths_view(dirs@);
        assert(acts[i as int] == actions@[i as int].value());
        match &actions[i] {
            Action::Copy(rel) => {
                push_holder(&mut dirs, root, rel);
            },
            Action::Delete(rel) => {
                push_holder(&mut dirs, root, rel);
            },
            Action::CreateDir(rel) => {
                push_holder(&mut dirs, root, rel);
            },
            Action::RefreshMeta(_) => {},
            Action::HardLink { leader: _, name } => {
                push_holder(&mut dirs, root, name);
            },
            Action::Rename { from, to } => {
                push_holder(&mut dirs, root, from);
                push_holder(&mut dirs, root, to);
                proof {
                    assert forall|d: PathV| #[trigger] paths_view(dirs@).contains(d) <==> before.contains(d) || touches(
                        dst@,
                        acts[i as int],
                        d,
                    ) by {
                        lemma_push_contains(before, holder_of(dst@, from@), d);
                        lemma_push_contains(
                            before.push(holder_of(dst@, from@)),
                            holder_of(dst@, to@),
                            d,
                        );
                    }
                }
            },
        }
        proof {
            assert forall|d: PathV| #[trigger] paths_view(dirs@).contains(d) <==> before.contains(d) || touches(
                dst@,
                acts[i as int],
                d,
            ) by {
                match acts[i as int] {
                    ActionV::Copy(rel) => lemma_push_contains(before, holder_of(dst@, rel), d),
                    ActionV::Delete(rel) => lemma_push_contains(before, holder_of(dst@, rel), d),
                    ActionV::CreateDir(rel) => lemma_push_contains(before, holder_of(dst@, rel), d),
                    ActionV::HardLink { leader: _, name } => lemma_push_contains(
                        before,
                        holder_of(dst@, name),
                        d,
                    ),
                    _ => {},
                }
            }
            assert forall|d: PathV| paths_view(dirs@).contains(d) <==> (exists|k: int|
                0 <= k < i + 1 && touches(dst@, #[trigger] acts[k], d)) by {
                if before.contains(d) {
                    let k = choose|k: int| 0 <= k < i && touches(dst@, #[trigger] acts[k], d);
                    assert(touches(dst@, acts[k], d));
                }
                if exists|k: int| 0 <= k < i + 1 && touches(dst@, #[trigger] acts[k], d) {
                    let k = choose|k: int| 0 <= k < i + 1 && touches(dst@, #[trigger] acts[k], d);
                    if k < i {
                        assert(before.contains(d));
                    }
                }
            }
        }
        i = i + 1;
    }
    dirs
}

/// Every destination directory whose entries an action changed: each once, in path order.
pub fn touched_dirs(dst: &DstRoot, actions: &Vec<Action>) -> (r: Vec<FsPath>)
    ensures
        strictly_ascending(paths_view(r@)),
        forall|d: PathV| paths_view(r@).contains(d) <==> #[trigger] is_touched(dst@, values(actions@), d),
{
    let all = touched_list(dst, actions);
    let sorted = sort_ascending(&all);
    let ghost s = paths_view(sorted@);
    proof {
        lemma_ascending(paths_view(all@));
    }
    let mut out: Vec<FsPath> = Vec::new();
    let mut i: usize = 0;
    while i < sorted.len()
        invariant
            s == paths_view(sorted@),
            0 <= i <= sorted@.len(),
            forall|a: int, b: int| 0 <= a < b < s.len() ==> !path_lt(#[trigger] s[b], #[trigger] s[a]),
            strictly_ascending(paths_view(out@)),
            forall|d: PathV| paths_view(out@).contains(d) <==> #[trigger] s.subrange(0, i as int).contains(d),
            i == 0 ==> out@.len() == 0,
            i > 0 ==> out@.len() > 0 && paths_view(out@).last() == s[i - 1],
        decreases sorted@.len() - i,
    {
        let ghost before = paths_view(out@);
        let ghost x = s[i as int];
        assert(x == sorted@[i as int]@);
        assert(s.subrange(0, i + 1) =~= s.subrange(0, i as int).push(x));
        let n: usize = out.len();
        let fresh = n == 0 || !out[n - 1].same(&sorted[i]);
        assert(before.len() == n);
        if fresh {
            add_path(&mut out, sorted[i].clone());
            assert(paths_view(out@) == before.push(x));
            proof {
                assert forall|a: int, b: int|
                    #![trigger before.push(x)[a], before.push(x)[b]]
                    0 <= a < b < before.push(x).len() implies path_lt(before.push(x)[a], before.push(x)[b]) by {
                    if b == before.len() {
                        let l = s[i - 1];
                        assert(before.last() == l);
                        assert(!path_lt(x, l));
                        lemma_path_total(x, l);
                        if a < before.len() - 1 {
                            assert(path_lt(before[a], before[before.len() - 1]));
                            lemma_path_trans(before[a], l, x);
                        }
                    }
                }
            }
        }
        proof {
            assert forall|d: PathV| paths_view(out@).contains(d) <==> #[trigger] s.subrange(0, i + 1).contains(
                d,
            ) by {
                lemma_push_contains(s.subrange(0, i as int), x, d);
                if fresh {
                    lemma_push_contains(before, x, d);
                } else {
                    assert(before[before.len() - 1] == x);
                    assert(before.contains(x));
                }
                assert(before.contains(d) <==> s.subrange(0, i as int).contains(d));
            }
        }
        i = i + 1;
    }
    proof {
        assert(s.subrange(0, s.len() as int) =~= s);
        assert forall|d: PathV| paths_view(out@).contains(d) <==> #[trigger] is_touched(
            dst@,
            values(actions@),
            d,
        ) by {
            assert(paths_view(out@).contains(d) <==> s.subrange(0, s.len() as int).contains(d));
            assert(s.contains(d) <==> paths_view(all@).contains(d));
        }
    }
    out
}

/// What has still to be flushed.
#[derive(Debug)]
pub enum Flush {
    /// Nothing: the whole file system was flushed.
    Done,
    /// These files, and then these directories.
    Each { files: Vec<FsPath>, dirs: Vec<FsPath> },
}

/// Makes the finished run durable. `copied` are the paths, relative to the destination, of the files
/// written, and `flushed` tells whether flushing the whole file system succeeded.
pub fn flush_destination(dst: &DstRoot, actions: &Vec<Action>, copied: &Vec<FsPath>, flushed: bool) -> (r:
    Flush)
    ensures
        match r {
            Flush::Done => flushed,
            Flush::Each { files, dirs } => {
                &&& !flushed
                &&& paths_view(files@) == Seq::new(copied@.len(), |i: int| joined(dst@, copied@[i]@))
                &&& strictly_ascending(paths_view(dirs@))
                &&& forall|d: PathV|
                    paths_view(dirs@).contains(d) <==> #[trigger] is_touched(dst@, values(actions@), d)
            },
        },
{
    if flushed {
        return Flush::Done;
    }
    let mut files: Vec<FsPath> = Vec::new();
    let ghost want = Seq::new(copied@.len(), |i: int| joined(dst@, copied@[i]@));
    let mut i: usize = 0;
    assert(paths_view(files@) =~= want.subrange(0, 0));
    while i < copied.len()
        invariant
            want == Seq::new(copied@.len(), |i: int| joined(dst@, copied@[i]@)),
            0 <= i <= copied@.len(),
            paths_view(files@) == want.subrange(0, i as int),
        decreases copied@.len() - i,
    {
        add_path(&mut files, dst.path().join(&copied[i]));
        i = i + 1;
        assert(paths_view(files@) =~= want.subrange(0, i as int));
    }
    assert(want.subrange(0, i as int) =~= want);
    Flush::Each { files, dirs: touched_dirs(dst, actions) }
}

/// What changes a directory's entries is never left unflushed: of every action but the refreshing of
/// metadata, the directory that holds its path is flushed.
pub proof fn every_changed_directory_is_flushed(dst: PathV, acts: Seq<ActionV>, i: int)
    requires
        0 <= i < acts.len(),
    ensures
        acts[i] matches ActionV::Copy(p) ==> is_touched(dst, acts, holder_of(dst, p)),
        acts[i] matches ActionV::Delete(p) ==> is_touched(dst, acts, holder_of(dst, p)),
        acts[i] matches ActionV::CreateDir(p) ==> is_touched(dst, acts, holder_of(dst, p)),
        acts[i] matches ActionV::HardLink { leader, name } ==> is_touched(dst, acts, holder_of(dst, name)),
        acts[i] matches ActionV::Rename { from, to } ==> is_touched(dst, acts, holder_of(dst, from))
            && is_touched(dst, acts, holder_of(dst, to)),
{
    match acts[i] {
        ActionV::Copy(p) => assert(touches(dst, acts[i], holder_of(dst, p))),
        ActionV::Delete(p) => assert(touches(dst, acts[i], holder_of(dst, p))),
        ActionV::CreateDir(p) => assert(touches(dst, acts[i], holder_of(dst, p))),
        ActionV::HardLink { leader, name } => assert(touches(dst, acts[i], holder_of(dst, name))),
        ActionV::Rename { from, to } => {
            assert(touches(dst, acts[i], holder_of(dst, from)));
            assert(touches(dst, acts[i], holder_of(dst, to)));
        },
        _ => {},
    }
}

/// The directory of an entry is its place without the last component.
pub proof fn an_entry_is_held_by_its_directory(dst: PathV, rel: PathV)
    requires
        dst.len() > 0,
        rel.len() > 0,
        forall|i: int| 0 <= i < rel.len() ==> is_name(#[trigger] rel[i]),
    ensures
        holder_of(dst, rel) == dst + rel.drop_last(),
{
    assert(is_name(rel[0]) && is_name(rel[rel.len() - 1]));
    assert((dst + rel).last() == rel[rel.len() - 1]);
    assert((dst + rel).drop_last() =~= dst + rel.drop_last());
}

/// A directory is flushed only where an action made, moved or removed an entry directly in it; what is
/// merely refreshed changes no directory.
pub proof fn only_changed_directories_are_flushed(dst: PathV, acts: Seq<ActionV>, dir: PathV)
    requires
        is_touched(dst, acts, dir),
    ensures
        exists|i: int|
            0 <= i < acts.len() && match #[trigger] acts[i] {
                ActionV::Copy(p) => dir == holder_of(dst, p),
                ActionV::Delete(p) => dir == holder_of(dst, p),
                ActionV::CreateDir(p) => dir == holder_of(dst, p),
                ActionV::HardLink { name, .. } => dir == holder_of(dst, name),
                ActionV::Rename { from, to } => dir == holder_of(dst, from) || dir == holder_of(dst, to),
                ActionV::RefreshMeta(_) => false,
            },
{
    let i = choose|i: int| 0 <= i < acts.len() && touches(dst, #[trigger] acts[i], dir);
    assert(touches(dst, acts[i], dir));
}

} // verus!
