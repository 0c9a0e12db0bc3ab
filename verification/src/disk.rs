//! What carrying out a plan makes of the destination where files have several names.
//!
//! [`mirror`](crate::mirror) looks at each path by itself. Setting the modification time of a file,
//! though, shows under every name that the file has. A [`Disk`] is a tree together with which
//! names belong to one file, and [`performed`] is what an action makes of it. The laws at the end
//! are those that a whole run keeps.
use vstd::prelude::*;

use crate::apply::{CopiedV, OutcomeV, ProgressionV, entries_without_content_are_only_skipped, final_report, only_skipped};
use crate::collect::{collect, lemma_collect_contains, lemma_source_of, source_of};
use crate::diff::{ChangeV, DiffV, Verdict, add_files, added_list, by_content, change_paths, changed_list, classified, comparison, counterpart, is_follower, is_new, kept_add_rule, link_between, link_list, link_rule, move_targets, moved_list, needs_dst, needs_src, place, plain_add_rule, touched_list, verdict_rule, well_linked, written_anew};
use crate::manifest::{EntryV, Kind, leader, leads, rels, same_inode};
use crate::mirror::{Node, Tree, World, alike, all_read, carried_out, deleted, describes, done, froms, has_below, image, lemma_add_files, lemma_added_entry, lemma_faces, lemma_finds, lemma_finds_entry, lemma_first_name, lemma_leader_leads, lemma_link, lemma_links_apart, lemma_mirror, lemma_moves_fit, lemma_removed, lemma_sorted_change, lemma_sorted_change_paths, lemma_sorted_link, lemma_tells, lemma_touched, lists, mirrors, names, on_time, reproduces, restamped, sound, unobstructed, way_is_free, with_parents};
use crate::order::last_at;
use crate::paths::{PathV, starts_with};
use crate::plan::{ActionV, blocks, copies, early_deletes, late_deletes, lemma_builds, lemma_deletes, lemma_phases, phase_end, planned, plans_do_what_the_difference_says};

verus! {

// ── names and files ──────────────────────────────────────────────────────────

/// Which file a name belongs to: one that stood there before, or the one that a copy to a path
/// made.
pub enum Inode {
    Old(int),
    New(PathV),
}

/// A tree, and which file each name in it belongs to.
pub struct Disk {
    pub tree: Tree,
    pub inode: Map<PathV, Inode>,
}

/// `t` with the modification time of the source file at `p` under every name of the file at `p`.
pub open spec fn shown_everywhere(w: World, t: Tree, inode: Map<PathV, Inode>, p: PathV) -> Tree {
    Map::new(
        |q: PathV| t.contains_key(q),
        |q: PathV| match (t[q], t[p], w.src[p]) {
            (Node::File { content, mtime: _ }, Node::File { .. }, Node::File { mtime, .. }) => if inode[q]
                == inode[p] {
                Node::File { content, mtime }
            } else {
                t[q]
            },
            _ => t[q],
        },
    )
}

/// Which files the names belong to after an action. A copy is written to a file of its own and
/// renamed into place.
pub open spec fn belonging(inode: Map<PathV, Inode>, a: ActionV) -> Map<PathV, Inode> {
    match a {
        ActionV::Delete(p) => inode.remove(p),
        ActionV::Rename { from, to } => inode.remove(from).insert(to, inode[from]),
        ActionV::Copy(p) => inode.insert(p, Inode::New(p)),
        ActionV::HardLink { leader, name } => inode.insert(name, inode[leader]),
        _ => inode,
    }
}

/// The path whose file an action gives the source's modification time.
pub open spec fn stamps(a: ActionV) -> Option<PathV> {
    match a {
        ActionV::Rename { from: _, to } => Some(to),
        ActionV::RefreshMeta(p) => Some(p),
        _ => None,
    }
}

/// What an action makes of a destination; `None` where it fails.
pub open spec fn performed(w: World, x: Disk, a: ActionV) -> Option<Disk> {
    match done(w, x.tree, a) {
        Some(t) => {
            let inode = belonging(x.inode, a);
            let tree = match stamps(a) {
                Some(p) => shown_everywhere(w, t, inode, p),
                None => t,
            };
            Some(Disk { tree, inode })
        },
        None => None,
    }
}

/// What the first `n` actions make of a destination; `None` where one fails.
pub open spec fn after(w: World, x: Disk, actions: Seq<ActionV>, n: int) -> Option<Disk>
    decreases n,
{
    if n <= 0 {
        Some(x)
    } else {
        match after(w, x, actions, n - 1) {
            Some(y) => performed(w, y, actions[n - 1]),
            None => None,
        }
    }
}

/// What a sync makes of a destination.
pub open spec fn synced(w: World, x: Disk) -> Option<Disk> {
    after(w, x, planned(classified(w.x)), planned(classified(w.x)).len() as int)
}

/// A manifest tells which names belong to one file.
pub open spec fn tells_names(m: Seq<EntryV>, x: Disk) -> bool {
    forall|i: int, j: int|
        0 <= i < m.len() && 0 <= j < m.len() && i != j && (#[trigger] m[i]).kind == Kind::File && (
        #[trigger] m[j]).kind == Kind::File ==> (same_inode(m[i], m[j]) <==> x.inode[m[i].rel]
            == x.inode[m[j].rel])
}

/// The destination before a run.
pub open spec fn stands(w: World, x: Disk) -> bool {
    &&& x.tree == w.dst
    &&& tells_names(w.x.d, x)
    &&& forall|p: PathV| #[trigger] w.dst.contains_key(p) ==> x.inode[p] is Old
}

// ── times aside, a run does what it does path by path ────────────────────────

/// The same node, times aside.
pub open spec fn like_node(a: Node, b: Node) -> bool {
    match (a, b) {
        (Node::File { content: ca, .. }, Node::File { content: cb, .. }) => ca == cb,
        _ => a == b,
    }
}

/// The same tree, times aside.
pub open spec fn like(t: Tree, u: Tree) -> bool {
    &&& forall|p: PathV| #[trigger] t.contains_key(p) <==> u.contains_key(p)
    &&& forall|p: PathV| #[trigger] t.contains_key(p) ==> like_node(t[p], u[p])
}

proof fn lemma_like_deleted(t: Tree, u: Tree, p: PathV)
    requires
        like(t, u),
        deleted(u, p) is Some,
    ensures
        deleted(t, p) is Some,
        like(deleted(t, p)->0, deleted(u, p)->0),
{
    if has_below(t, p) {
        let q = choose|q: PathV| #[trigger] t.contains_key(q) && q != p && starts_with(q, p);
        assert(u.contains_key(q));
        assert(has_below(u, p));
    }
    assert(t.contains_key(p) <==> u.contains_key(p));
    let (a, b) = (deleted(t, p)->0, deleted(u, p)->0);
    assert forall|q: PathV| #[trigger] a.contains_key(q) implies like_node(a[q], b[q]) by {
        assert(t.contains_key(q));
    }
    assert forall|q: PathV| #[trigger] a.contains_key(q) <==> b.contains_key(q) by {
        assert(t.contains_key(q) <==> u.contains_key(q));
    }
}

proof fn lemma_like_parents(t: Tree, u: Tree, p: PathV)
    requires
        like(t, u),
    ensures
        like(with_parents(t, p), with_parents(u, p)),
        way_is_free(u, p) ==> way_is_free(t, p),
{
    let (a, b) = (with_parents(t, p), with_parents(u, p));
    assert forall|q: PathV| #[trigger] a.contains_key(q) <==> b.contains_key(q) by {
        assert(t.contains_key(q) <==> u.contains_key(q));
    }
    assert forall|q: PathV| #[trigger] a.contains_key(q) implies like_node(a[q], b[q]) by {
        assert(t.contains_key(q) <==> u.contains_key(q));
    }
}

proof fn lemma_like_done(w: World, t: Tree, u: Tree, a: ActionV)
    requires
        like(t, u),
        done(w, u, a) is Some,
    ensures
        done(w, t, a) is Some,
        like(done(w, t, a)->0, done(w, u, a)->0),
{
    match a {
        ActionV::Delete(p) => {
            lemma_like_deleted(t, u, p);
        },
        ActionV::Rename { from, to } => {
            lemma_like_parents(t, u, to);
            let (t1, u1) = (with_parents(t, to), with_parents(u, to));
            assert(t1.contains_key(from) <==> u1.contains_key(from));
            assert(t1.contains_key(to) <==> u1.contains_key(to));
            lemma_like_insert(
                t1.remove(from),
                u1.remove(from),
                to,
                restamped(w, t1[from], to),
                restamped(w, u1[from], to),
            );
        },
        ActionV::CreateDir(p) => {
            lemma_like_parents(t, u, p);
            assert(t.contains_key(p) <==> u.contains_key(p));
            lemma_like_insert(with_parents(t, p), with_parents(u, p), p, Node::Dir, Node::Dir);
        },
        ActionV::Copy(p) => {
            lemma_like_parents(t, u, p);
            let (t1, u1) = (with_parents(t, p), with_parents(u, p));
            assert(t1.contains_key(p) <==> u1.contains_key(p));
            if image(w, p) is Some {
                lemma_like_insert(t1, u1, p, image(w, p)->0, image(w, p)->0);
            }
        },
        ActionV::RefreshMeta(p) => {
            assert(t.contains_key(p) <==> u.contains_key(p));
            lemma_like_insert(t, u, p, restamped(w, t[p], p), restamped(w, u[p], p));
        },
        ActionV::HardLink { leader, name } => {
            lemma_like_deleted(t, u, name);
            let (t0, u0) = (deleted(t, name)->0, deleted(u, name)->0);
            lemma_like_parents(t0, u0, name);
            let (t1, u1) = (with_parents(t0, name), with_parents(u0, name));
            assert(t1.contains_key(leader) <==> u1.contains_key(leader));
            lemma_like_insert(t1, u1, name, t1[leader], u1[leader]);
        },
    }
}

proof fn lemma_like_insert(t: Tree, u: Tree, p: PathV, a: Node, b: Node)
    requires
        forall|q: PathV| q != p ==> (#[trigger] t.contains_key(q) <==> u.contains_key(q)),
        forall|q: PathV| q != p && #[trigger] t.contains_key(q) ==> like_node(t[q], u[q]),
        like_node(a, b),
    ensures
        like(t.insert(p, a), u.insert(p, b)),
{
    let (x, y) = (t.insert(p, a), u.insert(p, b));
    assert forall|q: PathV| #[trigger] x.contains_key(q) <==> y.contains_key(q) by {
        assert(t.contains_key(q) || q == p <==> x.contains_key(q));
    }
    assert forall|q: PathV| #[trigger] x.contains_key(q) implies like_node(x[q], y[q]) by {
        if q != p {
            assert(t.contains_key(q));
        }
    }
}

proof fn lemma_like_shown(w: World, t: Tree, u: Tree, inode: Map<PathV, Inode>, p: PathV)
    requires
        like(t, u),
    ensures
        like(shown_everywhere(w, t, inode, p), u),
{
    let s = shown_everywhere(w, t, inode, p);
    assert forall|q: PathV| #[trigger] s.contains_key(q) <==> u.contains_key(q) by {
        assert(t.contains_key(q) <==> u.contains_key(q));
    }
    assert forall|q: PathV| #[trigger] s.contains_key(q) implies like_node(s[q], u[q]) by {
        assert(t.contains_key(q));
    }
}

/// Wherever the actions succeed path by path, they succeed, with the same result, times aside.
proof fn lemma_like_after(w: World, x: Disk, actions: Seq<ActionV>, n: int, k: int)
    requires
        0 <= k <= n,
        carried_out(w, x.tree, actions, n) is Some,
    ensures
        carried_out(w, x.tree, actions, k) is Some,
        after(w, x, actions, k) is Some,
        like(after(w, x, actions, k)->0.tree, carried_out(w, x.tree, actions, k)->0),
    decreases n, k,
{
    if k < n {
        lemma_like_after(w, x, actions, n - 1, k);
    } else if k > 0 {
        lemma_like_after(w, x, actions, n - 1, k - 1);
        let y = after(w, x, actions, k - 1)->0;
        let u = carried_out(w, x.tree, actions, k - 1)->0;
        let a = actions[k - 1];
        lemma_like_done(w, y.tree, u, a);
        if stamps(a) is Some {
            lemma_like_shown(
                w,
                done(w, y.tree, a)->0,
                done(w, u, a)->0,
                belonging(y.inode, a),
                stamps(a)->0,
            );
        }
    }
}


// ── what the actions of a plan leave alone ───────────────────────────────────

/// An action that can change which file the name `p` belongs to, or take it away.
pub open spec fn touches(a: ActionV, p: PathV) -> bool {
    match a {
        ActionV::Delete(q) => q == p,
        ActionV::Rename { from, to } => from == p || to == p,
        ActionV::Copy(q) => q == p,
        ActionV::HardLink { leader: _, name } => name == p,
        _ => false,
    }
}

/// None of the actions from `j` up to `k` touches `p`.
pub open spec fn untouched(actions: Seq<ActionV>, j: int, k: int, p: PathV) -> bool {
    forall|i: int| j <= i < k ==> !touches(#[trigger] actions[i], p)
}

/// A name that is not touched stays the name of the same file.
proof fn lemma_name_kept(w: World, x: Disk, actions: Seq<ActionV>, j: int, k: int, p: PathV)
    requires
        0 <= j <= k,
        after(w, x, actions, k) is Some,
        untouched(actions, j, k, p),
        after(w, x, actions, j)->0.tree.contains_key(p),
        after(w, x, actions, j)->0.tree[p] is File,
    ensures
        after(w, x, actions, j) is Some,
        after(w, x, actions, k)->0.inode[p] == after(w, x, actions, j)->0.inode[p],
        after(w, x, actions, k)->0.tree.contains_key(p),
        after(w, x, actions, k)->0.tree[p] is File,
    decreases k,
{
    if j < k {
        assert(!touches(actions[k - 1], p));
        assert(untouched(actions, j, k - 1, p));
        lemma_name_kept(w, x, actions, j, k - 1, p);
        let y = after(w, x, actions, k - 1)->0;
        assert(done(w, y.tree, actions[k - 1]) is Some);
        let t = done(w, y.tree, actions[k - 1])->0;
        assert(t.contains_key(p) && t[p] is File);
    }
}

/// Times that agree are told apart by neither side.
proof fn lemma_on_time(a: Node, b: Node)
    requires
        on_time(a, b),
    ensures
        on_time(b, a),
{
}

/// A name that is not touched keeps a time that agrees with the source, as long as nothing stamps
/// its file with one that does not.
proof fn lemma_time_kept(w: World, x: Disk, actions: Seq<ActionV>, j: int, k: int, p: PathV)
    requires
        0 <= j <= k,
        after(w, x, actions, k) is Some,
        untouched(actions, j, k, p),
        after(w, x, actions, j)->0.tree.contains_key(p),
        after(w, x, actions, j)->0.tree[p] is File,
        on_time(w.src[p], after(w, x, actions, j)->0.tree[p]),
        forall|i: int|
            j <= i < k ==> (stamps(#[trigger] actions[i]) matches Some(a) ==> (after(w, x, actions, i + 1)->0.inode[a]
                == after(w, x, actions, j)->0.inode[p] ==> on_time(w.src[p], w.src[a]))),
    ensures
        after(w, x, actions, k)->0.tree.contains_key(p),
        after(w, x, actions, k)->0.tree[p] is File,
        on_time(w.src[p], after(w, x, actions, k)->0.tree[p]),
    decreases k,
{
    if j < k {
        let a = actions[k - 1];
        assert(!touches(a, p));
        assert(untouched(actions, j, k - 1, p));
        lemma_name_kept(w, x, actions, j, k - 1, p);
        lemma_name_kept(w, x, actions, j, k, p);
        lemma_time_kept(w, x, actions, j, k - 1, p);
        let y = after(w, x, actions, k - 1)->0;
        let z = after(w, x, actions, k)->0;
        let t = done(w, y.tree, a)->0;
        assert(t.contains_key(p) && t[p] is File);
        assert(on_time(w.src[p], t[p])) by {
            match a {
                ActionV::RefreshMeta(q) => {
                    if q != p {
                        assert(t[p] == y.tree[p]);
                    }
                },
                _ => {
                    assert(t[p] == y.tree[p]);
                },
            }
        }
        if stamps(a) is Some {
            let q = stamps(a)->0;
            assert(z.tree == shown_everywhere(w, t, z.inode, q));
            if z.tree[p] != t[p] {
                assert(z.inode[p] == z.inode[q]);
                assert(on_time(w.src[p], w.src[q]));
            }
        }
    }
}

// ── where the files of the destination end up ────────────────────────────────

/// The source has at `p` a later name of a file.
pub open spec fn later_name(w: World, p: PathV) -> bool {
    exists|i: int| 0 <= i < w.x.s.len() && (#[trigger] w.x.s[i]).rel == p && is_follower(w.x.s, i)
}

/// A run leaves the file at `p` in place, and compares it under this name.
pub open spec fn stays_put(w: World, p: PathV) -> bool {
    alike(w, p) && w.src[p] is File && !copies(classified(w.x)).contains(p) && !later_name(w, p)
}

/// A run moves the destination file at `p` to `a`, or leaves it there.
pub open spec fn ends_at(w: World, p: PathV, a: PathV) -> bool {
    ||| exists|k: int|
        0 <= k < classified(w.x).moved.len() && (#[trigger] classified(w.x).moved[k]).from == p && classified(
            w.x,
        ).moved[k].to == a
    ||| a == p && stays_put(w, p)
}

/// A run gives the file at `a` the source's modification time.
pub open spec fn is_stamped(w: World, a: PathV) -> bool {
    move_targets(classified(w.x).moved).contains(a) || change_paths(classified(w.x).touched).contains(a)
}

/// Where a file is given a modification time and ends up under several names, the source has the
/// same time at all of them.
pub open spec fn keeps_time(w: World, x: Disk) -> bool {
    forall|p: PathV, q: PathV, a: PathV, b: PathV|
        #![trigger ends_at(w, p, a), ends_at(w, q, b)]
        p != q && ends_at(w, p, a) && ends_at(w, q, b) && x.inode[p] == x.inode[q] && is_stamped(w, a)
            ==> on_time(w.src[a], w.src[b])
}

proof fn lemma_one_place(m: Seq<EntryV>, t: Tree, i: int, j: int)
    requires
        lists(m, t),
        0 <= i < m.len(),
        0 <= j < m.len(),
        m[i].rel == m[j].rel,
    ensures
        i == j,
{
    if i < j {
        assert(m[i].rel != m[j].rel);
    } else if j < i {
        assert(m[j].rel != m[i].rel);
    }
}

/// What is copied is a first name, and new or changed.
proof fn lemma_copied_entry(w: World, p: PathV) -> (i: int)
    requires
        sound(w),
        copies(classified(w.x)).contains(p),
    ensures
        0 <= i < w.x.s.len(),
        w.x.s[i].rel == p,
        !is_follower(w.x.s, i),
        is_new(w.x.s, w.x.d, i) || (comparison(w.x, i) matches Some(c) && c.verdict == Verdict::Changed),
{
    let x = w.x;
    let (s, dd) = (x.s, x.d);
    let d = classified(x);
    let n = s.len() as int;
    lemma_builds(d, p);
    lemma_add_files(w);
    if change_paths(d.changed).contains(p) {
        lemma_sorted_change_paths(changed_list(x), p);
        let c = changed_list(x);
        let k = choose|k: int| 0 <= k < c.len() && change_paths(c)[k] == p;
        let rule = verdict_rule(x, Verdict::Changed);
        lemma_source_of(n, rule, k);
        source_of(n, rule, k)
    } else {
        let k = choose|k: int| 0 <= k < d.added.len() && (#[trigger] d.added[k]).rel == p && d.added[k].kind != Kind::Dir;
        let e = d.added[k];
        assert(d.added.contains(e));
        let all = added_list(x);
        lemma_sorted_change(all, e);
        let u = choose|u: int| 0 <= u < all.len() && all[u] == e;
        let a = collect(n, plain_add_rule(x));
        let b = collect(add_files(s, dd).len() as int, kept_add_rule(x));
        if u < a.len() {
            assert(a[u] == e);
            lemma_source_of(n, plain_add_rule(x), u);
            source_of(n, plain_add_rule(x), u)
        } else {
            assert(b[u - a.len()] == e);
            lemma_source_of(add_files(s, dd).len() as int, kept_add_rule(x), u - a.len());
            let f = source_of(add_files(s, dd).len() as int, kept_add_rule(x), u - a.len());
            add_files(s, dd)[f]
        }
    }
}

/// A first name is never linked.
proof fn lemma_not_linked(w: World, i: int)
    requires
        sound(w),
        0 <= i < w.x.s.len(),
        !is_follower(w.x.s, i),
    ensures
        !names(classified(w.x).to_link).contains(w.x.s[i].rel),
        !later_name(w, w.x.s[i].rel),
{
    let l = classified(w.x).to_link;
    let p = w.x.s[i].rel;
    if names(l).contains(p) {
        let k = choose|k: int| 0 <= k < names(l).len() && names(l)[k] == p;
        let e = l[k];
        assert(l.contains(e));
        lemma_sorted_link(link_list(w.x), e);
        let g = lemma_link(w, e);
        lemma_one_place(w.x.s, w.src, g, i);
    }
    if later_name(w, p) {
        let g = choose|g: int| 0 <= g < w.x.s.len() && (#[trigger] w.x.s[g]).rel == p && is_follower(w.x.s, g);
        lemma_one_place(w.x.s, w.src, g, i);
    }
}

/// Nothing touches a name where source and destination both have a file, unless it is copied or
/// linked.
proof fn lemma_left_alone(w: World, p: PathV)
    requires
        sound(w),
        alike(w, p),
        !copies(classified(w.x)).contains(p),
        !names(classified(w.x).to_link).contains(p),
    ensures
        untouched(planned(classified(w.x)), 0, planned(classified(w.x)).len() as int, p),
{
    let d = classified(w.x);
    let pl = planned(d);
    lemma_phases(d);
    lemma_moves_fit(w);
    lemma_removed(w, p);
    assert forall|i: int| 0 <= i < pl.len() implies !touches(#[trigger] pl[i], p) by {
        plans_do_what_the_difference_says(d, pl[i]);
        assert(pl.contains(pl[i]));
        match pl[i] {
            ActionV::Delete(q) => {},
            ActionV::Rename { from, to } => {
                let k = choose|k: int|
                    0 <= k < d.moved.len() && (#[trigger] d.moved[k]).from == from && d.moved[k].to == to;
                assert(!alike(w, d.moved[k].to) && !alike(w, d.moved[k].from));
            },
            ActionV::Copy(q) => {
                lemma_builds(d, q);
            },
            ActionV::HardLink { leader, name } => {
                let k = choose|k: int| 0 <= k < d.to_link.len() && d.to_link[k].name == name;
                assert(names(d.to_link)[k] == name);
            },
            _ => {},
        }
    }
}

/// A file that is refreshed stays where it is.
proof fn lemma_refreshed(w: World, p: PathV)
    requires
        sound(w),
        change_paths(classified(w.x).touched).contains(p),
    ensures
        stays_put(w, p),
        w.dst[p] is File,
        !names(classified(w.x).to_link).contains(p),
{
    let x = w.x;
    let c = touched_list(x);
    lemma_touched(w, p);
    lemma_sorted_change_paths(c, p);
    let k = choose|k: int| 0 <= k < c.len() && change_paths(c)[k] == p;
    let rule = verdict_rule(x, Verdict::Touched);
    lemma_source_of(x.s.len() as int, rule, k);
    let i = source_of(x.s.len() as int, rule, k);
    assert(counterpart(x.s, x.d, i) is Some);
    lemma_not_linked(w, i);
    if copies(classified(x)).contains(p) {
        let g = lemma_copied_entry(w, p);
        lemma_one_place(x.s, w.src, g, i);
    }
}

/// What stands before the actions and all that they are about.
pub open spec fn set_out(w: World, x: Disk) -> bool {
    sound(w) && stands(w, x) && unobstructed(w, classified(w.x).moved)
}

/// Every action of a plan succeeds.
proof fn lemma_goes_well(w: World, x: Disk, k: int)
    requires
        set_out(w, x),
        0 <= k <= planned(classified(w.x)).len(),
    ensures
        after(w, x, planned(classified(w.x)), k) is Some,
{
    let pl = planned(classified(w.x));
    lemma_tells(w);
    lemma_mirror(w, classified(w.x));
    lemma_like_after(w, x, pl, pl.len() as int, k);
}

/// Before its turn comes, nothing touches a file that moves.
proof fn lemma_waits(w: World, k: int)
    requires
        sound(w),
        0 <= k < classified(w.x).moved.len(),
    ensures
        untouched(
            planned(classified(w.x)),
            0,
            phase_end(classified(w.x), 1) + k,
            classified(w.x).moved[k].from,
        ),
{
    let d = classified(w.x);
    let pl = planned(d);
    let m = d.moved;
    let f = m[k].from;
    lemma_phases(d);
    lemma_moves_fit(w);
    lemma_removed(w, f);
    assert(froms(m)[k] == f);
    assert forall|i: int| 0 <= i < phase_end(d, 1) + k implies !touches(#[trigger] pl[i], f) by {
        if i < phase_end(d, 1) {
            let q = early_deletes(d)[i];
            assert(early_deletes(d).contains(q));
            lemma_deletes(d, q);
        } else {
            let l = i - phase_end(d, 1);
            assert(m[l].from != m[k].from);
            assert(w.src[m[l].to] is File && w.dst[f] is File);
            assert(!alike(w, m[l].to));
        }
    }
}

/// A file that is given a modification time is one that stood at the destination.
proof fn lemma_stamp(w: World, x: Disk, i: int, a: PathV) -> (f: PathV)
    requires
        set_out(w, x),
        0 <= i < planned(classified(w.x)).len(),
        stamps(planned(classified(w.x))[i]) == Some(a),
    ensures
        w.dst.contains_key(f),
        ends_at(w, f, a),
        is_stamped(w, a),
        after(w, x, planned(classified(w.x)), i + 1)->0.inode[a] == x.inode[f],
{
    let d = classified(w.x);
    let pl = planned(d);
    let m = d.moved;
    lemma_phases(d);
    lemma_moves_fit(w);
    lemma_goes_well(w, x, i);
    lemma_goes_well(w, x, i + 1);
    assert(after(w, x, pl, 0) == Some(x));
    match pl[i] {
        ActionV::Rename { from, to } => {
            let k = i - phase_end(d, 1);
            assert(m[k].from == from && m[k].to == to);
            assert(move_targets(m)[k] == to);
            lemma_waits(w, k);
            assert(w.dst[from] is File);
            lemma_name_kept(w, x, pl, 0, i, from);
            from
        },
        _ => {
            let k = i - phase_end(d, 5);
            assert(pl[i] == ActionV::RefreshMeta(a));
            assert(change_paths(d.touched)[k] == a);
            lemma_refreshed(w, a);
            lemma_left_alone(w, a);
            assert(untouched(pl, 0, i + 1, a));
            lemma_name_kept(w, x, pl, 0, i + 1, a);
            a
        },
    }
}

/// From some point on a name is not touched, and has a time that agrees with the source: then it
/// still has one at the end.
proof fn lemma_time_at_end(w: World, x: Disk, j: int, p: PathV, g: Option<PathV>)
    requires
        set_out(w, x),
        keeps_time(w, x),
        0 <= j <= planned(classified(w.x)).len(),
        untouched(planned(classified(w.x)), j, planned(classified(w.x)).len() as int, p),
        after(w, x, planned(classified(w.x)), j)->0.tree.contains_key(p),
        after(w, x, planned(classified(w.x)), j)->0.tree[p] is File,
        on_time(w.src[p], after(w, x, planned(classified(w.x)), j)->0.tree[p]),
        match g {
            Some(q) => ends_at(w, q, p) && after(w, x, planned(classified(w.x)), j)->0.inode[p] == x.inode[q],
            None => after(w, x, planned(classified(w.x)), j)->0.inode[p] is New,
        },
    ensures
        synced(w, x)->0.tree.contains_key(p),
        synced(w, x)->0.tree[p] is File,
        on_time(w.src[p], synced(w, x)->0.tree[p]),
{
    let d = classified(w.x);
    let pl = planned(d);
    let n = pl.len() as int;
    let m = d.moved;
    lemma_goes_well(w, x, n);
    lemma_moves_fit(w);
    assert forall|i: int| j <= i < n implies (stamps(#[trigger] pl[i]) matches Some(a) ==> (after(w, x, pl, i + 1)->0.inode[a]
        == after(w, x, pl, j)->0.inode[p] ==> on_time(w.src[p], w.src[a]))) by {
        if stamps(pl[i]) is Some {
            let a = stamps(pl[i])->0;
            let f = lemma_stamp(w, x, i, a);
            if after(w, x, pl, i + 1)->0.inode[a] == after(w, x, pl, j)->0.inode[p] {
                assert(x.inode[f] is Old);
                let q = g->0;
                if f != q {
                    assert(on_time(w.src[a], w.src[p]));
                    lemma_on_time(w.src[a], w.src[p]);
                } else {
                    assert(a == p) by {
                        lemma_one_end(w, f, a, p);
                    }
                }
            }
        }
    }
    lemma_time_kept(w, x, pl, j, n, p);
}

/// A file ends up in one place.
proof fn lemma_one_end(w: World, f: PathV, a: PathV, b: PathV)
    requires
        sound(w),
        ends_at(w, f, a),
        ends_at(w, f, b),
    ensures
        a == b,
{
    let m = classified(w.x).moved;
    lemma_moves_fit(w);
    if exists|k: int| 0 <= k < m.len() && (#[trigger] m[k]).from == f && m[k].to == a {
        let k = choose|k: int| 0 <= k < m.len() && (#[trigger] m[k]).from == f && m[k].to == a;
        if exists|l: int| 0 <= l < m.len() && (#[trigger] m[l]).from == f && m[l].to == b {
            let l = choose|l: int| 0 <= l < m.len() && (#[trigger] m[l]).from == f && m[l].to == b;
            if k < l {
                assert(m[k].from != m[l].from);
            } else if l < k {
                assert(m[l].from != m[k].from);
            }
        } else {
            assert(!alike(w, m[k].from));
        }
    } else if exists|l: int| 0 <= l < m.len() && (#[trigger] m[l]).from == f && m[l].to == b {
        let l = choose|l: int| 0 <= l < m.len() && (#[trigger] m[l]).from == f && m[l].to == b;
        assert(!alike(w, m[l].from));
    }
}

/// A value that a sequence has stands somewhere for the last time.
proof fn lemma_last_time(s: Seq<ActionV>, a: ActionV) -> (i: int)
    requires
        s.contains(a),
    ensures
        0 <= i < s.len(),
        s[i] == a,
        forall|j: int| i < j < s.len() ==> #[trigger] s[j] != a,
    decreases s.len(),
{
    let n = s.len() as int;
    if s[n - 1] == a {
        n - 1
    } else {
        let t = s.drop_last();
        let k = choose|k: int| 0 <= k < s.len() && s[k] == a;
        assert(t[k] == a);
        let i = lemma_last_time(t, a);
        assert forall|j: int| i < j < s.len() implies #[trigger] s[j] != a by {
            if j < n - 1 {
                assert(t[j] == s[j]);
            }
        }
        i
    }
}

/// After a run each first name has a modification time that agrees with the source.
proof fn lemma_first_name_on_time(w: World, x: Disk, i: int)
    requires
        set_out(w, x),
        keeps_time(w, x),
        0 <= i < w.x.s.len(),
        w.x.s[i].kind == Kind::File,
        !is_follower(w.x.s, i),
    ensures
        synced(w, x)->0.tree.contains_key(w.x.s[i].rel),
        synced(w, x)->0.tree[w.x.s[i].rel] is File,
        on_time(w.src[w.x.s[i].rel], synced(w, x)->0.tree[w.x.s[i].rel]),
{
    let d = classified(w.x);
    let pl = planned(d);
    let n = pl.len() as int;
    let m = d.moved;
    let p = w.x.s[i].rel;
    lemma_phases(d);
    lemma_moves_fit(w);
    lemma_first_name(w, i);
    lemma_not_linked(w, i);
    lemma_faces(w, i);
    assert(describes(w.x.s[i], w.src[p]));
    assert(after(w, x, pl, 0) == Some(x));
    if copies(d).contains(p) {
        let c0 = choose|c: int| 0 <= c < copies(d).len() && copies(d)[c] == p;
        assert(pl[phase_end(d, 4) + c0] == ActionV::Copy(p));
        assert(pl.contains(ActionV::Copy(p)));
        let c = lemma_last_time(pl, ActionV::Copy(p));
        lemma_goes_well(w, x, c);
        lemma_goes_well(w, x, c + 1);
        assert(c >= phase_end(d, 4)) by {
            assert(pl[c] == ActionV::Copy(p));
        }
        assert forall|k: int| c + 1 <= k < n implies !touches(#[trigger] pl[k], p) by {
            if k >= phase_end(d, 6) {
                let l = k - phase_end(d, 6);
                assert(names(d.to_link)[l] == d.to_link[l].name);
            }
        }
        lemma_time_at_end(w, x, c + 1, p, None);
    } else if move_targets(m).contains(p) {
        let k = choose|k: int| 0 <= k < m.len() && move_targets(m)[k] == p;
        let c = phase_end(d, 1) + k;
        assert(m[k].to == p);
        assert(pl[c] == (ActionV::Rename { from: m[k].from, to: p }));
        lemma_goes_well(w, x, c);
        lemma_goes_well(w, x, c + 1);
        lemma_waits(w, k);
        assert(w.dst[m[k].from] is File);
        lemma_name_kept(w, x, pl, 0, c, m[k].from);
        assert forall|j: int| c + 1 <= j < n implies !touches(#[trigger] pl[j], p) by {
            if j < phase_end(d, 2) {
                let l = j - phase_end(d, 1);
                assert(m[k].to != m[l].to);
                assert(m[l].from != p) by {
                    if m[l].from == p {
                        assert(w.dst[m[l].from] is File && w.src[m[k].to] is File);
                        assert(!alike(w, m[k].to));
                    }
                }
            } else if j < phase_end(d, 3) {
                let q = late_deletes(d)[j - phase_end(d, 2)];
                assert(late_deletes(d).contains(q));
                lemma_deletes(d, q);
                if q == p {
                    assert(p.subrange(0, p.len() as int) =~= p);
                    assert(starts_with(p, m[k].to));
                    assert(blocks(d, p));
                }
            } else if j < phase_end(d, 4) {
            } else if j < phase_end(d, 5) {
                let q = copies(d)[j - phase_end(d, 4)];
                assert(copies(d).contains(q));
            } else if j >= phase_end(d, 6) {
                let l = j - phase_end(d, 6);
                assert(names(d.to_link)[l] == d.to_link[l].name);
            }
        }
        assert(ends_at(w, m[k].from, p)) by {
            assert(m[k].from == m[k].from && m[k].to == p);
        }
        lemma_time_at_end(w, x, c + 1, p, Some(m[k].from));
    } else {
        if change_paths(d.touched).contains(p) {
            lemma_touched(w, p);
        }
        assert(alike(w, p));
        assert(stays_put(w, p));
        assert(ends_at(w, p, p));
        lemma_left_alone(w, p);
        if change_paths(d.touched).contains(p) {
            let k = choose|k: int| 0 <= k < d.touched.len() && change_paths(d.touched)[k] == p;
            let c = phase_end(d, 5) + k;
            assert(pl[c] == ActionV::RefreshMeta(p));
            lemma_goes_well(w, x, c);
            lemma_goes_well(w, x, c + 1);
            assert(untouched(pl, 0, c, p));
            lemma_name_kept(w, x, pl, 0, c, p);
            assert(untouched(pl, 0, c + 1, p));
            lemma_name_kept(w, x, pl, 0, c + 1, p);
            assert(untouched(pl, c + 1, n, p));
            lemma_time_at_end(w, x, c + 1, p, Some(p));
        } else {
            lemma_time_at_end(w, x, 0, p, Some(p));
        }
    }
}

/// After a run each later name belongs to the file of its first name.
proof fn lemma_later_name_linked(w: World, x: Disk, i: int)
    requires
        set_out(w, x),
        0 <= i < w.x.s.len(),
        is_follower(w.x.s, i),
    ensures
        synced(w, x)->0.inode[w.x.s[i].rel] == synced(w, x)->0.inode[w.x.s[leader(w.x.s, i)->0].rel],
{
    let xx = w.x;
    let (s, dd) = (xx.s, xx.d);
    let d = classified(xx);
    let pl = planned(d);
    let n = pl.len() as int;
    let l = leader(s, i)->0;
    let (p, q) = (s[i].rel, s[l].rel);
    lemma_phases(d);
    lemma_leader_leads(s, i);
    lemma_faces(w, i);
    lemma_faces(w, l);
    lemma_not_linked(w, l);
    lemma_goes_well(w, x, n);
    assert(describes(s[i], w.src[p]));
    assert(describes(s[l], w.src[q]));
    assert(s[l].rel != s[i].rel);
    assert(after(w, x, pl, 0) == Some(x));
    if names(d.to_link).contains(p) {
        let k = choose|k: int| 0 <= k < names(d.to_link).len() && names(d.to_link)[k] == p;
        let e = d.to_link[k];
        assert(d.to_link.contains(e));
        lemma_sorted_link(link_list(xx), e);
        let g = lemma_link(w, e);
        lemma_one_place(s, w.src, g, i);
        let c = phase_end(d, 6) + k;
        assert(pl[c] == (ActionV::HardLink { leader: q, name: p }));
        lemma_goes_well(w, x, c);
        lemma_goes_well(w, x, c + 1);
        let y = after(w, x, pl, c)->0;
        let z = after(w, x, pl, c + 1)->0;
        assert(z.inode[p] == y.inode[q] && z.inode[q] == y.inode[q]);
        assert(done(w, y.tree, pl[c]) is Some);
        assert(z.tree.contains_key(p) && z.tree[p] is File);
        assert(z.tree.contains_key(q) && z.tree[q] is File);
        assert forall|j: int| c + 1 <= j < n implies !touches(#[trigger] pl[j], p) && !touches(pl[j], q) by {
            let u = j - phase_end(d, 6);
            assert(names(d.to_link)[u] == d.to_link[u].name);
            lemma_links_apart(w, k, u);
        }
        lemma_name_kept(w, x, pl, c + 1, n, p);
        lemma_name_kept(w, x, pl, c + 1, n, q);
    } else {
        assert(well_linked(xx, i, l)) by {
            if !well_linked(xx, i, l) {
                let e = link_between(s[l], s[i]);
                assert(link_rule(xx)(i) == Some(e));
                lemma_collect_contains(s.len() as int, link_rule(xx), e);
                lemma_sorted_link(link_list(xx), e);
                let k = choose|k: int| 0 <= k < d.to_link.len() && d.to_link[k] == e;
                assert(names(d.to_link)[k] == p);
            }
        }
        let (a, b) = (place(s, dd, i)->0, place(s, dd, l)->0);
        assert(describes(dd[a], w.dst[p]));
        assert(describes(dd[b], w.dst[q]));
        assert(a != b);
        assert(same_inode(dd[a], dd[b]));
        assert(x.inode[p] == x.inode[q]);
        lemma_first_name(w, l);
        assert(alike(w, p) && alike(w, q));
        assert(!copies(d).contains(p)) by {
            if copies(d).contains(p) {
                let g = lemma_copied_entry(w, p);
                lemma_one_place(s, w.src, g, i);
            }
        }
        assert(!copies(d).contains(q)) by {
            if copies(d).contains(q) {
                lemma_copied_is_anew(w, q);
            }
        }
        lemma_left_alone(w, p);
        lemma_left_alone(w, q);
        lemma_name_kept(w, x, pl, 0, n, p);
        lemma_name_kept(w, x, pl, 0, n, q);
    }
}

/// What is copied is written anew.
proof fn lemma_copied_is_anew(w: World, p: PathV)
    requires
        copies(classified(w.x)).contains(p),
    ensures
        written_anew(w.x).contains(p),
{
    let x = w.x;
    let d = classified(x);
    let (a, c) = (added_list(x), changed_list(x));
    let anew = written_anew(x);
    lemma_builds(d, p);
    lemma_sorted_change_paths(c, p);
    if change_paths(c).contains(p) {
        let k = choose|k: int| 0 <= k < c.len() && change_paths(c)[k] == p;
        assert(anew[a.len() + k] == p);
    } else {
        let k = choose|k: int| 0 <= k < d.added.len() && (#[trigger] d.added[k]).rel == p && d.added[k].kind != Kind::Dir;
        assert(change_paths(d.added)[k] == p);
        lemma_sorted_change_paths(a, p);
        let u = choose|u: int| 0 <= u < a.len() && change_paths(a)[u] == p;
        assert(anew[u] == p);
    }
}

// ── the laws ─────────────────────────────────────────────────────────────────

/// Carrying out the plan for the difference of two trees makes the destination a mirror of the
/// source: afterwards the destination has what the source has, path by path, and nothing else.
///
/// Whatever state the destination is in: an interrupted run leaves a tree like any other, and the
/// next one completes it.
///
/// Two arrangements make a single run fall short, and are left out here: a move whose target lies
/// under something that is no directory at the destination and does not move away before, and a
/// moved file that lies below the target of a move. There the rename fails and is reported, and
/// the next run takes it up again.
pub proof fn a_sync_mirrors_the_source(w: World, x: Disk)
    requires
        sound(w),
        x.tree == w.dst,
        unobstructed(w, classified(w.x).moved),
    ensures
        synced(w, x) matches Some(y) && mirrors(w, y.tree),
{
    let pl = planned(classified(w.x));
    let n = pl.len() as int;
    lemma_tells(w);
    lemma_mirror(w, classified(w.x));
    lemma_like_after(w, x, pl, n, n);
    let y = synced(w, x)->0;
    let t = carried_out(w, w.dst, pl, n)->0;
    assert forall|p: PathV| #[trigger]
        y.tree.contains_key(p) <==> w.src.contains_key(p) && (w.src[p] is Special ==> w.dst.contains_key(p)
            && w.dst[p] is Special) by {
        assert(t.contains_key(p) <==> y.tree.contains_key(p));
    }
    assert forall|p: PathV| #[trigger] y.tree.contains_key(p) implies match w.src[p] {
        Node::Dir => y.tree[p] is Dir,
        Node::Special => y.tree[p] is Special,
        Node::Link(_) => Some(y.tree[p]) == image(w, p),
        Node::File { .. } => reproduces(w, w.src[p], y.tree[p]),
    } by {
        assert(t.contains_key(p));
        assert(like_node(y.tree[p], t[p]));
    }
}

/// With `eager`, every file of the mirror has the content of the source file.
pub proof fn an_eager_sync_reproduces_every_content(w: World, x: Disk, p: PathV)
    requires
        sound(w),
        x.tree == w.dst,
        unobstructed(w, classified(w.x).moved),
        w.x.eager,
        w.src.contains_key(p),
        w.src[p] is File,
    ensures
        synced(w, x) matches Some(y) && y.tree.contains_key(p) && y.tree[p] is File && y.tree[p]->content
            == w.src[p]->content,
{
    a_sync_mirrors_the_source(w, x);
    assert(synced(w, x)->0.tree.contains_key(p));
}

/// After a sync the destination has one file where the source has one under several names.
pub proof fn names_of_one_file_stay_together(w: World, x: Disk, i: int, j: int)
    requires
        sound(w),
        stands(w, x),
        unobstructed(w, classified(w.x).moved),
        0 <= i < w.x.s.len(),
        0 <= j < w.x.s.len(),
        same_inode(w.x.s[i], w.x.s[j]),
    ensures
        synced(w, x) matches Some(y) && y.inode[w.x.s[i].rel] == y.inode[w.x.s[j].rel],
{
    let s = w.x.s;
    lemma_goes_well(w, x, planned(classified(w.x)).len() as int);
    let l = lemma_first_of(s, i);
    let k = lemma_first_of(s, j);
    if l < k {
        assert(same_inode(s[l], s[k]));
        lemma_leader_of(s, l, k);
    } else if k < l {
        assert(same_inode(s[k], s[l]));
        lemma_leader_of(s, k, l);
    }
    if is_follower(s, i) {
        lemma_later_name_linked(w, x, i);
    }
    if is_follower(s, j) {
        lemma_later_name_linked(w, x, j);
    }
}

/// The first name of the file that entry `i` is a name of.
proof fn lemma_first_of(s: Seq<EntryV>, i: int) -> (l: int)
    requires
        0 <= i < s.len(),
    ensures
        0 <= l <= i,
        !is_follower(s, l),
        is_follower(s, i) ==> leader(s, i) == Some(l) && same_inode(s[l], s[i]),
        !is_follower(s, i) ==> l == i,
{
    if is_follower(s, i) {
        lemma_leader_leads(s, i);
        leader(s, i)->0
    } else {
        i
    }
}

/// An entry that has an earlier name is a later name.
proof fn lemma_leader_of(s: Seq<EntryV>, j: int, i: int)
    requires
        0 <= j < i < s.len(),
        same_inode(s[j], s[i]),
    ensures
        is_follower(s, i),
    decreases j,
{
    if forall|k: int| 0 <= k < j ==> !same_inode(#[trigger] s[k], s[i]) {
        assert(leads(s, j, i));
    } else {
        let k = choose|k: int| 0 <= k < j && same_inode(#[trigger] s[k], s[i]);
        lemma_leader_of(s, k, i);
    }
}

/// Where the first run left a mirror, each entry needs nothing, but for special files that it did
/// not bring over.
proof fn lemma_second_comparison(w: World, x: Disk, v: World, y: Disk, i: int)
    requires
        set_out(w, x),
        keeps_time(w, x),
        follows(v, y, w, x),
        sound(v),
        all_read(v.x),
        0 <= i < v.x.s.len(),
        !left_behind(w, v.x.s[i].rel),
    ensures
        alike(v, v.x.s[i].rel),
        !is_follower(v.x.s, i) ==> (comparison(v.x, i) matches Some(c) && c.verdict == Verdict::Unchanged),
{
    let (s, d) = (v.x.s, v.x.d);
    let p = s[i].rel;
    let t = v.dst;
    a_sync_mirrors_the_source(w, x);
    assert(describes(s[i], w.src[p]));
    assert(w.src.contains_key(p));
    assert(t.contains_key(p));
    assert(alike(v, p));
    lemma_faces(v, i);
    if !is_follower(s, i) {
        let j = place(s, d, i)->0;
        assert(counterpart(s, d, i) == Some(j));
        assert(describes(d[j], t[p]));
        match w.src[p] {
            Node::Dir => {},
            Node::Special => {},
            Node::Link(raw) => {
                lemma_finds_entry(s, w.src, i);
                assert(Some(t[p]) == image(w, p));
            },
            Node::File { content, mtime } => {
                lemma_first_name_on_time(w, x, i);
                assert(reproduces(w, w.src[p], t[p]));
                if by_content(s[i], d[j], v.x.eager) {
                    assert(v.x.eager);
                    assert(needs_src(s, d, v.x.eager, i));
                    assert(needs_dst(s, d, v.x.eager, j)) by {
                        assert(counterpart(s, d, i) == Some(j));
                    }
                    assert(v.x.src_hash[i] is Some && v.x.dst_hash[j] is Some);
                    assert(v.x.src_hash[i]->0 is Digest && v.x.dst_hash[j]->0 is Digest);
                }
            },
        }
    }
}

/// `v` compares the same source with what a sync of `w` left.
pub open spec fn follows(v: World, y: Disk, w: World, x: Disk) -> bool {
    &&& v.src == w.src && v.x.s == w.x.s && v.x.links == w.x.links && v.x.relative == w.x.relative
    &&& v.x.eager ==> w.x.eager
    &&& synced(w, x) == Some(y) && v.dst == y.tree && tells_names(v.x.d, y)
}

/// A special file of the source that the destination does not have: it carries no content, so it is
/// never brought over.
pub open spec fn left_behind(w: World, p: PathV) -> bool {
    w.src.contains_key(p) && w.src[p] is Special && !alike(w, p)
}

/// Each entry of the source needs nothing at the destination, but for special files that a run left
/// behind, and the destination has nothing else.
spec fn at_rest(w: World, v: World) -> bool {
    &&& v.src == w.src
    &&& forall|i: int|
        0 <= i < v.x.s.len() && !left_behind(w, (#[trigger] v.x.s[i]).rel) ==> alike(v, v.x.s[i].rel) && (
        !is_follower(v.x.s, i) ==> (comparison(v.x, i) matches Some(c) && c.verdict == Verdict::Unchanged))
    &&& forall|p: PathV| #[trigger] v.src.contains_key(p) && !left_behind(w, p) ==> alike(v, p)
    &&& forall|p: PathV| #[trigger] v.dst.contains_key(p) ==> alike(v, p) && !left_behind(w, p)
}

proof fn lemma_at_rest(w: World, x: Disk, v: World, y: Disk)
    requires
        set_out(w, x),
        keeps_time(w, x),
        follows(v, y, w, x),
        sound(v),
        all_read(v.x),
    ensures
        at_rest(w, v),
{
    let s = v.x.s;
    a_sync_mirrors_the_source(w, x);
    assert forall|i: int| 0 <= i < s.len() && !left_behind(w, (#[trigger] s[i]).rel) implies alike(v, s[i].rel) && (
    !is_follower(s, i) ==> (comparison(v.x, i) matches Some(c) && c.verdict == Verdict::Unchanged)) by {
        lemma_second_comparison(w, x, v, y, i);
    }
    assert forall|p: PathV| #[trigger] v.src.contains_key(p) && !left_behind(w, p) implies alike(v, p) by {
        lemma_finds(s, v.src, p);
        let i = last_at(rels(s), p)->0;
        assert(!left_behind(w, s[i].rel));
        assert(alike(v, s[i].rel));
    }
    assert forall|p: PathV| #[trigger] v.dst.contains_key(p) implies alike(v, p) && !left_behind(w, p) by {
        assert(v.src.contains_key(p));
        assert(!left_behind(w, p));
    }
}

/// At rest nothing is removed, moved, changed or refreshed, and only special files are added.
#[verifier::rlimit(60)]
#[verifier::spinoff_prover]
proof fn lemma_nothing_differs(w: World, v: World)
    requires
        at_rest(w, v),
        sound(v),
    ensures
        classified(v.x).removed.len() == 0,
        classified(v.x).moved.len() == 0,
        classified(v.x).changed.len() == 0,
        classified(v.x).touched.len() == 0,
        forall|e: ChangeV| #[trigger]
            classified(v.x).added.contains(e) ==> left_behind(w, e.rel) && e.kind == Kind::Other,
{
    let xx = v.x;
    let dv = classified(xx);
    assert(dv.removed.len() == 0 && dv.moved.len() == 0) by {
        lemma_nothing_goes(w, v);
    }
    assert(dv.changed.len() == 0) by {
        lemma_no_verdict(w, v, Verdict::Changed);
        assert(dv.changed.len() == changed_list(xx).len());
    }
    assert(dv.touched.len() == 0) by {
        lemma_no_verdict(w, v, Verdict::Touched);
        assert(dv.touched.len() == touched_list(xx).len());
    }
    assert forall|e: ChangeV| #[trigger] dv.added.contains(e) implies left_behind(w, e.rel) && e.kind == Kind::Other by {
        lemma_sorted_change(added_list(xx), e);
        lemma_added_entry(v, e);
    }
}

/// At rest nothing is removed or moved.
proof fn lemma_nothing_goes(w: World, v: World)
    requires
        at_rest(w, v),
        sound(v),
    ensures
        classified(v.x).removed.len() == 0,
        classified(v.x).moved.len() == 0,
{
    let dv = classified(v.x);
    if dv.removed.len() > 0 {
        let p = dv.removed[0].rel;
        assert(change_paths(dv.removed)[0] == p);
        assert(change_paths(dv.removed).contains(p));
        lemma_removed(v, p);
    }
    if dv.moved.len() > 0 {
        lemma_moves_fit(v);
        let p = dv.moved[0].to;
        assert(v.src[p] is File && !alike(v, p));
        assert(!left_behind(w, p));
    }
}

/// At rest every comparison says that nothing changed.
proof fn lemma_no_verdict(w: World, v: World, verdict: Verdict)
    requires
        at_rest(w, v),
        sound(v),
        verdict != Verdict::Unchanged,
    ensures
        collect(v.x.s.len() as int, verdict_rule(v.x, verdict)).len() == 0,
{
    let n = v.x.s.len() as int;
    let rule = verdict_rule(v.x, verdict);
    let list = collect(n, rule);
    if list.len() > 0 {
        lemma_source_of(n, rule, 0);
        let i = source_of(n, rule, 0);
        lemma_compared_stands(v, i);
        assert(!left_behind(w, v.x.s[i].rel));
    }
}

/// Right after a sync no name is linked again.
proof fn lemma_nothing_to_link(w: World, x: Disk, v: World, y: Disk)
    requires
        set_out(w, x),
        follows(v, y, w, x),
        at_rest(w, v),
        sound(v),
        classified(v.x).moved.len() == 0,
        classified(v.x).changed.len() == 0,
        forall|e: ChangeV| #[trigger]
            classified(v.x).added.contains(e) ==> left_behind(w, e.rel) && e.kind == Kind::Other,
    ensures
        classified(v.x).to_link.len() == 0,
{
    let xx = v.x;
    let (s, d) = (xx.s, xx.d);
    let dv = classified(xx);
    let n = s.len() as int;
    if dv.to_link.len() > 0 {
        let e = dv.to_link[0];
        assert(dv.to_link.contains(e));
        lemma_sorted_link(link_list(xx), e);
        lemma_collect_contains(n, link_rule(xx), e);
        let g = choose|g: int| 0 <= g < n && #[trigger] link_rule(xx)(g) == Some(e);
        let l = leader(s, g)->0;
        lemma_leader_leads(s, g);
        lemma_later_name_linked(w, x, g);
        lemma_faces(v, g);
        lemma_faces(v, l);
        assert(describes(s[g], v.src[s[g].rel]));
        assert(describes(s[l], v.src[s[l].rel]));
        assert(!left_behind(w, s[g].rel) && !left_behind(w, s[l].rel));
        assert(alike(v, s[g].rel) && alike(v, s[l].rel));
        let (a, b) = (place(s, d, g)->0, place(s, d, l)->0);
        assert(describes(d[a], v.dst[s[g].rel]));
        assert(describes(d[b], v.dst[s[l].rel]));
        assert(s[l].rel != s[g].rel);
        assert(same_inode(d[a], d[b]));
        assert(!written_anew(xx).contains(s[l].rel)) by {
            if written_anew(xx).contains(s[l].rel) {
                lemma_only_added_anew(v, s[l].rel);
                let k = choose|k: int| 0 <= k < dv.added.len() && change_paths(dv.added)[k] == s[l].rel;
                assert(dv.added.contains(dv.added[k]));
            }
        }
        assert(well_linked(xx, g, l));
    }
}

/// A second sync has nothing to do: right after a sync, comparing again calls for no action but to
/// copy the special files that the destination does not have, of which there is nothing to copy.
/// Where there are none, it calls for no action at all.
///
/// Left out are files with several names at the destination that the source has as different
/// files, with different modification times: such a file has but one time.
pub proof fn a_second_sync_has_nothing_to_do(w: World, x: Disk, v: World, y: Disk)
    requires
        sound(w),
        stands(w, x),
        unobstructed(w, classified(w.x).moved),
        keeps_time(w, x),
        follows(v, y, w, x),
        sound(v),
        all_read(v.x),
    ensures
        forall|k: int|
            0 <= k < planned(classified(v.x)).len() ==> (#[trigger] planned(classified(v.x))[k] matches ActionV::Copy(
                p,
            ) && left_behind(w, p)),
        (forall|p: PathV| !#[trigger] left_behind(w, p)) ==> planned(classified(v.x)).len() == 0,
{
    let dv = classified(v.x);
    let pl = planned(dv);
    assert(only_adds(dv) && forall|e: ChangeV| #[trigger] dv.added.contains(e) ==> left_behind(w, e.rel)) by {
        lemma_at_rest(w, x, v, y);
        lemma_nothing_differs(w, v);
        lemma_nothing_to_link(w, x, v, y);
    }
    assert forall|k: int| 0 <= k < pl.len() implies (#[trigger] pl[k] matches ActionV::Copy(p) && left_behind(w, p)) by {
        let e = lemma_only_copies(dv, k);
    }
    if pl.len() > 0 {
        assert(pl[0] is Copy);
        assert(left_behind(w, pl[0]->Copy_0));
    }
}

/// A difference that only adds special files.
spec fn only_adds(d: DiffV) -> bool {
    &&& d.removed.len() == 0
    &&& d.moved.len() == 0
    &&& d.changed.len() == 0
    &&& d.touched.len() == 0
    &&& d.to_link.len() == 0
    &&& forall|e: ChangeV| #[trigger] d.added.contains(e) ==> e.kind == Kind::Other
}

/// Where only special files are added, a plan copies those and does nothing else.
proof fn lemma_only_copies(d: DiffV, k: int) -> (e: ChangeV)
    requires
        only_adds(d),
        0 <= k < planned(d).len(),
    ensures
        d.added.contains(e),
        planned(d)[k] == ActionV::Copy(e.rel),
{
    let pl = planned(d);
    assert(pl.contains(pl[k]));
    plans_do_what_the_difference_says(d, pl[k]);
    match pl[k] {
        ActionV::Copy(p) => {
            let i = choose|i: int|
                0 <= i < d.added.len() && (#[trigger] d.added[i]).rel == p && d.added[i].kind != Kind::Dir;
            assert(d.added.contains(d.added[i]));
            d.added[i]
        },
        ActionV::CreateDir(p) => {
            let i = choose|i: int|
                0 <= i < d.added.len() && (#[trigger] d.added[i]).rel == p && d.added[i].kind == Kind::Dir;
            assert(d.added.contains(d.added[i]));
            d.added[i]
        },
        _ => ChangeV { rel: Seq::empty(), text: Seq::empty(), kind: Kind::Dir },
    }
}

/// An entry that is compared faces one of its kind.
proof fn lemma_compared_stands(w: World, i: int)
    requires
        sound(w),
        0 <= i < w.x.s.len(),
        comparison(w.x, i) is Some,
    ensures
        w.dst.contains_key(w.x.s[i].rel),
{
    lemma_faces(w, i);
}

/// Where nothing is changed or moved, only what is added is written anew.
proof fn lemma_only_added_anew(w: World, p: PathV)
    requires
        classified(w.x).changed.len() == 0,
        classified(w.x).moved.len() == 0,
        written_anew(w.x).contains(p),
    ensures
        change_paths(classified(w.x).added).contains(p),
{
    let x = w.x;
    let a = added_list(x);
    let anew = written_anew(x);
    assert(classified(x).changed.len() == changed_list(x).len());
    assert(classified(x).moved.len() == moved_list(x).len());
    let k = choose|k: int| 0 <= k < anew.len() && anew[k] == p;
    assert(change_paths(a)[k] == p);
    lemma_sorted_change_paths(a, p);
}

/// A second sync does nothing: it copies, moves, links, deletes and refreshes nothing, and has no
/// issue of its own. All it reports is that the special files are skipped again, however their paths
/// are spelled. `outcomes` are what its actions come to, where copying a special file finds no
/// content.
pub proof fn a_second_sync_does_nothing(
    w: World,
    x: Disk,
    v: World,
    y: Disk,
    s: ProgressionV,
    names: Seq<Seq<u8>>,
    outcomes: Seq<OutcomeV>,
)
    requires
        sound(w),
        stands(w, x),
        unobstructed(w, classified(w.x).moved),
        keeps_time(w, x),
        follows(v, y, w, x),
        sound(v),
        all_read(v.x),
        !s.disk_full,
        s.skipped_full == 0,
        outcomes.len() == planned(classified(v.x)).len(),
        forall|k: int|
            0 <= k < outcomes.len() ==> (#[trigger] planned(classified(v.x))[k] matches ActionV::Copy(p) && v.src[p]
                is Special ==> outcomes[k] == OutcomeV::Copied(CopiedV::NoContent)),
    ensures
        only_skipped(s.report, final_report(s, planned(classified(v.x)), names, outcomes)),
{
    let pl = planned(classified(v.x));
    a_second_sync_has_nothing_to_do(w, x, v, y);
    assert(v.src == w.src);
    assert forall|k: int| 0 <= k < pl.len() implies #[trigger] pl[k] is Copy && outcomes[k] == OutcomeV::Copied(
        CopiedV::NoContent,
    ) by {
        assert(pl[k] matches ActionV::Copy(p) && left_behind(w, p));
    }
    entries_without_content_are_only_skipped(s, pl, names, outcomes);
}

} // verus!
