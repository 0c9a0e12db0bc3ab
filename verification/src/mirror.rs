//! What carrying out a plan makes of the destination, path by path: a mirror of the source.
//!
//! This module is about trees as such, not about code that runs. A [`Tree`] says what stands at
//! each path, [`done`] what an action makes of a tree, and the laws at the end of the file what
//! the plan for the difference of two trees is made of. What a whole run leaves behind, where files
//! may have several names, is stated in [`disk`](crate::disk).
use vstd::prelude::*;

use crate::collect::{collect, lemma_collect_contains, lemma_source_of, lemma_source_of_increasing, source_of};
use crate::diff::{ChangeV, DiffIn, DiffV, LinkV, MoveV, Verdict, add_cand_rule, add_cands, add_files, add_hash_rule, add_hashed, added_list, by_content, change_paths, changed_list, clash_file_rule, classified, comes_by_move, comparison, contested, counterpart, covers, extra_file_rule, goes_by_move, has_change, hash_column, is_follower, is_new, link_list, match_of, move_rule, move_targets, moved_list, mtime_near, needs_dst, needs_src, place, rem_cand_rule, rem_cands, rem_hash_rule, rem_hashed, removed_list, rm_files, sorted_changes, sorted_links, sorted_moves, touched_list, well_linked, written_anew};
use crate::hash::{HashV, blake3_hash};
use crate::links::desired;
use crate::manifest::{EntryV, Kind, Mtime, leader, leads, rels, same_inode};
use crate::moves::{lemma_nothing_left_over, lemma_partner_injective, pairs_up, partner};
use crate::order::{by_path, last_at, lemma_by_path_strict, lemma_last_at, lemma_order, lemma_order_in_range, lemma_sorted_contains, order};
use crate::paths::{PathV, starts_with};
use crate::plan::{ActionV, blocks, copies, early_deletes, late_deletes, lemma_builds, lemma_deletes, lemma_phases, new_dirs, phase_end, planned};

verus! {

// ── trees ────────────────────────────────────────────────────────────────────

/// What stands at a path.
pub enum Node {
    File { content: Seq<u8>, mtime: Option<Mtime> },
    Dir,
    Link(PathV),
    Special,
}

/// A directory tree: what stands at each path below its root.
pub type Tree = Map<PathV, Node>;

pub open spec fn kind_of(n: Node) -> Kind {
    match n {
        Node::File { .. } => Kind::File,
        Node::Dir => Kind::Dir,
        Node::Link(_) => Kind::Symlink,
        Node::Special => Kind::Other,
    }
}

/// `a` is a directory on the way to `p`: a path between the root and `p`.
pub open spec fn above(a: PathV, p: PathV) -> bool {
    0 < a.len() < p.len() && starts_with(p, a)
}

/// Whatever stands in a tree stands in a directory of it.
pub open spec fn rooted(t: Tree) -> bool {
    forall|p: PathV| #[trigger]
        t.contains_key(p) ==> p.len() > 0 && (p.len() > 1 ==> t.contains_key(p.drop_last()) && t[p.drop_last()] is Dir)
}

/// A manifest entry describes a node.
pub open spec fn describes(e: EntryV, n: Node) -> bool {
    &&& e.kind == kind_of(n)
    &&& n matches Node::File { content, mtime } ==> e.size == content.len() && e.mtime == mtime
    &&& n matches Node::Link(target) ==> e.link_target == Some(target)
    &&& e.link_id is Some ==> e.kind == Kind::File
}

/// A manifest lists a tree: each path once, each described as it is, and names of one file hold
/// the same.
pub open spec fn lists(m: Seq<EntryV>, t: Tree) -> bool {
    &&& forall|i: int|
        0 <= i < m.len() ==> t.contains_key((#[trigger] m[i]).rel) && describes(m[i], t[m[i].rel])
    &&& forall|p: PathV| #[trigger] t.contains_key(p) ==> rels(m).contains(p)
    &&& forall|i: int, j: int|
        0 <= i < j < m.len() ==> (#[trigger] m[i]).rel != (#[trigger] m[j]).rel
    &&& forall|i: int, j: int|
        0 <= i < m.len() && 0 <= j < m.len() && same_inode(#[trigger] m[i], #[trigger] m[j])
            ==> t[m[i].rel] == t[m[j].rel]
}

/// A comparison together with the two trees it is about.
pub struct World {
    pub x: DiffIn,
    pub src: Tree,
    pub dst: Tree,
}

/// Every digest that was taken is that of the file, and files with the same digest have the same
/// content.
pub open spec fn faithful(w: World) -> bool {
    &&& forall|i: int|
        0 <= i < w.x.s.len() ==> (#[trigger] w.x.src_hash[i] matches Some(HashV::Digest(h))
            ==> (w.src[w.x.s[i].rel] matches Node::File { content, .. } ==> h == blake3_hash(content)))
    &&& forall|j: int|
        0 <= j < w.x.d.len() ==> (#[trigger] w.x.dst_hash[j] matches Some(HashV::Digest(h))
            ==> (w.dst[w.x.d[j].rel] matches Node::File { content, .. } ==> h == blake3_hash(content)))
    &&& forall|p: PathV, q: PathV|
        #![trigger w.src[p], w.dst[q]]
        w.src.contains_key(p) && w.dst.contains_key(q) ==> (w.src[p] matches Node::File { content: a, .. }
            ==> (w.dst[q] matches Node::File { content: b, .. } ==> (blake3_hash(a) == blake3_hash(b)
            ==> a == b)))
}

/// The two trees are trees, the manifests list them, and what was examined is so.
pub open spec fn sound(w: World) -> bool {
    &&& rooted(w.src)
    &&& rooted(w.dst)
    &&& lists(w.x.s, w.src)
    &&& lists(w.x.d, w.dst)
    &&& covers(w.x)
    &&& faithful(w)
}

/// What a copy of the source entry at `p` writes; special files have nothing to copy.
pub open spec fn image(w: World, p: PathV) -> Option<Node> {
    match w.src[p] {
        Node::File { content, mtime } => Some(Node::File { content, mtime }),
        Node::Link(raw) => match last_at(rels(w.x.s), p) {
            Some(i) => Some(Node::Link(desired(p, raw, w.x.relative, w.x.links[i]))),
            None => Some(Node::Link(raw)),
        },
        Node::Dir => None,
        Node::Special => None,
    }
}

// ── what an action makes of a tree ───────────────────────────────────────────

/// Nothing but directories stands on the way to `p`.
pub open spec fn way_is_free(t: Tree, p: PathV) -> bool {
    forall|a: PathV| #[trigger] above(a, p) && t.contains_key(a) ==> t[a] is Dir
}

/// `t` with the missing directories on the way to `p`.
pub open spec fn with_parents(t: Tree, p: PathV) -> Tree {
    Map::new(
        |q: PathV| t.contains_key(q) || above(q, p),
        |q: PathV| if t.contains_key(q) {
            t[q]
        } else {
            Node::Dir
        },
    )
}

/// Something lies below `p`.
pub open spec fn has_below(t: Tree, p: PathV) -> bool {
    exists|q: PathV| #[trigger] t.contains_key(q) && q != p && starts_with(q, p)
}

/// `t` without what stands at `p`; a directory goes only when it is empty, and what is not there
/// is already gone.
pub open spec fn deleted(t: Tree, p: PathV) -> Option<Tree> {
    if !t.contains_key(p) {
        Some(t)
    } else if t[p] is Dir && has_below(t, p) {
        None
    } else {
        Some(t.remove(p))
    }
}

/// `n` with the modification time of the source file at `p`.
pub open spec fn restamped(w: World, n: Node, p: PathV) -> Node {
    match (n, w.src[p]) {
        (Node::File { content, mtime }, Node::File { content: c, mtime: m }) => Node::File {
            content,
            mtime: m,
        },
        _ => n,
    }
}

/// What an action makes of a destination tree; `None` where it fails.
pub open spec fn done(w: World, t: Tree, a: ActionV) -> Option<Tree> {
    match a {
        ActionV::Delete(p) => deleted(t, p),
        ActionV::Rename { from, to } => {
            let t1 = with_parents(t, to);
            if !way_is_free(t, to) || !t1.contains_key(from) || t1[from] !is File || (t1.contains_key(
                to,
            ) && t1[to] is Dir) {
                None
            } else {
                Some(t1.remove(from).insert(to, restamped(w, t1[from], to)))
            }
        },
        ActionV::CreateDir(p) => if !way_is_free(t, p) || (t.contains_key(p) && t[p] !is Dir) {
            None
        } else {
            Some(with_parents(t, p).insert(p, Node::Dir))
        },
        ActionV::Copy(p) => if !w.src.contains_key(p) {
            None
        } else {
            match image(w, p) {
                Some(n) => {
                    let t1 = with_parents(t, p);
                    if !way_is_free(t, p) || (t1.contains_key(p) && t1[p] is Dir) {
                        None
                    } else {
                        Some(t1.insert(p, n))
                    }
                },
                None => Some(t),
            }
        },
        ActionV::RefreshMeta(p) => if t.contains_key(p) && w.src.contains_key(p) {
            Some(t.insert(p, restamped(w, t[p], p)))
        } else {
            None
        },
        ActionV::HardLink { leader, name } => match deleted(t, name) {
            Some(t0) => {
                let t1 = with_parents(t0, name);
                if !way_is_free(t0, name) || !t1.contains_key(leader) || t1[leader] !is File {
                    None
                } else {
                    Some(t1.insert(name, t1[leader]))
                }
            },
            None => None,
        },
    }
}

/// What the first `n` actions make of a tree; `None` where one fails.
pub open spec fn carried_out(w: World, t: Tree, actions: Seq<ActionV>, n: int) -> Option<Tree>
    decreases n,
{
    if n <= 0 {
        Some(t)
    } else {
        match carried_out(w, t, actions, n - 1) {
            Some(u) => done(w, u, actions[n - 1]),
            None => None,
        }
    }
}

// ── what it means to mirror ──────────────────────────────────────────────────

/// The source has the file `a` at `q`, and the destination, when it was compared, had there a file
/// of this content whose size and modification time agree with it.
pub open spec fn agreed(w: World, q: PathV, a: Node, content: Seq<u8>) -> bool {
    &&& w.src.contains_key(q) && w.src[q] == a && w.dst.contains_key(q)
    &&& match (a, w.dst[q]) {
        (Node::File { content: ca, mtime: ma }, Node::File { content: c, mtime: m }) => c == content
            && ca.len() == c.len() && mtime_near(ma, m),
        _ => false,
    }
}

/// The destination file `b` is what the source file `a` is. Without `eager` a file whose size and
/// modification time agree is taken for the same.
pub open spec fn reproduces(w: World, a: Node, b: Node) -> bool {
    match (a, b) {
        (Node::File { content: ca, .. }, Node::File { content: cb, .. }) => ca == cb || (!w.x.eager && exists|
            q: PathV,
        | #[trigger]
            agreed(w, q, a, cb)),
        _ => false,
    }
}

/// The modification times of two files count as equal.
pub open spec fn on_time(a: Node, b: Node) -> bool {
    a matches Node::File { mtime: ma, .. } && b matches Node::File { mtime: mb, .. } && mtime_near(ma, mb)
}

/// `t` mirrors the source: it has what the source has at the same paths, and nothing else. Special
/// files carry no content, so they are never brought over; those that stood there stay.
pub open spec fn mirrors(w: World, t: Tree) -> bool {
    &&& forall|p: PathV| #[trigger]
        t.contains_key(p) <==> w.src.contains_key(p) && (w.src[p] is Special ==> w.dst.contains_key(p)
            && w.dst[p] is Special)
    &&& forall|p: PathV| #[trigger]
        t.contains_key(p) ==> match w.src[p] {
            Node::Dir => t[p] is Dir,
            Node::Special => t[p] is Special,
            Node::Link(_) => Some(t[p]) == image(w, p),
            Node::File { .. } => reproduces(w, w.src[p], t[p]),
        }
}

/// No move is obstructed: what stands at the destination on the way to a move's target is a
/// directory or moves away before, and no moved file lies below the target of a move.
pub open spec fn unobstructed(w: World, m: Seq<MoveV>) -> bool {
    &&& forall|k: int, a: PathV|
        0 <= k < m.len() && #[trigger] above(a, (#[trigger] m[k]).to) && w.dst.contains_key(a)
            ==> w.dst[a] is Dir || listed(froms(m), k, a)
    &&& forall|k: int, l: int|
        0 <= k < m.len() && 0 <= l < m.len() ==> !starts_with(
            (#[trigger] m[k]).from,
            (#[trigger] m[l]).to,
        )
}

// ── what a difference says of the two trees ──────────────────────────────────

/// Source and destination have the same kind at `p`.
pub open spec fn alike(w: World, p: PathV) -> bool {
    w.src.contains_key(p) && w.dst.contains_key(p) && kind_of(w.src[p]) == kind_of(w.dst[p])
}

pub open spec fn froms(m: Seq<MoveV>) -> Seq<PathV> {
    Seq::new(m.len(), |i: int| m[i].from)
}

pub open spec fn names(l: Seq<LinkV>) -> Seq<PathV> {
    Seq::new(l.len(), |i: int| l[i].name)
}

/// The moves of a difference: pairwise apart, each from a destination file that has to go to a
/// place where the source has a file of the same content and the destination has none.
pub open spec fn moves_fit(w: World, m: Seq<MoveV>) -> bool {
    &&& forall|k: int|
        0 <= k < m.len() ==> {
            let mv = #[trigger] m[k];
            &&& w.src.contains_key(mv.to) && w.dst.contains_key(mv.from)
            &&& !alike(w, mv.to) && !alike(w, mv.from)
            &&& w.src[mv.to] matches Node::File { content: a, .. } && w.dst[mv.from] matches Node::File {
                content: b,
                ..
            } && a == b
        }
    &&& forall|k: int, l: int|
        0 <= k < l < m.len() ==> (#[trigger] m[k]).from != (#[trigger] m[l]).from && m[k].to != m[l].to
}

/// What becomes of a source file that is a first name.
pub open spec fn file_fate(w: World, d: DiffV, p: PathV) -> bool {
    ||| move_targets(d.moved).contains(p)
    ||| copies(d).contains(p)
    ||| change_paths(d.touched).contains(p)
    ||| alike(w, p) && reproduces(w, w.src[p], w.dst[p]) && on_time(w.src[p], w.dst[p])
}

/// The destination already has the source file at `p`.
pub open spec fn already_there(w: World, p: PathV) -> bool {
    alike(w, p) && reproduces(w, w.src[p], w.dst[p])
}

/// What a difference says, path by path.
pub open spec fn tells(w: World, d: DiffV) -> bool {
    &&& moves_fit(w, d.moved)
    &&& forall|p: PathV| #[trigger]
        change_paths(d.removed).contains(p) <==> w.dst.contains_key(p) && !alike(w, p) && !froms(
            d.moved,
        ).contains(p)
    &&& forall|p: PathV| #[trigger]
        new_dirs(d).contains(p) <==> w.src.contains_key(p) && w.src[p] is Dir && !alike(w, p)
    &&& forall|p: PathV| #[trigger]
        copies(d).contains(p) ==> w.src.contains_key(p) && w.src[p] !is Dir
    &&& forall|p: PathV| #[trigger]
        change_paths(d.touched).contains(p) ==> alike(w, p) && (w.src[p] matches Node::File {
            content: a,
            ..
        } && w.dst[p] matches Node::File { content: b, .. } && a == b)
    &&& forall|k: int|
        0 <= k < d.to_link.len() ==> {
            let l = #[trigger] d.to_link[k];
            &&& w.src.contains_key(l.name) && w.src.contains_key(l.leader)
            &&& w.src[l.name] is File && w.src[l.name] == w.src[l.leader]
            &&& !names(d.to_link).contains(l.leader)
            &&& file_fate(w, d, l.leader)
        }
    &&& forall|k: int, l: int|
        0 <= k < l < d.to_link.len() ==> (#[trigger] d.to_link[k]).name != (#[trigger] d.to_link[l]).name
    &&& forall|p: PathV| #[trigger]
        w.src.contains_key(p) ==> match w.src[p] {
            Node::Dir => true,
            Node::Special => copies(d).contains(p) || alike(w, p),
            Node::Link(_) => copies(d).contains(p) || (alike(w, p) && Some(w.dst[p]) == image(w, p)),
            Node::File { .. } => names(d.to_link).contains(p) || file_fate(w, d, p) || already_there(w, p),
        }
}

// ── paths on the way to paths ────────────────────────────────────────────────

proof fn lemma_starts_with_trans(q: PathV, p: PathV, b: PathV)
    requires
        starts_with(q, p),
        starts_with(p, b),
    ensures
        starts_with(q, b),
{
    assert(q.subrange(0, b.len() as int) =~= b) by {
        assert forall|k: int| 0 <= k < b.len() implies q[k] == b[k] by {
            assert(q.subrange(0, p.len() as int)[k] == p[k]);
            assert(p.subrange(0, b.len() as int)[k] == b[k]);
        }
    }
}

proof fn lemma_starts_with_self(p: PathV)
    ensures
        starts_with(p, p),
{
    assert(p.subrange(0, p.len() as int) =~= p);
}

/// In a tree, only directories are on the way to what stands there.
proof fn lemma_rooted(t: Tree, a: PathV, p: PathV)
    requires
        rooted(t),
        t.contains_key(p),
        above(a, p),
    ensures
        t.contains_key(a),
        t[a] is Dir,
    decreases p.len(),
{
    let q = p.drop_last();
    assert(t.contains_key(q));
    if a.len() == q.len() {
        assert(p.subrange(0, a.len() as int) =~= q);
    } else {
        assert(q.subrange(0, a.len() as int) =~= p.subrange(0, a.len() as int));
        lemma_rooted(t, a, q);
    }
}

/// `p` is among the first `k` of `s`.
pub open spec fn listed(s: Seq<PathV>, k: int, p: PathV) -> bool {
    exists|i: int| 0 <= i < k && #[trigger] s[i] == p
}

proof fn lemma_listed_step(s: Seq<PathV>, k: int, p: PathV)
    requires
        0 <= k < s.len(),
    ensures
        listed(s, k + 1, p) <==> listed(s, k, p) || s[k] == p,
{
    if listed(s, k, p) {
        let i = choose|i: int| 0 <= i < k && #[trigger] s[i] == p;
        assert(0 <= i < k + 1 && s[i] == p);
    }
    if listed(s, k + 1, p) {
        let i = choose|i: int| 0 <= i < k + 1 && #[trigger] s[i] == p;
        assert(i == k || (0 <= i < k && s[i] == p));
    }
}

proof fn lemma_listed_all(s: Seq<PathV>, p: PathV)
    ensures
        listed(s, s.len() as int, p) <==> s.contains(p),
{
    if s.contains(p) {
        let i = choose|i: int| 0 <= i < s.len() && s[i] == p;
        assert(0 <= i < s.len() && s[i] == p);
    }
}

/// Everything that the phases below rest on.
pub open spec fn ready(w: World, d: DiffV) -> bool {
    &&& rooted(w.src)
    &&& rooted(w.dst)
    &&& tells(w, d)
    &&& unobstructed(w, d.moved)
}

// ── clearing the way for the renames ─────────────────────────────────────────

pub open spec fn tree1(w: World, d: DiffV, k: int) -> Tree {
    Map::new(
        |p: PathV| w.dst.contains_key(p) && !listed(early_deletes(d), k, p),
        |p: PathV| w.dst[p],
    )
}

proof fn lemma_step1(w: World, d: DiffV, k: int)
    requires
        ready(w, d),
        0 <= k < early_deletes(d).len(),
    ensures
        done(w, tree1(w, d, k), ActionV::Delete(early_deletes(d)[k])) == Some(tree1(w, d, k + 1)),
{
    let e = early_deletes(d);
    let p = e[k];
    let t = tree1(w, d, k);
    assert(e.contains(p));
    lemma_deletes(d, p);
    let m = choose|m: int| 0 <= m < d.moved.len() && starts_with(p, (#[trigger] d.moved[m]).to);
    let to = d.moved[m].to;
    assert(w.src.contains_key(to) && w.src[to] is File);
    assert(!has_below(t, p)) by {
        if has_below(t, p) {
            let q = choose|q: PathV| #[trigger] t.contains_key(q) && q != p && starts_with(q, p);
            lemma_starts_with_trans(q, p, to);
            if q.len() == p.len() {
                assert(q.subrange(0, p.len() as int) =~= q);
            }
            assert(w.src.contains_key(to));
            assert(to.len() > 0);
            assert(above(to, q));
            if w.src.contains_key(q) {
                lemma_rooted(w.src, to, q);
            }
            assert(!alike(w, q));
            if froms(d.moved).contains(q) {
                let l = choose|l: int| 0 <= l < froms(d.moved).len() && froms(d.moved)[l] == q;
                assert(d.moved[l].from == q);
                assert(!starts_with(d.moved[l].from, d.moved[m].to));
            }
            assert(change_paths(d.removed).contains(q));
            assert(blocks(d, q));
            lemma_deletes(d, q);
            let j = choose|j: int| 0 <= j < e.len() && e[j] == q;
            assert(!listed(e, k, q));
            assert(j >= k) by {
                if j < k {
                    assert(0 <= j < k && e[j] == q);
                }
            }
            crate::order::lemma_below_is_after(q, p);
            crate::order::lemma_descending(
                collect(d.removed.len() as int, crate::plan::blocking_rule(d)),
            );
            assert(!crate::order::path_lt(e[k], e[j]));
        }
    }
    assert forall|q: PathV| tree1(w, d, k + 1).contains_key(q) <==> t.contains_key(q) && q != p by {
        lemma_listed_step(e, k, q);
    }
    let u = done(w, t, ActionV::Delete(p))->0;
    assert(u =~= tree1(w, d, k + 1));
}

// ── the renames ──────────────────────────────────────────────────────────────

/// A directory on the way to one of the first `k` targets.
pub open spec fn made(m: Seq<MoveV>, k: int, p: PathV) -> bool {
    exists|i: int| 0 <= i < k && above(p, (#[trigger] m[i]).to)
}

pub open spec fn stays2(w: World, d: DiffV, k: int, p: PathV) -> bool {
    w.dst.contains_key(p) && !early_deletes(d).contains(p) && !listed(froms(d.moved), k, p)
}

pub open spec fn in2(w: World, d: DiffV, k: int, p: PathV) -> bool {
    stays2(w, d, k, p) || listed(move_targets(d.moved), k, p) || made(d.moved, k, p)
}

pub open spec fn at2(w: World, d: DiffV, k: int, p: PathV) -> Node {
    if listed(move_targets(d.moved), k, p) {
        w.src[p]
    } else if stays2(w, d, k, p) {
        w.dst[p]
    } else {
        Node::Dir
    }
}

pub open spec fn tree2(w: World, d: DiffV, k: int) -> Tree {
    Map::new(|p: PathV| in2(w, d, k, p), |p: PathV| at2(w, d, k, p))
}

proof fn lemma_target(w: World, d: DiffV, k: int, p: PathV)
    requires
        ready(w, d),
        0 <= k <= d.moved.len(),
        listed(move_targets(d.moved), k, p),
    ensures
        w.src.contains_key(p),
        w.src[p] is File,
        !alike(w, p),
        exists|i: int| 0 <= i < k && (#[trigger] d.moved[i]).to == p,
{
    let i = choose|i: int| 0 <= i < k && #[trigger] move_targets(d.moved)[i] == p;
    assert(d.moved[i].to == p);
}

proof fn lemma_made(w: World, d: DiffV, k: int, p: PathV)
    requires
        ready(w, d),
        0 <= k <= d.moved.len(),
        made(d.moved, k, p),
    ensures
        w.src.contains_key(p),
        w.src[p] is Dir,
        w.dst.contains_key(p) ==> w.dst[p] is Dir || listed(froms(d.moved), k - 1, p),
{
    let i = choose|i: int| 0 <= i < k && above(p, (#[trigger] d.moved[i]).to);
    lemma_rooted(w.src, p, d.moved[i].to);
    if listed(froms(d.moved), i, p) {
        let l = choose|l: int| 0 <= l < i && #[trigger] froms(d.moved)[l] == p;
        assert(0 <= l < k - 1 && froms(d.moved)[l] == p);
    }
}

proof fn lemma_made_step(m: Seq<MoveV>, k: int, p: PathV)
    requires
        0 <= k < m.len(),
    ensures
        made(m, k + 1, p) <==> made(m, k, p) || above(p, m[k].to),
{
    if made(m, k, p) {
        let i = choose|i: int| 0 <= i < k && above(p, (#[trigger] m[i]).to);
        assert(0 <= i < k + 1 && above(p, m[i].to));
    }
    if made(m, k + 1, p) {
        let i = choose|i: int| 0 <= i < k + 1 && above(p, (#[trigger] m[i]).to);
        assert(i == k || (0 <= i < k && above(p, m[i].to)));
    }
}

proof fn lemma_step2(w: World, d: DiffV, k: int)
    requires
        ready(w, d),
        0 <= k < d.moved.len(),
    ensures
        done(
            w,
            tree2(w, d, k),
            (ActionV::Rename { from: d.moved[k].from, to: d.moved[k].to }),
        ) == Some(tree2(w, d, k + 1)),
{
    let m = d.moved;
    let t = tree2(w, d, k);
    let (from, to) = (m[k].from, m[k].to);
    let (fs, ts) = (froms(m), move_targets(m));
    assert(fs[k] == from && ts[k] == to);
    assert(fs.contains(from));
    assert forall|i: int| 0 <= i < m.len() implies #[trigger] m[i].from != to && m[i].to != from by {
        if m[i].from == to || m[i].to == from {
            assert(w.src[m[k].to] is File && w.dst[m[k].from] is File);
            assert(w.src[m[i].to] is File && w.dst[m[i].from] is File);
        }
    }
    // the way
    assert forall|a: PathV| #[trigger] above(a, to) && t.contains_key(a) implies t[a] is Dir by {
        lemma_rooted(w.src, a, to);
        if listed(ts, k, a) {
            lemma_target(w, d, k, a);
        }
    }
    assert(way_is_free(t, to));
    let t1 = with_parents(t, to);
    // the file to move
    lemma_deletes(d, from);
    assert(!early_deletes(d).contains(from));
    assert(!listed(fs, k, from)) by {
        if listed(fs, k, from) {
            let i = choose|i: int| 0 <= i < k && #[trigger] fs[i] == from;
            assert(m[i].from == from);
        }
    }
    assert(!listed(ts, k, from)) by {
        if listed(ts, k, from) {
            lemma_target(w, d, k, from);
            let i = choose|i: int| 0 <= i < k && (#[trigger] m[i]).to == from;
        }
    }
    assert(t.contains_key(from) && t[from] == w.dst[from]);
    assert(t1[from] == w.dst[from]);
    // the target is free
    assert(!stays2(w, d, k, to)) by {
        if w.dst.contains_key(to) {
            if fs.contains(to) {
                let i = choose|i: int| 0 <= i < fs.len() && fs[i] == to;
                assert(m[i].from == to);
            }
            assert(change_paths(d.removed).contains(to));
            lemma_starts_with_self(to);
            assert(blocks(d, to)) by {
                assert(starts_with(to, d.moved[k].to));
            }
            lemma_deletes(d, to);
        }
    }
    assert(!listed(ts, k, to)) by {
        if listed(ts, k, to) {
            lemma_target(w, d, k, to);
            let i = choose|i: int| 0 <= i < k && (#[trigger] m[i]).to == to;
        }
    }
    assert(!made(m, k, to)) by {
        if made(m, k, to) {
            lemma_made(w, d, k, to);
        }
    }
    assert(!t1.contains_key(to));
    assert(restamped(w, w.dst[from], to) == w.src[to]);
    // what comes of it
    assert(!made(m, k + 1, from)) by {
        if made(m, k + 1, from) {
            lemma_made(w, d, k + 1, from);
        }
    }
    let u = t1.remove(from).insert(to, w.src[to]);
    assert forall|p: PathV| u.contains_key(p) <==> tree2(w, d, k + 1).contains_key(p) by {
        lemma_listed_step(fs, k, p);
        lemma_listed_step(ts, k, p);
        lemma_made_step(m, k, p);
    }
    assert forall|p: PathV| u.contains_key(p) implies u[p] == tree2(w, d, k + 1)[p] by {
        lemma_listed_step(fs, k, p);
        lemma_listed_step(ts, k, p);
        lemma_made_step(m, k, p);
    }
    assert(u =~= tree2(w, d, k + 1));
}

// ── the other deletes ────────────────────────────────────────────────────────

pub open spec fn tree3(w: World, d: DiffV, k: int) -> Tree {
    Map::new(
        |p: PathV| in2(w, d, d.moved.len() as int, p) && !listed(late_deletes(d), k, p),
        |p: PathV| at2(w, d, d.moved.len() as int, p),
    )
}

proof fn lemma_step3(w: World, d: DiffV, k: int)
    requires
        ready(w, d),
        0 <= k < late_deletes(d).len(),
    ensures
        done(w, tree3(w, d, k), ActionV::Delete(late_deletes(d)[k])) == Some(tree3(w, d, k + 1)),
{
    let n = d.moved.len() as int;
    let e = late_deletes(d);
    let p = e[k];
    let t = tree3(w, d, k);
    let (fs, ts) = (froms(d.moved), move_targets(d.moved));
    assert(e.contains(p));
    lemma_deletes(d, p);
    lemma_listed_all(fs, p);
    assert(stays2(w, d, n, p));
    assert(!(t.contains_key(p) && t[p] is Dir && has_below(t, p))) by {
        if t.contains_key(p) && t[p] is Dir && has_below(t, p) {
            if listed(ts, n, p) {
                lemma_target(w, d, n, p);
            }
            assert(w.dst[p] is Dir);
            assert(!w.src.contains_key(p) || w.src[p] !is Dir);
            let q = choose|q: PathV| #[trigger] t.contains_key(q) && q != p && starts_with(q, p);
            if q.len() == p.len() {
                assert(q.subrange(0, p.len() as int) =~= q);
            }
            assert(above(p, q));
            if w.src.contains_key(q) {
                lemma_rooted(w.src, p, q);
            }
            if listed(ts, n, q) {
                lemma_target(w, d, n, q);
            }
            if made(d.moved, n, q) {
                lemma_made(w, d, n, q);
            }
            assert(stays2(w, d, n, q));
            assert(!alike(w, q));
            lemma_listed_all(fs, q);
            assert(change_paths(d.removed).contains(q));
            lemma_deletes(d, q);
            let j = choose|j: int| 0 <= j < e.len() && e[j] == q;
            assert(j >= k) by {
                if j < k {
                    assert(0 <= j < k && e[j] == q);
                }
            }
            crate::order::lemma_below_is_after(q, p);
            crate::order::lemma_descending(
                collect(d.removed.len() as int, crate::plan::other_delete_rule(d)),
            );
            assert(!crate::order::path_lt(e[k], e[j]));
        }
    }
    assert forall|q: PathV| tree3(w, d, k + 1).contains_key(q) <==> t.contains_key(q) && q != p by {
        lemma_listed_step(e, k, q);
    }
    let u = done(w, t, ActionV::Delete(p))->0;
    assert(u =~= tree3(w, d, k + 1));
}

// ── new directories ──────────────────────────────────────────────────────────

pub open spec fn base3(w: World, d: DiffV, p: PathV) -> bool {
    alike(w, p) || move_targets(d.moved).contains(p) || made(d.moved, d.moved.len() as int, p)
}

pub open spec fn at3(w: World, d: DiffV, p: PathV) -> Node {
    if move_targets(d.moved).contains(p) {
        w.src[p]
    } else if alike(w, p) {
        w.dst[p]
    } else {
        Node::Dir
    }
}

/// A directory created for one of the first `k` new directories.
pub open spec fn raised(n: Seq<PathV>, k: int, p: PathV) -> bool {
    exists|i: int| 0 <= i < k && (#[trigger] n[i] == p || above(p, n[i]))
}

pub open spec fn tree4(w: World, d: DiffV, k: int) -> Tree {
    Map::new(
        |p: PathV| base3(w, d, p) || raised(new_dirs(d), k, p),
        |p: PathV| if base3(w, d, p) {
            at3(w, d, p)
        } else {
            Node::Dir
        },
    )
}

proof fn lemma_cleared(w: World, d: DiffV)
    requires
        ready(w, d),
    ensures
        tree3(w, d, late_deletes(d).len() as int) == tree4(w, d, 0),
{
    let n = d.moved.len() as int;
    let (fs, ts) = (froms(d.moved), move_targets(d.moved));
    let t = tree3(w, d, late_deletes(d).len() as int);
    let u = tree4(w, d, 0);
    assert forall|p: PathV|
        #![trigger t.contains_key(p)]
        #![trigger u.contains_key(p)]
        #![trigger t[p]]
        t.contains_key(p) == u.contains_key(p) && (t.contains_key(p) ==> t[p] == u[p]) by {
        lemma_listed_all(late_deletes(d), p);
        lemma_listed_all(fs, p);
        lemma_listed_all(ts, p);
        lemma_deletes(d, p);
        if ts.contains(p) {
            lemma_target(w, d, n, p);
            lemma_starts_with_self(p);
            let i = choose|i: int| 0 <= i < n && (#[trigger] d.moved[i]).to == p;
            assert(blocks(d, p)) by {
                assert(starts_with(p, d.moved[i].to));
            }
        }
        if fs.contains(p) {
            let i = choose|i: int| 0 <= i < fs.len() && fs[i] == p;
            assert(d.moved[i].from == p);
        }
        if made(d.moved, n, p) {
            lemma_made(w, d, n, p);
        }
        assert(!raised(new_dirs(d), 0, p));
    }
    assert(t =~= u);
}

proof fn lemma_raised_step(n: Seq<PathV>, k: int, p: PathV)
    requires
        0 <= k < n.len(),
    ensures
        raised(n, k + 1, p) <==> raised(n, k, p) || n[k] == p || above(p, n[k]),
{
    if raised(n, k, p) {
        let i = choose|i: int| 0 <= i < k && (#[trigger] n[i] == p || above(p, n[i]));
        assert(0 <= i < k + 1 && (n[i] == p || above(p, n[i])));
    }
    if raised(n, k + 1, p) {
        let i = choose|i: int| 0 <= i < k + 1 && (#[trigger] n[i] == p || above(p, n[i]));
        assert(i == k || (0 <= i < k && (n[i] == p || above(p, n[i]))));
    }
}

proof fn lemma_step4(w: World, d: DiffV, k: int)
    requires
        ready(w, d),
        0 <= k < new_dirs(d).len(),
    ensures
        done(w, tree4(w, d, k), ActionV::CreateDir(new_dirs(d)[k])) == Some(tree4(w, d, k + 1)),
{
    let nd = new_dirs(d);
    let p = nd[k];
    let t = tree4(w, d, k);
    let ts = move_targets(d.moved);
    assert(nd.contains(p));
    assert(w.src.contains_key(p) && w.src[p] is Dir && !alike(w, p));
    lemma_listed_all(ts, p);
    if ts.contains(p) {
        lemma_target(w, d, d.moved.len() as int, p);
    }
    assert forall|a: PathV| #[trigger] above(a, p) && t.contains_key(a) implies t[a] is Dir by {
        lemma_rooted(w.src, a, p);
        lemma_listed_all(ts, a);
        if ts.contains(a) {
            lemma_target(w, d, d.moved.len() as int, a);
        }
    }
    assert(way_is_free(t, p));
    let u = with_parents(t, p).insert(p, Node::Dir);
    let v = tree4(w, d, k + 1);
    assert forall|q: PathV| u.contains_key(q) == v.contains_key(q) && (u.contains_key(q) ==> u[q] == v[q]) by {
        lemma_raised_step(nd, k, q);
    }
    assert(u =~= v);
}

// ── the copies ───────────────────────────────────────────────────────────────

pub open spec fn src_dir(w: World, p: PathV) -> bool {
    w.src.contains_key(p) && w.src[p] is Dir
}

pub open spec fn base4(w: World, d: DiffV, p: PathV) -> bool {
    alike(w, p) || move_targets(d.moved).contains(p) || src_dir(w, p)
}

pub open spec fn at4(w: World, d: DiffV, p: PathV) -> Node {
    if move_targets(d.moved).contains(p) {
        w.src[p]
    } else if src_dir(w, p) {
        Node::Dir
    } else {
        w.dst[p]
    }
}

pub open spec fn written(w: World, d: DiffV, k: int, p: PathV) -> bool {
    listed(copies(d), k, p) && image(w, p) is Some
}

pub open spec fn in5(w: World, d: DiffV, k: int, p: PathV) -> bool {
    base4(w, d, p) || written(w, d, k, p)
}

pub open spec fn at5(w: World, d: DiffV, k: int, p: PathV) -> Node {
    if written(w, d, k, p) {
        image(w, p)->0
    } else {
        at4(w, d, p)
    }
}

pub open spec fn tree5(w: World, d: DiffV, k: int) -> Tree {
    Map::new(|p: PathV| in5(w, d, k, p), |p: PathV| at5(w, d, k, p))
}

proof fn lemma_dirs_stand(w: World, d: DiffV)
    requires
        ready(w, d),
    ensures
        tree4(w, d, new_dirs(d).len() as int) == tree5(w, d, 0),
{
    let nd = new_dirs(d);
    let n = d.moved.len() as int;
    let ts = move_targets(d.moved);
    let t = tree4(w, d, nd.len() as int);
    let u = tree5(w, d, 0);
    assert forall|p: PathV|
        #![trigger t.contains_key(p)]
        #![trigger u.contains_key(p)]
        #![trigger t[p]]
        t.contains_key(p) == u.contains_key(p) && (t.contains_key(p) ==> t[p] == u[p]) by {
        assert(!written(w, d, 0, p));
        lemma_listed_all(ts, p);
        if ts.contains(p) {
            lemma_target(w, d, n, p);
        }
        if made(d.moved, n, p) {
            lemma_made(w, d, n, p);
        }
        if raised(nd, nd.len() as int, p) {
            let i = choose|i: int| 0 <= i < nd.len() && (#[trigger] nd[i] == p || above(p, nd[i]));
            assert(nd.contains(nd[i]));
            if above(p, nd[i]) {
                lemma_rooted(w.src, p, nd[i]);
            }
        }
        if src_dir(w, p) && !alike(w, p) {
            assert(nd.contains(p));
            let i = choose|i: int| 0 <= i < nd.len() && nd[i] == p;
            assert(raised(nd, nd.len() as int, p)) by {
                assert(0 <= i < nd.len() && nd[i] == p);
            }
        }
    }
    assert(t =~= u);
}

/// Once the source's directories stand, nothing but directories is on the way to a source path.
proof fn lemma_way5(w: World, d: DiffV, k: int, p: PathV)
    requires
        ready(w, d),
        0 <= k <= copies(d).len(),
        w.src.contains_key(p),
    ensures
        forall|a: PathV| #[trigger] above(a, p) ==> src_dir(w, a) && in5(w, d, k, a) && at5(w, d, k, a) is Dir,
{
    assert forall|a: PathV| #[trigger] above(a, p) implies src_dir(w, a) && in5(w, d, k, a) && at5(
        w,
        d,
        k,
        a,
    ) is Dir by {
        lemma_rooted(w.src, a, p);
        let ts = move_targets(d.moved);
        lemma_listed_all(ts, a);
        if ts.contains(a) {
            lemma_target(w, d, d.moved.len() as int, a);
        }
    }
}

proof fn lemma_step5(w: World, d: DiffV, k: int)
    requires
        ready(w, d),
        0 <= k < copies(d).len(),
    ensures
        done(w, tree5(w, d, k), ActionV::Copy(copies(d)[k])) == Some(tree5(w, d, k + 1)),
{
    let c = copies(d);
    let p = c[k];
    let t = tree5(w, d, k);
    let v = tree5(w, d, k + 1);
    assert(c.contains(p));
    assert forall|q: PathV| written(w, d, k + 1, q) <==> written(w, d, k, q) || (q == p && image(w, p) is Some) by {
        lemma_listed_step(c, k, q);
    }
    lemma_way5(w, d, k, p);
    let ts = move_targets(d.moved);
    lemma_listed_all(ts, p);
    if ts.contains(p) {
        lemma_target(w, d, d.moved.len() as int, p);
    }
    match image(w, p) {
        Some(n) => {
            let t1 = with_parents(t, p);
            assert(t1 =~= t);
            assert(way_is_free(t, p));
            assert(!(t.contains_key(p) && t[p] is Dir));
            assert(t1.insert(p, n) =~= v);
        },
        None => {
            assert(t =~= v);
        },
    }
}

// ── the refreshes ────────────────────────────────────────────────────────────

pub open spec fn at6(w: World, d: DiffV, k: int, p: PathV) -> Node {
    if listed(change_paths(d.touched), k, p) {
        restamped(w, at5(w, d, copies(d).len() as int, p), p)
    } else {
        at5(w, d, copies(d).len() as int, p)
    }
}

pub open spec fn tree6(w: World, d: DiffV, k: int) -> Tree {
    Map::new(|p: PathV| in5(w, d, copies(d).len() as int, p), |p: PathV| at6(w, d, k, p))
}

proof fn lemma_step6(w: World, d: DiffV, k: int)
    requires
        ready(w, d),
        0 <= k < d.touched.len(),
    ensures
        done(w, tree6(w, d, k), ActionV::RefreshMeta(d.touched[k].rel)) == Some(tree6(w, d, k + 1)),
{
    let c = change_paths(d.touched);
    let p = d.touched[k].rel;
    assert(c[k] == p);
    assert(c.contains(p));
    let t = tree6(w, d, k);
    let v = tree6(w, d, k + 1);
    assert(t.contains_key(p));
    let u = t.insert(p, restamped(w, t[p], p));
    assert forall|q: PathV| u.contains_key(q) == v.contains_key(q) && (u.contains_key(q) ==> u[q] == v[q]) by {
        lemma_listed_step(c, k, q);
    }
    assert(u =~= v);
}

// ── the links ────────────────────────────────────────────────────────────────

/// What the first `k` links make of the tree.
pub open spec fn linked(w: World, d: DiffV, k: int, t: Tree) -> bool {
    let last = d.touched.len() as int;
    let c = copies(d).len() as int;
    &&& forall|p: PathV| #[trigger] t.contains_key(p) <==> in5(w, d, c, p) || listed(names(d.to_link), k, p)
    &&& forall|p: PathV| #[trigger]
        t.contains_key(p) && !listed(names(d.to_link), k, p) ==> t[p] == at6(w, d, last, p)
    &&& forall|i: int|
        0 <= i < k ==> t[(#[trigger] d.to_link[i]).name] == at6(w, d, last, d.to_link[i].leader)
}

/// A first name stands at the destination once the copies are done, and is what the source has.
proof fn lemma_fate(w: World, d: DiffV, p: PathV)
    requires
        ready(w, d),
        w.src.contains_key(p),
        w.src[p] is File,
        file_fate(w, d, p) || already_there(w, p),
    ensures
        in5(w, d, copies(d).len() as int, p),
        reproduces(w, w.src[p], at6(w, d, d.touched.len() as int, p)),
{
    let c = copies(d).len() as int;
    lemma_listed_all(copies(d), p);
    lemma_listed_all(change_paths(d.touched), p);
    let ts = move_targets(d.moved);
    lemma_listed_all(ts, p);
    if ts.contains(p) {
        lemma_target(w, d, d.moved.len() as int, p);
    }
}

proof fn lemma_step7(w: World, d: DiffV, k: int, t: Tree)
    requires
        ready(w, d),
        0 <= k < d.to_link.len(),
        linked(w, d, k, t),
    ensures
        done(
            w,
            t,
            (ActionV::HardLink { leader: d.to_link[k].leader, name: d.to_link[k].name }),
        ) is Some,
        linked(
            w,
            d,
            k + 1,
            done(
                w,
                t,
                (ActionV::HardLink { leader: d.to_link[k].leader, name: d.to_link[k].name }),
            )->0,
        ),
{
    let ns = names(d.to_link);
    let (leader, name) = (d.to_link[k].leader, d.to_link[k].name);
    let c = copies(d).len() as int;
    let last = d.touched.len() as int;
    assert(ns[k] == name);
    assert(!listed(ns, k, name)) by {
        if listed(ns, k, name) {
            let i = choose|i: int| 0 <= i < k && #[trigger] ns[i] == name;
            assert(d.to_link[i].name == name);
        }
    }
    assert(!listed(ns, k, leader)) by {
        if listed(ns, k, leader) {
            let i = choose|i: int| 0 <= i < k && #[trigger] ns[i] == leader;
            assert(ns.contains(leader));
        }
    }
    assert(leader != name) by {
        assert(ns.contains(name));
    }
    // nothing but a file stands at the name
    let ts = move_targets(d.moved);
    lemma_listed_all(ts, name);
    if ts.contains(name) {
        lemma_target(w, d, d.moved.len() as int, name);
    }
    assert(!(t.contains_key(name) && t[name] is Dir));
    let t0 = deleted(t, name)->0;
    assert(deleted(t, name) is Some);
    assert(forall|q: PathV| q != name ==> (#[trigger] t0.contains_key(q) <==> t.contains_key(q)));
    assert(forall|q: PathV| q != name && #[trigger] t.contains_key(q) ==> t0[q] == t[q]);
    assert(!t0.contains_key(name));
    lemma_way5(w, d, c, name);
    assert forall|a: PathV| #[trigger] above(a, name) implies t0.contains_key(a) && t0[a] is Dir by {
        assert(in5(w, d, c, a));
        assert(!listed(ns, k, a)) by {
            if listed(ns, k, a) {
                let i = choose|i: int| 0 <= i < k && #[trigger] ns[i] == a;
                assert(w.src[d.to_link[i].name] is File);
            }
        }
        assert(t.contains_key(a));
        lemma_listed_all(change_paths(d.touched), a);
    }
    assert(way_is_free(t0, name));
    let t1 = with_parents(t0, name);
    assert(t1 =~= t0);
    lemma_fate(w, d, leader);
    assert(t.contains_key(leader));
    assert(t[leader] == at6(w, d, last, leader));
    let u = t1.insert(name, t1[leader]);
    assert(done(w, t, (ActionV::HardLink { leader, name })) == Some(u));
    assert forall|p: PathV| #[trigger] u.contains_key(p) <==> in5(w, d, c, p) || listed(ns, k + 1, p) by {
        lemma_listed_step(ns, k, p);
        assert(t.contains_key(p) <==> in5(w, d, c, p) || listed(ns, k, p));
    }
    assert forall|p: PathV| #[trigger] u.contains_key(p) && !listed(ns, k + 1, p) implies u[p] == at6(
        w,
        d,
        last,
        p,
    ) by {
        lemma_listed_step(ns, k, p);
        assert(t.contains_key(p));
    }
    assert forall|i: int| 0 <= i < k + 1 implies u[(#[trigger] d.to_link[i]).name] == at6(
        w,
        d,
        last,
        d.to_link[i].leader,
    ) by {
        if i < k {
            assert(d.to_link[i].name != d.to_link[k].name);
            assert(listed(ns, k, d.to_link[i].name)) by {
                assert(ns[i] == d.to_link[i].name);
            }
            assert(t.contains_key(d.to_link[i].name));
        }
    }
}

// ── the whole plan ───────────────────────────────────────────────────────────

proof fn lemma_run1(w: World, d: DiffV, k: int)
    requires
        ready(w, d),
        0 <= k <= phase_end(d, 1),
    ensures
        carried_out(w, w.dst, planned(d), k) == Some(tree1(w, d, k)),
    decreases k,
{
    lemma_phases(d);
    if k == 0 {
        assert(tree1(w, d, 0) =~= w.dst);
    } else {
        lemma_run1(w, d, k - 1);
        lemma_step1(w, d, k - 1);
    }
}

proof fn lemma_run2(w: World, d: DiffV, k: int)
    requires
        ready(w, d),
        phase_end(d, 1) <= k <= phase_end(d, 2),
    ensures
        carried_out(w, w.dst, planned(d), k) == Some(tree2(w, d, k - phase_end(d, 1))),
    decreases k,
{
    lemma_phases(d);
    if k == phase_end(d, 1) {
        lemma_run1(w, d, k);
        let (t, u) = (tree1(w, d, k), tree2(w, d, 0));
        assert forall|p: PathV|
            #![trigger t.contains_key(p)]
            #![trigger u.contains_key(p)]
            #![trigger t[p]]
            t.contains_key(p) == u.contains_key(p) && (t.contains_key(p) ==> t[p] == u[p]) by {
            lemma_listed_all(early_deletes(d), p);
            assert(!listed(froms(d.moved), 0, p));
            assert(!listed(move_targets(d.moved), 0, p));
            assert(!made(d.moved, 0, p));
        }
        assert(t =~= u);
    } else {
        lemma_run2(w, d, k - 1);
        lemma_step2(w, d, k - 1 - phase_end(d, 1));
    }
}

proof fn lemma_run3(w: World, d: DiffV, k: int)
    requires
        ready(w, d),
        phase_end(d, 2) <= k <= phase_end(d, 3),
    ensures
        carried_out(w, w.dst, planned(d), k) == Some(tree3(w, d, k - phase_end(d, 2))),
    decreases k,
{
    lemma_phases(d);
    if k == phase_end(d, 2) {
        lemma_run2(w, d, k);
        assert(tree2(w, d, d.moved.len() as int) =~= tree3(w, d, 0));
    } else {
        lemma_run3(w, d, k - 1);
        lemma_step3(w, d, k - 1 - phase_end(d, 2));
    }
}

proof fn lemma_run4(w: World, d: DiffV, k: int)
    requires
        ready(w, d),
        phase_end(d, 3) <= k <= phase_end(d, 4),
    ensures
        carried_out(w, w.dst, planned(d), k) == Some(tree4(w, d, k - phase_end(d, 3))),
    decreases k,
{
    lemma_phases(d);
    if k == phase_end(d, 3) {
        lemma_run3(w, d, k);
        lemma_cleared(w, d);
    } else {
        lemma_run4(w, d, k - 1);
        lemma_step4(w, d, k - 1 - phase_end(d, 3));
    }
}

proof fn lemma_run5(w: World, d: DiffV, k: int)
    requires
        ready(w, d),
        phase_end(d, 4) <= k <= phase_end(d, 5),
    ensures
        carried_out(w, w.dst, planned(d), k) == Some(tree5(w, d, k - phase_end(d, 4))),
    decreases k,
{
    lemma_phases(d);
    if k == phase_end(d, 4) {
        lemma_run4(w, d, k);
        lemma_dirs_stand(w, d);
    } else {
        lemma_run5(w, d, k - 1);
        lemma_step5(w, d, k - 1 - phase_end(d, 4));
    }
}

proof fn lemma_run6(w: World, d: DiffV, k: int)
    requires
        ready(w, d),
        phase_end(d, 5) <= k <= phase_end(d, 6),
    ensures
        carried_out(w, w.dst, planned(d), k) == Some(tree6(w, d, k - phase_end(d, 5))),
    decreases k,
{
    lemma_phases(d);
    if k == phase_end(d, 5) {
        lemma_run5(w, d, k);
        assert(tree5(w, d, copies(d).len() as int) =~= tree6(w, d, 0));
    } else {
        lemma_run6(w, d, k - 1);
        lemma_step6(w, d, k - 1 - phase_end(d, 5));
    }
}

proof fn lemma_run7(w: World, d: DiffV, k: int)
    requires
        ready(w, d),
        phase_end(d, 6) <= k <= phase_end(d, 7),
    ensures
        carried_out(w, w.dst, planned(d), k) is Some,
        linked(w, d, k - phase_end(d, 6), carried_out(w, w.dst, planned(d), k)->0),
    decreases k,
{
    lemma_phases(d);
    if k == phase_end(d, 6) {
        lemma_run6(w, d, k);
        let t = tree6(w, d, d.touched.len() as int);
        assert forall|p: PathV| !listed(names(d.to_link), 0, p) by {}
        assert(linked(w, d, 0, t));
    } else {
        lemma_run7(w, d, k - 1);
        let t = carried_out(w, w.dst, planned(d), k - 1)->0;
        lemma_step7(w, d, k - 1 - phase_end(d, 6), t);
    }
}

proof fn lemma_linked_mirrors(w: World, d: DiffV, t: Tree)
    requires
        ready(w, d),
        linked(w, d, d.to_link.len() as int, t),
    ensures
        mirrors(w, t),
{
    let n = d.to_link.len() as int;
    let c = copies(d).len() as int;
    let last = d.touched.len() as int;
    let ns = names(d.to_link);
    let ts = move_targets(d.moved);
    assert forall|p: PathV| #[trigger] t.contains_key(p) <==> w.src.contains_key(p) && (w.src[p] is Special
        ==> w.dst.contains_key(p) && w.dst[p] is Special) by {
        lemma_listed_all(ns, p);
        lemma_listed_all(ts, p);
        lemma_listed_all(copies(d), p);
        if ts.contains(p) {
            lemma_target(w, d, d.moved.len() as int, p);
        }
        if ns.contains(p) {
            let i = choose|i: int| 0 <= i < ns.len() && ns[i] == p;
            assert(d.to_link[i].name == p);
        }
        if w.src.contains_key(p) && w.src[p] is File && !ns.contains(p) {
            lemma_fate(w, d, p);
        }
    }
    assert forall|p: PathV| #[trigger] t.contains_key(p) implies match w.src[p] {
        Node::Dir => t[p] is Dir,
        Node::Special => t[p] is Special,
        Node::Link(_) => Some(t[p]) == image(w, p),
        Node::File { .. } => reproduces(w, w.src[p], t[p]),
    } by {
        assert(w.src.contains_key(p));
        lemma_listed_all(ns, p);
        lemma_listed_all(ts, p);
        lemma_listed_all(copies(d), p);
        lemma_listed_all(change_paths(d.touched), p);
        if ts.contains(p) {
            lemma_target(w, d, d.moved.len() as int, p);
        }
        if ns.contains(p) {
            let i = choose|i: int| 0 <= i < ns.len() && ns[i] == p;
            let l = d.to_link[i];
            assert(l.name == p);
            lemma_fate(w, d, l.leader);
            assert(t[d.to_link[i].name] == at6(w, d, last, l.leader));
        } else if w.src[p] is File {
            lemma_fate(w, d, p);
        }
    }
}

/// Carrying out the plan for a difference that tells the truth makes the destination a mirror of
/// the source.
pub proof fn lemma_mirror(w: World, d: DiffV)
    requires
        ready(w, d),
    ensures
        carried_out(w, w.dst, planned(d), planned(d).len() as int) matches Some(t) && mirrors(w, t),
{
    lemma_phases(d);
    lemma_run7(w, d, phase_end(d, 7));
    lemma_linked_mirrors(w, d, carried_out(w, w.dst, planned(d), phase_end(d, 7))->0);
}

// ── a difference tells the truth ─────────────────────────────────────────────

/// Sorting changes keeps their paths.
pub proof fn lemma_sorted_change_paths(c: Seq<ChangeV>, p: PathV)
    ensures
        change_paths(sorted_changes(c)).contains(p) <==> change_paths(c).contains(p),
{
    lemma_by_path_strict();
    let out = sorted_changes(c);
    if change_paths(out).contains(p) {
        let k = choose|k: int| 0 <= k < out.len() && change_paths(out)[k] == p;
        let e = out[k];
        assert(out.contains(e));
        lemma_sorted_contains(c, change_paths(c), by_path(), e);
        let i = choose|i: int| 0 <= i < c.len() && c[i] == e;
        assert(change_paths(c)[i] == p);
    }
    if change_paths(c).contains(p) {
        let i = choose|i: int| 0 <= i < c.len() && change_paths(c)[i] == p;
        let e = c[i];
        assert(c.contains(e));
        lemma_sorted_contains(c, change_paths(c), by_path(), e);
        let k = choose|k: int| 0 <= k < out.len() && out[k] == e;
        assert(change_paths(out)[k] == p);
    }
}

pub proof fn lemma_sorted_change(c: Seq<ChangeV>, e: ChangeV)
    ensures
        sorted_changes(c).contains(e) <==> c.contains(e),
{
    lemma_by_path_strict();
    lemma_sorted_contains(c, change_paths(c), by_path(), e);
}

proof fn lemma_sorted_move(m: Seq<MoveV>, e: MoveV)
    ensures
        sorted_moves(m).contains(e) <==> m.contains(e),
{
    lemma_by_path_strict();
    lemma_sorted_contains(m, move_targets(m), by_path(), e);
}

pub proof fn lemma_sorted_link(l: Seq<LinkV>, e: LinkV)
    ensures
        sorted_links(l).contains(e) <==> l.contains(e),
{
    lemma_by_path_strict();
    lemma_sorted_contains(l, crate::diff::link_names(l), by_path(), e);
}

/// A manifest that lists a tree finds each path where it stands.
pub proof fn lemma_finds(m: Seq<EntryV>, t: Tree, p: PathV)
    requires
        lists(m, t),
    ensures
        t.contains_key(p) <==> last_at(rels(m), p) is Some,
        last_at(rels(m), p) matches Some(i) ==> 0 <= i < m.len() && m[i].rel == p,
{
    lemma_last_at(rels(m), p);
    match last_at(rels(m), p) {
        Some(i) => {
            assert(rels(m)[i] == m[i].rel);
        },
        None => {},
    }
}

pub proof fn lemma_finds_entry(m: Seq<EntryV>, t: Tree, i: int)
    requires
        lists(m, t),
        0 <= i < m.len(),
    ensures
        last_at(rels(m), m[i].rel) == Some(i),
{
    lemma_last_at(rels(m), m[i].rel);
    assert(rels(m)[i] == m[i].rel);
    assert(rels(m).contains(m[i].rel));
    let k = last_at(rels(m), m[i].rel)->0;
    assert(rels(m)[k] == m[k].rel);
    if k < i {
        assert(m[k].rel != m[i].rel);
    } else if i < k {
        assert(m[i].rel != m[k].rel);
    }
}

/// How entries face each other, said of the trees.
pub proof fn lemma_faces(w: World, i: int)
    requires
        sound(w),
        0 <= i < w.x.s.len(),
    ensures
        w.src.contains_key(w.x.s[i].rel),
        is_new(w.x.s, w.x.d, i) <==> !alike(w, w.x.s[i].rel),
        place(w.x.s, w.x.d, i) matches Some(j) ==> 0 <= j < w.x.d.len() && w.x.d[j].rel == w.x.s[i].rel
            && w.dst.contains_key(w.x.s[i].rel),
        place(w.x.s, w.x.d, i) is None ==> !w.dst.contains_key(w.x.s[i].rel),
        is_follower(w.x.s, i) ==> w.x.s[i].kind == Kind::File,
{
    let (s, d) = (w.x.s, w.x.d);
    lemma_finds(d, w.dst, s[i].rel);
    assert(describes(s[i], w.src[s[i].rel]));
    if is_follower(s, i) {
        let l = leader(s, i)->0;
        assert(leads(s, l, i));
    }
}

/// A collected list of positions is increasing.
proof fn lemma_positions(n: int, rule: spec_fn(int) -> Option<int>, a: int, b: int)
    requires
        forall|i: int| 0 <= i < n ==> (#[trigger] rule(i) matches Some(v) ==> v == i),
        0 <= a < b < collect(n, rule).len(),
    ensures
        0 <= collect(n, rule)[a] < collect(n, rule)[b] < n,
{
    lemma_source_of(n, rule, a);
    lemma_source_of(n, rule, b);
    lemma_source_of_increasing(n, rule, a, b);
}

proof fn lemma_position(n: int, rule: spec_fn(int) -> Option<int>, a: int)
    requires
        forall|i: int| 0 <= i < n ==> (#[trigger] rule(i) matches Some(v) ==> v == i),
        0 <= a < collect(n, rule).len(),
    ensures
        0 <= collect(n, rule)[a] < n,
        rule(collect(n, rule)[a]) == Some(collect(n, rule)[a]),
{
    lemma_source_of(n, rule, a);
}

/// The files to bring, by position.
pub proof fn lemma_add_files(w: World)
    ensures
        forall|p: int|
            0 <= p < add_files(w.x.s, w.x.d).len() ==> {
                let i = #[trigger] add_files(w.x.s, w.x.d)[p];
                0 <= i < w.x.s.len() && w.x.s[i].kind == Kind::File && !is_follower(w.x.s, i) && is_new(
                    w.x.s,
                    w.x.d,
                    i,
                )
            },
        forall|p: int, q: int|
            0 <= p < q < add_files(w.x.s, w.x.d).len() ==> #[trigger] add_files(w.x.s, w.x.d)[p]
                < #[trigger] add_files(w.x.s, w.x.d)[q],
        forall|i: int|
            0 <= i < w.x.s.len() && (#[trigger] w.x.s[i]).kind == Kind::File && !is_follower(w.x.s, i) && is_new(
                w.x.s,
                w.x.d,
                i,
            ) ==> add_files(w.x.s, w.x.d).contains(i),
{
    let (s, d) = (w.x.s, w.x.d);
    let rule = crate::diff::add_file_rule(s, d);
    let n = s.len() as int;
    assert forall|p: int| 0 <= p < add_files(s, d).len() implies {
        let i = #[trigger] add_files(s, d)[p];
        0 <= i < s.len() && s[i].kind == Kind::File && !is_follower(s, i) && is_new(s, d, i)
    } by {
        lemma_position(n, rule, p);
    }
    assert forall|p: int, q: int| 0 <= p < q < add_files(s, d).len() implies #[trigger] add_files(s, d)[p]
        < #[trigger] add_files(s, d)[q] by {
        lemma_positions(n, rule, p, q);
    }
    assert forall|i: int|
        0 <= i < s.len() && (#[trigger] s[i]).kind == Kind::File && !is_follower(s, i) && is_new(s, d, i) implies add_files(
        s,
        d,
    ).contains(i) by {
        lemma_collect_contains(n, rule, i);
        assert(rule(i) == Some(i));
    }
}

/// The files to remove, by position: each destination file without a source file at its path,
/// once.
proof fn lemma_rm_files(w: World)
    requires
        sound(w),
    ensures
        forall|p: int|
            0 <= p < rm_files(w.x.s, w.x.d).len() ==> {
                let j = #[trigger] rm_files(w.x.s, w.x.d)[p];
                0 <= j < w.x.d.len() && w.x.d[j].kind == Kind::File && !alike(w, w.x.d[j].rel)
            },
        forall|p: int, q: int|
            0 <= p < q < rm_files(w.x.s, w.x.d).len() ==> #[trigger] rm_files(w.x.s, w.x.d)[p]
                != #[trigger] rm_files(w.x.s, w.x.d)[q],
        forall|j: int|
            0 <= j < w.x.d.len() && (#[trigger] w.x.d[j]).kind == Kind::File && !alike(w, w.x.d[j].rel)
                ==> rm_files(w.x.s, w.x.d).contains(j),
{
    let (s, d) = (w.x.s, w.x.d);
    let (n, m) = (s.len() as int, d.len() as int);
    let (cr, er) = (clash_file_rule(s, d), extra_file_rule(s, d));
    let (c, e) = (collect(n, cr), collect(m, er));
    let r = rm_files(s, d);
    assert forall|p: int| 0 <= p < c.len() implies {
        let i = source_of(n, cr, p);
        let j = #[trigger] c[p];
        &&& 0 <= i < n && place(s, d, i) == Some(j)
        &&& 0 <= j < m && d[j].kind == Kind::File && d[j].rel == s[i].rel && !alike(w, d[j].rel)
        &&& w.src.contains_key(d[j].rel)
    } by {
        lemma_source_of(n, cr, p);
        let i = source_of(n, cr, p);
        lemma_faces(w, i);
    }
    assert forall|p: int| 0 <= p < e.len() implies {
        let j = #[trigger] e[p];
        &&& 0 <= j < m && d[j].kind == Kind::File && !w.src.contains_key(d[j].rel)
        &&& source_of(m, er, p) == j
    } by {
        lemma_source_of(m, er, p);
        lemma_finds(s, w.src, d[e[p]].rel);
        lemma_last_at(rels(s), d[e[p]].rel);
    }
    assert forall|p: int| 0 <= p < r.len() implies {
        let j = #[trigger] r[p];
        0 <= j < d.len() && d[j].kind == Kind::File && !alike(w, d[j].rel)
    } by {
        if p < c.len() {
            assert(r[p] == c[p]);
        } else {
            assert(r[p] == e[p - c.len()]);
        }
    }
    assert forall|p: int, q: int| 0 <= p < q < r.len() implies #[trigger] r[p] != #[trigger] r[q] by {
        if q < c.len() {
            assert(r[p] == c[p] && r[q] == c[q]);
            lemma_source_of_increasing(n, cr, p, q);
            let (i, k) = (source_of(n, cr, p), source_of(n, cr, q));
            assert(s[i].rel != s[k].rel);
        } else if p >= c.len() {
            assert(r[p] == e[p - c.len()] && r[q] == e[q - c.len()]);
            lemma_source_of_increasing(m, er, p - c.len(), q - c.len());
        } else {
            assert(r[p] == c[p] && r[q] == e[q - c.len()]);
        }
    }
    assert forall|j: int|
        0 <= j < d.len() && (#[trigger] d[j]).kind == Kind::File && !alike(w, d[j].rel) implies r.contains(j) by {
        let p = d[j].rel;
        lemma_finds(s, w.src, p);
        if w.src.contains_key(p) {
            let i = last_at(rels(s), p)->0;
            lemma_faces(w, i);
            lemma_finds_entry(d, w.dst, j);
            assert(place(s, d, i) == Some(j));
            assert(describes(d[j], w.dst[p]));
            assert(describes(s[i], w.src[p]));
            assert(cr(i) == Some(j));
            lemma_collect_contains(n, cr, j);
            let k = choose|k: int| 0 <= k < c.len() && c[k] == j;
            assert(r[k] == j);
        } else {
            lemma_last_at(rels(s), p);
            assert(er(j) == Some(j));
            lemma_collect_contains(m, er, j);
            let k = choose|k: int| 0 <= k < e.len() && e[k] == j;
            assert(r[c.len() + k] == j);
        }
    }
}

/// The hashed candidates of the source: apart from each other, each with the digest taken of it.
proof fn lemma_add_hashed(w: World)
    ensures
        forall|k: int|
            0 <= k < add_hashed(w.x).len() ==> {
                let c = #[trigger] add_hashed(w.x)[k];
                0 <= c.0 < add_files(w.x.s, w.x.d).len() && w.x.src_hash[add_files(w.x.s, w.x.d)[c.0]]
                    == Some(HashV::Digest(c.1))
            },
        forall|k: int, l: int|
            0 <= k < l < add_hashed(w.x).len() ==> (#[trigger] add_hashed(w.x)[k]).0 != (
            #[trigger] add_hashed(w.x)[l]).0,
{
    let (s, d) = (w.x.s, w.x.d);
    let n = add_files(s, d).len() as int;
    let m = add_cands(s, d).len() as int;
    let (cr, hr) = (add_cand_rule(s, d), add_hash_rule(w.x));
    assert forall|k: int| 0 <= k < add_hashed(w.x).len() implies {
        let c = #[trigger] add_hashed(w.x)[k];
        0 <= c.0 < n && w.x.src_hash[add_files(s, d)[c.0]] == Some(HashV::Digest(c.1))
    } by {
        lemma_source_of(m, hr, k);
        lemma_position(n, cr, source_of(m, hr, k));
    }
    assert forall|k: int, l: int| 0 <= k < l < add_hashed(w.x).len() implies (#[trigger] add_hashed(w.x)[k]).0 != (
    #[trigger] add_hashed(w.x)[l]).0 by {
        lemma_source_of(m, hr, k);
        lemma_source_of(m, hr, l);
        lemma_source_of_increasing(m, hr, k, l);
        lemma_positions(n, cr, source_of(m, hr, k), source_of(m, hr, l));
    }
}

/// The hashed candidates of the destination, likewise.
proof fn lemma_rem_hashed(w: World)
    ensures
        forall|k: int|
            0 <= k < rem_hashed(w.x).len() ==> {
                let c = #[trigger] rem_hashed(w.x)[k];
                0 <= c.0 < rm_files(w.x.s, w.x.d).len() && w.x.dst_hash[rm_files(w.x.s, w.x.d)[c.0]]
                    == Some(HashV::Digest(c.1))
            },
        forall|k: int, l: int|
            0 <= k < l < rem_hashed(w.x).len() ==> (#[trigger] rem_hashed(w.x)[k]).0 != (
            #[trigger] rem_hashed(w.x)[l]).0,
{
    let (s, d) = (w.x.s, w.x.d);
    let n = rm_files(s, d).len() as int;
    let m = rem_cands(s, d).len() as int;
    let (cr, hr) = (rem_cand_rule(s, d), rem_hash_rule(w.x));
    assert forall|k: int| 0 <= k < rem_hashed(w.x).len() implies {
        let c = #[trigger] rem_hashed(w.x)[k];
        0 <= c.0 < n && w.x.dst_hash[rm_files(s, d)[c.0]] == Some(HashV::Digest(c.1))
    } by {
        lemma_source_of(m, hr, k);
        lemma_position(n, cr, source_of(m, hr, k));
    }
    assert forall|k: int, l: int| 0 <= k < l < rem_hashed(w.x).len() implies (#[trigger] rem_hashed(w.x)[k]).0 != (
    #[trigger] rem_hashed(w.x)[l]).0 by {
        lemma_source_of(m, hr, k);
        lemma_source_of(m, hr, l);
        lemma_source_of_increasing(m, hr, k, l);
        lemma_positions(n, cr, source_of(m, hr, k), source_of(m, hr, l));
    }
}

/// The entries that a match moves: source position and destination position.
pub open spec fn move_ends(x: DiffIn, k: int) -> (int, int) {
    (
        add_files(x.s, x.d)[add_hashed(x)[k].0],
        rm_files(x.s, x.d)[rem_hashed(x)[match_of(x, k)->0].0],
    )
}

/// A matched pair is a source file to bring and a destination file to remove of the same content.
proof fn lemma_match(w: World, k: int)
    requires
        sound(w),
        0 <= k < add_hashed(w.x).len(),
        match_of(w.x, k) is Some,
    ensures
        ({
            let (i, j) = move_ends(w.x, k);
            &&& 0 <= match_of(w.x, k)->0 < rem_hashed(w.x).len()
            &&& 0 <= i < w.x.s.len() && 0 <= j < w.x.d.len()
            &&& move_rule(w.x)(k) == Some(crate::diff::move_between(w.x.d[j], w.x.s[i]))
            &&& w.x.s[i].kind == Kind::File && !is_follower(w.x.s, i)
            &&& w.src.contains_key(w.x.s[i].rel) && w.dst.contains_key(w.x.d[j].rel)
            &&& !alike(w, w.x.s[i].rel) && !alike(w, w.x.d[j].rel)
            &&& w.src[w.x.s[i].rel] matches Node::File { content: a, .. } && w.dst[w.x.d[j].rel] matches Node::File {
                content: b,
                ..
            } && a == b
        }),
{
    let x = w.x;
    let (s, d) = (x.s, x.d);
    lemma_add_files(w);
    lemma_rm_files(w);
    lemma_add_hashed(w);
    lemma_rem_hashed(w);
    let q = match_of(x, k)->0;
    let (ac, rc) = (hash_column(add_hashed(x)), hash_column(rem_hashed(x)));
    assert(pairs_up(ac, rc, k, q));
    assert(ac[k] == add_hashed(x)[k].1 && rc[q] == rem_hashed(x)[q].1);
    let (i, j) = move_ends(x, k);
    assert(add_files(s, d)[add_hashed(x)[k].0] == i);
    assert(rm_files(s, d)[rem_hashed(x)[q].0] == j);
    lemma_faces(w, i);
    assert(describes(s[i], w.src[s[i].rel]));
    assert(describes(d[j], w.dst[d[j].rel]));
    assert(x.src_hash[i] == Some(HashV::Digest(ac[k])));
    assert(x.dst_hash[j] == Some(HashV::Digest(rc[q])));
    let (a, b) = (w.src[s[i].rel], w.dst[d[j].rel]);
    assert(a is File && b is File);
}

/// Different matches move different entries.
proof fn lemma_matches_apart(w: World, k: int, l: int)
    requires
        sound(w),
        0 <= k < l < add_hashed(w.x).len(),
        match_of(w.x, k) is Some,
        match_of(w.x, l) is Some,
    ensures
        move_ends(w.x, k).0 != move_ends(w.x, l).0,
        move_ends(w.x, k).1 != move_ends(w.x, l).1,
{
    let x = w.x;
    let (s, d) = (x.s, x.d);
    lemma_match(w, k);
    lemma_match(w, l);
    lemma_add_files(w);
    lemma_rm_files(w);
    lemma_add_hashed(w);
    lemma_rem_hashed(w);
    let (p, q) = (match_of(x, k)->0, match_of(x, l)->0);
    let (ac, rc) = (hash_column(add_hashed(x)), hash_column(rem_hashed(x)));
    if p == q {
        lemma_partner_injective(ac, rc, k, l);
    }
    let (a, b) = (add_hashed(x)[k].0, add_hashed(x)[l].0);
    assert(a != b);
    if a < b {
        assert(add_files(s, d)[a] < add_files(s, d)[b]);
    } else {
        assert(add_files(s, d)[b] < add_files(s, d)[a]);
    }
    let (f, g) = (rem_hashed(x)[p].0, rem_hashed(x)[q].0);
    if p < q {
        assert(f != g);
    } else {
        assert(g != f);
    }
    if f < g {
        assert(rm_files(s, d)[f] != rm_files(s, d)[g]);
    } else {
        assert(rm_files(s, d)[g] != rm_files(s, d)[f]);
    }
}

/// The match that the `u`-th unsorted move comes from.
pub open spec fn match_behind(x: DiffIn, u: int) -> int {
    source_of(add_hashed(x).len() as int, move_rule(x), u)
}

/// Every unsorted move comes from a match.
proof fn lemma_move_source(w: World, u: int)
    requires
        0 <= u < moved_list(w.x).len(),
    ensures
        0 <= match_behind(w.x, u) < add_hashed(w.x).len(),
        match_of(w.x, match_behind(w.x, u)) is Some,
        move_rule(w.x)(match_behind(w.x, u)) == Some(moved_list(w.x)[u]),
{
    lemma_source_of(add_hashed(w.x).len() as int, move_rule(w.x), u);
}

/// Every match is a move.
proof fn lemma_match_moves(w: World, k: int)
    requires
        sound(w),
        0 <= k < add_hashed(w.x).len(),
        match_of(w.x, k) is Some,
    ensures
        moved_list(w.x).contains(
            crate::diff::move_between(w.x.d[move_ends(w.x, k).1], w.x.s[move_ends(w.x, k).0]),
        ),
{
    let x = w.x;
    let n = add_hashed(x).len() as int;
    lemma_match(w, k);
    let mv = crate::diff::move_between(x.d[move_ends(x, k).1], x.s[move_ends(x, k).0]);
    lemma_collect_contains(n, move_rule(x), mv);
    assert(move_rule(x)(k) == Some(mv));
}

/// The moves fit the trees.
pub proof fn lemma_moves_fit(w: World)
    requires
        sound(w),
    ensures
        moves_fit(w, classified(w.x).moved),
{
    let x = w.x;
    let u = moved_list(x);
    let m = classified(x).moved;
    let n = add_hashed(x).len() as int;
    lemma_by_path_strict();
    lemma_order(move_targets(u), by_path());
    let o = order(move_targets(u), by_path());
    lemma_order_in_range(o, u.len() as int);
    assert forall|k: int| 0 <= k < m.len() implies {
        let mv = #[trigger] m[k];
        &&& w.src.contains_key(mv.to) && w.dst.contains_key(mv.from)
        &&& !alike(w, mv.to) && !alike(w, mv.from)
        &&& w.src[mv.to] matches Node::File { content: a, .. } && w.dst[mv.from] matches Node::File {
            content: b,
            ..
        } && a == b
    } by {
        assert(m[k] == u[o[k]]);
        lemma_move_source(w, o[k]);
        lemma_match(w, match_behind(x, o[k]));
    }
    assert forall|k: int, l: int| 0 <= k < l < m.len() implies (#[trigger] m[k]).from != (#[trigger] m[l]).from
        && m[k].to != m[l].to by {
        assert(m[k] == u[o[k]] && m[l] == u[o[l]]);
        assert(o[k] != o[l]);
        let (a, b) = if o[k] < o[l] {
            (o[k], o[l])
        } else {
            (o[l], o[k])
        };
        lemma_source_of_increasing(n, move_rule(x), a, b);
        let (ka, kb) = (match_behind(x, a), match_behind(x, b));
        lemma_move_source(w, a);
        lemma_move_source(w, b);
        lemma_match(w, ka);
        lemma_match(w, kb);
        lemma_matches_apart(w, ka, kb);
        let ((ia, ja), (ib, jb)) = (move_ends(x, ka), move_ends(x, kb));
        assert(x.s[ia].rel != x.s[ib].rel) by {
            if ia < ib {
                assert(x.s[ia].rel != x.s[ib].rel);
            } else {
                assert(x.s[ib].rel != x.s[ia].rel);
            }
        }
        assert(x.d[ja].rel != x.d[jb].rel) by {
            if ja < jb {
                assert(x.d[ja].rel != x.d[jb].rel);
            } else {
                assert(x.d[jb].rel != x.d[ja].rel);
            }
        }
    }
}

/// A file to bring that a match brings is the target of a move.
proof fn lemma_comes(w: World, p: int)
    requires
        sound(w),
        0 <= p < add_files(w.x.s, w.x.d).len(),
        comes_by_move(w.x, p),
    ensures
        move_targets(moved_list(w.x)).contains(w.x.s[add_files(w.x.s, w.x.d)[p]].rel),
        move_targets(classified(w.x).moved).contains(w.x.s[add_files(w.x.s, w.x.d)[p]].rel),
{
    let x = w.x;
    let k = choose|k: int|
        0 <= k < add_hashed(x).len() && (#[trigger] add_hashed(x)[k]).0 == p && match_of(x, k) is Some;
    lemma_match_moves(w, k);
    let mv = crate::diff::move_between(x.d[move_ends(x, k).1], x.s[move_ends(x, k).0]);
    lemma_sorted_move(moved_list(x), mv);
    let u = moved_list(x);
    let m = classified(x).moved;
    let a = choose|a: int| 0 <= a < u.len() && u[a] == mv;
    assert(move_targets(u)[a] == mv.to);
    let b = choose|b: int| 0 <= b < m.len() && m[b] == mv;
    assert(move_targets(m)[b] == mv.to);
}

/// The `p`-th file to remove is where a move starts exactly when a match takes it away.
proof fn lemma_goes(w: World, p: int)
    requires
        sound(w),
        0 <= p < rm_files(w.x.s, w.x.d).len(),
    ensures
        goes_by_move(w.x, p) <==> froms(classified(w.x).moved).contains(
            w.x.d[rm_files(w.x.s, w.x.d)[p]].rel,
        ),
{
    let x = w.x;
    let (s, d) = (x.s, x.d);
    let r = rm_files(s, d);
    let from = d[r[p]].rel;
    let m = classified(x).moved;
    lemma_rm_files(w);
    lemma_rem_hashed(w);
    if goes_by_move(x, p) {
        let k = choose|k: int|
            0 <= k < add_hashed(x).len() && (#[trigger] match_of(x, k) matches Some(q) && rem_hashed(x)[q].0 == p);
        lemma_match_moves(w, k);
        let mv = crate::diff::move_between(d[move_ends(x, k).1], s[move_ends(x, k).0]);
        lemma_sorted_move(moved_list(x), mv);
        let b = choose|b: int| 0 <= b < m.len() && m[b] == mv;
        assert(froms(m)[b] == mv.from);
    }
    if froms(m).contains(from) {
        let b = choose|b: int| 0 <= b < froms(m).len() && froms(m)[b] == from;
        let mv = m[b];
        assert(m.contains(mv));
        lemma_sorted_move(moved_list(x), mv);
        let u = choose|u: int| 0 <= u < moved_list(x).len() && moved_list(x)[u] == mv;
        let k = match_behind(x, u);
        lemma_move_source(w, u);
        lemma_match(w, k);
        let j = move_ends(x, k).1;
        assert(d[j].rel == from);
        if j < r[p] {
            assert(d[j].rel != d[r[p]].rel);
        } else if r[p] < j {
            assert(d[r[p]].rel != d[j].rel);
        }
        let q = match_of(x, k)->0;
        let f = rem_hashed(x)[q].0;
        assert(r[f] == j);
        if f < p {
            assert(r[f] != r[p]);
        } else if p < f {
            assert(r[p] != r[f]);
        }
        assert(goes_by_move(x, p)) by {
            assert(match_of(x, k) matches Some(q) && rem_hashed(x)[q].0 == p);
        }
    }
}

/// What is removed: each destination entry without a source entry of its kind, but for the files
/// that move away.
pub proof fn lemma_removed(w: World, p: PathV)
    requires
        sound(w),
    ensures
        change_paths(classified(w.x).removed).contains(p) <==> w.dst.contains_key(p) && !alike(w, p)
            && !froms(classified(w.x).moved).contains(p),
{
    let x = w.x;
    let (s, d) = (x.s, x.d);
    let m = classified(x).moved;
    let (a, b, c) = (
        collect(s.len() as int, crate::diff::clash_rule(x)),
        collect(d.len() as int, crate::diff::extra_rule(x)),
        collect(rm_files(s, d).len() as int, crate::diff::kept_rem_rule(x)),
    );
    let all = removed_list(x);
    lemma_sorted_change_paths(all, p);
    lemma_moves_fit(w);
    lemma_rm_files(w);
    if change_paths(all).contains(p) {
        let k = choose|k: int| 0 <= k < all.len() && change_paths(all)[k] == p;
        let e = all[k];
        if k < a.len() {
            assert(a[k] == e);
            lemma_source_of(s.len() as int, crate::diff::clash_rule(x), k);
            let i = source_of(s.len() as int, crate::diff::clash_rule(x), k);
            lemma_faces(w, i);
            let j = place(s, d, i)->0;
            assert(describes(d[j], w.dst[d[j].rel]));
            assert(w.dst[p] !is File);
        } else if k < a.len() + b.len() {
            assert(b[k - a.len()] == e);
            lemma_source_of(d.len() as int, crate::diff::extra_rule(x), k - a.len());
            let j = source_of(d.len() as int, crate::diff::extra_rule(x), k - a.len());
            assert(describes(d[j], w.dst[d[j].rel]));
            lemma_finds(s, w.src, p);
            lemma_last_at(rels(s), p);
            assert(w.dst[p] !is File);
        } else {
            let q = k - a.len() - b.len();
            assert(c[q] == e);
            lemma_source_of(rm_files(s, d).len() as int, crate::diff::kept_rem_rule(x), q);
            let f = source_of(rm_files(s, d).len() as int, crate::diff::kept_rem_rule(x), q);
            assert(0 <= rm_files(s, d)[f] < d.len());
            lemma_goes(w, f);
        }
        if froms(m).contains(p) {
            let t = choose|t: int| 0 <= t < froms(m).len() && froms(m)[t] == p;
            assert(m[t].from == p);
            assert(w.dst[m[t].from] is File);
        }
    }
    if w.dst.contains_key(p) && !alike(w, p) && !froms(m).contains(p) {
        lemma_finds(d, w.dst, p);
        let j = last_at(rels(d), p)->0;
        assert(describes(d[j], w.dst[p]));
        if d[j].kind == Kind::File {
            assert(rm_files(s, d).contains(j));
            let f = choose|f: int| 0 <= f < rm_files(s, d).len() && rm_files(s, d)[f] == j;
            lemma_goes(w, f);
            let e = crate::diff::change_of(d[j]);
            assert(crate::diff::kept_rem_rule(x)(f) == Some(e));
            lemma_collect_contains(rm_files(s, d).len() as int, crate::diff::kept_rem_rule(x), e);
            let q = choose|q: int| 0 <= q < c.len() && c[q] == e;
            assert(all[a.len() + b.len() + q] == e);
            assert(change_paths(all)[a.len() + b.len() + q] == p);
        } else {
            let e = crate::diff::change_of(d[j]);
            lemma_finds(s, w.src, p);
            if w.src.contains_key(p) {
                let i = last_at(rels(s), p)->0;
                lemma_faces(w, i);
                lemma_finds_entry(d, w.dst, j);
                assert(describes(s[i], w.src[p]));
                assert(crate::diff::clash_rule(x)(i) == Some(e));
                lemma_collect_contains(s.len() as int, crate::diff::clash_rule(x), e);
                let q = choose|q: int| 0 <= q < a.len() && a[q] == e;
                assert(all[q] == e);
                assert(change_paths(all)[q] == p);
            } else {
                lemma_last_at(rels(s), p);
                assert(crate::diff::extra_rule(x)(j) == Some(e));
                lemma_collect_contains(d.len() as int, crate::diff::extra_rule(x), e);
                let q = choose|q: int| 0 <= q < b.len() && b[q] == e;
                assert(all[a.len() + q] == e);
                assert(change_paths(all)[a.len() + q] == p);
            }
        }
    }
}

/// An added entry stands in the source, and the destination has none of its kind there.
pub proof fn lemma_added_entry(w: World, e: ChangeV)
    requires
        sound(w),
        added_list(w.x).contains(e),
    ensures
        w.src.contains_key(e.rel),
        kind_of(w.src[e.rel]) == e.kind,
        !alike(w, e.rel),
{
    let x = w.x;
    let (s, d) = (x.s, x.d);
    let all = added_list(x);
    let a = collect(s.len() as int, crate::diff::plain_add_rule(x));
    let b = collect(add_files(s, d).len() as int, crate::diff::kept_add_rule(x));
    let k = choose|k: int| 0 <= k < all.len() && all[k] == e;
    lemma_add_files(w);
    if k < a.len() {
        assert(a[k] == e);
        lemma_source_of(s.len() as int, crate::diff::plain_add_rule(x), k);
        let i = source_of(s.len() as int, crate::diff::plain_add_rule(x), k);
        lemma_faces(w, i);
        assert(describes(s[i], w.src[s[i].rel]));
    } else {
        assert(b[k - a.len()] == e);
        lemma_source_of(add_files(s, d).len() as int, crate::diff::kept_add_rule(x), k - a.len());
        let f = source_of(add_files(s, d).len() as int, crate::diff::kept_add_rule(x), k - a.len());
        let i = add_files(s, d)[f];
        lemma_faces(w, i);
        assert(describes(s[i], w.src[s[i].rel]));
    }
}

/// An added file is one of the files to bring, and no match brings it.
proof fn lemma_added_file(w: World, p: PathV) -> (f: int)
    requires
        sound(w),
        has_change(classified(w.x).added, p, Kind::File),
    ensures
        0 <= f < add_files(w.x.s, w.x.d).len(),
        w.x.s[add_files(w.x.s, w.x.d)[f]].rel == p,
        !comes_by_move(w.x, f),
{
    let x = w.x;
    let (s, d) = (x.s, x.d);
    let dv = classified(x);
    let at = choose|k: int|
        0 <= k < dv.added.len() && (#[trigger] dv.added[k]).rel == p && dv.added[k].kind == Kind::File;
    let e = dv.added[at];
    let all = added_list(x);
    let a = collect(s.len() as int, crate::diff::plain_add_rule(x));
    let b = collect(add_files(s, d).len() as int, crate::diff::kept_add_rule(x));
    lemma_sorted_change(all, e);
    let k = choose|k: int| 0 <= k < all.len() && all[k] == e;
    if k < a.len() {
        assert(a[k] == e);
        lemma_source_of(s.len() as int, crate::diff::plain_add_rule(x), k);
    }
    assert(b[k - a.len()] == e);
    lemma_source_of(add_files(s, d).len() as int, crate::diff::kept_add_rule(x), k - a.len());
    source_of(add_files(s, d).len() as int, crate::diff::kept_add_rule(x), k - a.len())
}

/// A removed file is one of the files to remove, and no match takes it away.
proof fn lemma_removed_file(w: World, q: PathV) -> (g: int)
    requires
        sound(w),
        has_change(classified(w.x).removed, q, Kind::File),
    ensures
        0 <= g < rm_files(w.x.s, w.x.d).len(),
        w.x.d[rm_files(w.x.s, w.x.d)[g]].rel == q,
        !goes_by_move(w.x, g),
{
    let x = w.x;
    let (s, d) = (x.s, x.d);
    let dv = classified(x);
    let at = choose|k: int|
        0 <= k < dv.removed.len() && (#[trigger] dv.removed[k]).rel == q && dv.removed[k].kind == Kind::File;
    let e = dv.removed[at];
    let all = removed_list(x);
    let a = collect(s.len() as int, crate::diff::clash_rule(x));
    let b = collect(d.len() as int, crate::diff::extra_rule(x));
    let c = collect(rm_files(s, d).len() as int, crate::diff::kept_rem_rule(x));
    lemma_sorted_change(all, e);
    let k = choose|k: int| 0 <= k < all.len() && all[k] == e;
    if k < a.len() {
        assert(a[k] == e);
        lemma_source_of(s.len() as int, crate::diff::clash_rule(x), k);
    } else if k < a.len() + b.len() {
        assert(b[k - a.len()] == e);
        lemma_source_of(d.len() as int, crate::diff::extra_rule(x), k - a.len());
    }
    let t = k - a.len() - b.len();
    assert(c[t] == e);
    lemma_source_of(rm_files(s, d).len() as int, crate::diff::kept_rem_rule(x), t);
    source_of(rm_files(s, d).len() as int, crate::diff::kept_rem_rule(x), t)
}

/// A position that the rule keeps stands in the list of those kept.
proof fn lemma_candidate(n: int, rule: spec_fn(int) -> Option<int>, f: int) -> (c: int)
    requires
        0 <= f < n,
        rule(f) == Some(f),
    ensures
        0 <= c < collect(n, rule).len(),
        collect(n, rule)[c] == f,
{
    lemma_collect_contains(n, rule, f);
    choose|c: int| 0 <= c < collect(n, rule).len() && collect(n, rule)[c] == f
}

/// A new source entry that is not a file is added.
proof fn lemma_adds_plain(w: World, i: int)
    requires
        sound(w),
        0 <= i < w.x.s.len(),
        w.x.s[i].kind != Kind::File,
        is_new(w.x.s, w.x.d, i),
    ensures
        added_list(w.x).contains(crate::diff::change_of(w.x.s[i])),
{
    let x = w.x;
    let n = x.s.len() as int;
    let e = crate::diff::change_of(x.s[i]);
    lemma_faces(w, i);
    assert(crate::diff::plain_add_rule(x)(i) == Some(e));
    lemma_collect_contains(n, crate::diff::plain_add_rule(x), e);
    let a = collect(n, crate::diff::plain_add_rule(x));
    let k = choose|k: int| 0 <= k < a.len() && a[k] == e;
    assert(added_list(x)[k] == e);
}

/// An added entry other than a directory is copied.
proof fn lemma_added_is_copied(w: World, e: ChangeV)
    requires
        added_list(w.x).contains(e),
        e.kind != Kind::Dir,
    ensures
        copies(classified(w.x)).contains(e.rel),
{
    let d = classified(w.x);
    lemma_sorted_change(added_list(w.x), e);
    let k = choose|k: int| 0 <= k < d.added.len() && d.added[k] == e;
    assert(d.added[k].rel == e.rel && d.added[k].kind != Kind::Dir);
    lemma_builds(d, e.rel);
}

/// A changed entry is copied.
proof fn lemma_changed_is_copied(w: World, i: int)
    requires
        0 <= i < w.x.s.len(),
        comparison(w.x, i) matches Some(c) && c.verdict == Verdict::Changed,
    ensures
        change_paths(changed_list(w.x)).contains(w.x.s[i].rel),
        copies(classified(w.x)).contains(w.x.s[i].rel),
{
    let x = w.x;
    let n = x.s.len() as int;
    let rule = crate::diff::verdict_rule(x, Verdict::Changed);
    let e = crate::diff::change_of(x.s[i]);
    assert(rule(i) == Some(e));
    lemma_collect_contains(n, rule, e);
    let c = changed_list(x);
    let k = choose|k: int| 0 <= k < c.len() && c[k] == e;
    assert(change_paths(c)[k] == e.rel);
    lemma_sorted_change_paths(c, e.rel);
    lemma_builds(classified(x), e.rel);
}

/// What is copied stands in the source and is no directory.
proof fn lemma_copied(w: World, p: PathV)
    requires
        sound(w),
        copies(classified(w.x)).contains(p),
    ensures
        w.src.contains_key(p),
        w.src[p] !is Dir,
{
    let x = w.x;
    let d = classified(x);
    lemma_builds(d, p);
    if change_paths(d.changed).contains(p) {
        lemma_sorted_change_paths(changed_list(x), p);
        let c = changed_list(x);
        let k = choose|k: int| 0 <= k < c.len() && change_paths(c)[k] == p;
        let rule = crate::diff::verdict_rule(x, Verdict::Changed);
        lemma_source_of(x.s.len() as int, rule, k);
        let i = source_of(x.s.len() as int, rule, k);
        lemma_faces(w, i);
        assert(describes(x.s[i], w.src[x.s[i].rel]));
    } else {
        let k = choose|k: int|
            0 <= k < d.added.len() && (#[trigger] d.added[k]).rel == p && d.added[k].kind != Kind::Dir;
        let e = d.added[k];
        assert(d.added.contains(e));
        lemma_sorted_change(added_list(x), e);
        lemma_added_entry(w, e);
    }
}

/// The directories created are those of the source that the destination lacks.
proof fn lemma_new_dirs(w: World, p: PathV)
    requires
        sound(w),
    ensures
        new_dirs(classified(w.x)).contains(p) <==> w.src.contains_key(p) && w.src[p] is Dir && !alike(w, p),
{
    let x = w.x;
    let d = classified(x);
    lemma_builds(d, p);
    if has_change(d.added, p, Kind::Dir) {
        let k = choose|k: int| 0 <= k < d.added.len() && (#[trigger] d.added[k]).rel == p && d.added[k].kind == Kind::Dir;
        let e = d.added[k];
        assert(d.added.contains(e));
        lemma_sorted_change(added_list(x), e);
        lemma_added_entry(w, e);
    }
    if w.src.contains_key(p) && w.src[p] is Dir && !alike(w, p) {
        lemma_finds(x.s, w.src, p);
        let i = last_at(rels(x.s), p)->0;
        assert(describes(x.s[i], w.src[p]));
        lemma_faces(w, i);
        lemma_adds_plain(w, i);
        let e = crate::diff::change_of(x.s[i]);
        lemma_sorted_change(added_list(x), e);
        let k = choose|k: int| 0 <= k < d.added.len() && d.added[k] == e;
        assert(d.added[k].rel == p);
    }
}

/// Contents that hash alike are alike.
proof fn lemma_same_digest(w: World, i: int, j: int, h: Seq<u8>)
    requires
        sound(w),
        0 <= i < w.x.s.len(),
        0 <= j < w.x.d.len(),
        w.x.s[i].kind == Kind::File,
        w.x.d[j].kind == Kind::File,
        w.x.src_hash[i] == Some(HashV::Digest(h)),
        w.x.dst_hash[j] == Some(HashV::Digest(h)),
    ensures
        w.src[w.x.s[i].rel] matches Node::File { content: a, .. } && w.dst[w.x.d[j].rel] matches Node::File {
            content: b,
            ..
        } && a == b,
{
    assert(describes(w.x.s[i], w.src[w.x.s[i].rel]));
    assert(describes(w.x.d[j], w.dst[w.x.d[j].rel]));
    assert(w.src[w.x.s[i].rel] is File);
    assert(w.dst[w.x.d[j].rel] is File);
}

/// What comparing two files says of them.
proof fn lemma_file_comparison(w: World, i: int)
    requires
        sound(w),
        0 <= i < w.x.s.len(),
        w.x.s[i].kind == Kind::File,
        comparison(w.x, i) is Some,
    ensures
        alike(w, w.x.s[i].rel),
        comparison(w.x, i)->0.verdict == Verdict::Touched ==> (w.src[w.x.s[i].rel] matches Node::File {
            content: a,
            ..
        } && w.dst[w.x.s[i].rel] matches Node::File { content: b, .. } && a == b),
        comparison(w.x, i)->0.verdict == Verdict::Unchanged ==> reproduces(
            w,
            w.src[w.x.s[i].rel],
            w.dst[w.x.s[i].rel],
        ) && on_time(w.src[w.x.s[i].rel], w.dst[w.x.s[i].rel]),
{
    let x = w.x;
    lemma_faces(w, i);
    let j = counterpart(x.s, x.d, i)->0;
    let (se, de) = (x.s[i], x.d[j]);
    assert(describes(se, w.src[se.rel]));
    assert(describes(de, w.dst[de.rel]));
    let c = comparison(x, i)->0;
    if c.verdict != Verdict::Changed {
        if by_content(se, de, x.eager) {
            match (x.src_hash[i], x.dst_hash[j]) {
                (Some(HashV::Digest(a)), Some(HashV::Digest(b))) => {
                    assert(a == b);
                    lemma_same_digest(w, i, j, a);
                },
                _ => {},
            }
        } else {
            assert(agreed(w, se.rel, w.src[se.rel], w.dst[se.rel]->content));
        }
    }
}

/// What is touched is a file of the same content on both sides.
pub proof fn lemma_touched(w: World, p: PathV)
    requires
        sound(w),
        change_paths(classified(w.x).touched).contains(p),
    ensures
        alike(w, p),
        w.src[p] matches Node::File { content: a, .. } && w.dst[p] matches Node::File { content: b, .. } && a
            == b,
{
    let x = w.x;
    let c = touched_list(x);
    lemma_sorted_change_paths(c, p);
    let k = choose|k: int| 0 <= k < c.len() && change_paths(c)[k] == p;
    let rule = crate::diff::verdict_rule(x, Verdict::Touched);
    lemma_source_of(x.s.len() as int, rule, k);
    let i = source_of(x.s.len() as int, rule, k);
    assert(x.s[i].rel == p);
    assert(x.s[i].kind == Kind::File);
    lemma_file_comparison(w, i);
}

/// A source file that is a first name: moved, copied, refreshed, or already there.
pub proof fn lemma_first_name(w: World, i: int)
    requires
        sound(w),
        0 <= i < w.x.s.len(),
        w.x.s[i].kind == Kind::File,
        !is_follower(w.x.s, i),
    ensures
        file_fate(w, classified(w.x), w.x.s[i].rel),
        !written_anew(w.x).contains(w.x.s[i].rel) ==> alike(w, w.x.s[i].rel) && reproduces(
            w,
            w.src[w.x.s[i].rel],
            w.dst[w.x.s[i].rel],
        ),
{
    let x = w.x;
    let (s, d) = (x.s, x.d);
    let p = s[i].rel;
    let anew = written_anew(x);
    let (ap, cp, mp) = (
        change_paths(added_list(x)),
        change_paths(changed_list(x)),
        move_targets(moved_list(x)),
    );
    lemma_faces(w, i);
    lemma_add_files(w);
    assert(describes(s[i], w.src[p]));
    if is_new(s, d, i) {
        assert(s[i].kind == Kind::File);
        assert(add_files(s, d).contains(i));
        let f = choose|f: int| 0 <= f < add_files(s, d).len() && add_files(s, d)[f] == i;
        if comes_by_move(x, f) {
            lemma_comes(w, f);
            let k = choose|k: int| 0 <= k < mp.len() && mp[k] == p;
            assert(anew[ap.len() + cp.len() + k] == p);
        } else {
            let e = crate::diff::change_of(s[i]);
            assert(crate::diff::kept_add_rule(x)(f) == Some(e));
            lemma_collect_contains(add_files(s, d).len() as int, crate::diff::kept_add_rule(x), e);
            let b = collect(add_files(s, d).len() as int, crate::diff::kept_add_rule(x));
            let a = collect(s.len() as int, crate::diff::plain_add_rule(x));
            let k = choose|k: int| 0 <= k < b.len() && b[k] == e;
            assert(added_list(x)[a.len() + k] == e);
            lemma_added_is_copied(w, e);
            assert(ap[a.len() + k] == p);
            assert(anew[a.len() + k] == p);
        }
    } else {
        assert(comparison(x, i) is Some);
        lemma_file_comparison(w, i);
        match comparison(x, i)->0.verdict {
            Verdict::Changed => {
                lemma_changed_is_copied(w, i);
                let k = choose|k: int| 0 <= k < cp.len() && cp[k] == p;
                assert(anew[ap.len() + k] == p);
            },
            Verdict::Touched => {
                let rule = crate::diff::verdict_rule(x, Verdict::Touched);
                let e = crate::diff::change_of(s[i]);
                assert(rule(i) == Some(e));
                lemma_collect_contains(s.len() as int, rule, e);
                let c = touched_list(x);
                let k = choose|k: int| 0 <= k < c.len() && c[k] == e;
                assert(change_paths(c)[k] == p);
                lemma_sorted_change_paths(c, p);
            },
            Verdict::Unchanged => {},
        }
    }
}

/// A later name has a first name that is none.
pub proof fn lemma_leader_leads(s: Seq<EntryV>, i: int)
    requires
        is_follower(s, i),
    ensures
        ({
            let l = leader(s, i)->0;
            &&& 0 <= l < i && same_inode(s[l], s[i]) && !is_follower(s, l)
        }),
{
    let l = leader(s, i)->0;
    assert(leads(s, l, i));
    if is_follower(s, l) {
        let k = leader(s, l)->0;
        assert(leads(s, k, l));
        assert(!same_inode(s[k], s[i]));
    }
}

/// The link that brings entry `i`, where one does.
pub proof fn lemma_link(w: World, e: LinkV) -> (i: int)
    requires
        sound(w),
        link_list(w.x).contains(e),
    ensures
        0 <= i < w.x.s.len(),
        is_follower(w.x.s, i),
        e.name == w.x.s[i].rel,
        e.leader == w.x.s[leader(w.x.s, i)->0].rel,
{
    let n = w.x.s.len() as int;
    lemma_collect_contains(n, crate::diff::link_rule(w.x), e);
    choose|i: int| 0 <= i < n && #[trigger] crate::diff::link_rule(w.x)(i) == Some(e)
}

/// The links fit the trees.
pub proof fn lemma_links_fit(w: World, k: int)
    requires
        sound(w),
        0 <= k < classified(w.x).to_link.len(),
    ensures
        ({
            let l = classified(w.x).to_link[k];
            &&& w.src.contains_key(l.name) && w.src.contains_key(l.leader)
            &&& w.src[l.name] is File && w.src[l.name] == w.src[l.leader]
            &&& !names(classified(w.x).to_link).contains(l.leader)
            &&& file_fate(w, classified(w.x), l.leader)
        }),
{
    let x = w.x;
    let s = x.s;
    let ls = classified(x).to_link;
    let e = ls[k];
    assert(ls.contains(e));
    lemma_sorted_link(link_list(x), e);
    let i = lemma_link(w, e);
    lemma_leader_leads(s, i);
    let l = leader(s, i)->0;
    lemma_faces(w, i);
    lemma_faces(w, l);
    assert(describes(s[i], w.src[s[i].rel]));
    assert(same_inode(s[l], s[i]));
    lemma_first_name(w, l);
    if names(ls).contains(e.leader) {
        let q = choose|q: int| 0 <= q < names(ls).len() && names(ls)[q] == e.leader;
        let f = ls[q];
        assert(ls.contains(f));
        lemma_sorted_link(link_list(x), f);
        let g = lemma_link(w, f);
        assert(s[g].rel == s[l].rel);
        if g < l {
            assert(s[g].rel != s[l].rel);
        } else if l < g {
            assert(s[l].rel != s[g].rel);
        }
    }
}

/// No name is linked twice.
pub proof fn lemma_links_apart(w: World, k: int, l: int)
    requires
        sound(w),
        0 <= k < l < classified(w.x).to_link.len(),
    ensures
        classified(w.x).to_link[k].name != classified(w.x).to_link[l].name,
{
    let x = w.x;
    let s = x.s;
    let u = link_list(x);
    let rule = crate::diff::link_rule(x);
    let n = s.len() as int;
    lemma_by_path_strict();
    let keys = crate::diff::link_names(u);
    lemma_order(keys, by_path());
    let o = order(keys, by_path());
    lemma_order_in_range(o, u.len() as int);
    assert(o[k] != o[l]);
    let (a, b) = if o[k] < o[l] {
        (o[k], o[l])
    } else {
        (o[l], o[k])
    };
    lemma_source_of(n, rule, a);
    lemma_source_of(n, rule, b);
    lemma_source_of_increasing(n, rule, a, b);
    let (i, j) = (source_of(n, rule, a), source_of(n, rule, b));
    assert(s[i].rel != s[j].rel);
    assert(u[a].name == s[i].rel && u[b].name == s[j].rel);
    assert(classified(x).to_link[k] == u[o[k]] && classified(x).to_link[l] == u[o[l]]);
}

/// What becomes of each source entry.
proof fn lemma_outcome(w: World, p: PathV)
    requires
        sound(w),
        w.src.contains_key(p),
    ensures
        match w.src[p] {
            Node::Dir => true,
            Node::Special => copies(classified(w.x)).contains(p) || alike(w, p),
            Node::Link(_) => copies(classified(w.x)).contains(p) || (alike(w, p) && Some(w.dst[p]) == image(
                w,
                p,
            )),
            Node::File { .. } => names(classified(w.x).to_link).contains(p) || file_fate(
                w,
                classified(w.x),
                p,
            ) || already_there(w, p),
        },
{
    let x = w.x;
    let (s, d) = (x.s, x.d);
    let dv = classified(x);
    lemma_finds(s, w.src, p);
    let i = last_at(rels(s), p)->0;
    assert(describes(s[i], w.src[p]));
    lemma_faces(w, i);
    match w.src[p] {
        Node::Dir => {},
        Node::Special => {
            if is_new(s, d, i) {
                lemma_adds_plain(w, i);
                lemma_added_is_copied(w, crate::diff::change_of(s[i]));
            }
        },
        Node::Link(raw) => {
            if is_new(s, d, i) {
                lemma_adds_plain(w, i);
                lemma_added_is_copied(w, crate::diff::change_of(s[i]));
            } else {
                let j = counterpart(s, d, i)->0;
                assert(describes(d[j], w.dst[p]));
                match comparison(x, i)->0.verdict {
                    Verdict::Changed => {
                        lemma_changed_is_copied(w, i);
                    },
                    _ => {
                        assert(w.dst[p] is Link);
                        assert(d[j].link_target == Some(w.dst[p]->Link_0));
                    },
                }
            }
        },
        Node::File { content, mtime } => {
            if is_follower(s, i) {
                lemma_leader_leads(s, i);
                let l = leader(s, i)->0;
                if well_linked(x, i, l) {
                    lemma_first_name(w, l);
                    lemma_faces(w, l);
                    let (a, b) = (place(s, d, i)->0, place(s, d, l)->0);
                    assert(describes(d[a], w.dst[d[a].rel]));
                    assert(describes(d[b], w.dst[d[b].rel]));
                    assert(same_inode(d[a], d[b]));
                    assert(same_inode(s[l], s[i]));
                    assert(w.dst[p] == w.dst[s[l].rel]);
                    assert(w.src[p] == w.src[s[l].rel]);
                } else {
                    let e = crate::diff::link_between(s[l], s[i]);
                    assert(crate::diff::link_rule(x)(i) == Some(e));
                    lemma_collect_contains(s.len() as int, crate::diff::link_rule(x), e);
                    lemma_sorted_link(link_list(x), e);
                    let k = choose|k: int| 0 <= k < dv.to_link.len() && dv.to_link[k] == e;
                    assert(names(dv.to_link)[k] == p);
                }
            } else {
                lemma_first_name(w, i);
            }
        },
    }
}

/// A difference tells the truth about the two trees.
pub proof fn lemma_tells(w: World)
    requires
        sound(w),
    ensures
        tells(w, classified(w.x)),
{
    let d = classified(w.x);
    lemma_moves_fit(w);
    assert forall|p: PathV| #[trigger] change_paths(d.removed).contains(p) <==> w.dst.contains_key(p) && !alike(
        w,
        p,
    ) && !froms(d.moved).contains(p) by {
        lemma_removed(w, p);
    }
    assert forall|p: PathV| #[trigger] new_dirs(d).contains(p) <==> w.src.contains_key(p) && w.src[p] is Dir
        && !alike(w, p) by {
        lemma_new_dirs(w, p);
    }
    assert forall|p: PathV| #[trigger] copies(d).contains(p) implies w.src.contains_key(p) && w.src[p] !is Dir by {
        lemma_copied(w, p);
    }
    assert forall|p: PathV| #[trigger] change_paths(d.touched).contains(p) implies alike(w, p) && (
    w.src[p] matches Node::File { content: a, .. } && w.dst[p] matches Node::File { content: b, .. } && a == b) by {
        lemma_touched(w, p);
    }
    assert forall|k: int| 0 <= k < d.to_link.len() implies {
        let l = #[trigger] d.to_link[k];
        &&& w.src.contains_key(l.name) && w.src.contains_key(l.leader)
        &&& w.src[l.name] is File && w.src[l.name] == w.src[l.leader]
        &&& !names(d.to_link).contains(l.leader)
        &&& file_fate(w, d, l.leader)
    } by {
        lemma_links_fit(w, k);
    }
    assert forall|k: int, l: int| 0 <= k < l < d.to_link.len() implies (#[trigger] d.to_link[k]).name != (
    #[trigger] d.to_link[l]).name by {
        lemma_links_apart(w, k, l);
    }
    assert forall|p: PathV| #[trigger] w.src.contains_key(p) implies match w.src[p] {
        Node::Dir => true,
        Node::Special => copies(d).contains(p) || alike(w, p),
        Node::Link(_) => copies(d).contains(p) || (alike(w, p) && Some(w.dst[p]) == image(w, p)),
        Node::File { .. } => names(d.to_link).contains(p) || file_fate(w, d, p) || already_there(w, p),
    } by {
        lemma_outcome(w, p);
    }
}

// ── the laws ─────────────────────────────────────────────────────────────────

/// Nothing is deleted that the source has: a deleted path is one that the source does not have, or
/// has as another kind.
pub proof fn only_what_the_source_lacks_is_deleted(w: World, p: PathV)
    requires
        sound(w),
        planned(classified(w.x)).contains(ActionV::Delete(p)),
    ensures
        w.dst.contains_key(p),
        !alike(w, p),
{
    crate::plan::plans_do_what_the_difference_says(classified(w.x), ActionV::Delete(p));
    lemma_removed(w, p);
}

/// A move takes a file to where the source has that very content, from where the source has no
/// file, and never onto a destination file.
pub proof fn moves_carry_the_content_that_belongs_there(w: World, k: int)
    requires
        sound(w),
        0 <= k < classified(w.x).moved.len(),
    ensures
        ({
            let m = classified(w.x).moved[k];
            &&& w.src.contains_key(m.to) && w.dst.contains_key(m.from)
            &&& w.src[m.to] is File && w.dst[m.from] is File
            &&& w.src[m.to]->content == w.dst[m.from]->content
            &&& !alike(w, m.to) && !alike(w, m.from)
        }),
{
    lemma_moves_fit(w);
    let m = classified(w.x).moved[k];
    assert(w.src[m.to] is File);
}

/// Each destination entry stays, moves or goes: what the source does not have there is moved to
/// where the source has its content, or else deleted.
pub proof fn every_extra_is_moved_or_deleted(w: World, p: PathV)
    requires
        sound(w),
        w.dst.contains_key(p),
    ensures
        ({
            let d = classified(w.x);
            &&& alike(w, p) ==> !froms(d.moved).contains(p) && !change_paths(d.removed).contains(p)
            &&& !alike(w, p) ==> froms(d.moved).contains(p) != change_paths(d.removed).contains(p)
        }),
{
    let m = classified(w.x).moved;
    lemma_removed(w, p);
    lemma_moves_fit(w);
    if froms(m).contains(p) {
        let k = choose|k: int| 0 <= k < froms(m).len() && froms(m)[k] == p;
        assert(m[k].from == p);
    }
}

/// The file that a manifest lists at `p` was not one that could not be read.
pub open spec fn was_read(m: Seq<EntryV>, hashes: Seq<Option<HashV>>, p: PathV) -> bool {
    forall|i: int| 0 <= i < m.len() && (#[trigger] m[i]).rel == p ==> (hashes[i] matches Some(h) ==> h is Digest)
}

/// Content that the destination has is not written again: of a file that is added and one that is
/// deleted, where neither failed to be read, the contents differ.
pub proof fn no_content_is_both_added_and_deleted(w: World, p: PathV, q: PathV)
    requires
        sound(w),
        was_read(w.x.s, w.x.src_hash, p),
        was_read(w.x.d, w.x.dst_hash, q),
        has_change(classified(w.x).added, p, Kind::File),
        has_change(classified(w.x).removed, q, Kind::File),
    ensures
        w.src.contains_key(p) && w.src[p] is File,
        w.dst.contains_key(q) && w.dst[q] is File,
        w.src[p]->content != w.dst[q]->content,
{
    let x = w.x;
    let (s, d) = (x.s, x.d);
    let (af, rf) = (add_files(s, d), rm_files(s, d));
    lemma_add_files(w);
    lemma_rm_files(w);
    let f = lemma_added_file(w, p);
    let g = lemma_removed_file(w, q);
    let (i, j) = (af[f], rf[g]);
    assert(describes(s[i], w.src[p]));
    assert(describes(d[j], w.dst[q]));
    if w.src[p]->content == w.dst[q]->content {
        let size = s[i].size;
        assert(s[af[f]].size == size);
        assert(d[rf[g]].size == size);
        assert(contested(s, d, size));
        let c = lemma_candidate(af.len() as int, add_cand_rule(s, d), f);
        let e = lemma_candidate(rf.len() as int, rem_cand_rule(s, d), g);
        assert(af[add_cands(s, d)[c]] == i);
        assert(rf[rem_cands(s, d)[e]] == j);
        assert(needs_src(s, d, x.eager, i));
        assert(needs_dst(s, d, x.eager, j));
        assert(x.src_hash[i] is Some && x.dst_hash[j] is Some);
        let h = blake3_hash(w.src[p]->content);
        assert(x.src_hash[i] == Some(HashV::Digest(h)));
        assert(x.dst_hash[j] == Some(HashV::Digest(h)));
        assert(add_hash_rule(x)(c) == Some((f, h)));
        assert(rem_hash_rule(x)(e) == Some((g, h)));
        lemma_collect_contains(add_cands(s, d).len() as int, add_hash_rule(x), (f, h));
        lemma_collect_contains(rem_cands(s, d).len() as int, rem_hash_rule(x), (g, h));
        let k = choose|k: int| 0 <= k < add_hashed(x).len() && add_hashed(x)[k] == (f, h);
        let l = choose|l: int| 0 <= l < rem_hashed(x).len() && rem_hashed(x)[l] == (g, h);
        let (ac, rc) = (hash_column(add_hashed(x)), hash_column(rem_hashed(x)));
        assert(match_of(x, k) is None) by {
            assert(add_hashed(x)[k].0 == f);
        }
        assert forall|t: int| 0 <= t < ac.len() implies #[trigger] partner(ac, rc, t) != Some(l) by {
            if partner(ac, rc, t) == Some(l) {
                assert(match_of(x, t) == Some(l));
                assert(goes_by_move(x, g));
            }
        }
        lemma_nothing_left_over(ac, rc, k, l);
    }
}

/// Every file that was hashed could be read.
pub open spec fn all_read(x: DiffIn) -> bool {
    &&& forall|i: int|
        0 <= i < x.src_hash.len() ==> (#[trigger] x.src_hash[i] matches Some(h) ==> h is Digest)
    &&& forall|j: int|
        0 <= j < x.dst_hash.len() ==> (#[trigger] x.dst_hash[j] matches Some(h) ==> h is Digest)
}

} // verus!
