//! Symlink-target policy: what target a link copied to the destination should carry.
//!
//! Both sides of the pipeline use it, so they can never disagree: the comparison holds a
//! destination link against the target that a copy would write, and a copy writes exactly that
//! target. A link already rewritten by an earlier run is therefore unchanged.
use vstd::prelude::*;

use crate::manifest::opt_path;
use crate::paths::{FsPath, PathV, cur_comp, is_absolute, is_name, joined, parent_of, path_bytes, root_comp, starts_with, up_comp};
use crate::preflight::{Answer, AnswerV, Lenient, Walk, answer_for, answers_view, canonicalize_lenient, lenient, popped, stepped, walked};

verus! {

/// How far two paths agree, counted from component `i`.
pub open spec fn common_from(a: PathV, b: PathV, i: int) -> int
    decreases a.len() - i,
{
    if i < a.len() && i < b.len() && a[i] == b[i] {
        common_from(a, b, i + 1)
    } else {
        i
    }
}

/// `k` steps up.
pub open spec fn ups(k: int) -> PathV {
    Seq::new(if k < 0 { 0 } else { k as nat }, |i: int| up_comp())
}

/// `base` with the components of `rest` put after it one by one.
pub open spec fn pushed(base: PathV, rest: PathV) -> PathV
    decreases rest.len(),
{
    if rest.len() == 0 {
        base
    } else {
        joined(pushed(base, rest.drop_last()), seq![rest.last()])
    }
}

/// The directory that holds the link.
pub open spec fn dir_of(link: PathV) -> PathV {
    match parent_of(link) {
        Some(p) => p,
        None => Seq::empty(),
    }
}

/// The way from the directory of `link` to `target`: up to where the two part, then down.
pub open spec fn way_to(link: PathV, target: PathV) -> PathV {
    let base = dir_of(link);
    let k = common_from(base, target, 0);
    let out = pushed(ups(base.len() - k), target.subrange(k, target.len() as int));
    if out.len() == 0 {
        seq![cur_comp()]
    } else {
        out
    }
}

/// Where a link's target leads, and the root of the source, both as absolute paths with every
/// symlink on the way followed.
#[derive(Debug)]
pub struct Resolution {
    pub target: FsPath,
    pub src_root: FsPath,
}

/// The value of an optional [`Resolution`]: target and source root.
pub open spec fn resolution_view(r: Option<Resolution>) -> Option<(PathV, PathV)> {
    match r {
        Some(x) => Some((x.target@, x.src_root@)),
        None => None,
    }
}

/// The rewritten target of a link, where it is rewritten: asked for, and resolving inside the
/// source.
pub open spec fn rewritten(link: PathV, relative: bool, res: Option<(PathV, PathV)>) -> Option<PathV> {
    match res {
        Some((target, root)) => if relative && starts_with(target, root) {
            Some(way_to(link, target.subrange(root.len() as int, target.len() as int)))
        } else {
            None
        },
        None => None,
    }
}

/// The target that a link at `link` with target `raw` should carry in the mirror.
pub open spec fn desired(link: PathV, raw: PathV, relative: bool, res: Option<(PathV, PathV)>) -> PathV {
    match rewritten(link, relative, res) {
        Some(p) => p,
        None => raw,
    }
}

proof fn lemma_common_bounds(a: PathV, b: PathV, i: int)
    requires
        0 <= i <= a.len(),
        i <= b.len(),
    ensures
        i <= common_from(a, b, i) <= a.len(),
        common_from(a, b, i) <= b.len(),
        forall|k: int| i <= k < common_from(a, b, i) ==> a[k] == #[trigger] b[k],
    decreases a.len() - i,
{
    if i < a.len() && i < b.len() && a[i] == b[i] {
        lemma_common_bounds(a, b, i + 1);
    }
}

/// The relative path a symlink at `link_rel` should use to point at `target_rel`, where both are
/// relative to the same root: up from the link's own directory to the common ancestor, then down
/// to the target. E.g. `links/rel` to `f1/b.txt` yields `../f1/b.txt`.
pub fn relative_link(link_rel: &FsPath, target_rel: &FsPath) -> (r: FsPath)
    ensures
        r@ == way_to(link_rel@, target_rel@),
        r.spelled() == path_bytes(r@),
{
    let base = match link_rel.parent() {
        Some(p) => p,
        None => FsPath::empty(),
    };
    let mut common: usize = 0;
    while common < base.depth() && common < target_rel.depth() && crate::paths::bytes_same(
        base.component(common).as_slice(),
        target_rel.component(common).as_slice(),
    )
        invariant
            0 <= common <= base@.len(),
            common <= target_rel@.len(),
            common_from(base@, target_rel@, common as int) == common_from(base@, target_rel@, 0),
        decreases base@.len() - common,
    {
        common = common + 1;
    }
    let mut out = FsPath::empty();
    let mut i: usize = common;
    assert(out@ =~= ups(i - common));
    while i < base.depth()
        invariant
            common <= i <= base@.len(),
            out@ == ups(i - common),
        decreases base@.len() - i,
    {
        let mut up: Vec<u8> = Vec::new();
        up.push(crate::paths::DOT);
        up.push(crate::paths::DOT);
        assert(up@ =~= up_comp());
        out.push(up);
        i = i + 1;
        assert(out@ =~= ups(i - common));
    }
    let ghost lead = out@;
    let mut j: usize = common;
    while j < target_rel.depth()
        invariant
            common <= j <= target_rel@.len(),
            out@ == pushed(lead, target_rel@.subrange(common as int, j as int)),
        decreases target_rel@.len() - j,
    {
        let ghost next = target_rel@.subrange(common as int, j + 1);
        assert(next.drop_last() =~= target_rel@.subrange(common as int, j as int));
        let step = target_rel.slice(j, j + 1);
        assert(step@ =~= seq![next.last()]);
        out = out.join(&step);
        j = j + 1;
    }
    if out.depth() == 0 {
        let mut here: Vec<u8> = Vec::new();
        here.push(crate::paths::DOT);
        assert(here@ =~= cur_comp());
        out.push(here);
        assert(out@ =~= seq![cur_comp()]);
    }
    out.plain()
}

/// Where a link's target points before any symlink is followed: an absolute target stands alone, a
/// relative one is anchored at the link's own directory under the source root.
pub fn anchored_target(src: &FsPath, link_rel: &FsPath, raw_target: &FsPath) -> (r: FsPath)
    ensures
        r@ == anchored(src@, link_rel@, raw_target@),
{
    if raw_target.is_absolute() {
        raw_target.clone()
    } else {
        let dir = match link_rel.parent() {
            Some(p) => p,
            None => FsPath::empty(),
        };
        src.join(&dir).join(raw_target)
    }
}

/// What is known of where a link leads.
#[derive(Debug)]
pub enum Lead {
    /// Where it leads; none where the source root could not be resolved.
    Known(Option<Resolution>),
    /// It takes to know first what this path resolves to.
    Ask(FsPath),
}

/// Where a link's target points before any symlink is followed.
pub open spec fn anchored(src: PathV, link: PathV, raw: PathV) -> PathV {
    if is_absolute(raw) {
        raw
    } else {
        joined(joined(src, dir_of(link)), raw)
    }
}

/// Where the link at `link_rel` with target `raw_target` leads, by the answers given: its target,
/// anchored and canonicalized, and the source root. Whether the target exists makes no difference.
pub fn resolve_target(
    src: &FsPath,
    link_rel: &FsPath,
    raw_target: &FsPath,
    src_root: &Option<FsPath>,
    cwd: &Option<FsPath>,
    answers: &Vec<Answer>,
) -> (r: Lead)
    ensures
        match lenient(anchored(src@, link_rel@, raw_target@), opt_path(*cwd), answers_view(answers@)) {
            Walk::At { out, .. } => r matches Lead::Known(x) && resolution_view(x) == match opt_path(
                *src_root,
            ) {
                Some(root) => Some((out, root)),
                None => None,
            },
            Walk::Ask(q) => r matches Lead::Ask(p) && p@ == q,
        },
{
    match canonicalize_lenient(&anchored_target(src, link_rel, raw_target), cwd, answers) {
        Lenient::Ask(p) => Lead::Ask(p),
        Lenient::Done(target) => match src_root {
            Some(root) => Lead::Known(Some(Resolution { target, src_root: root.clone() })),
            None => Lead::Known(None),
        },
    }
}

/// The rewritten target of the link at `link_rel`, or `None` where its target is kept verbatim:
/// without `relative_symlinks`, where the target resolves outside the source, and where the
/// source root could not be resolved.
pub fn rewritten_target(
    link_rel: &FsPath,
    relative_symlinks: bool,
    resolution: &Option<Resolution>,
) -> (r: Option<FsPath>)
    ensures
        opt_path(r) == rewritten(
            link_rel@,
            relative_symlinks,
            resolution_view(*resolution),
        ),
        r matches Some(p) ==> p.spelled() == path_bytes(p@),
{
    match resolution {
        Some(x) => if relative_symlinks && x.target.starts_with(&x.src_root) {
            let inside = x.target.slice(x.src_root.depth(), x.target.depth());
            Some(relative_link(link_rel, &inside))
        } else {
            None
        },
        None => None,
    }
}

/// The target a symlink at `link_rel` (relative to the source root) should carry at the
/// destination. Verbatim by default. With `relative_symlinks`, a target that resolves inside the
/// source is rewritten as a relative path to the same location in the mirror; anything resolving
/// outside the source stays verbatim, to the letter. Whether the target exists makes no difference.
pub fn desired_target(
    link_rel: &FsPath,
    raw_target: &FsPath,
    relative_symlinks: bool,
    resolution: &Option<Resolution>,
) -> (r: FsPath)
    ensures
        r@ == desired(
            link_rel@,
            raw_target@,
            relative_symlinks,
            resolution_view(*resolution),
        ),
        r.spelled() == match rewritten(link_rel@, relative_symlinks, resolution_view(*resolution)) {
            Some(p) => path_bytes(p),
            None => raw_target.spelled(),
        },
{
    match rewritten_target(link_rel, relative_symlinks, resolution) {
        Some(p) => p,
        None => raw_target.clone(),
    }
}

// ── where a relative target leads ────────────────────────────────────────────

/// Where one stands after following `steps` from the directory `dir`: `..` leads up, but not above
/// the root, `.` leads nowhere, a name leads down.
pub open spec fn walk(dir: PathV, steps: PathV) -> PathV
    decreases steps.len(),
{
    if steps.len() == 0 {
        dir
    } else {
        let at = walk(dir, steps.drop_last());
        let c = steps.last();
        if c == cur_comp() {
            at
        } else if c == up_comp() {
            if at.len() == 0 || at.last() == root_comp() {
                at
            } else {
                at.drop_last()
            }
        } else {
            at.push(c)
        }
    }
}

/// A path made of file names only.
pub open spec fn plain(p: PathV) -> bool {
    forall|i: int| 0 <= i < p.len() ==> is_name(#[trigger] p[i])
}

proof fn lemma_walk_ups(dir: PathV, k: int)
    requires
        0 <= k <= dir.len(),
        forall|i: int| dir.len() - k <= i < dir.len() ==> #[trigger] dir[i] != root_comp(),
    ensures
        walk(dir, ups(k)) == dir.subrange(0, dir.len() - k),
    decreases k,
{
    if k == 0 {
        assert(dir.subrange(0, dir.len() as int) =~= dir);
    } else {
        assert(ups(k).drop_last() =~= ups(k - 1));
        lemma_walk_ups(dir, k - 1);
        assert(up_comp().len() == 2 && cur_comp().len() == 1);
        assert(dir.subrange(0, dir.len() - (k - 1)).last() == dir[dir.len() - k]);
        assert(dir.subrange(0, dir.len() - (k - 1)).drop_last() =~= dir.subrange(0, dir.len() - k));
    }
}

proof fn lemma_walk_down(dir: PathV, k: int, rest: PathV)
    requires
        0 <= k <= dir.len(),
        forall|i: int| dir.len() - k <= i < dir.len() ==> #[trigger] dir[i] != root_comp(),
        plain(rest),
    ensures
        walk(dir, ups(k) + rest) == dir.subrange(0, dir.len() - k) + rest,
    decreases rest.len(),
{
    if rest.len() == 0 {
        assert(ups(k) + rest =~= ups(k));
        lemma_walk_ups(dir, k);
        assert(dir.subrange(0, dir.len() - k) + rest =~= dir.subrange(0, dir.len() - k));
    } else {
        let shorter = rest.drop_last();
        assert(plain(shorter)) by {
            assert forall|i: int| 0 <= i < shorter.len() implies is_name(#[trigger] shorter[i]) by {
                assert(rest[i] == shorter[i]);
            }
        }
        lemma_walk_down(dir, k, shorter);
        assert((ups(k) + rest).drop_last() =~= ups(k) + shorter);
        assert((ups(k) + rest).last() == rest[rest.len() - 1]);
        assert(is_name(rest[rest.len() - 1]));
        assert((dir.subrange(0, dir.len() - k) + shorter).push(rest.last()) =~= dir.subrange(
            0,
            dir.len() - k,
        ) + rest);
    }
}

proof fn lemma_pushed_plain(base: PathV, rest: PathV)
    requires
        plain(rest),
    ensures
        pushed(base, rest) == base + rest,
    decreases rest.len(),
{
    if rest.len() == 0 {
        assert(base + rest =~= base);
    } else {
        let shorter = rest.drop_last();
        assert(plain(shorter)) by {
            assert forall|i: int| 0 <= i < shorter.len() implies is_name(#[trigger] shorter[i]) by {
                assert(rest[i] == shorter[i]);
            }
        }
        lemma_pushed_plain(base, shorter);
        assert(is_name(rest[rest.len() - 1]));
        let step: PathV = seq![rest.last()];
        assert(step[0] == rest.last());
        assert(joined(base + shorter, step) =~= base + rest);
    }
}

/// Following a relative link from the directory that holds it leads to its target.
pub proof fn relative_link_leads_to_its_target(link: PathV, target: PathV)
    requires
        plain(link),
        plain(target),
    ensures
        walk(dir_of(link), way_to(link, target)) == target,
{
    let base = dir_of(link);
    let k = common_from(base, target, 0);
    lemma_common_bounds(base, target, 0);
    let rest = target.subrange(k, target.len() as int);
    assert(plain(rest)) by {
        assert forall|i: int| 0 <= i < rest.len() implies is_name(#[trigger] rest[i]) by {
            assert(rest[i] == target[k + i]);
        }
    }
    lemma_pushed_plain(ups(base.len() - k), rest);
    assert forall|i: int| 0 <= i < base.len() implies #[trigger] base[i] != root_comp() by {
        assert(link[i] == base[i]);
        assert(is_name(link[i]));
    }
    lemma_walk_down(base, base.len() - k, rest);
    assert(base.subrange(0, k) + rest =~= target);
    let out = pushed(ups(base.len() - k), rest);
    if out.len() == 0 {
        let here: PathV = seq![cur_comp()];
        assert(here.drop_last() =~= Seq::<Seq<u8>>::empty());
        assert(walk(base, here.drop_last()) == base);
        assert(walk(base, here) == base);
        assert(base =~= target);
    }
}

/// Following two stretches one after the other.
proof fn lemma_walk_joined(dir: PathV, a: PathV, b: PathV)
    ensures
        walk(dir, a + b) == walk(walk(dir, a), b),
    decreases b.len(),
{
    if b.len() == 0 {
        assert(a + b =~= a);
    } else {
        lemma_walk_joined(dir, a, b.drop_last());
        assert((a + b).drop_last() =~= a + b.drop_last());
        assert((a + b).last() == b.last());
    }
}

/// Following names only leads down.
proof fn lemma_walk_names(dir: PathV, names: PathV)
    requires
        plain(names),
    ensures
        walk(dir, names) == dir + names,
    decreases names.len(),
{
    if names.len() == 0 {
        assert(dir + names =~= dir);
    } else {
        let shorter = names.drop_last();
        assert(plain(shorter)) by {
            assert forall|i: int| 0 <= i < shorter.len() implies is_name(#[trigger] shorter[i]) by {
                assert(names[i] == shorter[i]);
            }
        }
        lemma_walk_names(dir, shorter);
        assert(is_name(names[names.len() - 1]));
        assert((dir + shorter).push(names.last()) =~= dir + names);
    }
}

/// No symlink lies on the way: whatever exists resolves to itself.
pub open spec fn no_symlinks(answers: Seq<AnswerV>) -> bool {
    forall|i: int|
        0 <= i < answers.len() ==> ((#[trigger] answers[i]).resolved matches Some(r) ==> r == answers[i].path)
}

/// An absolute path of names and `..`.
pub open spec fn walkable(p: PathV) -> bool {
    &&& p.len() > 0
    &&& p[0] == root_comp()
    &&& forall|i: int| 1 <= i < p.len() ==> is_name(#[trigger] p[i]) || p[i] == up_comp()
}

proof fn lemma_answer_itself(answers: Seq<AnswerV>, p: PathV)
    requires
        no_symlinks(answers),
    ensures
        answer_for(answers, p) matches Some(Some(r)) ==> r == p,
    decreases answers.len(),
{
    if answers.len() > 0 && answers[0].path != p {
        let rest = answers.subrange(1, answers.len() as int);
        assert forall|i: int| 0 <= i < rest.len() implies ((#[trigger] rest[i]).resolved matches Some(r) ==> r
            == rest[i].path) by {
            assert(rest[i] == answers[i + 1]);
        }
        lemma_answer_itself(rest, p);
    }
}

/// Where no symlink lies on the way, canonicalizing is following the path from the root.
proof fn lemma_walked_is_walk(abs: PathV, n: int, answers: Seq<AnswerV>)
    requires
        no_symlinks(answers),
        walkable(abs),
        1 <= n <= abs.len(),
    ensures
        walked(abs, n, answers) matches Walk::At { out, .. } ==> out == walk(Seq::empty(), abs.subrange(0, n))
            && out.len() > 0 && out[0] == root_comp() && forall|i: int|
            1 <= i < out.len() ==> is_name(#[trigger] out[i]),
    decreases n,
{
    let none = Seq::<Seq<u8>>::empty();
    assert(abs.subrange(0, n).drop_last() =~= abs.subrange(0, n - 1));
    assert(abs.subrange(0, n).last() == abs[n - 1]);
    assert(root_comp()[0] == crate::paths::SLASH && cur_comp()[0] == crate::paths::DOT && up_comp()[0]
        == crate::paths::DOT);
    assert(cur_comp().len() == 1 && up_comp().len() == 2);
    if n == 1 {
        assert(walked(abs, 0, answers) == (Walk::At { out: none, exists: true }));
        assert(abs.subrange(0, 0) =~= none);
        assert(walk(none, abs.subrange(0, 0)) == none);
        assert(none.push(root_comp()) =~= seq![root_comp()]);
    } else {
        lemma_walked_is_walk(abs, n - 1, answers);
        match walked(abs, n - 1, answers) {
            Walk::At { out, exists } => {
                let c = abs[n - 1];
                lemma_answer_itself(answers, out.push(c));
                assert(walked(abs, n, answers) == stepped(out, exists, c, answers));
                if c == up_comp() {
                    if out.len() > 1 {
                        assert(is_name(out[out.len() - 1]));
                        assert(out[out.len() - 1] != root_comp());
                        assert(popped(out) == out.drop_last());
                    } else {
                        assert(out.last() == root_comp());
                        assert(popped(out) == out);
                    }
                }
            },
            Walk::Ask(_) => {},
        }
    }
}

/// A link in the mirror leads where it led: where no symlink lies on the way, following the target that
/// a copied link carries, from the directory that holds the link, leads to the same place as following
/// the target that it had, be it rewritten or not.
pub proof fn a_copied_link_leads_where_it_led(
    src: PathV,
    link: PathV,
    raw: PathV,
    relative: bool,
    cwd: Option<PathV>,
    answers: Seq<AnswerV>,
    out: PathV,
    exists_all: bool,
)
    requires
        src.len() > 0 && src[0] == root_comp(),
        plain(src.subrange(1, src.len() as int)),
        link.len() > 0,
        plain(link),
        raw.len() > 0,
        forall|i: int| 0 <= i < raw.len() ==> is_name(#[trigger] raw[i]) || raw[i] == up_comp(),
        no_symlinks(answers),
        lenient(anchored(src, link, raw), cwd, answers) == (Walk::At { out, exists: exists_all }),
    ensures
        out == walk(src + link.drop_last(), raw),
        walk(src + link.drop_last(), desired(link, raw, relative, Some((out, src)))) == walk(
            src + link.drop_last(),
            raw,
        ),
{
    let dir = link.drop_last();
    let here = src + dir;
    let abs = here + raw;
    let none = Seq::<Seq<u8>>::empty();
    assert(is_name(link[link.len() - 1]));
    assert(link.last() == link[link.len() - 1]);
    assert(root_comp()[0] == crate::paths::SLASH && cur_comp()[0] == crate::paths::DOT && up_comp()[0]
        == crate::paths::DOT);
    assert(cur_comp().len() == 1 && up_comp().len() == 2);
    assert(parent_of(link) == Some(dir));
    assert forall|i: int| 0 <= i < dir.len() implies is_name(#[trigger] dir[i]) by {
        assert(link[i] == dir[i]);
        assert(is_name(link[i]));
    }
    assert(is_name(raw[0]) || raw[0] == up_comp());
    if dir.len() > 0 {
        assert(is_name(dir[0]));
    }
    assert(joined(src, dir) =~= here);
    assert(joined(here, raw) =~= abs);
    assert(anchored(src, link, raw) == abs);
    assert(abs[0] == root_comp());
    let names = src.subrange(1, src.len() as int);
    assert forall|i: int| 1 <= i < abs.len() implies is_name(#[trigger] abs[i]) || abs[i] == up_comp() by {
        if i < src.len() {
            assert(names[i - 1] == abs[i]);
            assert(is_name(names[i - 1]));
        } else if i < here.len() {
            assert(abs[i] == dir[i - src.len()]);
        } else {
            assert(abs[i] == raw[i - here.len()]);
        }
    }
    assert(is_absolute(abs));
    lemma_walked_is_walk(abs, abs.len() as int, answers);
    assert(abs.subrange(0, abs.len() as int) =~= abs);
    lemma_walk_joined(none, here, raw);
    // the way down to the link's directory
    let start: PathV = seq![root_comp()];
    let down = names + dir;
    assert(plain(down)) by {
        assert forall|i: int| 0 <= i < down.len() implies is_name(#[trigger] down[i]) by {
            if i < names.len() {
                assert(down[i] == names[i]);
            } else {
                assert(down[i] == dir[i - names.len()]);
            }
        }
    }
    assert(here =~= start + down);
    lemma_walk_joined(none, start, down);
    assert(start.drop_last() =~= none);
    assert(walk(none, start.drop_last()) == none);
    assert(none.push(root_comp()) =~= start);
    assert(walk(none, start) == start);
    lemma_walk_names(start, down);
    assert(walk(none, here) == here);
    assert(out == walk(here, raw));
    if relative && starts_with(out, src) {
        let target = out.subrange(src.len() as int, out.len() as int);
        assert(plain(target)) by {
            assert forall|i: int| 0 <= i < target.len() implies is_name(#[trigger] target[i]) by {
                assert(target[i] == out[src.len() + i]);
            }
        }
        let k = common_from(dir, target, 0);
        lemma_common_bounds(dir, target, 0);
        let rest = target.subrange(k, target.len() as int);
        assert(plain(rest)) by {
            assert forall|i: int| 0 <= i < rest.len() implies is_name(#[trigger] rest[i]) by {
                assert(rest[i] == target[k + i]);
            }
        }
        let up = dir.len() - k;
        lemma_pushed_plain(ups(up), rest);
        assert forall|i: int| here.len() - up <= i < here.len() implies #[trigger] here[i] != root_comp() by {
            assert(here[i] == dir[i - src.len()]);
        }
        lemma_walk_down(here, up, rest);
        assert(here.subrange(0, here.len() - up) + rest =~= out) by {
            assert forall|i: int| 0 <= i < k implies dir[i] == #[trigger] target[i] by {}
            assert forall|i: int| 0 <= i < out.len() implies #[trigger] (here.subrange(0, here.len() - up)
                + rest)[i] == out[i] by {
                if i < src.len() {
                    assert(out.subrange(0, src.len() as int)[i] == src[i]);
                } else if i < src.len() + k {
                    assert(here[i] == dir[i - src.len()]);
                    assert(target[i - src.len()] == out[i]);
                } else {
                    assert(rest[i - src.len() - k] == target[i - src.len()]);
                }
            }
        }
        let way = pushed(ups(up), rest);
        if way.len() == 0 {
            let stay: PathV = seq![cur_comp()];
            assert(stay.drop_last() =~= none);
            assert(walk(here, stay.drop_last()) == here);
            assert(walk(here, stay) == here);
            assert(here.subrange(0, here.len() as int) =~= here);
        }
    }
}

/// A target that leads out of the source, or that nothing is known of, is kept as it is; so is every
/// target where rewriting was not asked for.
pub proof fn a_target_outside_the_source_is_kept(
    link: PathV,
    raw: PathV,
    relative: bool,
    target: PathV,
    root: PathV,
)
    requires
        !relative || root.len() > target.len() || target.subrange(0, root.len() as int) != root,
    ensures
        desired(link, raw, relative, Some((target, root))) == raw,
        desired(link, raw, relative, None) == raw,
        rewritten(link, relative, Some((target, root))) is None,
{
}

/// An absolute target stands alone, wherever the link lies.
pub proof fn an_absolute_target_stands_alone(src: PathV, link: PathV, raw: PathV)
    requires
        raw.len() > 0,
        raw[0] == root_comp(),
    ensures
        anchored(src, link, raw) == raw,
{
}

/// An absolute target that leads into the source is rewritten to the way from the link's directory to
/// the same place in the mirror.
pub proof fn a_rewritten_target_is_relative_and_inside(src: PathV, link: PathV, inner: PathV)
    requires
        plain(link),
        plain(inner),
    ensures
        rewritten(link, true, Some((src + inner, src))) matches Some(r) && walk(dir_of(link), r) == inner && r.len()
            > 0 && r[0] != root_comp(),
{
    let target = src + inner;
    assert(target.subrange(0, src.len() as int) =~= src);
    assert(target.subrange(src.len() as int, target.len() as int) =~= inner);
    relative_link_leads_to_its_target(link, inner);
    let base = dir_of(link);
    let k = common_from(base, inner, 0);
    lemma_common_bounds(base, inner, 0);
    let rest = inner.subrange(k, inner.len() as int);
    assert(plain(rest)) by {
        assert forall|i: int| 0 <= i < rest.len() implies is_name(#[trigger] rest[i]) by {
            assert(rest[i] == inner[k + i]);
        }
    }
    lemma_pushed_plain(ups(base.len() - k), rest);
    let w = ups(base.len() - k) + rest;
    assert(root_comp()[0] == crate::paths::SLASH && cur_comp()[0] == crate::paths::DOT && up_comp()[0]
        == crate::paths::DOT);
    if w.len() > 0 && base.len() == k {
        assert(w[0] == rest[0]);
        assert(is_name(rest[0]));
    }
}

/// Where no symlink lies on the way, canonicalizing an absolute path is following it from the root.
pub proof fn canonicalizing_follows_the_path(p: PathV, cwd: Option<PathV>, answers: Seq<AnswerV>)
    requires
        walkable(p),
        no_symlinks(answers),
    ensures
        lenient(p, cwd, answers) matches Walk::At { out, .. } ==> out == walk(Seq::empty(), p),
{
    lemma_walked_is_walk(p, p.len() as int, answers);
    assert(p.subrange(0, p.len() as int) =~= p);
}

} // verus!
