//! Orders on byte strings and paths, stable sorting, and looking entries up by path.
//!
//! Paths compare component by component, and components as byte strings, except that the root
//! comes before `.`, `.` before `..`, and `..` before every file name. A path therefore comes
//! before everything that lies below it.
use vstd::prelude::*;

use crate::paths::{FsPath, PathV, SpelledV, bare, cur_comp, named_view, paths_view, root_comp, starts_with, up_comp};

verus! {

/// `a` comes before `b`, where they agree up to `i`.
pub open spec fn bytes_lt_from(a: Seq<u8>, b: Seq<u8>, i: int) -> bool
    decreases b.len() - i,
{
    if i >= b.len() {
        false
    } else if i >= a.len() {
        true
    } else if a[i] != b[i] {
        a[i] < b[i]
    } else {
        bytes_lt_from(a, b, i + 1)
    }
}

/// The lexicographic order on byte strings.
pub open spec fn bytes_lt(a: Seq<u8>, b: Seq<u8>) -> bool {
    bytes_lt_from(a, b, 0)
}

/// [`bytes_lt`] as a function.
pub open spec fn by_bytes() -> spec_fn(Seq<u8>, Seq<u8>) -> bool {
    |a: Seq<u8>, b: Seq<u8>| bytes_lt(a, b)
}

/// The class of a component: root, `.`, `..`, file name.
pub open spec fn comp_rank(c: Seq<u8>) -> int {
    if c == root_comp() {
        0
    } else if c == cur_comp() {
        1
    } else if c == up_comp() {
        2
    } else {
        3
    }
}

/// The order on components.
pub open spec fn comp_lt(a: Seq<u8>, b: Seq<u8>) -> bool {
    comp_rank(a) < comp_rank(b) || (comp_rank(a) == comp_rank(b) && bytes_lt(a, b))
}

/// `p` comes before `q`, where they agree up to component `i`.
pub open spec fn path_lt_from(p: PathV, q: PathV, i: int) -> bool
    decreases q.len() - i,
{
    if i >= q.len() {
        false
    } else if i >= p.len() {
        true
    } else if p[i] != q[i] {
        comp_lt(p[i], q[i])
    } else {
        path_lt_from(p, q, i + 1)
    }
}

/// The order on paths.
pub open spec fn path_lt(p: PathV, q: PathV) -> bool {
    path_lt_from(p, q, 0)
}

/// [`path_lt`] as a function.
pub open spec fn by_path() -> spec_fn(PathV, PathV) -> bool {
    |p: PathV, q: PathV| path_lt(p, q)
}

/// The reverse of [`path_lt`] as a function: descendants before ancestors.
pub open spec fn by_path_down() -> spec_fn(PathV, PathV) -> bool {
    |p: PathV, q: PathV| path_lt(q, p)
}

pub proof fn lemma_bytes_total(a: Seq<u8>, b: Seq<u8>, i: int)
    requires
        0 <= i <= a.len(),
        i <= b.len(),
        forall|k: int| 0 <= k < i ==> a[k] == b[k],
    ensures
        a == b ==> !bytes_lt_from(a, b, i) && !bytes_lt_from(b, a, i),
        a != b ==> bytes_lt_from(a, b, i) != bytes_lt_from(b, a, i),
    decreases a.len() - i,
{
    if i < a.len() && i < b.len() {
        if a[i] == b[i] {
            lemma_bytes_total(a, b, i + 1);
        }
    } else if i == a.len() && i == b.len() {
        assert(a =~= b);
    }
}

pub proof fn lemma_bytes_trans(a: Seq<u8>, b: Seq<u8>, c: Seq<u8>, i: int)
    requires
        0 <= i,
        bytes_lt_from(a, b, i),
        bytes_lt_from(b, c, i),
    ensures
        bytes_lt_from(a, c, i),
    decreases b.len() - i,
{
    if i < a.len() && i < b.len() && i < c.len() && a[i] == b[i] && b[i] == c[i] {
        lemma_bytes_trans(a, b, c, i + 1);
    }
}

/// Any two distinct components are ordered one way, and no component comes before itself.
pub proof fn lemma_comp_total(a: Seq<u8>, b: Seq<u8>)
    ensures
        a == b ==> !comp_lt(a, b),
        a != b ==> comp_lt(a, b) != comp_lt(b, a),
{
    lemma_bytes_total(a, b, 0);
}

pub proof fn lemma_comp_trans(a: Seq<u8>, b: Seq<u8>, c: Seq<u8>)
    requires
        comp_lt(a, b),
        comp_lt(b, c),
    ensures
        comp_lt(a, c),
{
    if comp_rank(a) == comp_rank(b) && comp_rank(b) == comp_rank(c) {
        lemma_bytes_trans(a, b, c, 0);
    }
}

proof fn lemma_path_total_from(p: PathV, q: PathV, i: int)
    requires
        0 <= i <= p.len(),
        i <= q.len(),
        forall|k: int| 0 <= k < i ==> p[k] == q[k],
    ensures
        p == q ==> !path_lt_from(p, q, i) && !path_lt_from(q, p, i),
        p != q ==> path_lt_from(p, q, i) != path_lt_from(q, p, i),
    decreases p.len() - i,
{
    if i < p.len() && i < q.len() {
        if p[i] == q[i] {
            lemma_path_total_from(p, q, i + 1);
        } else {
            lemma_comp_total(p[i], q[i]);
        }
    } else if i == p.len() && i == q.len() {
        assert(p =~= q);
    }
}

/// Any two distinct paths are ordered one way, and no path comes before itself.
pub proof fn lemma_path_total(p: PathV, q: PathV)
    ensures
        p == q ==> !path_lt(p, q),
        p != q ==> path_lt(p, q) != path_lt(q, p),
{
    lemma_path_total_from(p, q, 0);
}

proof fn lemma_path_trans_from(p: PathV, q: PathV, r: PathV, i: int)
    requires
        0 <= i,
        path_lt_from(p, q, i),
        path_lt_from(q, r, i),
    ensures
        path_lt_from(p, r, i),
    decreases q.len() - i,
{
    if i < p.len() && i < q.len() && i < r.len() {
        if p[i] == q[i] && q[i] == r[i] {
            lemma_path_trans_from(p, q, r, i + 1);
        } else if p[i] != q[i] && q[i] != r[i] {
            lemma_comp_trans(p[i], q[i], r[i]);
            lemma_comp_total(p[i], r[i]);
        }
    }
}

pub proof fn lemma_path_trans(p: PathV, q: PathV, r: PathV)
    requires
        path_lt(p, q),
        path_lt(q, r),
    ensures
        path_lt(p, r),
{
    lemma_path_trans_from(p, q, r, 0);
}

proof fn lemma_below_from(p: PathV, base: PathV, i: int)
    requires
        starts_with(p, base),
        p.len() > base.len(),
        0 <= i <= base.len(),
    ensures
        path_lt_from(base, p, i),
    decreases base.len() - i,
{
    if i < base.len() {
        assert(p.subrange(0, base.len() as int)[i] == p[i]);
        lemma_below_from(p, base, i + 1);
    }
}

/// A directory comes before everything that lies below it.
pub proof fn lemma_below_is_after(p: PathV, base: PathV)
    requires
        starts_with(p, base),
        p != base,
    ensures
        path_lt(base, p),
{
    if p.len() == base.len() {
        assert(p.subrange(0, base.len() as int) =~= p);
    }
    lemma_below_from(p, base, 0);
}

/// Whether `a` comes before `b` as a byte string.
pub fn bytes_before(a: &[u8], b: &[u8]) -> (r: bool)
    ensures
        r == bytes_lt(a@, b@),
{
    let mut i: usize = 0;
    while i < a.len() && i < b.len()
        invariant
            0 <= i <= a@.len(),
            i <= b@.len(),
            bytes_lt(a@, b@) == bytes_lt_from(a@, b@, i as int),
        decreases a@.len() - i,
    {
        if a[i] != b[i] {
            return a[i] < b[i];
        }
        i = i + 1;
    }
    i < b.len()
}

fn rank_of(c: &Vec<u8>) -> (r: u8)
    ensures
        r == comp_rank(c@),
{
    if c.len() == 1 && c[0] == crate::paths::SLASH {
        assert(c@ =~= root_comp());
        0
    } else if c.len() == 1 && c[0] == crate::paths::DOT {
        assert(c@ =~= cur_comp());
        1
    } else if c.len() == 2 && c[0] == crate::paths::DOT && c[1] == crate::paths::DOT {
        assert(c@ =~= up_comp());
        2
    } else {
        3
    }
}

/// Whether `p` comes before `q`.
pub fn path_before(p: &FsPath, q: &FsPath) -> (r: bool)
    ensures
        r == path_lt(p@, q@),
{
    let mut i: usize = 0;
    while i < p.depth() && i < q.depth()
        invariant
            0 <= i <= p@.len(),
            i <= q@.len(),
            path_lt(p@, q@) == path_lt_from(p@, q@, i as int),
        decreases p@.len() - i,
    {
        let a = p.component(i);
        let b = q.component(i);
        if !crate::paths::bytes_same(a.as_slice(), b.as_slice()) {
            let (ra, rb): (u8, u8) = (rank_of(a), rank_of(b));
            return ra < rb || (ra == rb && bytes_before(a.as_slice(), b.as_slice()));
        }
        i = i + 1;
    }
    i < q.depth()
}

// ── stable sorting ───────────────────────────────────────────────────────────

/// `0, 1, .., n - 1`.
pub open spec fn iota(n: int) -> Seq<int> {
    Seq::new(if n < 0 { 0 } else { n as nat }, |i: int| i)
}

/// Position `i` belongs before position `j`: its key is smaller, or neither key is smaller and it
/// stood first.
pub open spec fn stands_before<K>(keys: Seq<K>, lt: spec_fn(K, K) -> bool, i: int, j: int) -> bool {
    lt(keys[i], keys[j]) || (!lt(keys[j], keys[i]) && i < j)
}

/// `p` lists all positions of `keys`, each once, in stable order.
pub open spec fn is_order<K>(keys: Seq<K>, lt: spec_fn(K, K) -> bool, p: Seq<int>) -> bool {
    &&& p.to_multiset() == iota(keys.len() as int).to_multiset()
    &&& forall|a: int, b: int|
        #![trigger p[a], p[b]]
        0 <= a < b < p.len() ==> stands_before(keys, lt, p[a], p[b])
}

/// The positions of `keys` in stable order.
pub open spec fn order<K>(keys: Seq<K>, lt: spec_fn(K, K) -> bool) -> Seq<int> {
    choose|p: Seq<int>| is_order(keys, lt, p)
}

/// `items`, stably sorted by the key at the same position.
pub open spec fn sorted_with<T, K>(items: Seq<T>, keys: Seq<K>, lt: spec_fn(K, K) -> bool) -> Seq<T> {
    Seq::new(items.len(), |k: int| items[order(keys, lt)[k]])
}

/// `lt` orders strictly: never both ways, and "not smaller" carries over.
pub open spec fn is_strict_order<K>(lt: spec_fn(K, K) -> bool) -> bool {
    &&& forall|a: K, b: K| #[trigger] lt(a, b) ==> !lt(b, a)
    &&& forall|a: K, b: K, c: K|
        #![trigger lt(a, b), lt(b, c)]
        #![trigger lt(a, b), lt(a, c)]
        #![trigger lt(b, c), lt(a, c)]
        !lt(a, b) && !lt(b, c) ==> !lt(a, c)
}

pub proof fn lemma_by_path_strict()
    ensures
        is_strict_order(by_path()),
        is_strict_order(by_path_down()),
{
    let lt = by_path();
    assert forall|a: PathV, b: PathV| #[trigger] lt(a, b) implies !lt(b, a) by {
        lemma_path_total(a, b);
    }
    assert forall|a: PathV, b: PathV, c: PathV| !path_lt(a, b) && !path_lt(b, c) implies !path_lt(
        a,
        c,
    ) by {
        lemma_path_total(a, b);
        lemma_path_total(b, c);
        lemma_path_total(a, c);
        if path_lt(a, c) {
            if a != b {
                lemma_path_trans(b, a, c);
            }
        }
    }
    let down = by_path_down();
    assert forall|a: PathV, b: PathV| #[trigger] down(a, b) implies !down(b, a) by {
        lemma_path_total(a, b);
    }
}

pub proof fn lemma_by_bytes_strict()
    ensures
        is_strict_order(by_bytes()),
{
    let lt = by_bytes();
    assert forall|a: Seq<u8>, b: Seq<u8>| #[trigger] lt(a, b) implies !lt(b, a) by {
        lemma_bytes_total(a, b, 0);
    }
    assert forall|a: Seq<u8>, b: Seq<u8>, c: Seq<u8>| !bytes_lt(a, b) && !bytes_lt(b, c) implies !bytes_lt(
        a,
        c,
    ) by {
        lemma_bytes_total(a, b, 0);
        lemma_bytes_total(b, c, 0);
        lemma_bytes_total(a, c, 0);
        if bytes_lt(a, c) {
            if a != b {
                lemma_bytes_trans(b, a, c, 0);
            }
        }
    }
}

proof fn lemma_stands_before_trans<K>(
    keys: Seq<K>,
    lt: spec_fn(K, K) -> bool,
    i: int,
    j: int,
    k: int,
)
    requires
        is_strict_order(lt),
        stands_before(keys, lt, i, j),
        stands_before(keys, lt, j, k),
    ensures
        stands_before(keys, lt, i, k),
{
    let (a, b, c) = (keys[i], keys[j], keys[k]);
    assert(!lt(b, a));
    assert(!lt(c, b));
    assert(!lt(c, a));
    if !lt(a, b) && !lt(b, c) {
        assert(i < k);
    } else if !lt(a, c) {
        if lt(a, b) {
            assert(!lt(a, c) && !lt(c, b) ==> !lt(a, b));
        } else {
            assert(!lt(b, a) && !lt(a, c) ==> !lt(b, c));
        }
    }
}

/// There is at most one stable order.
pub proof fn lemma_order_unique<K>(
    keys: Seq<K>,
    lt: spec_fn(K, K) -> bool,
    p: Seq<int>,
    q: Seq<int>,
)
    requires
        is_strict_order(lt),
        is_order(keys, lt, p),
        is_order(keys, lt, q),
    ensures
        p == q,
{
    let leq = |i: int, j: int| i == j || stands_before(keys, lt, i, j);
    assert(vstd::relations::total_ordering(leq)) by {
        assert forall|i: int, j: int, k: int| #[trigger] leq(i, j) && #[trigger] leq(j, k) implies leq(i, k) by {
            if i != j && j != k {
                lemma_stands_before_trans(keys, lt, i, j, k);
            }
        }
        assert(vstd::relations::reflexive(leq));
        assert(vstd::relations::antisymmetric(leq));
        assert(vstd::relations::transitive(leq));
        assert(vstd::relations::strongly_connected(leq));
    }
    assert(vstd::relations::sorted_by(p, leq));
    assert(vstd::relations::sorted_by(q, leq));
    vstd::seq_lib::lemma_sorted_unique(p, q, leq);
}

/// Every list of keys has a stable order.
pub proof fn lemma_order<K>(keys: Seq<K>, lt: spec_fn(K, K) -> bool)
    requires
        is_strict_order(lt),
    ensures
        is_order(keys, lt, order(keys, lt)),
{
    let leq = |i: int, j: int| i == j || stands_before(keys, lt, i, j);
    assert(vstd::relations::total_ordering(leq)) by {
        assert forall|i: int, j: int, k: int| #[trigger] leq(i, j) && #[trigger] leq(j, k) implies leq(i, k) by {
            if i != j && j != k {
                lemma_stands_before_trans(keys, lt, i, j, k);
            }
        }
        assert(vstd::relations::reflexive(leq));
        assert(vstd::relations::antisymmetric(leq));
        assert(vstd::relations::transitive(leq));
        assert(vstd::relations::strongly_connected(leq));
    }
    let base = iota(keys.len() as int);
    base.lemma_sort_by_ensures(leq);
    let p = base.sort_by(leq);
    lemma_order_in_range(p, keys.len() as int);
    assert forall|a: int, b: int| #![trigger p[a], p[b]] 0 <= a < b < p.len() implies stands_before(
        keys,
        lt,
        p[a],
        p[b],
    ) by {
        assert(leq(p[a], p[b]));
        assert(p[a] != p[b]);
    }
    assert(is_order(keys, lt, p));
}

/// A listing of all positions is as long as the list and stays within it.
pub proof fn lemma_order_in_range(p: Seq<int>, n: int)
    requires
        0 <= n,
        p.to_multiset() == iota(n).to_multiset(),
    ensures
        p.len() == n,
        forall|k: int| 0 <= k < n ==> 0 <= #[trigger] p[k] < n,
        forall|i: int| 0 <= i < n ==> p.contains(i),
        p.no_duplicates(),
{
    p.to_multiset_ensures();
    iota(n).to_multiset_ensures();
    assert forall|k: int| 0 <= k < n implies 0 <= #[trigger] p[k] < n by {
        assert(p.contains(p[k]));
        assert(p.to_multiset().count(p[k]) > 0);
        assert(iota(n).contains(p[k]));
    }
    assert forall|i: int| 0 <= i < n implies p.contains(i) by {
        assert(iota(n)[i] == i);
        assert(iota(n).contains(i));
        assert(iota(n).to_multiset().count(i) > 0);
    }
    iota(n).lemma_multiset_has_no_duplicates();
    p.lemma_multiset_has_no_duplicates_conv();
}

/// Something with keys at positions `0..size` that can be compared.
pub trait Ranking {
    type Key;

    spec fn keys(&self) -> Seq<Self::Key>;

    spec fn lt() -> spec_fn(Self::Key, Self::Key) -> bool;

    proof fn lt_is_strict()
        ensures
            is_strict_order(Self::lt()),
    ;

    fn size(&self) -> (n: usize)
        ensures
            n == self.keys().len(),
    ;

    fn less(&self, i: usize, j: usize) -> (r: bool)
        requires
            i < self.keys().len(),
            j < self.keys().len(),
        ensures
            r == Self::lt()(self.keys()[i as int], self.keys()[j as int]),
    ;
}

/// The values of a list of positions.
pub open spec fn as_ints(p: Seq<usize>) -> Seq<int> {
    Seq::new(p.len(), |k: int| p[k] as int)
}

spec fn in_order<K>(keys: Seq<K>, lt: spec_fn(K, K) -> bool, p: Seq<int>) -> bool {
    forall|a: int, b: int|
        #![trigger p[a], p[b]]
        0 <= a < b < p.len() ==> stands_before(keys, lt, p[a], p[b])
}

spec fn within(p: Seq<int>, lo: int, hi: int) -> bool {
    forall|a: int| 0 <= a < p.len() ==> lo <= #[trigger] p[a] < hi
}

fn merge<R: Ranking>(r: &R, left: &Vec<usize>, right: &Vec<usize>, lo: Ghost<int>, mid: Ghost<int>, hi: Ghost<int>) -> (out: Vec<usize>)
    requires
        0 <= lo@ <= mid@ <= hi@ <= r.keys().len(),
        in_order(r.keys(), R::lt(), as_ints(left@)),
        in_order(r.keys(), R::lt(), as_ints(right@)),
        within(as_ints(left@), lo@, mid@),
        within(as_ints(right@), mid@, hi@),
    ensures
        in_order(r.keys(), R::lt(), as_ints(out@)),
        within(as_ints(out@), lo@, hi@),
        as_ints(out@).to_multiset() == as_ints(left@).to_multiset().add(as_ints(right@).to_multiset()),
{
    let ghost keys = r.keys();
    let ghost lt = R::lt();
    let ghost l = as_ints(left@);
    let ghost g = as_ints(right@);
    proof {
        R::lt_is_strict();
    }
    let mut out: Vec<usize> = Vec::new();
    let mut i: usize = 0;
    let mut j: usize = 0;
    assert(as_ints(out@) =~= Seq::<int>::empty());
    assert(l.subrange(0, 0) =~= Seq::<int>::empty());
    assert(g.subrange(0, 0) =~= Seq::<int>::empty());
    assert(as_ints(out@).to_multiset() =~= l.subrange(0, 0).to_multiset().add(
        g.subrange(0, 0).to_multiset(),
    )) by {
        broadcast use vstd::multiset::group_multiset_axioms;
        Seq::<int>::empty().to_multiset_ensures();
    }
    while i < left.len() || j < right.len()
        invariant
            keys == r.keys(),
            lt == R::lt(),
            is_strict_order(lt),
            l == as_ints(left@),
            g == as_ints(right@),
            0 <= i <= left@.len(),
            0 <= j <= right@.len(),
            0 <= lo@ <= mid@ <= hi@ <= keys.len(),
            in_order(keys, lt, l),
            in_order(keys, lt, g),
            within(l, lo@, mid@),
            within(g, mid@, hi@),
            in_order(keys, lt, as_ints(out@)),
            within(as_ints(out@), lo@, hi@),
            forall|a: int, b: int|
                0 <= a < out@.len() && i <= b < l.len() ==> #[trigger] stands_before(
                    keys,
                    lt,
                    as_ints(out@)[a],
                    l[b],
                ),
            forall|a: int, b: int|
                0 <= a < out@.len() && j <= b < g.len() ==> #[trigger] stands_before(
                    keys,
                    lt,
                    as_ints(out@)[a],
                    g[b],
                ),
            as_ints(out@).to_multiset() == l.subrange(0, i as int).to_multiset().add(
                g.subrange(0, j as int).to_multiset(),
            ),
        decreases left@.len() - i + right@.len() - j,
    {
        let ghost o = as_ints(out@);
        assert(i < left@.len() ==> l[i as int] == left@[i as int]);
        assert(j < right@.len() ==> g[j as int] == right@[j as int]);
        let take_left = if i >= left.len() {
            false
        } else if j >= right.len() {
            true
        } else {
            assert(l[i as int] < g[j as int]);
            !r.less(right[j], left[i])
        };
        proof {
            broadcast use vstd::multiset::group_multiset_axioms;
            broadcast use vstd::seq_lib::to_multiset_build;

            if take_left {
                assert forall|b: int| j <= b < g.len() implies #[trigger] stands_before(
                    keys,
                    lt,
                    l[i as int],
                    g[b],
                ) by {
                    assert(stands_before(keys, lt, l[i as int], g[j as int]));
                    if b > j {
                        assert(stands_before(keys, lt, g[j as int], g[b]));
                        lemma_stands_before_trans(keys, lt, l[i as int], g[j as int], g[b]);
                    }
                }
                assert(l.subrange(0, i + 1) =~= l.subrange(0, i as int).push(l[i as int]));
                assert(o.push(l[i as int]).to_multiset() =~= l.subrange(0, i + 1).to_multiset().add(
                    g.subrange(0, j as int).to_multiset(),
                ));
            } else {
                assert forall|b: int| i <= b < l.len() implies #[trigger] stands_before(
                    keys,
                    lt,
                    g[j as int],
                    l[b],
                ) by {
                    assert(stands_before(keys, lt, g[j as int], l[i as int]));
                    if b > i {
                        assert(stands_before(keys, lt, l[i as int], l[b]));
                        lemma_stands_before_trans(keys, lt, g[j as int], l[i as int], l[b]);
                    }
                }
                assert(g.subrange(0, j + 1) =~= g.subrange(0, j as int).push(g[j as int]));
                assert(o.push(g[j as int]).to_multiset() =~= l.subrange(
                    0,
                    i as int,
                ).to_multiset().add(g.subrange(0, j + 1).to_multiset()));
            }
        }
        if take_left {
            out.push(left[i]);
            assert(as_ints(out@) =~= o.push(l[i as int]));
            i = i + 1;
        } else {
            out.push(right[j]);
            assert(as_ints(out@) =~= o.push(g[j as int]));
            j = j + 1;
        }
    }
    assert(l.subrange(0, l.len() as int) =~= l);
    assert(g.subrange(0, g.len() as int) =~= g);
    out
}

spec fn range(lo: int, hi: int) -> Seq<int> {
    Seq::new(if hi <= lo { 0 } else { (hi - lo) as nat }, |i: int| lo + i)
}

fn sort_range<R: Ranking>(r: &R, lo: usize, hi: usize) -> (out: Vec<usize>)
    requires
        lo <= hi <= r.keys().len(),
    ensures
        in_order(r.keys(), R::lt(), as_ints(out@)),
        within(as_ints(out@), lo as int, hi as int),
        as_ints(out@).to_multiset() == range(lo as int, hi as int).to_multiset(),
    decreases hi - lo,
{
    let mut out: Vec<usize> = Vec::new();
    if hi == lo {
        assert(as_ints(out@) =~= range(lo as int, hi as int));
        return out;
    }
    if hi - lo == 1 {
        out.push(lo);
        assert(as_ints(out@) =~= range(lo as int, hi as int));
        return out;
    }
    let mid: usize = lo + (hi - lo) / 2;
    let left = sort_range(r, lo, mid);
    let right = sort_range(r, mid, hi);
    let merged = merge(r, &left, &right, Ghost(lo as int), Ghost(mid as int), Ghost(hi as int));
    proof {
        let (a, b) = (range(lo as int, mid as int), range(mid as int, hi as int));
        assert(range(lo as int, hi as int) =~= a + b);
        vstd::seq_lib::lemma_multiset_commutative(a, b);
    }
    merged
}

/// The positions in stable order.
pub fn sort_order<R: Ranking>(r: &R) -> (p: Vec<usize>)
    ensures
        is_order(r.keys(), R::lt(), as_ints(p@)),
        as_ints(p@) == order(r.keys(), R::lt()),
        p@.len() == r.keys().len(),
        forall|k: int| 0 <= k < p@.len() ==> #[trigger] p@[k] < r.keys().len(),
{
    let n: usize = r.size();
    let p = sort_range(r, 0, n);
    proof {
        assert(range(0, n as int) =~= iota(n as int));
        R::lt_is_strict();
        assert(is_order(r.keys(), R::lt(), as_ints(p@)));
        lemma_order_unique(r.keys(), R::lt(), as_ints(p@), order(r.keys(), R::lt()));
        lemma_order_in_range(as_ints(p@), n as int);
        assert forall|k: int| 0 <= k < p@.len() implies #[trigger] p@[k] < r.keys().len() by {
            assert(as_ints(p@)[k] < n);
        }
    }
    p
}

// ── lists of paths ───────────────────────────────────────────────────────────

/// A list whose items each have a path.
pub trait PathList {
    spec fn paths(&self) -> Seq<PathV>;

    fn count(&self) -> (n: usize)
        ensures
            n == self.paths().len(),
    ;

    fn path_at(&self, i: usize) -> (p: &FsPath)
        requires
            i < self.paths().len(),
        ensures
            p@ == self.paths()[i as int],
    ;
}

impl PathList for Vec<FsPath> {
    open spec fn paths(&self) -> Seq<PathV> {
        paths_view(self@)
    }

    fn count(&self) -> (n: usize) {
        self.len()
    }

    fn path_at(&self, i: usize) -> (p: &FsPath) {
        &self[i]
    }
}

/// A list of paths, smallest first.
pub struct Ascending<'a, L: PathList> {
    pub list: &'a L,
}

impl<'a, L: PathList> Ranking for Ascending<'a, L> {
    type Key = PathV;

    open spec fn keys(&self) -> Seq<PathV> {
        self.list.paths()
    }

    open spec fn lt() -> spec_fn(PathV, PathV) -> bool {
        by_path()
    }

    proof fn lt_is_strict() {
        lemma_by_path_strict();
    }

    fn size(&self) -> (n: usize) {
        self.list.count()
    }

    fn less(&self, i: usize, j: usize) -> (r: bool) {
        path_before(self.list.path_at(i), self.list.path_at(j))
    }
}

/// A list of paths, largest first.
pub struct Descending<'a, L: PathList> {
    pub list: &'a L,
}

impl<'a, L: PathList> Ranking for Descending<'a, L> {
    type Key = PathV;

    open spec fn keys(&self) -> Seq<PathV> {
        self.list.paths()
    }

    open spec fn lt() -> spec_fn(PathV, PathV) -> bool {
        by_path_down()
    }

    proof fn lt_is_strict() {
        lemma_by_path_strict();
    }

    fn size(&self) -> (n: usize) {
        self.list.count()
    }

    fn less(&self, i: usize, j: usize) -> (r: bool) {
        path_before(self.list.path_at(j), self.list.path_at(i))
    }
}

/// Paths in ascending order.
pub open spec fn ascending(s: Seq<PathV>) -> Seq<PathV> {
    sorted_with(s, s, by_path())
}

/// Paths in descending order.
pub open spec fn descending(s: Seq<PathV>) -> Seq<PathV> {
    sorted_with(s, s, by_path_down())
}

/// Something that has a value and can be copied.
pub trait Item: Sized {
    type Value;

    spec fn value(&self) -> Self::Value;

    fn dup(&self) -> (r: Self)
        ensures
            r.value() == self.value(),
    ;
}

/// The values of a list.
pub open spec fn values<T: Item>(v: Seq<T>) -> Seq<T::Value> {
    Seq::new(v.len(), |i: int| v[i].value())
}

impl Item for FsPath {
    type Value = SpelledV;

    open spec fn value(&self) -> SpelledV {
        self.named()
    }

    fn dup(&self) -> (r: FsPath) {
        self.clone()
    }
}

/// The items at the given positions.
pub fn pick<T: Item>(v: &Vec<T>, p: &Vec<usize>) -> (out: Vec<T>)
    requires
        forall|k: int| 0 <= k < p@.len() ==> #[trigger] p@[k] < v@.len(),
    ensures
        values(out@) == Seq::new(p@.len(), |k: int| values(v@)[p@[k] as int]),
{
    let mut out: Vec<T> = Vec::new();
    let mut k: usize = 0;
    while k < p.len()
        invariant
            0 <= k <= p@.len(),
            forall|k: int| 0 <= k < p@.len() ==> #[trigger] p@[k] < v@.len(),
            out@.len() == k,
            forall|a: int| 0 <= a < k ==> #[trigger] out@[a].value() == v@[p@[a] as int].value(),
        decreases p@.len() - k,
    {
        out.push(v[p[k]].dup());
        k = k + 1;
    }
    assert(values(out@) =~= Seq::new(p@.len(), |k: int| values(v@)[p@[k] as int]));
    out
}

/// Sorts a list by path.
pub fn sort_items<T: Item>(v: &Vec<T>) -> (out: Vec<T>) where Vec<T>: PathList
    requires
        v.paths().len() == v@.len(),
    ensures
        values(out@) == sorted_with(values(v@), v.paths(), by_path()),
{
    let p = sort_order(&Ascending { list: v });
    let out = pick(v, &p);
    proof {
        let o = order(v.paths(), by_path());
        assert forall|k: int| 0 <= k < v@.len() implies p@[k] as int == #[trigger] o[k] by {
            assert(as_ints(p@)[k] == p@[k]);
        }
        assert(values(out@) =~= sorted_with(values(v@), v.paths(), by_path()));
    }
    out
}

/// Sorts paths ascending.
pub fn sort_ascending(v: &Vec<FsPath>) -> (out: Vec<FsPath>)
    ensures
        paths_view(out@) == ascending(paths_view(v@)),
        named_view(out@) == sorted_with(named_view(v@), paths_view(v@), by_path()),
{
    let p = sort_order(&Ascending { list: v });
    let out = pick(v, &p);
    proof {
        let o = order(paths_view(v@), by_path());
        assert forall|k: int| 0 <= k < v@.len() implies p@[k] as int == #[trigger] o[k] by {
            assert(as_ints(p@)[k] == p@[k]);
        }
        assert(values(v@) =~= named_view(v@));
        assert(values(out@) =~= named_view(out@));
        assert(named_view(out@) =~= sorted_with(named_view(v@), paths_view(v@), by_path()));
        assert(paths_view(out@) =~= bare(named_view(out@)));
        assert(paths_view(v@) =~= bare(named_view(v@)));
        assert(paths_view(out@) =~= ascending(paths_view(v@)));
    }
    out
}

/// Sorts paths descending.
pub fn sort_descending(v: &Vec<FsPath>) -> (out: Vec<FsPath>)
    ensures
        paths_view(out@) == descending(paths_view(v@)),
        named_view(out@) == sorted_with(named_view(v@), paths_view(v@), by_path_down()),
{
    let p = sort_order(&Descending { list: v });
    let out = pick(v, &p);
    proof {
        let o = order(paths_view(v@), by_path_down());
        assert forall|k: int| 0 <= k < v@.len() implies p@[k] as int == #[trigger] o[k] by {
            assert(as_ints(p@)[k] == p@[k]);
        }
        assert(values(v@) =~= named_view(v@));
        assert(values(out@) =~= named_view(out@));
        assert(named_view(out@) =~= sorted_with(named_view(v@), paths_view(v@), by_path_down()));
        assert(paths_view(out@) =~= bare(named_view(out@)));
        assert(paths_view(v@) =~= bare(named_view(v@)));
        assert(paths_view(out@) =~= descending(paths_view(v@)));
    }
    out
}

/// The last position in `s` that holds `p`.
pub open spec fn last_at(s: Seq<PathV>, p: PathV) -> Option<int>
    decreases s.len(),
{
    if s.len() == 0 {
        None
    } else if s.last() == p {
        Some(s.len() - 1)
    } else {
        last_at(s.drop_last(), p)
    }
}

/// [`last_at`] is the greatest position that holds the path, and `None` where none does.
pub proof fn lemma_last_at(s: Seq<PathV>, p: PathV)
    ensures
        last_at(s, p) is Some <==> s.contains(p),
        last_at(s, p) matches Some(i) ==> 0 <= i < s.len() && s[i] == p && forall|j: int|
            i < j < s.len() ==> #[trigger] s[j] != p,
    decreases s.len(),
{
    if s.len() > 0 {
        let d = s.drop_last();
        lemma_last_at(d, p);
        assert(s[s.len() - 1] == s.last());
        if s.last() != p {
            if s.contains(p) {
                let k = choose|k: int| 0 <= k < s.len() && s[k] == p;
                assert(d[k] == p);
                assert(d.contains(p));
            }
            if d.contains(p) {
                let k = choose|k: int| 0 <= k < d.len() && d[k] == p;
                assert(s[k] == p);
            }
            match last_at(d, p) {
                Some(i) => {
                    assert forall|j: int| i < j < s.len() implies #[trigger] s[j] != p by {
                        if j < d.len() {
                            assert(d[j] == s[j]);
                        }
                    }
                },
                None => {},
            }
        }
    }
}

/// A way to find items of a list by path.
pub struct PathIndex {
    order: Vec<usize>,
}

impl PathIndex {
    /// The index belongs to a list with these paths.
    pub closed spec fn indexes(&self, s: Seq<PathV>) -> bool {
        is_order(s, by_path(), as_ints(self.order@))
    }

    /// Indexes a list.
    pub fn build<L: PathList>(list: &L) -> (r: PathIndex)
        ensures
            r.indexes(list.paths()),
    {
        PathIndex { order: sort_order(&Ascending { list }) }
    }

    /// The last position in the list that has this path.
    pub fn find<L: PathList>(&self, list: &L, p: &FsPath) -> (r: Option<usize>)
        requires
            self.indexes(list.paths()),
        ensures
            r is Some <==> last_at(list.paths(), p@) is Some,
            r matches Some(i) ==> i < list.paths().len() && last_at(list.paths(), p@) == Some(i as int),
    {
        let ghost s = list.paths();
        let ghost o = as_ints(self.order@);
        proof {
            lemma_order_in_range(o, s.len() as int);
            lemma_last_at(s, p@);
            lemma_by_path_strict();
        }
        let mut lo: usize = 0;
        let mut hi: usize = self.order.len();
        while lo < hi
            invariant
                s == list.paths(),
                o == as_ints(self.order@),
                o.len() == s.len(),
                is_order(s, by_path(), o),
                is_strict_order(by_path()),
                forall|k: int| 0 <= k < s.len() ==> 0 <= #[trigger] o[k] < s.len(),
                0 <= lo <= hi <= o.len(),
                forall|k: int| 0 <= k < lo ==> !path_lt(p@, s[#[trigger] o[k]]),
                forall|k: int| hi <= k < o.len() ==> path_lt(p@, s[#[trigger] o[k]]),
            decreases hi - lo,
        {
            let mid: usize = lo + (hi - lo) / 2;
            assert(o[mid as int] == self.order@[mid as int]);
            if path_before(p, list.path_at(self.order[mid])) {
                assert forall|k: int| mid <= k < o.len() implies path_lt(p@, s[#[trigger] o[k]]) by {
                    if k > mid {
                        assert(stands_before(s, by_path(), o[mid as int], o[k]));
                        let lt = by_path();
                        assert(!lt(s[o[k]], s[o[mid as int]]));
                        assert(lt(p@, s[o[mid as int]]));
                        if !lt(p@, s[o[k]]) {
                            assert(!lt(p@, s[o[mid as int]]));
                        }
                    }
                }
                hi = mid;
            } else {
                assert forall|k: int| 0 <= k <= mid implies !path_lt(p@, s[#[trigger] o[k]]) by {
                    if k < mid {
                        assert(stands_before(s, by_path(), o[k], o[mid as int]));
                        let lt = by_path();
                        assert(!lt(s[o[mid as int]], s[o[k]]));
                        assert(!lt(p@, s[o[mid as int]]));
                    }
                }
                lo = mid + 1;
            }
        }
        proof {
            assert forall|i: int| 0 <= i < s.len() && s[i] == p@ implies exists|k: int|
                0 <= k < lo && o[k] == i by {
                let k = choose|k: int| 0 <= k < o.len() && o[k] == i;
                assert(o.contains(i));
                lemma_path_total(p@, s[o[k]]);
                assert(k < lo);
            }
        }
        if lo > 0 {
            let c: usize = self.order[lo - 1];
            assert(o[lo - 1] == c);
            if list.path_at(c).same(p) {
                proof {
                    assert forall|j: int| c < j < s.len() implies #[trigger] s[j] != p@ by {
                        if s[j] == p@ {
                            let k = choose|k: int| 0 <= k < lo && o[k] == j;
                            if k < lo - 1 {
                                assert(stands_before(s, by_path(), o[k], o[lo - 1]));
                                lemma_path_total(p@, p@);
                            }
                        }
                    }
                    assert(s.contains(p@));
                }
                return Some(c);
            }
            proof {
                if s.contains(p@) {
                    let i = choose|i: int| 0 <= i < s.len() && s[i] == p@;
                    let k = choose|k: int| 0 <= k < lo && o[k] == i;
                    assert(stands_before(s, by_path(), o[k], o[lo - 1]));
                    lemma_path_total(p@, s[c as int]);
                    lemma_path_total(s[c as int], p@);
                }
            }
        }
        None
    }
}

// ── what sorting keeps ───────────────────────────────────────────────────────

/// Sorting keeps exactly the items there were.
pub proof fn lemma_sorted_contains<T, K>(items: Seq<T>, keys: Seq<K>, lt: spec_fn(K, K) -> bool, x: T)
    requires
        is_strict_order(lt),
        items.len() == keys.len(),
    ensures
        sorted_with(items, keys, lt).len() == items.len(),
        sorted_with(items, keys, lt).contains(x) <==> items.contains(x),
{
    lemma_order(keys, lt);
    let o = order(keys, lt);
    lemma_order_in_range(o, keys.len() as int);
    let out = sorted_with(items, keys, lt);
    if out.contains(x) {
        let k = choose|k: int| 0 <= k < out.len() && out[k] == x;
        assert(items[o[k]] == x);
    }
    if items.contains(x) {
        let i = choose|i: int| 0 <= i < items.len() && items[i] == x;
        assert(o.contains(i));
        let k = choose|k: int| 0 <= k < o.len() && o[k] == i;
        assert(out[k] == x);
    }
}

/// Sorting puts no item before one with a smaller key.
pub proof fn lemma_sorted_in_order<T, K>(items: Seq<T>, keys: Seq<K>, lt: spec_fn(K, K) -> bool, a: int, b: int)
    requires
        is_strict_order(lt),
        items.len() == keys.len(),
        0 <= a < b < items.len(),
    ensures
        0 <= order(keys, lt)[a] < items.len(),
        0 <= order(keys, lt)[b] < items.len(),
        order(keys, lt)[a] != order(keys, lt)[b],
        !lt(keys[order(keys, lt)[b]], keys[order(keys, lt)[a]]),
{
    lemma_order(keys, lt);
    let o = order(keys, lt);
    lemma_order_in_range(o, keys.len() as int);
    assert(stands_before(keys, lt, o[a], o[b]));
}

/// Sorting paths ascending keeps the paths and puts none before a smaller one.
pub proof fn lemma_ascending(s: Seq<PathV>)
    ensures
        ascending(s).len() == s.len(),
        forall|x: PathV| ascending(s).contains(x) <==> #[trigger] s.contains(x),
        forall|a: int, b: int|
            0 <= a < b < s.len() ==> !path_lt(#[trigger] ascending(s)[b], #[trigger] ascending(s)[a]),
{
    lemma_by_path_strict();
    assert forall|x: PathV| ascending(s).contains(x) <==> #[trigger] s.contains(x) by {
        lemma_sorted_contains(s, s, by_path(), x);
    }
    assert forall|a: int, b: int| 0 <= a < b < s.len() implies !path_lt(
        #[trigger] ascending(s)[b],
        #[trigger] ascending(s)[a],
    ) by {
        lemma_sorted_in_order(s, s, by_path(), a, b);
    }
}

/// Sorting paths descending keeps the paths and puts none before a greater one.
pub proof fn lemma_descending(s: Seq<PathV>)
    ensures
        descending(s).len() == s.len(),
        forall|x: PathV| descending(s).contains(x) <==> #[trigger] s.contains(x),
        forall|a: int, b: int|
            0 <= a < b < s.len() ==> !path_lt(#[trigger] descending(s)[a], #[trigger] descending(s)[b]),
{
    lemma_by_path_strict();
    assert forall|x: PathV| descending(s).contains(x) <==> #[trigger] s.contains(x) by {
        lemma_sorted_contains(s, s, by_path_down(), x);
    }
    assert forall|a: int, b: int| 0 <= a < b < s.len() implies !path_lt(
        #[trigger] descending(s)[a],
        #[trigger] descending(s)[b],
    ) by {
        lemma_sorted_in_order(s, s, by_path_down(), a, b);
    }
}

pub proof fn lemma_values_push<T: Item>(v: Seq<T>, x: T)
    ensures
        values(v.push(x)) == values(v).push(x.value()),
{
    assert(values(v.push(x)) =~= values(v).push(x.value()));
}

pub proof fn lemma_values_add<T: Item>(a: Seq<T>, b: Seq<T>)
    ensures
        values(a + b) == values(a) + values(b),
{
    assert(values(a + b) =~= values(a) + values(b));
}

/// Appends an item to a list.
pub fn add_item<T: Item>(v: &mut Vec<T>, x: T)
    ensures
        values(final(v)@) == values(old(v)@).push(x.value()),
{
    proof {
        lemma_values_push(v@, x);
    }
    v.push(x);
}

/// A copy of a list.
pub fn copy_items<T: Item>(v: &Vec<T>) -> (r: Vec<T>)
    ensures
        values(r@) == values(v@),
{
    let mut r: Vec<T> = Vec::new();
    let mut i: usize = 0;
    while i < v.len()
        invariant
            0 <= i <= v@.len(),
            r@.len() == i,
            forall|k: int| 0 <= k < i ==> (#[trigger] r@[k]).value() == v@[k].value(),
        decreases v@.len() - i,
    {
        r.push(v[i].dup());
        i = i + 1;
    }
    assert(values(r@) =~= values(v@));
    r
}

} // verus!
