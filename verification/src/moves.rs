//! Pairing new files with extra files of the same content.
//!
//! The candidates of each side come as a list of digests. Candidates with the same digest pair up
//! first with first, second with second, and so on, so that each takes part in at most one pair
//! and no two of the same content are left over on both sides.
use vstd::prelude::*;

use crate::hash::Digest;
use crate::order::{Ranking, as_ints, by_bytes, bytes_before, bytes_lt, is_order, is_strict_order, lemma_by_bytes_strict, lemma_bytes_total, lemma_order_in_range, sort_order, stands_before};

verus! {

/// How often `d` occurs among the first `n` digests.
pub open spec fn occurrences(h: Seq<Seq<u8>>, n: int, d: Seq<u8>) -> nat
    decreases n,
{
    if n <= 0 {
        0
    } else if h[n - 1] == d {
        occurrences(h, n - 1, d) + 1
    } else {
        occurrences(h, n - 1, d)
    }
}

/// How many candidates before position `k` have the same content.
pub open spec fn rank(h: Seq<Seq<u8>>, k: int) -> nat {
    occurrences(h, k, h[k])
}

/// Candidate `k` of `a` and candidate `q` of `b` have the same content and the same rank.
pub open spec fn pairs_up(a: Seq<Seq<u8>>, b: Seq<Seq<u8>>, k: int, q: int) -> bool {
    0 <= q < b.len() && a[k] == b[q] && rank(a, k) == rank(b, q)
}

/// The candidate of `b` that candidate `k` of `a` is paired with.
pub open spec fn partner(a: Seq<Seq<u8>>, b: Seq<Seq<u8>>, k: int) -> Option<int> {
    if exists|q: int| pairs_up(a, b, k, q) {
        Some(choose|q: int| pairs_up(a, b, k, q))
    } else {
        None
    }
}

proof fn lemma_occurrences_step(h: Seq<Seq<u8>>, m: int, n: int, d: Seq<u8>)
    requires
        0 <= m <= n,
    ensures
        occurrences(h, m, d) <= occurrences(h, n, d),
        (forall|x: int| m <= x < n ==> #[trigger] h[x] != d) ==> occurrences(h, m, d) == occurrences(
            h,
            n,
            d,
        ),
        (exists|x: int| m <= x < n && #[trigger] h[x] == d) ==> occurrences(h, m, d) < occurrences(h, n, d),
    decreases n - m,
{
    if m < n {
        lemma_occurrences_step(h, m, n - 1, d);
        if h[n - 1] != d {
            if exists|x: int| m <= x < n && #[trigger] h[x] == d {
                let x = choose|x: int| m <= x < n && #[trigger] h[x] == d;
                assert(m <= x < n - 1 && h[x] == d);
            }
        }
    }
}

/// Candidates of the same content have different ranks.
pub proof fn lemma_rank_distinct(h: Seq<Seq<u8>>, k: int, q: int)
    requires
        0 <= k < q,
        h[k] == h[q],
    ensures
        rank(h, k) < rank(h, q),
{
    assert(h[k] == h[k]);
    lemma_occurrences_step(h, k, q, h[k]);
}

/// A candidate has at most one partner.
pub proof fn lemma_partner(a: Seq<Seq<u8>>, b: Seq<Seq<u8>>, k: int, q: int)
    requires
        pairs_up(a, b, k, q),
    ensures
        partner(a, b, k) == Some(q),
{
    let p = choose|p: int| pairs_up(a, b, k, p);
    assert(pairs_up(a, b, k, p));
    if p < q {
        lemma_rank_distinct(b, p, q);
    } else if q < p {
        lemma_rank_distinct(b, q, p);
    }
}

/// Two candidates never share a partner.
pub proof fn lemma_partner_injective(a: Seq<Seq<u8>>, b: Seq<Seq<u8>>, k: int, l: int)
    requires
        0 <= k < a.len(),
        0 <= l < a.len(),
        partner(a, b, k) is Some,
        partner(a, b, k) == partner(a, b, l),
    ensures
        k == l,
{
    let q = partner(a, b, k)->0;
    assert(pairs_up(a, b, k, q));
    assert(pairs_up(a, b, l, q));
    if k < l {
        lemma_rank_distinct(a, k, l);
    } else if l < k {
        lemma_rank_distinct(a, l, k);
    }
}

/// Of `d`'s occurrences among the first `n` digests there is one of each rank.
proof fn lemma_rank_taken(h: Seq<Seq<u8>>, n: int, d: Seq<u8>, r: nat) -> (x: int)
    requires
        0 <= n <= h.len(),
        r < occurrences(h, n, d),
    ensures
        0 <= x < n,
        h[x] == d,
        rank(h, x) == r,
    decreases n,
{
    if h[n - 1] == d && occurrences(h, n - 1, d) == r {
        n - 1
    } else {
        lemma_rank_taken(h, n - 1, d, r)
    }
}

/// No two candidates of the same content are left over on both sides.
pub proof fn lemma_nothing_left_over(a: Seq<Seq<u8>>, b: Seq<Seq<u8>>, k: int, q: int)
    requires
        0 <= k < a.len(),
        0 <= q < b.len(),
        partner(a, b, k) is None,
        forall|l: int| 0 <= l < a.len() ==> #[trigger] partner(a, b, l) != Some(q),
    ensures
        a[k] != b[q],
{
    if a[k] == b[q] {
        let (r, t) = (rank(a, k), rank(b, q));
        if r < t {
            let y = lemma_rank_taken(b, q, b[q], r);
            assert(pairs_up(a, b, k, y));
        } else if r == t {
            assert(pairs_up(a, b, k, q));
        } else {
            let l = lemma_rank_taken(a, k, a[k], t);
            assert(pairs_up(a, b, l, q));
            lemma_partner(a, b, l, q);
        }
    }
}

/// The digests of a list of candidates.
pub open spec fn digests(v: Seq<(usize, Digest)>) -> Seq<Seq<u8>> {
    Seq::new(v.len(), |i: int| v[i].1@)
}

struct ByDigest<'a> {
    list: &'a Vec<(usize, Digest)>,
}

impl<'a> Ranking for ByDigest<'a> {
    type Key = Seq<u8>;

    closed spec fn keys(&self) -> Seq<Seq<u8>> {
        digests(self.list@)
    }

    closed spec fn lt() -> spec_fn(Seq<u8>, Seq<u8>) -> bool {
        by_bytes()
    }

    proof fn lt_is_strict() {
        lemma_by_bytes_strict();
    }

    fn size(&self) -> (n: usize) {
        self.list.len()
    }

    fn less(&self, i: usize, j: usize) -> (r: bool) {
        bytes_before(self.list[i].1.as_bytes().as_slice(), self.list[j].1.as_bytes().as_slice())
    }
}

/// In a list sorted stably by digest, the rank of an item is how far it stands from the first of
/// its content.
proof fn lemma_sorted_rank(h: Seq<Seq<u8>>, o: Seq<int>, i: int)
    requires
        is_order(h, by_bytes(), o),
        0 <= i < o.len(),
    ensures
        i == 0 || h[o[i - 1]] != h[o[i]] ==> rank(h, o[i]) == 0,
        i > 0 && h[o[i - 1]] == h[o[i]] ==> rank(h, o[i]) == rank(h, o[i - 1]) + 1,
{
    lemma_by_bytes_strict();
    lemma_order_in_range(o, h.len() as int);
    let d = h[o[i]];
    if i > 0 && h[o[i - 1]] == d {
        let (x, y) = (o[i - 1], o[i]);
        assert(stands_before(h, by_bytes(), x, y));
        lemma_bytes_total(d, d, 0);
        assert(x < y);
        assert forall|z: int| x + 1 <= z < y implies #[trigger] h[z] != d by {
            if h[z] == d {
                assert(o.contains(z));
                let p = choose|p: int| 0 <= p < o.len() && o[p] == z;
                if p < i - 1 {
                    assert(stands_before(h, by_bytes(), o[p], x));
                } else if p > i {
                    assert(stands_before(h, by_bytes(), y, o[p]));
                }
            }
        }
        lemma_occurrences_step(h, x + 1, y, d);
        assert(occurrences(h, x + 1, d) == occurrences(h, x, d) + 1);
    } else {
        assert forall|z: int| 0 <= z < o[i] implies #[trigger] h[z] != d by {
            if h[z] == d {
                assert(o.contains(z));
                let p = choose|p: int| 0 <= p < o.len() && o[p] == z;
                lemma_bytes_total(d, d, 0);
                if p > i {
                    assert(stands_before(h, by_bytes(), o[i], o[p]));
                } else {
                    assert(p < i);
                    if p < i - 1 {
                        assert(stands_before(h, by_bytes(), o[p], o[i - 1]));
                    }
                    assert(stands_before(h, by_bytes(), o[i - 1], o[i]));
                    lemma_bytes_total(h[o[i - 1]], d, 0);
                }
            }
        }
        lemma_occurrences_step(h, 0, o[i], d);
    }
}

/// Pairs candidates by content: for each of `adds`, the position of its partner in `rems`.
pub fn pair_up(adds: &Vec<(usize, Digest)>, rems: &Vec<(usize, Digest)>) -> (r: Vec<Option<usize>>)
    ensures
        r@.len() == adds@.len(),
        forall|k: int|
            0 <= k < r@.len() ==> crate::manifest::opt_int(#[trigger] r@[k]) == partner(
                digests(adds@),
                digests(rems@),
                k,
            ),
        forall|k: int| 0 <= k < r@.len() ==> (#[trigger] r@[k] matches Some(q) ==> q < rems@.len()),
{
    let ghost a = digests(adds@);
    let ghost b = digests(rems@);
    let pa = sort_order(&ByDigest { list: adds });
    let pb = sort_order(&ByDigest { list: rems });
    let ghost oa = as_ints(pa@);
    let ghost ob = as_ints(pb@);
    let n: usize = adds.len();
    let m: usize = rems.len();
    proof {
        lemma_by_bytes_strict();
        lemma_order_in_range(oa, n as int);
        lemma_order_in_range(ob, m as int);
    }
    let mut r: Vec<Option<usize>> = Vec::new();
    let mut z: usize = 0;
    while z < n
        invariant
            0 <= z <= n,
            r@.len() == z,
            forall|k: int| 0 <= k < z ==> #[trigger] r@[k] is None,
        decreases n - z,
    {
        r.push(None);
        z = z + 1;
    }
    let mut i: usize = 0;
    let mut j: usize = 0;
    while i < n
        invariant
            n == adds@.len(),
            m == rems@.len(),
            a == digests(adds@),
            b == digests(rems@),
            oa == as_ints(pa@),
            ob == as_ints(pb@),
            pa@.len() == n,
            pb@.len() == m,
            r@.len() == n,
            is_order(a, by_bytes(), oa),
            is_order(b, by_bytes(), ob),
            is_strict_order(by_bytes()),
            oa.no_duplicates(),
            forall|k: int| 0 <= k < n ==> 0 <= #[trigger] oa[k] < n,
            forall|k: int| 0 <= k < m ==> 0 <= #[trigger] ob[k] < m,
            forall|k: int| 0 <= k < n ==> oa.contains(k),
            forall|k: int| 0 <= k < m ==> ob.contains(k),
            0 <= i <= n,
            0 <= j <= m,
            // what was passed is not beyond what is next on the other side
            i < n ==> forall|p: int| 0 <= p < j ==> !bytes_lt(a[oa[i as int]], b[#[trigger] ob[p]]),
            j < m ==> forall|p: int| 0 <= p < i ==> !bytes_lt(b[ob[j as int]], a[#[trigger] oa[p]]),
            // and of the same content only earlier ranks were passed
            i < n ==> forall|p: int|
                0 <= p < j && b[#[trigger] ob[p]] == a[oa[i as int]] ==> rank(b, ob[p]) < rank(
                    a,
                    oa[i as int],
                ),
            j < m ==> forall|p: int|
                0 <= p < i && a[#[trigger] oa[p]] == b[ob[j as int]] ==> rank(a, oa[p]) < rank(
                    b,
                    ob[j as int],
                ),
            forall|p: int|
                0 <= p < i ==> crate::manifest::opt_int(r@[#[trigger] oa[p]]) == partner(a, b, oa[p])
                    && (r@[oa[p]] matches Some(q) ==> q < m),
            forall|p: int| i <= p < n ==> r@[#[trigger] oa[p]] is None,
        decreases n - i + m - j,
    {
        assert(oa[i as int] == pa@[i as int]);
        let x: usize = pa[i];
        let ghost d = a[x as int];
        proof {
            lemma_sorted_rank(a, oa, i as int);
            if i + 1 < n {
                lemma_sorted_rank(a, oa, i + 1);
                assert(stands_before(a, by_bytes(), oa[i as int], oa[i + 1]));
                lemma_bytes_total(a[oa[i as int]], a[oa[i + 1]], 0);
            }
            lemma_bytes_total(d, d, 0);
        }
        if j >= m {
            // nothing is left to pair with
            proof {
                assert forall|q: int| !pairs_up(a, b, x as int, q) by {
                    if pairs_up(a, b, x as int, q) {
                        assert(ob.contains(q));
                        let p = choose|p: int| 0 <= p < ob.len() && ob[p] == q;
                        assert(rank(b, ob[p]) < rank(a, oa[i as int]));
                    }
                }
                if i + 1 < n {
                    assert forall|p: int| 0 <= p < j implies !bytes_lt(
                        a[oa[i + 1]],
                        b[#[trigger] ob[p]],
                    ) by {
                        let lt = by_bytes();
                        assert(!lt(a[oa[i as int]], b[ob[p]]));
                        assert(!lt(a[oa[i + 1]], a[oa[i as int]]));
                    }
                    assert forall|p: int|
                        0 <= p < j && b[#[trigger] ob[p]] == a[oa[i + 1]] implies rank(b, ob[p]) < rank(
                        a,
                        oa[i + 1],
                    ) by {
                        lemma_bytes_total(a[oa[i as int]], b[ob[p]], 0);
                    }
                }
            }
            i = i + 1;
        } else {
            assert(ob[j as int] == pb@[j as int]);
            let y: usize = pb[j];
            let ghost e = b[y as int];
            proof {
                lemma_sorted_rank(b, ob, j as int);
                if j + 1 < m {
                    lemma_sorted_rank(b, ob, j + 1);
                    assert(stands_before(b, by_bytes(), ob[j as int], ob[j + 1]));
                    lemma_bytes_total(b[ob[j as int]], b[ob[j + 1]], 0);
                }
                lemma_bytes_total(d, e, 0);
            }
            let da = adds[x].1.as_bytes().as_slice();
            let db = rems[y].1.as_bytes().as_slice();
            if bytes_before(da, db) {
                proof {
                    assert forall|q: int| !pairs_up(a, b, x as int, q) by {
                        if pairs_up(a, b, x as int, q) {
                            assert(ob.contains(q));
                            let p = choose|p: int| 0 <= p < ob.len() && ob[p] == q;
                            if p >= j {
                                if p > j {
                                    assert(stands_before(b, by_bytes(), ob[j as int], ob[p]));
                                }
                            } else {
                                assert(rank(b, ob[p]) < rank(a, oa[i as int]));
                            }
                        }
                    }
                    if i + 1 < n {
                        assert forall|p: int| 0 <= p < j implies !bytes_lt(
                            a[oa[i + 1]],
                            b[#[trigger] ob[p]],
                        ) by {
                            let lt = by_bytes();
                            assert(!lt(a[oa[i as int]], b[ob[p]]));
                            assert(!lt(a[oa[i + 1]], a[oa[i as int]]));
                        }
                        assert forall|p: int|
                            0 <= p < j && b[#[trigger] ob[p]] == a[oa[i + 1]] implies rank(b, ob[p])
                            < rank(a, oa[i + 1]) by {
                            lemma_bytes_total(a[oa[i as int]], b[ob[p]], 0);
                        }
                    }
                }
                i = i + 1;
            } else if bytes_before(db, da) {
                proof {
                    if j + 1 < m {
                        assert forall|p: int| 0 <= p < i implies !bytes_lt(
                            b[ob[j + 1]],
                            a[#[trigger] oa[p]],
                        ) by {
                            let lt = by_bytes();
                            assert(!lt(b[ob[j as int]], a[oa[p]]));
                            assert(!lt(b[ob[j + 1]], b[ob[j as int]]));
                        }
                        assert forall|p: int|
                            0 <= p < i && a[#[trigger] oa[p]] == b[ob[j + 1]] implies rank(a, oa[p])
                            < rank(b, ob[j + 1]) by {
                            lemma_bytes_total(b[ob[j as int]], a[oa[p]], 0);
                        }
                    }
                }
                j = j + 1;
            } else {
                proof {
                    assert(d == e);
                    // both sides have passed the same number of items of this content
                    if rank(a, x as int) < rank(b, y as int) {
                        assert(rank(b, ob[j - 1]) < rank(a, oa[i as int]));
                        assert(false);
                    }
                    if rank(b, y as int) < rank(a, x as int) {
                        assert(rank(a, oa[i - 1]) < rank(b, ob[j as int]));
                        assert(false);
                    }
                    assert(pairs_up(a, b, x as int, y as int));
                    lemma_partner(a, b, x as int, y as int);
                    if i + 1 < n {
                        assert forall|p: int| 0 <= p < j + 1 implies !bytes_lt(
                            a[oa[i + 1]],
                            b[#[trigger] ob[p]],
                        ) by {
                            let lt = by_bytes();
                            assert(!lt(a[oa[i as int]], b[ob[p]]));
                            assert(!lt(a[oa[i + 1]], a[oa[i as int]]));
                        }
                        assert forall|p: int|
                            0 <= p < j + 1 && b[#[trigger] ob[p]] == a[oa[i + 1]] implies rank(
                            b,
                            ob[p],
                        ) < rank(a, oa[i + 1]) by {
                            lemma_bytes_total(a[oa[i as int]], b[ob[p]], 0);
                        }
                    }
                    if j + 1 < m {
                        assert forall|p: int| 0 <= p < i + 1 implies !bytes_lt(
                            b[ob[j + 1]],
                            a[#[trigger] oa[p]],
                        ) by {
                            let lt = by_bytes();
                            assert(!lt(b[ob[j as int]], a[oa[p]]));
                            assert(!lt(b[ob[j + 1]], b[ob[j as int]]));
                        }
                        assert forall|p: int|
                            0 <= p < i + 1 && a[#[trigger] oa[p]] == b[ob[j + 1]] implies rank(
                            a,
                            oa[p],
                        ) < rank(b, ob[j + 1]) by {
                            lemma_bytes_total(b[ob[j as int]], a[oa[p]], 0);
                        }
                    }
                }
                let ghost before = r@;
                r.set(x, Some(y));
                proof {
                    assert forall|p: int| 0 <= p < n && p != i implies r@[#[trigger] oa[p]] == before[oa[p]] by {
                        assert(oa[p] != oa[i as int]);
                    }
                }
                i = i + 1;
                j = j + 1;
            }
        }
    }
    proof {
        assert forall|k: int| 0 <= k < n implies crate::manifest::opt_int(#[trigger] r@[k]) == partner(
            a,
            b,
            k,
        ) && (r@[k] matches Some(q) ==> q < m) by {
            assert(oa.contains(k));
            let p = choose|p: int| 0 <= p < oa.len() && oa[p] == k;
            assert(oa[p] == k);
        }
    }
    r
}

/// Files of one content are paired in order: the first with the first, and a later one with a later one.
pub proof fn equal_files_pair_in_order(a: Seq<Seq<u8>>, b: Seq<Seq<u8>>, k: int, l: int)
    requires
        0 <= k < l < a.len(),
        a[k] == a[l],
        partner(a, b, k) is Some,
        partner(a, b, l) is Some,
    ensures
        0 <= partner(a, b, k)->0 < partner(a, b, l)->0 < b.len(),
        b[partner(a, b, k)->0] == a[k],
        b[partner(a, b, l)->0] == a[l],
{
    let (q, r) = (partner(a, b, k)->0, partner(a, b, l)->0);
    assert(pairs_up(a, b, k, q));
    assert(pairs_up(a, b, l, r));
    lemma_rank_distinct(a, k, l);
    if r < q {
        lemma_rank_distinct(b, r, q);
    }
}

/// The first file of a content is paired with the first of that content on the other side, wherever
/// there is one, and with nothing where there is none.
pub proof fn the_first_pairs_with_the_first(a: Seq<Seq<u8>>, b: Seq<Seq<u8>>, k: int, q: int)
    requires
        0 <= k < a.len(),
        forall|i: int| 0 <= i < k ==> #[trigger] a[i] != a[k],
        0 <= q <= b.len(),
        forall|i: int| 0 <= i < q ==> #[trigger] b[i] != a[k],
        q < b.len() ==> b[q] == a[k],
    ensures
        q < b.len() ==> partner(a, b, k) == Some(q),
        q == b.len() ==> partner(a, b, k) is None,
{
    lemma_none_before(a, k, a[k]);
    if q < b.len() {
        lemma_none_before(b, q, b[q]);
        lemma_partner(a, b, k, q);
    } else if partner(a, b, k) is Some {
        let p = partner(a, b, k)->0;
        assert(pairs_up(a, b, k, p));
    }
}

proof fn lemma_none_before(h: Seq<Seq<u8>>, n: int, d: Seq<u8>)
    requires
        forall|i: int| 0 <= i < n ==> #[trigger] h[i] != d,
    ensures
        occurrences(h, n, d) == 0,
    decreases n,
{
    if n > 0 {
        assert(h[n - 1] != d);
        lemma_none_before(h, n - 1, d);
    }
}

} // verus!
