//! Counting by group: what a list of amounts comes to for each of the texts that they belong to.
use vstd::prelude::*;
use vstd::utf8::{encode_utf8, encode_utf8_decode_utf8};

use crate::collect::{collect, lemma_collect_contains, lemma_source_of, lemma_source_of_increasing};
use crate::order::{Item, PathIndex, PathList, Ranking, as_ints, by_bytes, by_path, bytes_before, bytes_lt, iota, is_strict_order, lemma_by_bytes_strict, lemma_by_path_strict, lemma_last_at, lemma_order_in_range, order, path_before, path_lt, pick, sort_order, sorted_with, values};
use crate::paths::{FsPath, PathV, copy_bytes, paths_view};
use crate::text::texts_view;

verus! {

// ── sums ─────────────────────────────────────────────────────────────────────

/// What `f` comes to over `0, 1, .., n - 1`.
pub open spec fn total(n: int, f: spec_fn(int) -> int) -> int
    decreases n,
{
    if n <= 0 {
        0
    } else {
        total(n - 1, f) + f(n - 1)
    }
}

/// A sum of what is never negative only grows.
pub proof fn lemma_total_grows(m: int, n: int, f: spec_fn(int) -> int)
    requires
        0 <= m <= n,
        forall|i: int| 0 <= i < n ==> #[trigger] f(i) >= 0,
    ensures
        0 <= total(m, f) <= total(n, f),
    decreases n,
{
    if m < n {
        lemma_total_grows(m, n - 1, f);
        assert(f(n - 1) >= 0);
    } else if n > 0 {
        lemma_total_grows(m - 1, n - 1, f);
        assert(f(n - 1) >= 0);
    }
}

/// A sum stays within the sum of what bounds its parts.
pub proof fn lemma_total_bound(n: int, f: spec_fn(int) -> int, g: spec_fn(int) -> int)
    requires
        forall|i: int| 0 <= i < n ==> -g(i) <= #[trigger] f(i) <= g(i),
    ensures
        -total(n, g) <= total(n, f) <= total(n, g),
    decreases n,
{
    if n > 0 {
        lemma_total_bound(n - 1, f, g);
        assert(-g(n - 1) <= f(n - 1) <= g(n - 1));
    }
}

/// Two functions that agree come to the same.
pub proof fn lemma_total_ext(n: int, f: spec_fn(int) -> int, g: spec_fn(int) -> int)
    requires
        forall|i: int| 0 <= i < n ==> #[trigger] f(i) == g(i),
    ensures
        total(n, f) == total(n, g),
    decreases n,
{
    if n > 0 {
        lemma_total_ext(n - 1, f, g);
        assert(f(n - 1) == g(n - 1));
    }
}

/// A sum is one of its parts and the sum of the others.
proof fn lemma_total_without(n: int, f: spec_fn(int) -> int, k: int)
    requires
        0 <= k < n,
    ensures
        total(n, f) == f(k) + total(
            n - 1,
            |i: int|
                if i < k {
                    f(i)
                } else {
                    f(i + 1)
                },
        ),
    decreases n,
{
    let g = |i: int|
        if i < k {
            f(i)
        } else {
            f(i + 1)
        };
    if k == n - 1 {
        lemma_total_ext(n - 1, f, g);
    } else {
        lemma_total_without(n - 1, f, k);
        assert(total(n - 1, g) == total(n - 2, g) + g(n - 2));
    }
}

/// A sum does not depend on the order of its parts.
pub proof fn lemma_total_permuted(p: Seq<int>, n: int, f: spec_fn(int) -> int)
    requires
        0 <= n,
        p.to_multiset() == iota(n).to_multiset(),
    ensures
        total(n, |k: int| f(p[k])) == total(n, f),
    decreases n,
{
    if n > 0 {
        lemma_order_in_range(p, n);
        assert(p.contains(n - 1));
        let k = choose|k: int| 0 <= k < p.len() && p[k] == n - 1;
        let q = p.remove(k);
        p.to_multiset_ensures();
        assert(iota(n) =~= iota(n - 1).push(n - 1));
        iota(n - 1).to_multiset_ensures();
        assert(q.to_multiset() =~= iota(n - 1).to_multiset()) by {
            assert(p.remove(k).to_multiset() =~= p.to_multiset().remove(p[k]));
            assert(iota(n - 1).push(n - 1).to_multiset() =~= iota(n - 1).to_multiset().insert(n - 1));
        }
        lemma_total_permuted(q, n - 1, f);
        let fp = |k: int| f(p[k]);
        lemma_total_without(n, fp, k);
        lemma_total_ext(
            n - 1,
            |i: int|
                if i < k {
                    fp(i)
                } else {
                    fp(i + 1)
                },
            |i: int| f(q[i]),
        );
    }
}

/// A sum in two parts.
pub proof fn lemma_total_split(m: int, n: int, f: spec_fn(int) -> int)
    requires
        0 <= m <= n,
    ensures
        total(n, f) == total(m, f) + total(n - m, |i: int| f(m + i)),
    decreases n - m,
{
    let g = |i: int| f(m + i);
    if m < n {
        lemma_total_split(m, n - 1, f);
        assert(total(n - m, g) == total(n - m - 1, g) + g(n - m - 1));
    }
}

/// The size of a number.
pub open spec fn magnitude(x: int) -> int {
    if x < 0 {
        -x
    } else {
        x
    }
}

/// What the sizes of a list of numbers come to.
pub open spec fn bulk(v: Seq<int>) -> int {
    total(v.len() as int, |i: int| magnitude(v[i]))
}

/// The values of a list of numbers.
pub open spec fn ints(v: Seq<i128>) -> Seq<int> {
    Seq::new(v.len(), |i: int| v[i] as int)
}

// ── grouping ─────────────────────────────────────────────────────────────────

/// A text as a path of one component.
pub open spec fn key_of(t: Seq<char>) -> PathV {
    seq![encode_utf8(t)]
}

/// Texts with the same key are the same.
pub proof fn lemma_key_of(a: Seq<char>, b: Seq<char>)
    ensures
        key_of(a) == key_of(b) <==> a == b,
{
    if key_of(a) == key_of(b) {
        assert(key_of(a)[0] == encode_utf8(a));
        assert(key_of(b)[0] == encode_utf8(b));
        encode_utf8_decode_utf8(a);
        encode_utf8_decode_utf8(b);
    }
}

/// A text as a path of one component.
pub fn text_key(t: &str) -> (r: FsPath)
    ensures
        r@ == key_of(t@),
{
    let mut p = FsPath::empty();
    p.push(copy_bytes(t.as_bytes()));
    assert(p@ =~= key_of(t@));
    p
}

/// The text at `i` has not occurred before.
pub open spec fn is_first(texts: Seq<Seq<char>>, i: int) -> bool {
    forall|j: int| 0 <= j < i ==> #[trigger] texts[j] != texts[i]
}

pub open spec fn first_rule(texts: Seq<Seq<char>>) -> spec_fn(int) -> Option<int> {
    |i: int|
        if is_first(texts, i) {
            Some(i)
        } else {
            None
        }
}

/// Where each text occurs first, in order.
pub open spec fn firsts(texts: Seq<Seq<char>>) -> Seq<int> {
    collect(texts.len() as int, first_rule(texts))
}

/// The positions of a list, by the text at each.
pub struct Groups {
    /// Where each text occurs first.
    pub first: Vec<usize>,
    /// For each position, which of those has its text.
    pub row: Vec<usize>,
}

impl Groups {
    pub open spec fn of(&self, texts: Seq<Seq<char>>) -> bool {
        &&& as_ints(self.first@) == firsts(texts)
        &&& self.row@.len() == texts.len()
        &&& forall|i: int|
            0 <= i < texts.len() ==> #[trigger] self.row@[i] < self.first@.len()
                && texts[self.first@[self.row@[i] as int] as int] == texts[i]
    }
}

/// The texts at the first positions are all different.
pub proof fn lemma_firsts(texts: Seq<Seq<char>>, a: int, b: int)
    requires
        0 <= a < firsts(texts).len(),
        0 <= b < firsts(texts).len(),
    ensures
        0 <= firsts(texts)[a] < texts.len(),
        texts[firsts(texts)[a]] == texts[firsts(texts)[b]] ==> a == b,
{
    let n = texts.len() as int;
    let rule = first_rule(texts);
    lemma_source_of(n, rule, a);
    lemma_source_of(n, rule, b);
    if a < b {
        lemma_source_of_increasing(n, rule, a, b);
    } else if b < a {
        lemma_source_of_increasing(n, rule, b, a);
    }
}

/// Groups the positions of a list by the text at each.
pub fn group(texts: &Vec<String>) -> (r: Groups)
    ensures
        r.of(texts_view(texts@)),
{
    let ghost ts = texts_view(texts@);
    let n: usize = texts.len();
    let mut keys: Vec<FsPath> = Vec::new();
    let mut i: usize = 0;
    while i < n
        invariant
            n == texts@.len(),
            ts == texts_view(texts@),
            0 <= i <= n,
            keys@.len() == i,
            forall|k: int| 0 <= k < i ==> #[trigger] keys@[k]@ == key_of(ts[k]),
        decreases n - i,
    {
        keys.push(text_key(texts[i].as_str()));
        i = i + 1;
    }
    let ghost ps = paths_view(keys@);
    let index = PathIndex::build(&keys);
    // the last position with a text stands for all positions with it
    let mut slot: Vec<Option<usize>> = Vec::new();
    let mut k: usize = 0;
    while k < n
        invariant
            0 <= k <= n,
            slot@.len() == k,
            forall|j: int| 0 <= j < k ==> #[trigger] slot@[j] is None,
        decreases n - k,
    {
        slot.push(None);
        k = k + 1;
    }
    let mut first: Vec<usize> = Vec::new();
    let mut row: Vec<usize> = Vec::new();
    let mut a: usize = 0;
    assert(as_ints(first@) =~= collect(0, first_rule(ts)));
    while a < n
        invariant
            n == texts@.len(),
            ts == texts_view(texts@),
            keys@.len() == n,
            ps == paths_view(keys@),
            forall|k: int| 0 <= k < n ==> #[trigger] keys@[k]@ == key_of(ts[k]),
            index.indexes(keys.paths()),
            slot@.len() == n,
            0 <= a <= n,
            row@.len() == a,
            as_ints(first@) == collect(a as int, first_rule(ts)),
            forall|i: int|
                0 <= i < a ==> #[trigger] row@[i] < first@.len() && first@[row@[i] as int] < a
                    && ts[first@[row@[i] as int] as int] == ts[i],
            forall|g: int|
                0 <= g < n ==> match #[trigger] slot@[g] {
                    Some(r) => r < first@.len() && first@[r as int] < a && ts[first@[r as int] as int] == ts[g],
                    None => forall|j: int| 0 <= j < a ==> crate::order::last_at(ps, #[trigger] ps[j]) != Some(g),
                },
        decreases n - a,
    {
        let found = index.find(&keys, &keys[a]);
        assert(ps =~= keys.paths());
        assert(ps[a as int] == keys@[a as int]@);
        proof {
            lemma_last_at(ps, ps[a as int]);
            assert(ps.contains(ps[a as int]));
        }
        match found {
            Some(g) => {
                proof {
                    assert(ps[g as int] == keys@[g as int]@);
                    assert(keys@[g as int]@ == key_of(ts[g as int]));
                    assert(keys@[a as int]@ == key_of(ts[a as int]));
                    lemma_key_of(ts[g as int], ts[a as int]);
                }
                match slot[g] {
                    Some(r) => {
                        assert(!is_first(ts, a as int)) by {
                            assert(ts[first@[r as int] as int] == ts[a as int]);
                        }
                        row.push(r);
                    },
                    None => {
                        assert(is_first(ts, a as int)) by {
                            assert forall|j: int| 0 <= j < a implies #[trigger] ts[j] != ts[a as int] by {
                                if ts[j] == ts[a as int] {
                                    assert(ps[j] == keys@[j]@);
                                    assert(keys@[j]@ == key_of(ts[j]));
                                    assert(ps[j] == ps[a as int]);
                                }
                            }
                        }
                        let r: usize = first.len();
                        let ghost before = first@;
                        first.push(a);
                        assert(as_ints(first@) =~= as_ints(before).push(a as int));
                        row.push(r);
                        slot.set(g, Some(r));
                        assert forall|g2: int| 0 <= g2 < n implies match #[trigger] slot@[g2] {
                            Some(r) => r < first@.len() && first@[r as int] < a + 1 && ts[first@[r as int] as int] == ts[g2],
                            None => forall|j: int| 0 <= j < a ==> crate::order::last_at(ps, #[trigger] ps[j]) != Some(g2),
                        } by {
                        }
                    },
                }
                assert forall|g2: int| 0 <= g2 < n implies match #[trigger] slot@[g2] {
                    Some(r) => r < first@.len() && first@[r as int] < a + 1 && ts[first@[r as int] as int] == ts[g2],
                    None => forall|j: int| 0 <= j < a + 1 ==> crate::order::last_at(ps, #[trigger] ps[j]) != Some(g2),
                } by {
                    if slot@[g2] is None {
                        assert(g2 != g);
                    }
                }
            },
            None => {
                // every position has a last one with its text
                row.push(0);
            },
        }
        a = a + 1;
    }
    Groups { first, row }
}

/// What the amounts at the positions with text `t` come to.
pub open spec fn share_of(texts: Seq<Seq<char>>, amounts: Seq<int>, t: Seq<char>) -> int {
    total(texts.len() as int, share_rule(texts, amounts, t))
}

pub open spec fn share_rule(texts: Seq<Seq<char>>, amounts: Seq<int>, t: Seq<char>) -> spec_fn(int) -> int {
    |i: int|
        if texts[i] == t {
            amounts[i]
        } else {
            0
        }
}

/// A share is no larger than the whole.
pub proof fn lemma_share_bound(texts: Seq<Seq<char>>, amounts: Seq<int>, t: Seq<char>, n: int)
    requires
        0 <= n <= texts.len(),
        texts.len() == amounts.len(),
    ensures
        magnitude(total(n, share_rule(texts, amounts, t))) <= bulk(amounts),
{
    let g = |i: int| magnitude(amounts[i]);
    lemma_total_bound(n, share_rule(texts, amounts, t), g);
    lemma_total_grows(n, amounts.len() as int, g);
}

/// What the amounts come to for each group.
pub fn shares(groups: &Groups, amounts: &Vec<i128>, Ghost(texts): Ghost<Seq<Seq<char>>>) -> (r: Vec<i128>)
    requires
        groups.of(texts),
        amounts@.len() == texts.len(),
        bulk(ints(amounts@)) <= i128::MAX,
    ensures
        r@.len() == groups.first@.len(),
        forall|k: int|
            0 <= k < r@.len() ==> #[trigger] r@[k] == share_of(
                texts,
                ints(amounts@),
                texts[groups.first@[k] as int],
            ),
{
    let ghost am = ints(amounts@);
    let rows: usize = groups.first.len();
    let mut out: Vec<i128> = Vec::new();
    let mut k: usize = 0;
    while k < rows
        invariant
            rows == groups.first@.len(),
            0 <= k <= rows,
            out@.len() == k,
            forall|j: int| 0 <= j < k ==> #[trigger] out@[j] == 0,
        decreases rows - k,
    {
        out.push(0);
        k = k + 1;
    }
    let n: usize = amounts.len();
    let mut i: usize = 0;
    while i < n
        invariant
            groups.of(texts),
            n == amounts@.len(),
            n == texts.len(),
            am == ints(amounts@),
            bulk(am) <= i128::MAX,
            rows == groups.first@.len(),
            out@.len() == rows,
            0 <= i <= n,
            forall|k: int|
                0 <= k < rows ==> #[trigger] out@[k] == total(
                    i as int,
                    share_rule(texts, am, texts[groups.first@[k] as int]),
                ),
        decreases n - i,
    {
        let r: usize = groups.row[i];
        let ghost before = out@;
        proof {
            let t = texts[groups.first@[r as int] as int];
            assert(before[r as int] == total(i as int, share_rule(texts, am, t)));
            lemma_share_bound(texts, am, t, i + 1);
            assert(am[i as int] == amounts@[i as int]);
        }
        let x: i128 = out[r] + amounts[i];
        out.set(r, x);
        assert forall|k: int| 0 <= k < rows implies #[trigger] out@[k] == total(
            i + 1,
            share_rule(texts, am, texts[groups.first@[k] as int]),
        ) by {
            assert(before[k] == total(i as int, share_rule(texts, am, texts[groups.first@[k] as int])));
            if k != r {
                lemma_firsts(texts, k, r as int);
                assert(as_ints(groups.first@)[k] == groups.first@[k]);
                assert(as_ints(groups.first@)[r as int] == groups.first@[r as int]);
            }
        }
        i = i + 1;
    }
    out
}

// ── by amount, then by name ──────────────────────────────────────────────────

/// Smaller amounts first, and the same amounts by name.
pub open spec fn by_amount_and_name() -> spec_fn((int, Seq<u8>), (int, Seq<u8>)) -> bool {
    |a: (int, Seq<u8>), b: (int, Seq<u8>)| a.0 < b.0 || (a.0 == b.0 && bytes_lt(a.1, b.1))
}

/// Smaller amounts first, and the same amounts by path.
pub open spec fn by_amount_and_path() -> spec_fn((int, PathV), (int, PathV)) -> bool {
    |a: (int, PathV), b: (int, PathV)| a.0 < b.0 || (a.0 == b.0 && path_lt(a.1, b.1))
}

/// Amounts and paths are ordered strictly.
pub proof fn lemma_by_amount_and_path_strict()
    ensures
        is_strict_order(by_amount_and_path()),
{
    lemma_by_path_strict();
    let lt = by_amount_and_path();
    let paths = by_path();
    assert forall|a: (int, PathV), b: (int, PathV)| #[trigger] lt(a, b) implies !lt(b, a) by {
        if paths(a.1, b.1) {
            assert(!paths(b.1, a.1));
        }
    }
    assert forall|a: (int, PathV), b: (int, PathV), c: (int, PathV)|
        #![trigger lt(a, b), lt(b, c)]
        !lt(a, b) && !lt(b, c) implies !lt(a, c) by {
        if a.0 == b.0 && b.0 == c.0 {
            assert(!paths(a.1, b.1) && !paths(b.1, c.1));
            assert(!paths(a.1, c.1));
        }
    }
}

/// Amounts and names are ordered strictly.
pub proof fn lemma_by_amount_and_name_strict()
    ensures
        is_strict_order(by_amount_and_name()),
{
    lemma_by_bytes_strict();
    let lt = by_amount_and_name();
    let names = by_bytes();
    assert forall|a: (int, Seq<u8>), b: (int, Seq<u8>)| #[trigger] lt(a, b) implies !lt(b, a) by {
        if names(a.1, b.1) {
            assert(!names(b.1, a.1));
        }
    }
    assert forall|a: (int, Seq<u8>), b: (int, Seq<u8>), c: (int, Seq<u8>)|
        #![trigger lt(a, b), lt(b, c)]
        !lt(a, b) && !lt(b, c) implies !lt(a, c) by {
        if a.0 == b.0 && b.0 == c.0 {
            assert(!names(a.1, b.1) && !names(b.1, c.1));
            assert(!names(a.1, c.1));
        }
    }
}

/// Amounts with names.
pub struct AmountsByName<'a> {
    pub amounts: &'a Vec<i128>,
    pub names: &'a Vec<String>,
}

impl<'a> Ranking for AmountsByName<'a> {
    type Key = (int, Seq<u8>);

    open spec fn keys(&self) -> Seq<(int, Seq<u8>)> {
        Seq::new(
            if self.amounts@.len() <= self.names@.len() {
                self.amounts@.len()
            } else {
                self.names@.len()
            },
            |i: int| (self.amounts@[i] as int, encode_utf8(self.names@[i]@)),
        )
    }

    open spec fn lt() -> spec_fn((int, Seq<u8>), (int, Seq<u8>)) -> bool {
        by_amount_and_name()
    }

    proof fn lt_is_strict() {
        lemma_by_amount_and_name_strict();
    }

    fn size(&self) -> (n: usize) {
        let (a, b): (usize, usize) = (self.amounts.len(), self.names.len());
        if a <= b {
            a
        } else {
            b
        }
    }

    fn less(&self, i: usize, j: usize) -> (r: bool) {
        self.amounts[i] < self.amounts[j] || (self.amounts[i] == self.amounts[j] && bytes_before(
            self.names[i].as_str().as_bytes(),
            self.names[j].as_str().as_bytes(),
        ))
    }
}

/// Amounts with paths.
pub struct AmountsByPath<'a, L: PathList> {
    pub amounts: &'a Vec<i128>,
    pub list: &'a L,
}

impl<'a, L: PathList> Ranking for AmountsByPath<'a, L> {
    type Key = (int, PathV);

    open spec fn keys(&self) -> Seq<(int, PathV)> {
        Seq::new(
            if self.amounts@.len() <= self.list.paths().len() {
                self.amounts@.len()
            } else {
                self.list.paths().len()
            },
            |i: int| (self.amounts@[i] as int, self.list.paths()[i]),
        )
    }

    open spec fn lt() -> spec_fn((int, PathV), (int, PathV)) -> bool {
        by_amount_and_path()
    }

    proof fn lt_is_strict() {
        lemma_by_amount_and_path_strict();
    }

    fn size(&self) -> (n: usize) {
        let (a, b): (usize, usize) = (self.amounts.len(), self.list.count());
        if a <= b {
            a
        } else {
            b
        }
    }

    fn less(&self, i: usize, j: usize) -> (r: bool) {
        self.amounts[i] < self.amounts[j] || (self.amounts[i] == self.amounts[j] && path_before(
            self.list.path_at(i),
            self.list.path_at(j),
        ))
    }
}

/// Sorts items by amount and then by path.
pub fn sort_by_amount_and_path<T: Item>(v: &Vec<T>, amounts: &Vec<i128>) -> (out: Vec<T>) where Vec<T>: PathList
    requires
        v.paths().len() == v@.len(),
        amounts@.len() == v@.len(),
    ensures
        values(out@) == sorted_with(
            values(v@),
            Seq::new(v@.len(), |i: int| (amounts@[i] as int, v.paths()[i])),
            by_amount_and_path(),
        ),
{
    let r = AmountsByPath { amounts, list: v };
    let ghost keys = Seq::new(v@.len(), |i: int| (amounts@[i] as int, v.paths()[i]));
    assert(r.keys() =~= keys);
    let p = sort_order(&r);
    let out = pick(v, &p);
    proof {
        let o = order(keys, by_amount_and_path());
        assert forall|k: int| 0 <= k < v@.len() implies p@[k] as int == #[trigger] o[k] by {
            assert(as_ints(p@)[k] == p@[k]);
        }
        assert(values(out@) =~= sorted_with(values(v@), keys, by_amount_and_path()));
    }
    out
}

/// Sorts items by amount and then by name.
pub fn sort_by_amount_and_name<T: Item>(v: &Vec<T>, amounts: &Vec<i128>, names: &Vec<String>) -> (out: Vec<T>)
    requires
        amounts@.len() == v@.len(),
        names@.len() == v@.len(),
    ensures
        values(out@) == sorted_with(
            values(v@),
            Seq::new(v@.len(), |i: int| (amounts@[i] as int, encode_utf8(names@[i]@))),
            by_amount_and_name(),
        ),
{
    let r = AmountsByName { amounts, names };
    let ghost keys = Seq::new(v@.len(), |i: int| (amounts@[i] as int, encode_utf8(names@[i]@)));
    assert(r.keys() =~= keys);
    let p = sort_order(&r);
    let out = pick(v, &p);
    proof {
        let o = order(keys, by_amount_and_name());
        assert forall|k: int| 0 <= k < v@.len() implies p@[k] as int == #[trigger] o[k] by {
            assert(as_ints(p@)[k] == p@[k]);
        }
        assert(values(out@) =~= sorted_with(values(v@), keys, by_amount_and_name()));
    }
    out
}

/// The first items of a list, at most `n`.
pub open spec fn top<T>(s: Seq<T>, n: int) -> Seq<T> {
    if s.len() > n {
        s.subrange(0, n)
    } else {
        s
    }
}

/// The first items of a list, at most `n`.
pub fn keep_top<T: Item>(v: &Vec<T>, n: usize) -> (out: Vec<T>)
    ensures
        values(out@) == top(values(v@), n as int),
{
    let m: usize = if v.len() > n {
        n
    } else {
        v.len()
    };
    let mut out: Vec<T> = Vec::new();
    let mut i: usize = 0;
    while i < m
        invariant
            m <= v@.len(),
            0 <= i <= m,
            out@.len() == i,
            forall|k: int| 0 <= k < i ==> #[trigger] out@[k].value() == v@[k].value(),
        decreases m - i,
    {
        out.push(v[i].dup());
        i = i + 1;
    }
    assert(values(out@) =~= top(values(v@), n as int));
    out
}

/// Where all parts but one are nothing, a sum is that part.
pub proof fn lemma_total_one(n: int, f: spec_fn(int) -> int, k: int)
    requires
        0 <= k < n,
        forall|i: int| 0 <= i < n && i != k ==> #[trigger] f(i) == 0,
    ensures
        total(n, f) == f(k),
    decreases n,
{
    if k == n - 1 {
        lemma_total_none(n - 1, f);
    } else {
        lemma_total_one(n - 1, f, k);
        assert(f(n - 1) == 0);
    }
}

/// A sum of nothing is nothing.
pub proof fn lemma_total_none(n: int, f: spec_fn(int) -> int)
    requires
        forall|i: int| 0 <= i < n ==> #[trigger] f(i) == 0,
    ensures
        total(n, f) == 0,
    decreases n,
{
    if n > 0 {
        lemma_total_none(n - 1, f);
        assert(f(n - 1) == 0);
    }
}

/// Sums can be taken part by part.
pub proof fn lemma_total_added(n: int, f: spec_fn(int) -> int, g: spec_fn(int) -> int, h: spec_fn(int) -> int)
    requires
        forall|i: int| 0 <= i < n ==> #[trigger] h(i) == f(i) + g(i),
    ensures
        total(n, h) == total(n, f) + total(n, g),
    decreases n,
{
    if n > 0 {
        lemma_total_added(n - 1, f, g, h);
        assert(h(n - 1) == f(n - 1) + g(n - 1));
    }
}

/// The negative of a sum is the sum of the negatives.
pub proof fn lemma_total_negated(n: int, f: spec_fn(int) -> int, h: spec_fn(int) -> int)
    requires
        forall|i: int| 0 <= i < n ==> #[trigger] h(i) == -f(i),
    ensures
        total(n, h) == -total(n, f),
    decreases n,
{
    if n > 0 {
        lemma_total_negated(n - 1, f, h);
        assert(h(n - 1) == -f(n - 1));
    }
}

/// The sum over a collected list is the sum over the range, where nothing is collected adding nothing.
pub proof fn lemma_total_collected<T>(
    n: int,
    rule: spec_fn(int) -> Option<T>,
    f: spec_fn(T) -> int,
    h: spec_fn(int) -> int,
    g: spec_fn(int) -> int,
)
    requires
        forall|k: int| 0 <= k < collect(n, rule).len() ==> #[trigger] h(k) == f(collect(n, rule)[k]),
        forall|i: int|
            0 <= i < n ==> #[trigger] g(i) == match rule(i) {
                Some(x) => f(x),
                None => 0,
            },
    ensures
        total(collect(n, rule).len() as int, h) == total(n, g),
    decreases n,
{
    if n > 0 {
        let before = collect(n - 1, rule);
        let h1 = |k: int| f(before[k]);
        lemma_total_collected(n - 1, rule, f, h1, g);
        assert(g(n - 1) == match rule(n - 1) {
            Some(x) => f(x),
            None => 0,
        });
        assert forall|k: int| 0 <= k < before.len() implies #[trigger] h(k) == h1(k) by {
            assert(collect(n, rule)[k] == before[k]);
        }
        lemma_total_ext(before.len() as int, h, h1);
        match rule(n - 1) {
            Some(x) => {
                assert(h(before.len() as int) == f(x));
            },
            None => {},
        }
    }
}

/// How much is collected: one for each index at which the rule yields.
pub proof fn lemma_collected_count<T>(n: int, rule: spec_fn(int) -> Option<T>, g: spec_fn(int) -> int)
    requires
        forall|i: int|
            0 <= i < n ==> #[trigger] g(i) == if rule(i) is Some {
                1int
            } else {
                0
            },
    ensures
        collect(n, rule).len() == total(n, g),
    decreases n,
{
    if n > 0 {
        lemma_collected_count(n - 1, rule, g);
        assert(g(n - 1) == if rule(n - 1) is Some {
            1int
        } else {
            0
        });
    }
}

/// A double sum can be taken either way round.
pub proof fn lemma_total_swapped(
    a: int,
    b: int,
    g: spec_fn(int, int) -> int,
    rows: spec_fn(int) -> int,
    columns: spec_fn(int) -> int,
)
    requires
        0 <= a,
        0 <= b,
        forall|k: int| 0 <= k < a ==> #[trigger] rows(k) == total(b, |i: int| g(k, i)),
        forall|i: int| 0 <= i < b ==> #[trigger] columns(i) == total(a, |k: int| g(k, i)),
    ensures
        total(a, rows) == total(b, columns),
    decreases a,
{
    if a == 0 {
        assert forall|i: int| 0 <= i < b implies #[trigger] columns(i) == 0 by {
            assert(columns(i) == total(a, |k: int| g(k, i)));
        }
        lemma_total_none(b, columns);
    } else {
        let less = |i: int| total(a - 1, |k: int| g(k, i));
        let last = |i: int| g(a - 1, i);
        lemma_total_swapped(a - 1, b, g, rows, less);
        assert forall|i: int| 0 <= i < b implies #[trigger] columns(i) == less(i) + last(i) by {
            let f = |k: int| g(k, i);
            assert(columns(i) == total(a, f));
            assert(total(a, f) == total(a - 1, f) + f(a - 1));
        }
        lemma_total_added(b, less, last, columns);
        assert(rows(a - 1) == total(b, |i: int| g(a - 1, i)));
        lemma_total_ext(b, last, |i: int| g(a - 1, i));
    }
}

/// Every text has its first place.
pub proof fn lemma_first_place(texts: Seq<Seq<char>>, i: int) -> (k: int)
    requires
        0 <= i < texts.len(),
    ensures
        0 <= k < firsts(texts).len(),
        texts[firsts(texts)[k]] == texts[i],
    decreases i,
{
    if is_first(texts, i) {
        let n = texts.len() as int;
        assert(first_rule(texts)(i) == Some(i));
        lemma_collect_contains(n, first_rule(texts), i);
        let k = choose|k: int| 0 <= k < firsts(texts).len() && firsts(texts)[k] == i;
        k
    } else {
        let j = choose|j: int| 0 <= j < i && #[trigger] texts[j] == texts[i];
        lemma_first_place(texts, j)
    }
}

/// The shares of all the texts come to the whole.
pub proof fn lemma_shares_are_all(texts: Seq<Seq<char>>, amounts: Seq<int>, f: spec_fn(int) -> int)
    requires
        texts.len() == amounts.len(),
        forall|k: int|
            0 <= k < firsts(texts).len() ==> #[trigger] f(k) == share_of(texts, amounts, texts[firsts(texts)[k]]),
    ensures
        total(firsts(texts).len() as int, f) == total(texts.len() as int, |i: int| amounts[i]),
{
    let at = firsts(texts);
    let (a, b) = (at.len() as int, texts.len() as int);
    let g = |k: int, i: int|
        if texts[i] == texts[at[k]] {
            amounts[i]
        } else {
            0int
        };
    let columns = |i: int| total(a, |k: int| g(k, i));
    assert forall|k: int| 0 <= k < a implies #[trigger] f(k) == total(b, |i: int| g(k, i)) by {
        lemma_total_ext(b, share_rule(texts, amounts, texts[at[k]]), |i: int| g(k, i));
    }
    lemma_total_swapped(a, b, g, f, columns);
    let whole = |i: int| amounts[i];
    assert forall|i: int| 0 <= i < b implies #[trigger] columns(i) == whole(i) by {
        let k = lemma_first_place(texts, i);
        let h = |j: int| g(j, i);
        assert forall|j: int| 0 <= j < a && j != k implies #[trigger] h(j) == 0 by {
            lemma_firsts(texts, j, k);
        }
        lemma_total_one(a, h, k);
    }
    lemma_total_ext(b, columns, whole);
}

} // verus!
