//! Ordered selection: the sequence of what a partial function yields on `0..n`.
//!
//! Most lists the library builds are "walk these entries in order and keep what this rule says":
//! [`collect`] is that statement, and the lemmas here are the facts about it that the rest of the
//! crate uses.
use vstd::prelude::*;

verus! {

/// What `rule` yields on `0, 1, .., n - 1`, in order, leaving out the `None`s.
pub open spec fn collect<T>(n: int, rule: spec_fn(int) -> Option<T>) -> Seq<T>
    decreases n,
{
    if n <= 0 {
        Seq::empty()
    } else {
        match rule(n - 1) {
            Some(x) => collect(n - 1, rule).push(x),
            None => collect(n - 1, rule),
        }
    }
}

/// A collected list holds exactly what the rule yields somewhere.
pub proof fn lemma_collect_contains<T>(n: int, rule: spec_fn(int) -> Option<T>, x: T)
    ensures
        collect(n, rule).contains(x) <==> exists|i: int| 0 <= i < n && #[trigger] rule(i) == Some(x),
    decreases n,
{
    if n > 0 {
        lemma_collect_contains(n - 1, rule, x);
        let before = collect(n - 1, rule);
        match rule(n - 1) {
            Some(y) => {
                let after = before.push(y);
                assert(after[after.len() - 1] == y);
                if before.contains(x) {
                    let k = choose|k: int| 0 <= k < before.len() && before[k] == x;
                    assert(after[k] == x);
                }
                if after.contains(x) && x != y {
                    let k = choose|k: int| 0 <= k < after.len() && after[k] == x;
                    assert(before[k] == x);
                }
                if x == y {
                    assert(rule(n - 1) == Some(x));
                }
            },
            None => {},
        }
    } else {
        assert(collect(n, rule).len() == 0);
    }
}

/// Each position of a collected list comes from an index of the range, and later positions come
/// from later indices.
pub open spec fn source_of<T>(n: int, rule: spec_fn(int) -> Option<T>, k: int) -> int
    decreases n,
{
    if n <= 0 {
        -1
    } else {
        match rule(n - 1) {
            Some(_) => if k == collect(n - 1, rule).len() {
                n - 1
            } else {
                source_of(n - 1, rule, k)
            },
            None => source_of(n - 1, rule, k),
        }
    }
}

pub proof fn lemma_source_of<T>(n: int, rule: spec_fn(int) -> Option<T>, k: int)
    requires
        0 <= k < collect(n, rule).len(),
    ensures
        0 <= source_of(n, rule, k) < n,
        rule(source_of(n, rule, k)) == Some(collect(n, rule)[k]),
    decreases n,
{
    if n > 0 {
        match rule(n - 1) {
            Some(_) => {
                if k < collect(n - 1, rule).len() {
                    lemma_source_of(n - 1, rule, k);
                }
            },
            None => {
                lemma_source_of(n - 1, rule, k);
            },
        }
    }
}

pub proof fn lemma_source_of_increasing<T>(n: int, rule: spec_fn(int) -> Option<T>, j: int, k: int)
    requires
        0 <= j < k < collect(n, rule).len(),
    ensures
        source_of(n, rule, j) < source_of(n, rule, k),
    decreases n,
{
    if n > 0 {
        match rule(n - 1) {
            Some(_) => {
                if k < collect(n - 1, rule).len() {
                    lemma_source_of_increasing(n - 1, rule, j, k);
                } else {
                    lemma_source_of(n - 1, rule, j);
                }
            },
            None => {
                lemma_source_of_increasing(n - 1, rule, j, k);
            },
        }
    }
}

/// What a rule yields on a range is what it yields on the range's two parts.
pub proof fn lemma_collect_parts<T>(
    n: int,
    m: int,
    rule: spec_fn(int) -> Option<T>,
    head: spec_fn(int) -> Option<T>,
    tail: spec_fn(int) -> Option<T>,
)
    requires
        0 <= n,
        0 <= m,
        forall|i: int| 0 <= i < n ==> #[trigger] rule(i) == head(i),
        forall|i: int| 0 <= i < m ==> rule(n + i) == #[trigger] tail(i),
    ensures
        collect(n + m, rule) == collect(n, head) + collect(m, tail),
    decreases n + m,
{
    if m > 0 {
        lemma_collect_parts(n, m - 1, rule, head, tail);
        assert(rule(n + (m - 1)) == tail(m - 1));
        assert(collect(n + m, rule) =~= collect(n, head) + collect(m, tail));
    } else if n > 0 {
        lemma_collect_parts(n - 1, 0, rule, head, tail);
        assert(rule(n - 1) == head(n - 1));
        assert(collect(n + m, rule) =~= collect(n, head) + collect(m, tail));
    } else {
        assert(collect(n + m, rule) =~= collect(n, head) + collect(m, tail));
    }
}

/// A stretch of the range on which the rule always yields adds its whole length, and one on which
/// it never does adds nothing.
pub proof fn lemma_collect_stretch<T>(a: int, b: int, rule: spec_fn(int) -> Option<T>, all: bool)
    requires
        0 <= a <= b,
        forall|i: int| a <= i < b ==> (#[trigger] rule(i) is Some) == all,
    ensures
        collect(b, rule).len() == collect(a, rule).len() + if all {
            b - a
        } else {
            0
        },
    decreases b,
{
    if a < b {
        lemma_collect_stretch(a, b - 1, rule, all);
        assert((rule(b - 1) is Some) == all);
    }
}

/// Two rules of which exactly one yields at each index share the range between them.
pub proof fn lemma_collect_shared<S, T>(n: int, f: spec_fn(int) -> Option<S>, g: spec_fn(int) -> Option<T>)
    requires
        0 <= n,
        forall|i: int| 0 <= i < n ==> (#[trigger] f(i) is Some) != (g(i) is Some),
    ensures
        collect(n, f).len() + collect(n, g).len() == n,
    decreases n,
{
    if n > 0 {
        lemma_collect_shared(n - 1, f, g);
        assert((f(n - 1) is Some) != (g(n - 1) is Some));
    }
}

} // verus!
